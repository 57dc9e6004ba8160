//! A finished layout: the flow's stage results, the netlist it was built
//! from and its geometry, with result inspectors and the verification checks
//! run against the in-memory result.
use vstd::prelude::*;

use crate::checks::{drc, erc, lvs, pex, CheckKind, CheckReport};
use crate::engine::{signoff_quality, FlowResult, PlacementCertificate, RouterHandoffWitness};
use crate::gds::{Gds, GdsModel};
use crate::spice::{NetlistModel, SpiceNetlist};
use crate::units::Coord;

verus! {

/// A verification finding on a layout.
#[derive(Debug, Clone, PartialEq, Eq)]
pub struct Violation {
    pub message: String,
}

/// One placed device instance.
#[derive(Debug, Clone, PartialEq, Eq)]
pub struct PlacedInstance {
    pub name: String,
    pub x: Coord,
    pub y: Coord,
}

/// A finished layout.
#[derive(Debug, Clone)]
pub struct Layout {
    flow: FlowResult,
    netlist: SpiceNetlist,
    gds: Gds,
}

impl Layout {
    /// The stage results.
    pub closed spec fn flow_view(&self) -> FlowResult {
        self.flow
    }

    /// The netlist the layout was built from.
    pub closed spec fn netlist_view(&self) -> NetlistModel {
        self.netlist@
    }

    /// The built geometry.
    pub closed spec fn gds_view(&self) -> GdsModel {
        self.gds@
    }

    /// Assemble a layout from the stage results, the netlist and the geometry.
    pub(crate) fn new(flow: FlowResult, netlist: SpiceNetlist, gds: Gds) -> (l: Layout)
        ensures
            l.flow_view() == flow,
            l.netlist_view() == netlist@,
            l.gds_view() == gds@,
    {
        Layout { flow, netlist, gds }
    }

    /// The stage results, giving up the rest of the layout.
    pub(crate) fn into_flow(self) -> (f: FlowResult)
        ensures
            f == self.flow_view(),
    {
        self.flow
    }

    /// Bounding-box width in nm. The engine emits no geometry yet: 0.
    pub fn width(&self) -> (w: i64)
        ensures
            w == 0,
    {
        0
    }

    /// Bounding-box height in nm. The engine emits no geometry yet: 0.
    pub fn height(&self) -> (h: i64)
        ensures
            h == 0,
    {
        0
    }

    /// Bounding-box area in nm² (0 if degenerate): width times height, each
    /// clamped at 0.
    pub fn area(&self) -> (a: u64)
        ensures
            a == 0,
    {
        let w = self.width();
        let h = self.height();
        let wc: u64 = if w > 0 {
            w as u64
        } else {
            0
        };
        let hc: u64 = if h > 0 {
            h as u64
        } else {
            0
        };
        wc * hc
    }

    /// How many instances were placed.
    pub fn placed_count(&self) -> (n: usize)
        ensures
            n == self.flow_view().placement.placed_count,
    {
        self.flow.placement.placed_count
    }

    /// The placement certificate.
    pub fn certificate(&self) -> (c: &PlacementCertificate)
        ensures
            *c == self.flow_view().placement.certificate,
    {
        &self.flow.placement.certificate
    }

    /// The router-handoff witness of the placement certificate.
    pub fn router_handoff(&self) -> (w: &RouterHandoffWitness)
        ensures
            *w == self.flow_view().placement.certificate.handoff,
    {
        &self.flow.placement.certificate.handoff
    }

    /// Whether the placement certificate is signoff quality.
    pub fn is_signoff_quality(&self) -> (b: bool)
        ensures
            b == signoff_quality(self.flow_view().placement.certificate),
    {
        self.flow.placement.certificate.is_signoff_quality()
    }

    /// How many routed segments the router emitted.
    pub fn routed_segment_count(&self) -> (n: usize)
        ensures
            n == self.flow_view().routing.routed_segments,
    {
        self.flow.routing.routed_segments
    }

    /// The placed instances. The engine emits no geometry yet: none.
    pub fn instances(&self) -> (v: Vec<PlacedInstance>)
        ensures
            v@.len() == 0,
    {
        Vec::new()
    }

    /// Design-rule check against the built geometry.
    pub fn drc(&self) -> (r: CheckReport)
        ensures
            r.kind_view() == CheckKind::Drc,
            r.findings_view().len() == 0,
    {
        drc(&self.netlist, Some(&self.gds))
    }

    /// Layout-versus-schematic.
    pub fn lvs(&self) -> (r: CheckReport)
        ensures
            r.kind_view() == CheckKind::Lvs,
            r.findings_view().len() == 0,
    {
        lvs(&self.netlist, Some(&self.gds))
    }

    /// Parasitic extraction.
    pub fn pex(&self) -> (r: CheckReport)
        ensures
            r.kind_view() == CheckKind::Pex,
            r.findings_view().len() == 0,
    {
        pex(&self.netlist, Some(&self.gds))
    }

    /// Electrical-rule check.
    pub fn erc(&self) -> (r: CheckReport)
        ensures
            r.kind_view() == CheckKind::Erc,
            r.findings_view().len() == 0,
    {
        erc(&self.netlist, Some(&self.gds))
    }

    /// The DRC findings, one violation per finding, in order.
    pub fn violations(&self) -> (v: Vec<Violation>)
        ensures
            v@.len() == 0,
    {
        let report = self.drc();
        let findings = report.findings();
        let mut v: Vec<Violation> = Vec::new();
        let mut i: usize = 0;
        while i < findings.len()
            invariant
                i <= findings@.len(),
                v@.len() == i,
                forall|k: int| 0 <= k < i ==> (#[trigger] v@[k]).message@ == findings@[k]@,
            decreases findings@.len() - i,
        {
            v.push(Violation { message: findings[i].clone() });
            i = i + 1;
        }
        v
    }

    /// True iff LVS finds no mismatch.
    pub fn lvs_clean(&self) -> (b: bool)
        ensures
            b,
    {
        self.lvs().is_clean()
    }

    /// The raw stage results.
    pub fn flow(&self) -> (f: &FlowResult)
        ensures
            *f == self.flow_view(),
    {
        &self.flow
    }

    /// The built geometry.
    pub fn gds(&self) -> (g: &Gds)
        ensures
            g@ == self.gds_view(),
    {
        &self.gds
    }
}

} // verus!
