//! The SPICE-driven flow, one-shot or staged: a parsed circuit is analyzed
//! into constraints, placed, then routed into a [`Layout`]; the one-shot
//! [`Circuit::run`] is the composition of the stages. Checks can run at every
//! stage against the netlist and the geometry built so far.
use vstd::prelude::*;

use crate::checks::{run_check, CheckKind, CheckReport};
use crate::engine::{
    default_route_quality, run_constraints, run_placement, run_routing, signoff_quality, is_route_stub, is_stub_certificate,
    ConstraintResult, ConstraintRunInput, FlowResult, PlacementCertificate, PlacementResult, PlacementRunInput,
    RouteQuality, RoutingRunInput, RunConfig,
};
use crate::error::ApiError;
use crate::gds::{default_units, Gds, GdsModel};
use crate::layout::Layout;
use crate::pdk::Pdk;
use crate::spice::{
    device_total, find_def, promoted, spec_parse, spice_error_text, NetlistModel, SpiceNetlist,
};

verus! {

/// A circuit read from SPICE text.
#[derive(Debug, Clone)]
pub struct Circuit {
    netlist: SpiceNetlist,
}

impl Circuit {
    /// The circuit's netlist.
    pub closed spec fn netlist_view(&self) -> NetlistModel {
        self.netlist@
    }

    /// The netlist's definitions have distinct names, listed in order.
    pub closed spec fn wf(&self) -> bool {
        self.netlist.wf()
    }

    /// Parse a circuit from SPICE text; a parse error becomes
    /// `ApiError::Spice` with the error's message.
    pub fn from_spice_str(text: &str) -> (r: Result<Circuit, ApiError>)
        ensures
            match r {
                Ok(c) => c.wf() && spec_parse(text@) == Ok::<
                    NetlistModel,
                    crate::spice::SpiceErrorModel,
                >(c.netlist_view()),
                Err(e) => spec_parse(text@) is Err && (e matches ApiError::Spice(m) && m@
                    == spice_error_text(spec_parse(text@)->Err_0)),
            },
    {
        match SpiceNetlist::parse(text) {
            Ok(netlist) => Ok(Circuit { netlist }),
            Err(e) => Err(ApiError::Spice(e.message())),
        }
    }

    /// Promote the named subckt to the top level, or report that it does not
    /// exist.
    pub fn select_subckt(self, name: &str) -> (r: Result<Circuit, ApiError>)
        requires
            self.wf(),
        ensures
            find_def(self.netlist_view().defs, name@, 0) < self.netlist_view().defs.len() ==> (r
                matches Ok(c) && c.wf() && c.netlist_view() == promoted(
                self.netlist_view(),
                find_def(self.netlist_view().defs, name@, 0),
            )),
            find_def(self.netlist_view().defs, name@, 0) >= self.netlist_view().defs.len() ==> (r
                matches Err(e) && e matches ApiError::SubcktNotFound(n) && n@ == name@),
    {
        let mut me = self;
        if me.netlist.select_subckt(name) {
            Ok(me)
        } else {
            Err(ApiError::SubcktNotFound(String::from_str(name)))
        }
    }

    /// Promote the first subckt when the top level is empty.
    pub fn use_first_subckt_as_top(self) -> (c: Circuit)
        requires
            self.wf(),
        ensures
            c.wf(),
            self.netlist_view().top.len() == 0 && self.netlist_view().defs.len() > 0
                ==> c.netlist_view() == promoted(self.netlist_view(), 0),
            !(self.netlist_view().top.len() == 0 && self.netlist_view().defs.len() > 0)
                ==> c.netlist_view() == self.netlist_view(),
    {
        let mut me = self;
        me.netlist.promote_first_subckt();
        me
    }

    /// The circuit's netlist.
    pub fn netlist(&self) -> (n: &SpiceNetlist)
        ensures
            n@ == self.netlist_view(),
            self.wf() ==> n.wf(),
    {
        &self.netlist
    }

    /// Run constraint analysis: an empty netlist is an error; otherwise every
    /// device is handed to the constraint stage.
    pub fn analyze(&self, _pdk: &Pdk) -> (r: Result<Constraints, ApiError>)
        requires
            device_total(self.netlist_view()) <= usize::MAX,
        ensures
            device_total(self.netlist_view()) == 0 <==> r matches Err(ApiError::EmptyNetlist),
            match r {
                Ok(c) => c.wf() && c.result_view().honored == device_total(self.netlist_view())
                    && c.result_view().unsupported == 0 && c.netlist_view() == self.netlist_view(),
                Err(e) => e == ApiError::EmptyNetlist,
            },
    {
        let n = self.netlist.device_count();
        if n == 0 {
            return Err(ApiError::EmptyNetlist);
        }
        let result = run_constraints(&ConstraintRunInput { device_count: n });
        Ok(Constraints { netlist: self.netlist.clone(), result })
    }
}

/// The output of constraint analysis: the netlist and the stage result.
#[derive(Debug, Clone)]
pub struct Constraints {
    netlist: SpiceNetlist,
    result: ConstraintResult,
}

impl Constraints {
    /// The netlist's device count fits in a `usize`.
    pub closed spec fn wf(&self) -> bool {
        device_total(self.netlist@) <= usize::MAX
    }

    /// The analyzed netlist.
    pub closed spec fn netlist_view(&self) -> NetlistModel {
        self.netlist@
    }

    /// The stage result.
    pub closed spec fn result_view(&self) -> ConstraintResult {
        self.result
    }

    /// The constraint stage's result.
    pub fn result(&self) -> (r: &ConstraintResult)
        ensures
            *r == self.result_view(),
    {
        &self.result
    }

    /// Run a verification check at this stage. The checks are stubs that
    /// report no findings.
    pub fn check(&self, kind: CheckKind) -> (r: CheckReport)
        ensures
            r.kind_view() == kind,
            r.findings_view().len() == 0,
    {
        CheckReport::clean(kind)
    }
}

/// The geometry of a placement before routing: an empty library `PHILIS`.
pub open spec fn placed_geometry() -> GdsModel {
    GdsModel { lib_name: "PHILIS"@, units: default_units(), cells: seq![] }
}

impl Constraints {
    /// Place the analyzed netlist: every device is placed by the baseline
    /// pass, with the degraded placement certificate, on empty geometry.
    pub fn place(&self, _cfg: RunConfig) -> (r: Result<Placed, ApiError>)
        requires
            self.wf(),
        ensures
            r matches Ok(p) && p.wf() && p.netlist_view() == self.netlist_view() && p.constraints_view()
                == self.result_view() && p.placement_view().placed_count == device_total(self.netlist_view())
                && p.placement_view().baseline_used && is_stub_certificate(p.placement_view().certificate)
                && !signoff_quality(p.placement_view().certificate),
    {
        let placement = run_placement(&PlacementRunInput { device_count: self.netlist.device_count() });
        let gds = Gds::new("PHILIS");
        Ok(Placed { netlist: self.netlist.clone(), constraints: self.result, placement, gds })
    }
}

/// A placement, ready to route: the netlist, the constraint and placement
/// results, and the geometry built so far.
#[derive(Debug, Clone)]
pub struct Placed {
    netlist: SpiceNetlist,
    constraints: ConstraintResult,
    placement: PlacementResult,
    gds: Gds,
}

impl Placed {
    /// The device count fits in a `usize`, the placement carries the stub
    /// certificate and the geometry is the empty library of a fresh placement.
    pub closed spec fn wf(&self) -> bool {
        &&& device_total(self.netlist@) <= usize::MAX
        &&& is_stub_certificate(self.placement.certificate)
        &&& self.gds.wf()
        &&& self.gds@ == placed_geometry()
    }

    /// The placed netlist.
    pub closed spec fn netlist_view(&self) -> NetlistModel {
        self.netlist@
    }

    /// The constraint-stage result.
    pub closed spec fn constraints_view(&self) -> ConstraintResult {
        self.constraints
    }

    /// The placement-stage result.
    pub closed spec fn placement_view(&self) -> PlacementResult {
        self.placement
    }

    /// The placement-stage result.
    pub fn result(&self) -> (r: &PlacementResult)
        ensures
            *r == self.placement_view(),
    {
        &self.placement
    }

    /// Route the placement and finish the layout. Routing is told whether the
    /// placer used its baseline pass.
    pub fn route(&self, _cfg: RunConfig) -> (r: Result<Layout, ApiError>)
        requires
            self.wf(),
        ensures
            r matches Ok(l) && l.netlist_view() == self.netlist_view() && l.gds_view() == placed_geometry()
                && l.flow_view().constraints == self.constraints_view()
                && l.flow_view().placement.placed_count == self.placement_view().placed_count
                && l.flow_view().placement.baseline_used == self.placement_view().baseline_used
                && is_stub_certificate(self.placement_view().certificate)
                && is_stub_certificate(l.flow_view().placement.certificate)
                && l.flow_view().routing.routed_segments == 0
                && l.flow_view().routing.quality == (RouteQuality {
                    degraded_confidence: true,
                    ..default_route_quality()
                }) && is_route_stub(l.flow_view().routing.certificate)
                && l.flow_view().routing.diagnostics@.len() == 0,
    {
        let routing = run_routing(
            &RoutingRunInput { net_count: self.netlist.device_count(), baseline_used: self.placement.baseline_used },
        );
        let placement = PlacementResult {
            placed_count: self.placement.placed_count,
            baseline_used: self.placement.baseline_used,
            // A well-formed placement carries the stub certificate, so a
            // fresh stub is the same value.
            certificate: PlacementCertificate::stub(),
        };
        let flow = FlowResult { constraints: self.constraints, placement, routing };
        let gds = Gds::new("PHILIS");
        Ok(Layout::new(flow, self.netlist.clone(), gds))
    }

    /// Run a check at this stage, against the netlist and the geometry so far.
    pub fn check(&self, kind: CheckKind) -> (r: CheckReport)
        ensures
            r.kind_view() == kind,
            r.findings_view().len() == 0,
    {
        run_check(kind, &self.netlist, Some(&self.gds))
    }
}

impl Circuit {
    /// One shot: analyze, place and route in one call, as the staged path
    /// does, and return the stage results.
    pub fn run(&self, pdk: &Pdk, cfg: RunConfig) -> (r: Result<FlowResult, ApiError>)
        requires
            device_total(self.netlist_view()) <= usize::MAX,
        ensures
            device_total(self.netlist_view()) == 0 <==> r is Err,
            match r {
                Ok(f) => {
                    &&& f.constraints.honored == device_total(self.netlist_view())
                    &&& f.constraints.unsupported == 0
                    &&& f.placement.placed_count == device_total(self.netlist_view())
                    &&& f.placement.baseline_used
                    &&& f.routing.routed_segments == 0
                    &&& f.routing.quality == (RouteQuality { degraded_confidence: true, ..default_route_quality() })
                    &&& crate::engine::flow_shape(f, device_total(self.netlist_view()))
                },
                Err(e) => e == ApiError::EmptyNetlist,
            },
    {
        let constraints = match self.analyze(pdk) {
            Ok(c) => c,
            Err(e) => {
                return Err(e);
            },
        };
        let placed = match constraints.place(cfg) {
            Ok(p) => p,
            Err(e) => {
                return Err(e);
            },
        };
        match placed.route(cfg) {
            Ok(layout) => Ok(layout.into_flow()),
            Err(e) => Err(e),
        }
    }
}

/// Run the whole flow over a netlist and wrap the result in a layout with
/// empty geometry.
pub(crate) fn solve_netlist(netlist: &SpiceNetlist, cfg: RunConfig) -> (r: Result<Layout, ApiError>)
    requires
        device_total(netlist@) <= usize::MAX,
    ensures
        device_total(netlist@) == 0 <==> r is Err,
        match r {
            Ok(l) => l.netlist_view() == netlist@ && l.gds_view() == placed_geometry()
                && crate::engine::flow_shape(l.flow_view(), device_total(netlist@)),
            Err(e) => e == ApiError::EmptyNetlist,
        },
{
    match crate::engine::run_flow(netlist, cfg) {
        Ok(flow) => Ok(Layout::new(flow, netlist.clone(), Gds::new("PHILIS"))),
        Err(e) => Err(e),
    }
}

} // verus!
