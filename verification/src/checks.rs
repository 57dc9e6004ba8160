//! Verification checks (DRC, LVS, PEX, ERC), their kinds and their reports.
//! A check reads a netlist together with the geometry built so far, at any
//! stage of the flow. The rule decks are not wired in yet: every check reports
//! no finding.
use vstd::prelude::*;

use crate::gds::Gds;
use crate::spice::SpiceNetlist;

verus! {

/// A verification check.
#[derive(Debug, Clone, Copy, PartialEq, Eq, Structural)]
pub enum CheckKind {
    Drc,
    Lvs,
    Pex,
    Erc,
}

/// The display name of a check.
pub open spec fn check_name(k: CheckKind) -> &'static str {
    match k {
        CheckKind::Drc => "DRC",
        CheckKind::Lvs => "LVS",
        CheckKind::Pex => "PEX",
        CheckKind::Erc => "ERC",
    }
}

impl CheckKind {
    /// The display name: `DRC`, `LVS`, `PEX` or `ERC`.
    pub fn name(self) -> (n: &'static str)
        ensures
            n == check_name(self),
    {
        match self {
            CheckKind::Drc => "DRC",
            CheckKind::Lvs => "LVS",
            CheckKind::Pex => "PEX",
            CheckKind::Erc => "ERC",
        }
    }
}

/// The outcome of one check: its kind and its findings.
#[derive(Debug, Clone, PartialEq, Eq)]
pub struct CheckReport {
    pub kind: CheckKind,
    findings: Vec<String>,
}

impl CheckReport {
    /// The kind of check reported.
    pub closed spec fn kind_view(&self) -> CheckKind {
        self.kind
    }

    /// The findings, as character sequences.
    pub closed spec fn findings_view(&self) -> Seq<Seq<char>> {
        self.findings@.map_values(|f: String| f@)
    }

    /// A report of the given kind with no findings.
    pub fn clean(kind: CheckKind) -> (r: CheckReport)
        ensures
            r.kind_view() == kind,
            r.findings_view().len() == 0,
    {
        CheckReport { kind, findings: Vec::new() }
    }

    /// Whether the check found nothing.
    pub fn is_clean(&self) -> (b: bool)
        ensures
            b == (self.findings_view().len() == 0),
    {
        self.findings.len() == 0
    }

    /// The findings.
    pub fn findings(&self) -> (r: &[String])
        ensures
            r@.map_values(|f: String| f@) == self.findings_view(),
    {
        self.findings.as_slice()
    }
}

/// Design-rule check of a netlist against its (possibly partial) geometry;
/// the report has no finding.
pub fn drc(netlist: &SpiceNetlist, gds: Option<&Gds>) -> (r: CheckReport)
    ensures
        r.kind_view() == CheckKind::Drc,
        r.findings_view().len() == 0,
{
    CheckReport::clean(CheckKind::Drc)
}

/// Layout-versus-schematic comparison; the report has no finding.
pub fn lvs(netlist: &SpiceNetlist, gds: Option<&Gds>) -> (r: CheckReport)
    ensures
        r.kind_view() == CheckKind::Lvs,
        r.findings_view().len() == 0,
{
    CheckReport::clean(CheckKind::Lvs)
}

/// Parasitic extraction over the routed geometry; the report has no finding.
pub fn pex(netlist: &SpiceNetlist, gds: Option<&Gds>) -> (r: CheckReport)
    ensures
        r.kind_view() == CheckKind::Pex,
        r.findings_view().len() == 0,
{
    CheckReport::clean(CheckKind::Pex)
}

/// Electrical-rule check over the netlist's connectivity; the report has no
/// finding.
pub fn erc(netlist: &SpiceNetlist, gds: Option<&Gds>) -> (r: CheckReport)
    ensures
        r.kind_view() == CheckKind::Erc,
        r.findings_view().len() == 0,
{
    CheckReport::clean(CheckKind::Erc)
}

/// Run the check of the given kind.
pub fn run_check(kind: CheckKind, netlist: &SpiceNetlist, gds: Option<&Gds>) -> (r: CheckReport)
    ensures
        r.kind_view() == kind,
        r.findings_view().len() == 0,
{
    match kind {
        CheckKind::Drc => drc(netlist, gds),
        CheckKind::Lvs => lvs(netlist, gds),
        CheckKind::Pex => pex(netlist, gds),
        CheckKind::Erc => erc(netlist, gds),
    }
}

} // verus!
