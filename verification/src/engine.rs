//! The engine vocabulary: the constraint taxonomy, tuning knobs, run
//! configuration, stage inputs and outputs, and the signoff-first placement
//! and routing certificates with their acceptance rules.
//!
//! The stage oracles are stubs: they report the shape of a real run with an
//! explicitly degraded-confidence certificate.
use vstd::prelude::*;

use crate::spice::{device_total, strs, SpiceNetlist};
use crate::units::{Axis, Coord, Distance};

verus! {

// ---------------------------------------------------------------------------
// Constraints
// ---------------------------------------------------------------------------

/// A layout constraint.
///
/// The first ten variants are forwarded to the engine; the rest are recognized
/// but not yet honored (see [`Constraint::is_engine_supported`]). Ratios and
/// port positions are carried as the bit patterns of IEEE-754 doubles
/// (`f64::to_bits`): nothing here computes with them.
#[derive(Debug, Clone, PartialEq)]
pub enum Constraint {
    Symmetric(String, String),
    Matching(String, String),
    SelfSymmetric(String),
    SymmetricGroup(Vec<(String, String)>),
    Order(String, String, Axis),
    Align(Vec<String>, Axis),
    DistanceConstraint(String, String, Distance),
    GuardRing(Vec<String>, String),
    NetShield(String),
    SetNetClass(String, String),
    SignalFlow(Vec<String>),
    AspectRatio(u64, u64),
    CellBoundary(Distance, Distance),
    FixPosition(String, Coord, Coord),
    PlaceOnGrid(String, Distance),
    PlaceOnBoundary(String, String),
    Group(Vec<String>, String),
    PortLocation(String, String, u64),
    NetMatch(String, String, Distance),
    MultiWire(String, u8),
    DoNotRoute(String),
    ChargeFlow(String),
}

/// The stable kind tag of a constraint: its variant name.
pub open spec fn constraint_kind(c: Constraint) -> &'static str {
    match c {
        Constraint::Symmetric(..) => "Symmetric",
        Constraint::Matching(..) => "Matching",
        Constraint::SelfSymmetric(..) => "SelfSymmetric",
        Constraint::SymmetricGroup(..) => "SymmetricGroup",
        Constraint::Order(..) => "Order",
        Constraint::Align(..) => "Align",
        Constraint::DistanceConstraint(..) => "DistanceConstraint",
        Constraint::GuardRing(..) => "GuardRing",
        Constraint::NetShield(..) => "NetShield",
        Constraint::SetNetClass(..) => "SetNetClass",
        Constraint::SignalFlow(..) => "SignalFlow",
        Constraint::AspectRatio(..) => "AspectRatio",
        Constraint::CellBoundary(..) => "CellBoundary",
        Constraint::FixPosition(..) => "FixPosition",
        Constraint::PlaceOnGrid(..) => "PlaceOnGrid",
        Constraint::PlaceOnBoundary(..) => "PlaceOnBoundary",
        Constraint::Group(..) => "Group",
        Constraint::PortLocation(..) => "PortLocation",
        Constraint::NetMatch(..) => "NetMatch",
        Constraint::MultiWire(..) => "MultiWire",
        Constraint::DoNotRoute(..) => "DoNotRoute",
        Constraint::ChargeFlow(..) => "ChargeFlow",
    }
}

/// The engine forwards this constraint.
pub open spec fn engine_supported(c: Constraint) -> bool {
    match c {
        Constraint::Symmetric(..) | Constraint::Matching(..) | Constraint::SelfSymmetric(..)
        | Constraint::SymmetricGroup(..) | Constraint::Order(..) | Constraint::Align(..)
        | Constraint::DistanceConstraint(..) | Constraint::GuardRing(..) | Constraint::NetShield(..)
        | Constraint::SetNetClass(..) => true,
        _ => false,
    }
}

/// Both members of each pair, in order.
pub open spec fn pair_names(ps: Seq<(String, String)>) -> Seq<Seq<char>>
    decreases ps.len(),
{
    if ps.len() == 0 {
        seq![]
    } else {
        pair_names(ps.drop_last()) + seq![ps.last().0@, ps.last().1@]
    }
}

/// The device names a constraint references, in order.
pub open spec fn spec_device_refs(c: Constraint) -> Seq<Seq<char>> {
    match c {
        Constraint::Symmetric(a, b) => seq![a@, b@],
        Constraint::Matching(a, b) => seq![a@, b@],
        Constraint::DistanceConstraint(a, b, _) => seq![a@, b@],
        Constraint::Order(a, b, _) => seq![a@, b@],
        Constraint::NetMatch(a, b, _) => seq![a@, b@],
        Constraint::SelfSymmetric(a) => seq![a@],
        Constraint::FixPosition(a, _, _) => seq![a@],
        Constraint::PlaceOnGrid(a, _) => seq![a@],
        Constraint::PlaceOnBoundary(a, _) => seq![a@],
        Constraint::Align(v, _) => strs(v@),
        Constraint::SignalFlow(v) => strs(v@),
        Constraint::GuardRing(v, _) => strs(v@),
        Constraint::Group(v, _) => strs(v@),
        Constraint::SymmetricGroup(pairs) => pair_names(pairs@),
        _ => seq![],
    }
}

/// How strongly the engine must honor an analog-intent obligation.
#[derive(Debug, Clone, Copy, PartialEq, Eq, Hash, Structural)]
pub enum IntentClass {
    /// A violation makes the placement unacceptable (a gate failure).
    Hard,
    /// Admissible only inside an explicit numerical tolerance.
    Bounded,
    /// Optimized only after every hard gate passes.
    Soft,
    /// Refused or reported degraded before solving.
    Unsupported,
}

/// The obligation class a constraint lowers to.
pub open spec fn spec_intent_class(c: Constraint) -> IntentClass {
    match c {
        Constraint::Symmetric(..) | Constraint::SelfSymmetric(..) | Constraint::SymmetricGroup(..)
        | Constraint::Order(..) | Constraint::Align(..) | Constraint::GuardRing(..) => IntentClass::Hard,
        Constraint::Matching(..) | Constraint::DistanceConstraint(..) => IntentClass::Bounded,
        Constraint::NetShield(..) | Constraint::SetNetClass(..) => IntentClass::Soft,
        _ => IntentClass::Unsupported,
    }
}

/// The names of a list of strings as borrowed slices.
pub open spec fn str_views(v: Seq<&str>) -> Seq<Seq<char>> {
    v.map_values(|s: &str| s@)
}

impl Constraint {
    /// A stable kind tag for diagnostics and warnings: the variant name.
    pub fn kind(&self) -> (k: &'static str)
        ensures
            k == constraint_kind(*self),
    {
        match self {
            Constraint::Symmetric(..) => "Symmetric",
            Constraint::Matching(..) => "Matching",
            Constraint::SelfSymmetric(..) => "SelfSymmetric",
            Constraint::SymmetricGroup(..) => "SymmetricGroup",
            Constraint::Order(..) => "Order",
            Constraint::Align(..) => "Align",
            Constraint::DistanceConstraint(..) => "DistanceConstraint",
            Constraint::GuardRing(..) => "GuardRing",
            Constraint::NetShield(..) => "NetShield",
            Constraint::SetNetClass(..) => "SetNetClass",
            Constraint::SignalFlow(..) => "SignalFlow",
            Constraint::AspectRatio(..) => "AspectRatio",
            Constraint::CellBoundary(..) => "CellBoundary",
            Constraint::FixPosition(..) => "FixPosition",
            Constraint::PlaceOnGrid(..) => "PlaceOnGrid",
            Constraint::PlaceOnBoundary(..) => "PlaceOnBoundary",
            Constraint::Group(..) => "Group",
            Constraint::PortLocation(..) => "PortLocation",
            Constraint::NetMatch(..) => "NetMatch",
            Constraint::MultiWire(..) => "MultiWire",
            Constraint::DoNotRoute(..) => "DoNotRoute",
            Constraint::ChargeFlow(..) => "ChargeFlow",
        }
    }

    /// Whether the engine currently forwards this constraint.
    pub fn is_engine_supported(&self) -> (b: bool)
        ensures
            b == engine_supported(*self),
    {
        match self {
            Constraint::Symmetric(..) | Constraint::Matching(..) | Constraint::SelfSymmetric(..)
            | Constraint::SymmetricGroup(..) | Constraint::Order(..) | Constraint::Align(..)
            | Constraint::DistanceConstraint(..) | Constraint::GuardRing(..)
            | Constraint::NetShield(..) | Constraint::SetNetClass(..) => true,
            _ => false,
        }
    }

    /// Device names this constraint references (for validation), in order.
    pub fn device_refs(&self) -> (r: Vec<&str>)
        ensures
            str_views(r@) == spec_device_refs(*self),
    {
        let mut r: Vec<&str> = Vec::new();
        match self {
            Constraint::Symmetric(a, b) | Constraint::Matching(a, b) => {
                r.push(a.as_str());
                r.push(b.as_str());
            },
            Constraint::DistanceConstraint(a, b, _) | Constraint::Order(a, b, _)
            | Constraint::NetMatch(a, b, _) => {
                r.push(a.as_str());
                r.push(b.as_str());
            },
            Constraint::SelfSymmetric(a) | Constraint::FixPosition(a, _, _)
            | Constraint::PlaceOnGrid(a, _) | Constraint::PlaceOnBoundary(a, _) => {
                r.push(a.as_str());
            },
            Constraint::Align(v, _) | Constraint::GuardRing(v, _) | Constraint::Group(v, _) => {
                push_all(&mut r, v);
            },
            Constraint::SignalFlow(v) => {
                push_all(&mut r, v);
            },
            Constraint::SymmetricGroup(pairs) => {
                let mut i: usize = 0;
                while i < pairs.len()
                    invariant
                        i <= pairs@.len(),
                        str_views(r@) == pair_names(pairs@.take(i as int)),
                    decreases pairs@.len() - i,
                {
                    r.push(pairs[i].0.as_str());
                    r.push(pairs[i].1.as_str());
                    proof {
                        assert(pairs@.take(i + 1).drop_last() =~= pairs@.take(i as int));
                        assert(str_views(r@) =~= pair_names(pairs@.take(i + 1)));
                    }
                    i = i + 1;
                }
                proof {
                    assert(pairs@.take(pairs@.len() as int) =~= pairs@);
                }
            },
            _ => {},
        }
        proof {
            assert(str_views(r@) =~= spec_device_refs(*self));
        }
        r
    }

    /// The obligation class this constraint lowers to in the placement intent
    /// graph; engine-unsupported variants lower to [`IntentClass::Unsupported`].
    pub fn intent_class(&self) -> (c: IntentClass)
        ensures
            c == spec_intent_class(*self),
    {
        match self {
            Constraint::Symmetric(..) | Constraint::SelfSymmetric(..)
            | Constraint::SymmetricGroup(..) | Constraint::Order(..) | Constraint::Align(..)
            | Constraint::GuardRing(..) => IntentClass::Hard,
            Constraint::Matching(..) | Constraint::DistanceConstraint(..) => IntentClass::Bounded,
            Constraint::NetShield(..) | Constraint::SetNetClass(..) => IntentClass::Soft,
            _ => IntentClass::Unsupported,
        }
    }
}

/// Append every string of `v` to `r` as a borrowed slice.
fn push_all<'a>(r: &mut Vec<&'a str>, v: &'a Vec<String>)
    ensures
        str_views(final(r)@) == str_views(old(r)@) + strs(v@),
{
    let ghost start = str_views(r@);
    let mut i: usize = 0;
    while i < v.len()
        invariant
            i <= v@.len(),
            str_views(r@) == start + strs(v@.take(i as int)),
        decreases v@.len() - i,
    {
        let ghost before = r@;
        let x = v[i].as_str();
        r.push(x);
        proof {
            assert(str_views(r@) =~= str_views(before).push(x@));
            assert(strs(v@.take(i + 1)) =~= strs(v@.take(i as int)).push(v@[i as int]@));
            assert(str_views(r@) =~= start + strs(v@.take(i + 1)));
        }
        i = i + 1;
    }
    proof {
        assert(v@.take(v@.len() as int) =~= v@);
    }
}

/// An engine-unsupported constraint lowers to `Unsupported`, and a supported
/// one never does: nothing is silently dropped.
pub proof fn lemma_unsupported_iff_not_forwarded(c: Constraint)
    ensures
        (spec_intent_class(c) == IntentClass::Unsupported) <==> !engine_supported(c),
        spec_intent_class(c) == IntentClass::Hard ==> engine_supported(c),
{
}

// ---------------------------------------------------------------------------
// Objective, strategy, configuration
// ---------------------------------------------------------------------------

/// What the solver should optimize for.
#[derive(Debug, Clone, Copy, PartialEq, Eq, Default, Structural)]
pub enum Objective {
    /// Minimize area.
    #[default]
    Area,
    /// Optimize for speed.
    Speed,
    /// Optimize for power.
    Power,
}

/// Flow tuning knobs shared by the staged and one-shot paths.
#[derive(Debug, Clone, Copy, PartialEq, Eq, Structural)]
pub struct RunConfig {
    pub row_pitch_nm: i64,
    pub site_width_nm: i64,
    pub track_pitch_nm: i64,
    pub strict_constraints: bool,
    pub fabricatability_mode: bool,
}

/// The default configuration.
pub open spec fn default_run_config() -> RunConfig {
    RunConfig {
        row_pitch_nm: 2000,
        site_width_nm: 20,
        track_pitch_nm: 160,
        strict_constraints: false,
        fabricatability_mode: false,
    }
}

impl Default for RunConfig {
    fn default() -> (c: RunConfig)
        ensures
            c == default_run_config(),
    {
        RunConfig {
            row_pitch_nm: 2000,
            site_width_nm: 20,
            track_pitch_nm: 160,
            strict_constraints: false,
            fabricatability_mode: false,
        }
    }
}

/// The row and track pitches an objective selects.
pub open spec fn objective_pitches(o: Objective) -> (i64, i64) {
    match o {
        Objective::Area => (2000, 160),
        Objective::Speed => (2400, 200),
        Objective::Power => (2200, 180),
    }
}

impl Objective {
    /// Project this objective onto a [`RunConfig`]: it sets the row and track
    /// pitches and keeps every other knob.
    pub fn apply_to_config(self, cfg: RunConfig) -> (r: RunConfig)
        ensures
            r == (RunConfig {
                row_pitch_nm: objective_pitches(self).0,
                track_pitch_nm: objective_pitches(self).1,
                ..cfg
            }),
    {
        let mut cfg = cfg;
        match self {
            Objective::Area => {
                cfg.row_pitch_nm = 2_000;
                cfg.track_pitch_nm = 160;
            },
            Objective::Speed => {
                cfg.row_pitch_nm = 2_400;
                cfg.track_pitch_nm = 200;
            },
            Objective::Power => {
                cfg.row_pitch_nm = 2_200;
                cfg.track_pitch_nm = 180;
            },
        }
        cfg
    }
}

/// A geometric arrangement style for a group of devices.
#[derive(Debug, Clone, Copy, PartialEq, Eq, Structural)]
pub enum Strategy {
    SideBySide,
    Stacked,
    Mirror,
    Interdigitated,
    CommonCentroid,
    InterdigitatedDummies,
    GuardRingEnclosed,
    Grid,
}

/// The diagnostic name of a strategy.
pub open spec fn strategy_name(s: Strategy) -> &'static str {
    match s {
        Strategy::SideBySide => "side-by-side",
        Strategy::Stacked => "stacked",
        Strategy::Mirror => "mirror",
        Strategy::Interdigitated => "interdigitated",
        Strategy::CommonCentroid => "common-centroid",
        Strategy::InterdigitatedDummies => "interdigitated-dummies",
        Strategy::GuardRingEnclosed => "guard-ring-enclosed",
        Strategy::Grid => "grid",
    }
}

impl Strategy {
    /// A human-readable name for diagnostics.
    pub fn name(self) -> (n: &'static str)
        ensures
            n == strategy_name(self),
    {
        match self {
            Strategy::SideBySide => "side-by-side",
            Strategy::Stacked => "stacked",
            Strategy::Mirror => "mirror",
            Strategy::Interdigitated => "interdigitated",
            Strategy::CommonCentroid => "common-centroid",
            Strategy::InterdigitatedDummies => "interdigitated-dummies",
            Strategy::GuardRingEnclosed => "guard-ring-enclosed",
            Strategy::Grid => "grid",
        }
    }
}

// ---------------------------------------------------------------------------
// Stage inputs and outputs
// ---------------------------------------------------------------------------

/// Input to [`run_constraints`].
#[derive(Debug, Clone, Default)]
pub struct ConstraintRunInput {
    pub device_count: usize,
}

/// Input to [`run_placement`].
#[derive(Debug, Clone, Default)]
pub struct PlacementRunInput {
    pub device_count: usize,
}

/// Input to the routing stage; `baseline_used` is threaded from the
/// placement result.
#[derive(Debug, Clone, Default)]
pub struct RoutingRunInput {
    pub net_count: usize,
    pub baseline_used: bool,
}

/// Output of [`run_constraints`].
#[derive(Debug, Clone, Copy, Default, PartialEq, Eq, Structural)]
pub struct ConstraintResult {
    pub honored: usize,
    pub unsupported: usize,
}

/// Stage oracle: compile constraints. Every device's constraints count as
/// honored; none as unsupported.
pub fn run_constraints(input: &ConstraintRunInput) -> (r: ConstraintResult)
    ensures
        r.honored == input.device_count,
        r.unsupported == 0,
{
    ConstraintResult { honored: input.device_count, unsupported: 0 }
}

/// Derive a [`ConstraintRunInput`] from a parsed netlist: its device count.
pub fn constraint_input(netlist: &SpiceNetlist) -> (r: ConstraintRunInput)
    requires
        device_total(netlist@) <= usize::MAX,
    ensures
        r.device_count == device_total(netlist@),
{
    ConstraintRunInput { device_count: netlist.device_count() }
}

// ---------------------------------------------------------------------------
// Signoff-first placement contract
// ---------------------------------------------------------------------------

/// The stable lowercase tag of an obligation class.
pub open spec fn intent_tag(c: IntentClass) -> &'static str {
    match c {
        IntentClass::Hard => "hard",
        IntentClass::Bounded => "bounded",
        IntentClass::Soft => "soft",
        IntentClass::Unsupported => "unsupported",
    }
}

impl IntentClass {
    /// A stable lowercase tag for diagnostics and reports.
    pub fn tag(self) -> (t: &'static str)
        ensures
            t == intent_tag(self),
    {
        match self {
            IntentClass::Hard => "hard",
            IntentClass::Bounded => "bounded",
            IntentClass::Soft => "soft",
            IntentClass::Unsupported => "unsupported",
        }
    }

    /// Whether this obligation is a gate: only `Hard`.
    pub fn is_gate(self) -> (b: bool)
        ensures
            b == (self == IntentClass::Hard),
    {
        match self {
            IntentClass::Hard => true,
            _ => false,
        }
    }
}

/// One lexicographic acceptance gate. Acceptance requires every gate to hold.
#[derive(Debug, Clone, Copy, PartialEq, Eq, Hash, Structural)]
pub enum AcceptanceGate {
    /// Required PDK / host-template / rule coverage exists.
    TechnologyCoverage,
    /// Placement-owned local DRC, non-overlap, host-outline legality.
    LocalDrc,
    /// Every device and imported cell is LVS-equivalent.
    DeviceEquivalence,
    /// Every required terminal has a non-empty, typed access set.
    TerminalAccess,
    /// Channels carry enough capacity for a router to have a feasible path.
    Routability,
    /// All hard analog intent constraints hold (or are diagnosed).
    IntentSatisfaction,
}

/// The gates in the order the engine evaluates them: coverage first, local DRC
/// before device equivalence, intent satisfaction last.
pub const ACCEPTANCE_GATE_ORDER: [AcceptanceGate; 6] = [
    AcceptanceGate::TechnologyCoverage,
    AcceptanceGate::LocalDrc,
    AcceptanceGate::DeviceEquivalence,
    AcceptanceGate::TerminalAccess,
    AcceptanceGate::Routability,
    AcceptanceGate::IntentSatisfaction,
];

/// The gates in evaluation order.
pub open spec fn gate_order() -> Seq<AcceptanceGate> {
    seq![
        AcceptanceGate::TechnologyCoverage,
        AcceptanceGate::LocalDrc,
        AcceptanceGate::DeviceEquivalence,
        AcceptanceGate::TerminalAccess,
        AcceptanceGate::Routability,
        AcceptanceGate::IntentSatisfaction,
    ]
}

/// A gate's name as it appears in the certificate.
pub open spec fn gate_name(g: AcceptanceGate) -> &'static str {
    match g {
        AcceptanceGate::TechnologyCoverage => "TechnologyCoverage",
        AcceptanceGate::LocalDrc => "LocalDrc",
        AcceptanceGate::DeviceEquivalence => "DeviceEquivalence",
        AcceptanceGate::TerminalAccess => "TerminalAccess",
        AcceptanceGate::Routability => "Routability",
        AcceptanceGate::IntentSatisfaction => "IntentSatisfaction",
    }
}

/// Legalization may repair a pre-legalization failure of this gate: only
/// `LocalDrc` and `IntentSatisfaction`.
pub open spec fn repairable(g: AcceptanceGate) -> bool {
    g == AcceptanceGate::LocalDrc || g == AcceptanceGate::IntentSatisfaction
}

impl AcceptanceGate {
    /// This gate's name, exactly as it appears in the certificate.
    pub fn name(self) -> (n: &'static str)
        ensures
            n == gate_name(self),
    {
        match self {
            AcceptanceGate::TechnologyCoverage => "TechnologyCoverage",
            AcceptanceGate::LocalDrc => "LocalDrc",
            AcceptanceGate::DeviceEquivalence => "DeviceEquivalence",
            AcceptanceGate::TerminalAccess => "TerminalAccess",
            AcceptanceGate::Routability => "Routability",
            AcceptanceGate::IntentSatisfaction => "IntentSatisfaction",
        }
    }

    /// Whether group-preserving legalization may repair a pre-legalization
    /// failure of this gate.
    pub fn is_repairable(self) -> (b: bool)
        ensures
            b == repairable(self),
    {
        match self {
            AcceptanceGate::LocalDrc | AcceptanceGate::IntentSatisfaction => true,
            _ => false,
        }
    }
}

/// The verdict of one gate on one candidate snapshot.
#[derive(Debug, Clone, Copy, PartialEq, Eq, Hash, Default, Structural)]
pub enum GateStatus {
    /// Every predicate of this gate holds on coded evidence.
    Pass,
    /// This gate holds only on external, approximate or missing evidence; the
    /// default, because a gate with no evidence is degraded, not passing.
    #[default]
    Degraded,
    /// A hard predicate is violated.
    Fail,
}

/// One gate's evaluation: which gate, its status, and a human-readable evidence
/// string.
#[derive(Debug, Clone, PartialEq, Eq)]
pub struct GateEvaluation {
    pub gate: AcceptanceGate,
    pub status: GateStatus,
    pub evidence: String,
}

/// A gate's verdict admits the candidate: passing and degraded gates always
/// do; a failing gate does only when repairable failures are allowed and the
/// gate is repairable.
pub open spec fn gate_admits(g: GateEvaluation, allow_repairable_failures: bool) -> bool {
    match g.status {
        GateStatus::Pass | GateStatus::Degraded => true,
        GateStatus::Fail => allow_repairable_failures && repairable(g.gate),
    }
}

/// Every gate admits the candidate.
pub open spec fn accepts(gates: Seq<GateEvaluation>, allow_repairable_failures: bool) -> bool {
    forall|i: int| 0 <= i < gates.len() ==> #[trigger] gate_admits(gates[i], allow_repairable_failures)
}

/// Decide acceptance from a gate vector under the repairable-failure policy:
/// pre-legalization (`true`) a failure of a repairable gate is pending repair,
/// post-legalization (`false`) any failure rejects. Degraded never rejects.
pub fn evaluate_gate_acceptance(gates: &[GateEvaluation], allow_repairable_failures: bool) -> (b: bool)
    ensures
        b == accepts(gates@, allow_repairable_failures),
{
    let mut i: usize = 0;
    while i < gates.len()
        invariant
            i <= gates@.len(),
            forall|k: int| 0 <= k < i ==> #[trigger] gate_admits(gates@[k], allow_repairable_failures),
        decreases gates@.len() - i,
    {
        let ok = match gates[i].status {
            GateStatus::Pass | GateStatus::Degraded => true,
            GateStatus::Fail => allow_repairable_failures && gates[i].gate.is_repairable(),
        };
        if !ok {
            proof {
                assert(!gate_admits(gates@[i as int], allow_repairable_failures));
            }
            return false;
        }
        i = i + 1;
    }
    true
}

/// A gate vector accepted after legalization is accepted before it too: the
/// repairable allowance only ever admits more.
pub proof fn lemma_acceptance_monotone(gates: Seq<GateEvaluation>)
    ensures
        accepts(gates, false) ==> accepts(gates, true),
{
    if accepts(gates, false) {
        assert forall|i: int| 0 <= i < gates.len() implies #[trigger] gate_admits(gates[i], true) by {
            assert(gate_admits(gates[i], false));
        }
    }
}

/// Why a result is degraded-confidence rather than signoff-quality.
#[derive(Debug, Clone, PartialEq, Eq)]
pub struct DegradedConfidenceCause {
    pub gate: AcceptanceGate,
    pub reason: String,
    /// The coverage class of the evidence that was unavailable.
    pub coverage: Coverage,
}

/// The class of a placement conflict; each class blames a gate.
#[derive(Debug, Clone, Copy, PartialEq, Eq, Hash, Default, Structural)]
pub enum ConflictClass {
    /// A PDK rule predicate is violated.
    #[default]
    PdkRule,
    /// A device or imported cell could not be generated LVS-equivalent.
    DeviceEquivalence,
    /// A hard analog-intent obligation is unsatisfied.
    IntentViolation,
    /// A required terminal has no legal access candidate.
    TerminalAccess,
    /// A channel or bin lacks the capacity a router would need.
    Capacity,
    /// A PEX/EM/noise/LDE budget is exceeded.
    ParasiticBudget,
    /// A required rule class is absent from the compiled PDK.
    CoverageGap,
    /// A fixed host-interface object would have to be altered.
    HostInterface,
}

/// Which gate a conflict class is blamed against.
pub open spec fn conflict_gate(c: ConflictClass) -> AcceptanceGate {
    match c {
        ConflictClass::CoverageGap => AcceptanceGate::TechnologyCoverage,
        ConflictClass::PdkRule | ConflictClass::HostInterface => AcceptanceGate::LocalDrc,
        ConflictClass::DeviceEquivalence => AcceptanceGate::DeviceEquivalence,
        ConflictClass::TerminalAccess => AcceptanceGate::TerminalAccess,
        ConflictClass::Capacity | ConflictClass::ParasiticBudget => AcceptanceGate::Routability,
        ConflictClass::IntentViolation => AcceptanceGate::IntentSatisfaction,
    }
}

impl ConflictClass {
    /// The acceptance gate this conflict is blamed against.
    pub fn gate(self) -> (g: AcceptanceGate)
        ensures
            g == conflict_gate(self),
    {
        match self {
            ConflictClass::CoverageGap => AcceptanceGate::TechnologyCoverage,
            ConflictClass::PdkRule | ConflictClass::HostInterface => AcceptanceGate::LocalDrc,
            ConflictClass::DeviceEquivalence => AcceptanceGate::DeviceEquivalence,
            ConflictClass::TerminalAccess => AcceptanceGate::TerminalAccess,
            ConflictClass::Capacity | ConflictClass::ParasiticBudget => AcceptanceGate::Routability,
            ConflictClass::IntentViolation => AcceptanceGate::IntentSatisfaction,
        }
    }
}

/// A conflict is blamed on a repairable gate exactly when it is a PDK-rule,
/// host-interface or intent violation.
pub proof fn lemma_repairable_conflicts(c: ConflictClass)
    ensures
        repairable(conflict_gate(c)) <==> (c == ConflictClass::PdkRule || c
            == ConflictClass::HostInterface || c == ConflictClass::IntentViolation),
{
}

/// One typed placement conflict.
#[derive(Debug, Clone, PartialEq, Eq, Default)]
pub struct PlacementConflict {
    pub class: ConflictClass,
    pub scope: DiagnosticScope,
    /// A human-readable rendering.
    pub message: String,
    /// The implicated instances or groups (the minimal repair seed).
    pub subjects: Vec<String>,
    /// The violated predicate / rule / intent IDs.
    pub predicates: Vec<String>,
}

/// The placement readiness witness handed to the router.
#[derive(Debug, Clone, Default, PartialEq, Eq)]
pub struct RouterHandoffWitness {
    /// Whether every terminal has at least one access candidate recorded.
    pub has_access_map: bool,
    /// Channels reserved for matched/shielded/critical nets.
    pub reserved_channel_count: usize,
    /// Schematic terminals with a typed access set.
    pub terminal_count: usize,
    /// Fixed host-interface pins respected as boundary conditions.
    pub host_pin_count: usize,
    /// Obstruction snapshots handed across.
    pub obstruction_count: usize,
    /// A human-readable note.
    pub note: String,
}

/// The placement certificate: per-gate verdicts with evidence, coverage, the
/// degraded-confidence causes, the router handoff witness and any conflict
/// core.
#[derive(Debug, Clone, PartialEq, Eq, Default)]
pub struct PlacementCertificate {
    /// Hash of the placement problem.
    pub problem_hash: u64,
    /// Hash of the compiled PDK placement oracle.
    pub pdk_oracle_hash: u64,
    /// The classified PDK readiness state (shared with routing).
    pub pdk_state: PdkState,
    /// The per-gate verdicts, in [`ACCEPTANCE_GATE_ORDER`].
    pub gates: Vec<GateEvaluation>,
    /// Per-class rule coverage of the compiled technology.
    pub coverage: RuleCoverageReport,
    /// Set when a required rule/model/deck was external, approximate or missing.
    pub degraded_confidence: bool,
    /// The structured degraded-confidence causes.
    pub degraded_causes: Vec<DegradedConfidenceCause>,
    /// The router-handoff witness.
    pub handoff: RouterHandoffWitness,
    /// The preserved unsatisfied core for failures.
    pub infeasible_core: Vec<PlacementConflict>,
    /// The solver path taken.
    pub solver_path: String,
    /// The replay seed.
    pub seed: Option<u64>,
}

/// The stub certificate, field by field: every gate `Degraded` in evaluation
/// order, each with its stub evidence and a `Missing`-coverage degraded cause,
/// the conservative `SparseResearch` PDK state, degraded confidence, zero
/// hashes and coverage, the empty router handoff, no conflict core, the
/// baseline solver path and no seed.
pub open spec fn is_stub_certificate(c: PlacementCertificate) -> bool {
    &&& c.gates@.len() == 6
    &&& forall|i: int| #![trigger c.gates@[i]]
        0 <= i < 6 ==> c.gates@[i].gate == gate_order()[i] && c.gates@[i].status
            == GateStatus::Degraded && c.gates@[i].evidence@ == stub_evidence(gate_order()[i])
    &&& c.degraded_causes@.len() == 6
    &&& forall|i: int| #![trigger c.degraded_causes@[i]]
        0 <= i < 6 ==> c.degraded_causes@[i].gate == gate_order()[i]
            && c.degraded_causes@[i].coverage == Coverage::Missing
            && c.degraded_causes@[i].reason@
            == "placement engine is a stub; no oracle evidence"@
    &&& c.pdk_state == PdkState::SparseResearch
    &&& c.degraded_confidence
    &&& c.problem_hash == 0 && c.pdk_oracle_hash == 0
    &&& c.coverage == zero_coverage()
    &&& c.handoff.note@ == "engine stub \u{2014} no access map"@
    &&& !c.handoff.has_access_map && c.handoff.reserved_channel_count == 0
        && c.handoff.terminal_count == 0 && c.handoff.host_pin_count == 0
        && c.handoff.obstruction_count == 0
    &&& c.infeasible_core@.len() == 0
    &&& c.solver_path@ == "baseline (stub)"@
    &&& c.seed is None
}

/// Every gate passed on coded evidence and the result is not degraded.
pub open spec fn signoff_quality(c: PlacementCertificate) -> bool {
    &&& !c.degraded_confidence
    &&& c.gates@.len() > 0
    &&& forall|i: int| 0 <= i < c.gates@.len() ==> #[trigger] c.gates@[i].status == GateStatus::Pass
}

/// The evidence text of a gate in the stub certificate.
pub open spec fn stub_evidence(g: AcceptanceGate) -> Seq<char> {
    gate_name(g)@ + ": engine stub \u{2014} gate not evaluated"@
}

impl PlacementCertificate {
    /// True iff every gate passed on coded evidence and the result is not
    /// degraded: a signoff-quality (readiness) claim.
    pub fn is_signoff_quality(&self) -> (b: bool)
        ensures
            b == signoff_quality(*self),
    {
        if self.degraded_confidence || self.gates.len() == 0 {
            return false;
        }
        let mut i: usize = 0;
        while i < self.gates.len()
            invariant
                i <= self.gates@.len(),
                forall|k: int| 0 <= k < i ==> #[trigger] self.gates@[k].status == GateStatus::Pass,
            decreases self.gates@.len() - i,
        {
            match self.gates[i].status {
                GateStatus::Pass => {},
                _ => {
                    return false;
                },
            }
            i = i + 1;
        }
        true
    }

    /// True iff no gate hard-failed: post-legalization acceptance.
    pub fn is_accepted(&self) -> (b: bool)
        ensures
            b == accepts(self.gates@, false),
    {
        evaluate_gate_acceptance(self.gates.as_slice(), false)
    }

    /// The stub certificate: every gate `Degraded` in evaluation order, each
    /// with its stub evidence and a `Missing`-coverage degraded cause, the
    /// conservative `SparseResearch` PDK state, and degraded confidence. It is
    /// accepted yet never signoff quality.
    pub fn stub() -> (c: PlacementCertificate)
        ensures
            is_stub_certificate(c),
            accepts(c.gates@, false),
            !signoff_quality(c),
    {
        let order = ACCEPTANCE_GATE_ORDER;
        let mut gates: Vec<GateEvaluation> = Vec::new();
        let mut causes: Vec<DegradedConfidenceCause> = Vec::new();
        let mut i: usize = 0;
        while i < 6
            invariant
                i <= 6,
                order@ == gate_order(),
                gates@.len() == i,
                causes@.len() == i,
                forall|k: int| #![trigger gates@[k]]
                    0 <= k < i ==> gates@[k].gate == gate_order()[k] && gates@[k].status
                        == GateStatus::Degraded && gates@[k].evidence@ == stub_evidence(gate_order()[k]),
                forall|k: int| #![trigger causes@[k]]
                    0 <= k < i ==> causes@[k].gate == gate_order()[k] && causes@[k].coverage
                        == Coverage::Missing && causes@[k].reason@
                        == "placement engine is a stub; no oracle evidence"@,
            decreases 6 - i,
        {
            let gate = order[i];
            let evidence = String::from_str(gate.name()).concat(
                ": engine stub \u{2014} gate not evaluated",
            );
            gates.push(GateEvaluation { gate, status: GateStatus::Degraded, evidence });
            causes.push(
                DegradedConfidenceCause {
                    gate,
                    reason: String::from_str("placement engine is a stub; no oracle evidence"),
                    coverage: Coverage::Missing,
                },
            );
            i = i + 1;
        }
        let c = PlacementCertificate {
            problem_hash: 0,
            pdk_oracle_hash: 0,
            pdk_state: PdkState::SparseResearch,
            gates,
            coverage: RuleCoverageReport::zero(),
            degraded_confidence: true,
            degraded_causes: causes,
            handoff: RouterHandoffWitness {
                has_access_map: false,
                reserved_channel_count: 0,
                terminal_count: 0,
                host_pin_count: 0,
                obstruction_count: 0,
                note: String::from_str("engine stub \u{2014} no access map"),
            },
            infeasible_core: Vec::new(),
            solver_path: String::from_str("baseline (stub)"),
            seed: None,
        };
        proof {
            assert forall|k: int| 0 <= k < c.gates@.len() implies #[trigger] gate_admits(
                c.gates@[k],
                false,
            ) by {}
        }
        c
    }
}

/// A signoff-quality certificate is accepted.
pub proof fn lemma_signoff_quality_accepted(c: PlacementCertificate)
    requires
        signoff_quality(c),
    ensures
        accepts(c.gates@, false),
{
    assert forall|i: int| 0 <= i < c.gates@.len() implies #[trigger] gate_admits(c.gates@[i], false) by {
        assert(c.gates@[i].status == GateStatus::Pass);
    }
}

/// Output of [`run_placement`].
#[derive(Debug, Clone, Default)]
pub struct PlacementResult {
    pub placed_count: usize,
    /// Whether the placer fell back to its baseline pass; needed by routing.
    pub baseline_used: bool,
    /// The evidence the placer emits alongside geometry.
    pub certificate: PlacementCertificate,
}

/// Stage oracle: place. Every device is placed by the baseline pass, with the
/// degraded stub certificate.
pub fn run_placement(input: &PlacementRunInput) -> (r: PlacementResult)
    ensures
        r.placed_count == input.device_count,
        r.baseline_used,
        is_stub_certificate(r.certificate),
        accepts(r.certificate.gates@, false),
        !signoff_quality(r.certificate),
{
    PlacementResult {
        placed_count: input.device_count,
        baseline_used: true,
        certificate: PlacementCertificate::stub(),
    }
}

// ---------------------------------------------------------------------------
// Routing vocabulary: coverage, PDK state, nets, hard vector, certificates
// ---------------------------------------------------------------------------

/// The rule-coverage class of a single PDK predicate.
#[derive(Debug, Clone, Copy, PartialEq, Eq, Hash, Default, Structural)]
pub enum Coverage {
    /// Fully encoded as an internal predicate.
    #[default]
    Coded,
    /// Encoded, but only for a subset of its dependencies.
    Partial,
    /// Modeled by a calibrated surrogate, not an exact rule.
    Approximate,
    /// Enforced only by an external engine.
    ExternalOnly,
    /// Must be checked by a human before tapeout.
    ManualReview,
    /// A guideline, not a hard rule.
    RecommendedOnly,
    /// Known to exist for this node but unsupported by the compiler.
    Unsupported,
    /// A required rule class that is absent from the PDK.
    Missing,
    /// The PDK states two mutually inconsistent rules.
    Contradictory,
}

/// The stable lowercase tag of a coverage class.
pub open spec fn coverage_tag(c: Coverage) -> &'static str {
    match c {
        Coverage::Coded => "coded",
        Coverage::Partial => "partial",
        Coverage::Approximate => "approximate",
        Coverage::ExternalOnly => "external-only",
        Coverage::ManualReview => "manual-review",
        Coverage::RecommendedOnly => "recommended-only",
        Coverage::Unsupported => "unsupported",
        Coverage::Missing => "missing",
        Coverage::Contradictory => "contradictory",
    }
}

impl Coverage {
    /// A stable lowercase tag for diagnostics and reports.
    pub fn tag(self) -> (t: &'static str)
        ensures
            t == coverage_tag(self),
    {
        match self {
            Coverage::Coded => "coded",
            Coverage::Partial => "partial",
            Coverage::Approximate => "approximate",
            Coverage::ExternalOnly => "external-only",
            Coverage::ManualReview => "manual-review",
            Coverage::RecommendedOnly => "recommended-only",
            Coverage::Unsupported => "unsupported",
            Coverage::Missing => "missing",
            Coverage::Contradictory => "contradictory",
        }
    }
}

/// The readiness state of a whole compiled PDK.
#[derive(Debug, Clone, Copy, PartialEq, Eq, Hash, Default, Structural)]
pub enum PdkState {
    /// All required classes coded; no manual-review or unsupported gaps.
    FullSignoff,
    /// Required classes present, some partial or external-only.
    AbstractComplete,
    /// Unsupported or manual-review rules dominate; the stub default.
    #[default]
    SparseResearch,
    /// Contradictory or missing required classes, or broken structure.
    ContradictoryOrMissing,
}

/// The analog intent class of a net.
#[derive(Debug, Clone, Copy, PartialEq, Eq, Hash, Default, Structural)]
pub enum NetClass {
    #[default]
    Ordinary,
    Critical,
    Sensitive,
    DifferentialPair,
    SelfSymmetric,
    MatchedArray,
    ExactMatch,
    PowerGround,
    RfMmwave,
    HighVoltage,
    GuardSubstrate,
}

/// Nets of this class are rerouted jointly with their group.
pub open spec fn grouped(c: NetClass) -> bool {
    c == NetClass::DifferentialPair || c == NetClass::SelfSymmetric || c == NetClass::MatchedArray
        || c == NetClass::ExactMatch
}

impl NetClass {
    /// Whether nets of this class must be rerouted jointly with their group.
    pub fn is_grouped(self) -> (b: bool)
        ensures
            b == grouped(self),
    {
        match self {
            NetClass::DifferentialPair | NetClass::SelfSymmetric | NetClass::MatchedArray
            | NetClass::ExactMatch => true,
            _ => false,
        }
    }
}

/// How trustworthy a terminal-access candidate is.
#[derive(Debug, Clone, Copy, PartialEq, Eq, Hash, Default, Structural)]
pub enum AccessConfidence {
    ExactPin,
    GeneratedPin,
    InferredPin,
    #[default]
    HeuristicPin,
}

/// The lexicographic hard-feasibility vector. Every component must reach zero
/// (and `invalid_pdk` be false) before any soft objective is compared.
#[derive(Debug, Clone, Copy, PartialEq, Eq, Default, Structural)]
pub struct HardVector {
    /// The PDK is contradictory/missing for a required route class.
    pub invalid_pdk: bool,
    /// Required terminals with no legal access candidate.
    pub missing_access: usize,
    /// DRC predicate violations.
    pub drc_violations: usize,
    /// LVS opens/shorts/mismatches on required nets.
    pub lvs_mismatches: usize,
    /// Required nets not yet routed.
    pub unrouted_required_nets: usize,
    /// Antenna/EM errors promoted to hard.
    pub unresolved_em_antenna_hard_errors: usize,
}

/// The vector in lexicographic priority order, `invalid_pdk` first as 0 or 1.
pub open spec fn priority(h: HardVector) -> Seq<usize> {
    seq![
        if h.invalid_pdk {
            1usize
        } else {
            0usize
        },
        h.missing_access,
        h.drc_violations,
        h.lvs_mismatches,
        h.unrouted_required_nets,
        h.unresolved_em_antenna_hard_errors,
    ]
}

/// Lexicographic `a <= b` on the entries from `i` on (sequences of one length).
pub open spec fn lex_le_from(a: Seq<usize>, b: Seq<usize>, i: int) -> bool
    decreases a.len() - i,
{
    if i < 0 || i >= a.len() || i >= b.len() {
        true
    } else if a[i] < b[i] {
        true
    } else if a[i] > b[i] {
        false
    } else {
        lex_le_from(a, b, i + 1)
    }
}

/// The route is in the feasible region: every hard level is satisfied.
pub open spec fn feasible(h: HardVector) -> bool {
    &&& !h.invalid_pdk
    &&& h.missing_access == 0
    &&& h.drc_violations == 0
    &&& h.lvs_mismatches == 0
    &&& h.unrouted_required_nets == 0
    &&& h.unresolved_em_antenna_hard_errors == 0
}

impl HardVector {
    /// True iff the route is in the feasible region (all hard levels satisfied).
    pub fn is_feasible(&self) -> (b: bool)
        ensures
            b == feasible(*self),
    {
        !self.invalid_pdk && self.missing_access == 0 && self.drc_violations == 0
            && self.lvs_mismatches == 0 && self.unrouted_required_nets == 0
            && self.unresolved_em_antenna_hard_errors == 0
    }

    /// The vector in lexicographic priority order.
    pub fn as_priority(&self) -> (p: [usize; 6])
        ensures
            p@ == priority(*self),
    {
        let pdk: usize = if self.invalid_pdk {
            1
        } else {
            0
        };
        let p = [
            pdk,
            self.missing_access,
            self.drc_violations,
            self.lvs_mismatches,
            self.unrouted_required_nets,
            self.unresolved_em_antenna_hard_errors,
        ];
        proof {
            assert(p@ =~= priority(*self));
        }
        p
    }

    /// Lexicographic "`self` is at least as feasible as `other`".
    pub fn lex_le(&self, other: &HardVector) -> (b: bool)
        ensures
            b == lex_le_from(priority(*self), priority(*other), 0),
    {
        let a = self.as_priority();
        let c = other.as_priority();
        let mut i: usize = 0;
        while i < 6
            invariant
                i <= 6,
                a@ == priority(*self),
                c@ == priority(*other),
                lex_le_from(a@, c@, i as int) == lex_le_from(a@, c@, 0),
            decreases 6 - i,
        {
            if a[i] < c[i] {
                return true;
            }
            if a[i] > c[i] {
                return false;
            }
            i = i + 1;
        }
        true
    }
}

proof fn lemma_lex_from(a: Seq<usize>, b: Seq<usize>, c: Seq<usize>, i: int)
    requires
        a.len() == b.len(),
        b.len() == c.len(),
        0 <= i <= a.len(),
    ensures
        lex_le_from(a, a, i),
        lex_le_from(a, b, i) || lex_le_from(b, a, i),
        lex_le_from(a, b, i) && lex_le_from(b, c, i) ==> lex_le_from(a, c, i),
        lex_le_from(a, b, i) && lex_le_from(b, a, i) ==> a.subrange(i, a.len() as int)
            == b.subrange(i, b.len() as int),
    decreases a.len() - i,
{
    if i < a.len() {
        lemma_lex_from(a, b, c, i + 1);
        if lex_le_from(a, b, i) && lex_le_from(b, a, i) {
            assert(a[i] == b[i]);
            assert(a.subrange(i, a.len() as int) =~= seq![a[i]] + a.subrange(i + 1, a.len() as int));
            assert(b.subrange(i, b.len() as int) =~= seq![b[i]] + b.subrange(i + 1, b.len() as int));
        }
    } else {
        assert(a.subrange(i, a.len() as int) =~= b.subrange(i, b.len() as int));
    }
}

/// The lexicographic order on hard vectors is a total preorder, and two
/// vectors each at least as feasible as the other have the same priorities.
pub proof fn lemma_lex_le_total_preorder(a: HardVector, b: HardVector, c: HardVector)
    ensures
        lex_le_from(priority(a), priority(a), 0),
        lex_le_from(priority(a), priority(b), 0) || lex_le_from(priority(b), priority(a), 0),
        lex_le_from(priority(a), priority(b), 0) && lex_le_from(priority(b), priority(c), 0)
            ==> lex_le_from(priority(a), priority(c), 0),
        lex_le_from(priority(a), priority(b), 0) && lex_le_from(priority(b), priority(a), 0)
            ==> priority(a) == priority(b),
{
    lemma_lex_from(priority(a), priority(b), priority(c), 0);
    assert(priority(a).subrange(0, 6) =~= priority(a));
    assert(priority(b).subrange(0, 6) =~= priority(b));
}

/// A feasible vector is at least as feasible as any other, and strictly more
/// feasible than any infeasible one.
pub proof fn lemma_feasible_ranks_first(a: HardVector, b: HardVector)
    requires
        feasible(a),
    ensures
        lex_le_from(priority(a), priority(b), 0),
        !feasible(b) ==> !lex_le_from(priority(b), priority(a), 0),
{
    reveal_with_fuel(lex_le_from, 7);
}

/// The proof form a hard gate carries in the certificate.
#[derive(Debug, Clone, PartialEq, Eq, Default)]
pub enum Evidence {
    /// An internal solver/oracle proof artifact.
    #[default]
    InternalProof,
    /// An external signoff report, recorded by content hash / path.
    ExternalReport { hash: String },
    /// A solver counterexample (a gate failed; this reproduces it).
    Counterexample { detail: String },
}

/// Per-class counts of rule coverage, in the legacy bucket spelling:
/// `partially_coded` is `Partial`, `lvs_only` and `signoff_only` together are
/// `ExternalOnly`.
#[derive(Debug, Clone, Copy, PartialEq, Eq, Default, Structural)]
pub struct RuleCoverageReport {
    pub coded: usize,
    pub partially_coded: usize,
    pub approximate: usize,
    pub lvs_only: usize,
    pub signoff_only: usize,
    pub recommended_only: usize,
    pub manual_review: usize,
    pub unsupported: usize,
    pub missing: usize,
    pub contradictory: usize,
}

/// The report with every count zero.
pub open spec fn zero_coverage() -> RuleCoverageReport {
    RuleCoverageReport {
        coded: 0,
        partially_coded: 0,
        approximate: 0,
        lvs_only: 0,
        signoff_only: 0,
        recommended_only: 0,
        manual_review: 0,
        unsupported: 0,
        missing: 0,
        contradictory: 0,
    }
}

/// The count for a canonical coverage class; `ExternalOnly` is the sum of the
/// `lvs_only` and `signoff_only` buckets.
pub open spec fn coverage_count(r: RuleCoverageReport, c: Coverage) -> int {
    match c {
        Coverage::Coded => r.coded as int,
        Coverage::Partial => r.partially_coded as int,
        Coverage::Approximate => r.approximate as int,
        Coverage::ExternalOnly => r.lvs_only + r.signoff_only,
        Coverage::ManualReview => r.manual_review as int,
        Coverage::RecommendedOnly => r.recommended_only as int,
        Coverage::Unsupported => r.unsupported as int,
        Coverage::Missing => r.missing as int,
        Coverage::Contradictory => r.contradictory as int,
    }
}

/// The coverage classes in the order of their tags.
pub open spec fn classes_by_tag() -> Seq<Coverage> {
    seq![
        Coverage::Approximate,
        Coverage::Coded,
        Coverage::Contradictory,
        Coverage::ExternalOnly,
        Coverage::ManualReview,
        Coverage::Missing,
        Coverage::Partial,
        Coverage::RecommendedOnly,
        Coverage::Unsupported,
    ]
}

impl RuleCoverageReport {
    /// The report with every count zero.
    pub fn zero() -> (r: RuleCoverageReport)
        ensures
            r == zero_coverage(),
    {
        RuleCoverageReport {
            coded: 0,
            partially_coded: 0,
            approximate: 0,
            lvs_only: 0,
            signoff_only: 0,
            recommended_only: 0,
            manual_review: 0,
            unsupported: 0,
            missing: 0,
            contradictory: 0,
        }
    }

    /// The count for a canonical [`Coverage`] class.
    pub fn count(&self, coverage: Coverage) -> (n: usize)
        requires
            self.lvs_only + self.signoff_only <= usize::MAX,
        ensures
            n == coverage_count(*self, coverage),
    {
        match coverage {
            Coverage::Coded => self.coded,
            Coverage::Partial => self.partially_coded,
            Coverage::Approximate => self.approximate,
            Coverage::ExternalOnly => self.lvs_only + self.signoff_only,
            Coverage::ManualReview => self.manual_review,
            Coverage::RecommendedOnly => self.recommended_only,
            Coverage::Unsupported => self.unsupported,
            Coverage::Missing => self.missing,
            Coverage::Contradictory => self.contradictory,
        }
    }

    /// The canonical `tag -> count` view of every coverage class, ordered by
    /// tag (the order of a sorted map).
    pub fn as_map(&self) -> (m: Vec<(&'static str, usize)>)
        requires
            self.lvs_only + self.signoff_only <= usize::MAX,
        ensures
            m@.len() == 9,
            forall|i: int| #![trigger m@[i]]
                0 <= i < 9 ==> m@[i].0 == coverage_tag(classes_by_tag()[i]) && m@[i].1
                    == coverage_count(*self, classes_by_tag()[i]),
    {
        let classes = vec![
            Coverage::Approximate,
            Coverage::Coded,
            Coverage::Contradictory,
            Coverage::ExternalOnly,
            Coverage::ManualReview,
            Coverage::Missing,
            Coverage::Partial,
            Coverage::RecommendedOnly,
            Coverage::Unsupported,
        ];
        proof {
            assert(classes@ =~= classes_by_tag());
        }
        let mut m: Vec<(&'static str, usize)> = Vec::new();
        let mut i: usize = 0;
        while i < 9
            invariant
                i <= 9,
                classes@ == classes_by_tag(),
                self.lvs_only + self.signoff_only <= usize::MAX,
                m@.len() == i,
                forall|k: int| #![trigger m@[k]]
                    0 <= k < i ==> m@[k].0 == coverage_tag(classes_by_tag()[k]) && m@[k].1
                        == coverage_count(*self, classes_by_tag()[k]),
            decreases 9 - i,
        {
            let c = classes[i];
            m.push((c.tag(), self.count(c)));
            i = i + 1;
        }
        m
    }
}

/// The class of a routing failure.
#[derive(Debug, Clone, Copy, PartialEq, Eq, Hash, Default, Structural)]
pub enum DiagnosticClass {
    NoLegalAccess,
    DisconnectedNet,
    DifferentNetShort,
    #[default]
    DrcViolation,
    ColorCutMaskStitch,
    AntennaOrEm,
    IrOrCurrentDensity,
    CrosstalkNoise,
    PexBound,
    ImpossibleConstraint,
    PdkContradiction,
    Timeout,
}

/// The repair scope a diagnosis implies.
#[derive(Debug, Clone, Copy, PartialEq, Eq, Hash, Default, Structural)]
pub enum DiagnosticScope {
    /// A local, repairable violation.
    #[default]
    LocalRepairable,
    /// A global infeasibility.
    GlobalInfeasible,
    /// A timeout without proof.
    UnprovenTimeout,
}

/// One typed routing diagnosis.
#[derive(Debug, Clone, PartialEq, Eq, Default)]
pub struct RouteDiagnostic {
    pub class: DiagnosticClass,
    pub scope: DiagnosticScope,
    /// A human-readable rendering.
    pub message: String,
    /// The implicated nets.
    pub nets: Vec<String>,
    /// The violated predicate IDs.
    pub predicates: Vec<String>,
}

/// The route certificate: hard vector, coverage, evidence per gate,
/// degraded-confidence marker and any unsatisfied core.
#[derive(Debug, Clone, PartialEq, Eq, Default)]
pub struct RouteCertificate {
    pub problem_hash: u64,
    pub pdk_oracle_hash: u64,
    pub pdk_state: PdkState,
    pub hard: HardVector,
    pub coverage: RuleCoverageReport,
    pub drc_evidence: Evidence,
    pub lvs_evidence: Evidence,
    pub connectivity_by_invariant: bool,
    pub degraded_confidence: bool,
    pub heuristic_access_nets: Vec<String>,
    pub infeasible_core: Vec<RouteDiagnostic>,
    pub seed: Option<u64>,
}

/// The stub route certificate, field by field: the `SparseResearch` PDK
/// state, degraded confidence, a clean hard vector, zero coverage and hashes,
/// internal evidence for DRC and LVS, connectivity not certified by the
/// invariant, no heuristic-access nets, no conflict core and no seed.
pub open spec fn is_route_stub(c: RouteCertificate) -> bool {
    &&& c.pdk_state == PdkState::SparseResearch
    &&& c.degraded_confidence
    &&& c.hard == clean_hard_vector()
    &&& c.coverage == zero_coverage()
    &&& c.problem_hash == 0 && c.pdk_oracle_hash == 0
    &&& c.drc_evidence == Evidence::InternalProof
    &&& c.lvs_evidence == Evidence::InternalProof
    &&& !c.connectivity_by_invariant
    &&& c.heuristic_access_nets@.len() == 0
    &&& c.infeasible_core@.len() == 0
    &&& c.seed is None
}

/// The hard vector with every level satisfied.
pub open spec fn clean_hard_vector() -> HardVector {
    HardVector {
        invalid_pdk: false,
        missing_access: 0,
        drc_violations: 0,
        lvs_mismatches: 0,
        unrouted_required_nets: 0,
        unresolved_em_antenna_hard_errors: 0,
    }
}

impl RouteCertificate {
    /// True iff the route is feasible and not degraded: signoff quality.
    pub fn is_signoff_clean(&self) -> (b: bool)
        ensures
            b == (feasible(self.hard) && !self.degraded_confidence),
    {
        self.hard.is_feasible() && !self.degraded_confidence
    }

    /// The stub certificate: feasible-shaped (a clean hard vector, internal
    /// evidence, nothing proven wrong) but degraded-confidence, with the
    /// `SparseResearch` PDK state; never signoff clean.
    pub fn stub() -> (c: RouteCertificate)
        ensures
            is_route_stub(c),
            feasible(c.hard),
            !(feasible(c.hard) && !c.degraded_confidence),
    {
        RouteCertificate {
            problem_hash: 0,
            pdk_oracle_hash: 0,
            pdk_state: PdkState::SparseResearch,
            hard: HardVector {
                invalid_pdk: false,
                missing_access: 0,
                drc_violations: 0,
                lvs_mismatches: 0,
                unrouted_required_nets: 0,
                unresolved_em_antenna_hard_errors: 0,
            },
            coverage: RuleCoverageReport::zero(),
            drc_evidence: Evidence::InternalProof,
            lvs_evidence: Evidence::InternalProof,
            connectivity_by_invariant: false,
            degraded_confidence: true,
            heuristic_access_nets: Vec::new(),
            infeasible_core: Vec::new(),
            seed: None,
        }
    }
}

// ---------------------------------------------------------------------------
// Hints, route quality, routing and the whole flow
// ---------------------------------------------------------------------------

/// Solver hints gathered by a configuration closure: a replay seed, fixed
/// positions and arrangement requests. They are recorded, not yet acted on.
/// Positions are lengths in meters carried as the bit patterns of IEEE-754
/// doubles (`f64::to_bits`).
#[derive(Debug, Clone)]
pub struct HintBuilder {
    seed: Option<u64>,
    fixed: Vec<(String, u64)>,
    arrangements: Vec<(Vec<String>, Strategy)>,
}

impl HintBuilder {
    /// The replay seed, if set.
    pub closed spec fn spec_seed(&self) -> Option<u64> {
        self.seed
    }

    /// How many fixed positions were recorded.
    pub closed spec fn spec_fixed_count(&self) -> nat {
        self.fixed@.len()
    }

    /// How many arrangements were recorded.
    pub closed spec fn spec_arrangement_count(&self) -> nat {
        self.arrangements@.len()
    }

    /// No hint at all.
    pub fn new() -> (h: HintBuilder)
        ensures
            h.spec_seed() is None,
            h.spec_fixed_count() == 0,
            h.spec_arrangement_count() == 0,
    {
        HintBuilder { seed: None, fixed: Vec::new(), arrangements: Vec::new() }
    }

    /// Set the replay seed.
    pub fn seed(&mut self, seed: u64) -> (r: &mut HintBuilder)
        ensures
            r.spec_seed() == Some(seed),
            r.spec_fixed_count() == old(self).spec_fixed_count(),
            r.spec_arrangement_count() == old(self).spec_arrangement_count(),
            *final(self) == *final(r),
    {
        self.seed = Some(seed);
        self
    }

    /// Pin a device at `(x, y)` (meters, as `f64` bit patterns); the x
    /// coordinate is recorded.
    pub fn fix_position(&mut self, device: &str, x: u64, y: u64) -> (r: &mut HintBuilder)
        ensures
            r.spec_seed() == old(self).spec_seed(),
            r.spec_fixed_count() == old(self).spec_fixed_count() + 1,
            r.spec_arrangement_count() == old(self).spec_arrangement_count(),
            *final(self) == *final(r),
    {
        self.fixed.push((String::from_str(device), x));
        self
    }

    /// Ask for `devices` to be arranged with `strategy`.
    pub fn arrange(&mut self, devices: &[&str], strategy: Strategy) -> (r: &mut HintBuilder)
        ensures
            r.spec_seed() == old(self).spec_seed(),
            r.spec_fixed_count() == old(self).spec_fixed_count(),
            r.spec_arrangement_count() == old(self).spec_arrangement_count() + 1,
            *final(self) == *final(r),
    {
        let mut names: Vec<String> = Vec::new();
        let mut i: usize = 0;
        while i < devices.len()
            invariant
                i <= devices@.len(),
            decreases devices@.len() - i,
        {
            names.push(String::from_str(devices[i]));
            i = i + 1;
        }
        self.arrangements.push((names, strategy));
        self
    }

    /// The replay seed, if set.
    pub fn seed_value(&self) -> (s: Option<u64>)
        ensures
            s == self.spec_seed(),
    {
        self.seed
    }

    /// How many fixed positions were recorded.
    pub fn fixed_count(&self) -> (n: usize)
        ensures
            n == self.spec_fixed_count(),
    {
        self.fixed.len()
    }

    /// How many arrangements were recorded.
    pub fn arrangement_count(&self) -> (n: usize)
        ensures
            n == self.spec_arrangement_count(),
    {
        self.arrangements.len()
    }
}

impl Default for HintBuilder {
    fn default() -> (h: HintBuilder)
        ensures
            h.spec_seed() is None,
            h.spec_fixed_count() == 0,
            h.spec_arrangement_count() == 0,
    {
        HintBuilder::new()
    }
}

/// The bit pattern of the `f64` positive infinity.
pub const F64_INFINITY_BITS: u64 = 0x7ff0000000000000u64;

/// Signoff and parasitic facts of a route, reported directly rather than as
/// one score. Real-valued facts are carried as the bit patterns of IEEE-754
/// doubles (`f64::to_bits`).
#[derive(Debug, Clone, Copy, PartialEq, Eq, Structural)]
pub struct RouteQuality {
    pub drc_violation_count: usize,
    pub lvs_clean: bool,
    pub routed_required_net_ratio: u64,
    pub total_r_ohm: u64,
    pub total_c_ff: u64,
    pub total_coupling_ff: u64,
    pub via_count: usize,
    pub max_ir_drop_mv: u64,
    pub em_margin_min: u64,
    pub max_crosstalk_noise_mv: u64,
    pub max_length_match_delta_nm: i64,
    pub max_diff_pair_skew_nm: i64,
    pub min_area_patch_count: usize,
    pub manual_review_rule_count: usize,
    pub lvs_only_rule_count: usize,
    pub signoff_only_rule_count: usize,
    pub degraded_confidence: bool,
}

/// The quality of an empty route: no violation, LVS clean, every real fact
/// `0.0` except an infinite EM margin, not degraded.
pub open spec fn default_route_quality() -> RouteQuality {
    RouteQuality {
        drc_violation_count: 0,
        lvs_clean: true,
        routed_required_net_ratio: 0,
        total_r_ohm: 0,
        total_c_ff: 0,
        total_coupling_ff: 0,
        via_count: 0,
        max_ir_drop_mv: 0,
        em_margin_min: F64_INFINITY_BITS,
        max_crosstalk_noise_mv: 0,
        max_length_match_delta_nm: 0,
        max_diff_pair_skew_nm: 0,
        min_area_patch_count: 0,
        manual_review_rule_count: 0,
        lvs_only_rule_count: 0,
        signoff_only_rule_count: 0,
        degraded_confidence: false,
    }
}

impl Default for RouteQuality {
    fn default() -> (q: RouteQuality)
        ensures
            q == default_route_quality(),
    {
        RouteQuality {
            drc_violation_count: 0,
            lvs_clean: true,
            routed_required_net_ratio: 0,
            total_r_ohm: 0,
            total_c_ff: 0,
            total_coupling_ff: 0,
            via_count: 0,
            max_ir_drop_mv: 0,
            em_margin_min: F64_INFINITY_BITS,
            max_crosstalk_noise_mv: 0,
            max_length_match_delta_nm: 0,
            max_diff_pair_skew_nm: 0,
            min_area_patch_count: 0,
            manual_review_rule_count: 0,
            lvs_only_rule_count: 0,
            signoff_only_rule_count: 0,
            degraded_confidence: false,
        }
    }
}

/// Output of [`run_routing`]: a geometry summary, the quality facts, the
/// route certificate and typed diagnoses.
#[derive(Debug, Clone)]
pub struct RoutingResult {
    /// Count of emitted routed segments.
    pub routed_segments: usize,
    /// Signoff and parasitic facts.
    pub quality: RouteQuality,
    /// The route certificate.
    pub certificate: RouteCertificate,
    /// Typed diagnoses (empty on a clean run).
    pub diagnostics: Vec<RouteDiagnostic>,
}

/// Stage oracle: route. No geometry, the degraded stub certificate, and a
/// quality record marked degraded.
pub fn run_routing(input: &RoutingRunInput) -> (r: RoutingResult)
    ensures
        r.routed_segments == 0,
        r.quality == (RouteQuality { degraded_confidence: true, ..default_route_quality() }),
        is_route_stub(r.certificate),
        r.diagnostics@.len() == 0,
{
    let q = RouteQuality::default();
    RoutingResult {
        routed_segments: 0,
        quality: RouteQuality { degraded_confidence: true, ..q },
        certificate: RouteCertificate::stub(),
        diagnostics: Vec::new(),
    }
}

/// The three stage outputs, kept apart so that even the one-shot path shows
/// the decomposition.
#[derive(Debug, Clone)]
pub struct FlowResult {
    pub constraints: ConstraintResult,
    pub placement: PlacementResult,
    pub routing: RoutingResult,
}

/// What the stages report for a netlist of `n` devices.
pub open spec fn flow_shape(f: FlowResult, n: int) -> bool {
    &&& f.constraints.honored == n
    &&& f.constraints.unsupported == 0
    &&& f.placement.placed_count == n
    &&& f.placement.baseline_used
    &&& is_stub_certificate(f.placement.certificate)
    &&& !signoff_quality(f.placement.certificate)
    &&& f.routing.routed_segments == 0
    &&& f.routing.quality == (RouteQuality { degraded_confidence: true, ..default_route_quality() })
    &&& is_route_stub(f.routing.certificate)
    &&& f.routing.diagnostics@.len() == 0
}

/// Run all three stages over a netlist: an empty netlist is an error;
/// otherwise every device is constrained and placed, and routing gets the
/// placement's baseline flag.
pub fn run_flow(netlist: &SpiceNetlist, cfg: RunConfig) -> (r: Result<FlowResult, crate::error::ApiError>)
    requires
        device_total(netlist@) <= usize::MAX,
    ensures
        device_total(netlist@) == 0 <==> r is Err,
        match r {
            Ok(f) => flow_shape(f, device_total(netlist@)),
            Err(e) => e == crate::error::ApiError::EmptyNetlist,
        },
{
    let n = netlist.device_count();
    if n == 0 {
        return Err(crate::error::ApiError::EmptyNetlist);
    }
    let constraints = run_constraints(&ConstraintRunInput { device_count: n });
    let placement = run_placement(&PlacementRunInput { device_count: n });
    let routing = run_routing(&RoutingRunInput { net_count: n, baseline_used: placement.baseline_used });
    Ok(FlowResult { constraints, placement, routing })
}

} // verus!
