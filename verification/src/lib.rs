//! Philis: an analog layout engine library with verified geometry, design-rule
//! predicates, connectivity extraction, netlist reading and flow bookkeeping.
use vstd::prelude::*;

pub mod bench;
pub mod builder;
pub mod checks;
pub mod coverage;
pub mod drc;
pub mod engine;
pub mod error;
pub mod extract;
pub mod flow;
pub mod gds;
pub mod geom;
pub mod parsed;
pub mod pdk;
pub mod pex;
pub mod port;
pub mod predicates;
pub mod layout;
pub mod lvs;
pub mod quick;
pub mod roundtrip;
pub mod seqs;
pub mod spice;
pub mod text;
pub mod uf;
pub mod units;
pub mod utility;

verus! {

} // verus!

pub use bench::{synthetic_quick_netlist, synthetic_spice};
pub use builder::{
    ApiBuildError, BuildError, BuildResult, BuildWarning, BuiltCircuit, CircuitDef, DeviceBuilder,
    NetBuilder,
};
pub use checks::{CheckKind, CheckReport};
pub use engine::{
    constraint_input, evaluate_gate_acceptance, run_constraints, run_flow, run_placement, run_routing,
    AccessConfidence, FlowResult, HintBuilder, RouteQuality, RoutingResult,
    AcceptanceGate, ConflictClass, Constraint, ConstraintResult, ConstraintRunInput, Coverage,
    DegradedConfidenceCause, DiagnosticClass, DiagnosticScope, Evidence, GateEvaluation,
    GateStatus, HardVector, IntentClass, NetClass, Objective, PdkState, PlacementCertificate,
    PlacementConflict, PlacementResult, PlacementRunInput, RouteCertificate, RouteDiagnostic,
    RouterHandoffWitness, RoutingRunInput, RuleCoverageReport, RunConfig, Strategy,
    ACCEPTANCE_GATE_ORDER,
};
pub use error::ApiError;
pub use flow::{Circuit, Constraints, Placed};
pub use gds::{Gds, GdsError};
pub use layout::{Layout, PlacedInstance, Violation};
pub use pdk::{Pdk, PdkFormat};
pub use port::{
    port_ref_from_name, valid_port_names, BjtPort, DeviceKind, MosfetPort, PassivePort, PortRef,
};
pub use quick::{extent_fits_input, parse, place_and_route, Cell};
pub use spice::SpiceNetlist;
pub use units::{parse_axis, Axis, Coord, Distance};
