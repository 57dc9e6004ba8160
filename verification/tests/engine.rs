use philis::engine::{
    evaluate_gate_acceptance, run_placement, AcceptanceGate, ConflictClass, Constraint, Coverage,
    GateEvaluation, GateStatus, HardVector, IntentClass, NetClass, PdkState, PlacementCertificate,
    PlacementRunInput, RouteCertificate, RuleCoverageReport, ACCEPTANCE_GATE_ORDER,
};
use philis::units::{Axis, Coord};

#[test]
fn acceptance_gate_order_is_the_realized_order() {
    // G0 first, intent last; LocalDrc deliberately precedes DeviceEquivalence.
    assert_eq!(ACCEPTANCE_GATE_ORDER[0], AcceptanceGate::TechnologyCoverage);
    assert_eq!(ACCEPTANCE_GATE_ORDER[5], AcceptanceGate::IntentSatisfaction);
    let drc = ACCEPTANCE_GATE_ORDER
        .iter()
        .position(|g| *g == AcceptanceGate::LocalDrc)
        .unwrap();
    let equiv = ACCEPTANCE_GATE_ORDER
        .iter()
        .position(|g| *g == AcceptanceGate::DeviceEquivalence)
        .unwrap();
    assert!(drc < equiv);
}

#[test]
fn only_local_drc_and_intent_are_repairable() {
    assert!(AcceptanceGate::LocalDrc.is_repairable());
    assert!(AcceptanceGate::IntentSatisfaction.is_repairable());
    assert!(!AcceptanceGate::TechnologyCoverage.is_repairable());
    assert!(!AcceptanceGate::DeviceEquivalence.is_repairable());
    assert!(!AcceptanceGate::TerminalAccess.is_repairable());
    assert!(!AcceptanceGate::Routability.is_repairable());
}

#[test]
fn repairable_failure_policy() {
    let fail = |gate| GateEvaluation {
        gate,
        status: GateStatus::Fail,
        evidence: String::new(),
    };
    // A repairable gate failing is accepted pre-legalization, rejected after.
    let local = [fail(AcceptanceGate::LocalDrc)];
    assert!(evaluate_gate_acceptance(&local, true));
    assert!(!evaluate_gate_acceptance(&local, false));
    // A non-repairable gate failing is rejected in both modes.
    let access = [fail(AcceptanceGate::TerminalAccess)];
    assert!(!evaluate_gate_acceptance(&access, true));
    assert!(!evaluate_gate_acceptance(&access, false));
}

#[test]
fn stub_certificate_is_honest() {
    let cert = PlacementCertificate::stub();
    // Feasible-shaped (no hard fail) but never signoff-quality.
    assert!(cert.is_accepted());
    assert!(!cert.is_signoff_quality());
    assert!(cert.degraded_confidence);
    assert_eq!(cert.pdk_state, PdkState::SparseResearch);
    assert_eq!(cert.gates.len(), ACCEPTANCE_GATE_ORDER.len());
    assert!(cert.gates.iter().all(|g| g.status == GateStatus::Degraded));
}

#[test]
fn run_placement_emits_the_degraded_stub_certificate() {
    let p = run_placement(&PlacementRunInput { device_count: 3 });
    assert_eq!(p.placed_count, 3);
    assert!(!p.certificate.is_signoff_quality());
    assert!(p.certificate.degraded_confidence);
}

#[test]
fn intent_class_maps_the_constraint_taxonomy() {
    assert_eq!(
        Constraint::Symmetric("a".into(), "b".into()).intent_class(),
        IntentClass::Hard
    );
    assert_eq!(
        Constraint::Matching("a".into(), "b".into()).intent_class(),
        IntentClass::Bounded
    );
    assert_eq!(
        Constraint::NetShield("n".into()).intent_class(),
        IntentClass::Soft
    );
    // An engine-unsupported variant lowers to Unsupported, never dropped.
    let unsupported = Constraint::FixPosition("a".into(), Coord::new(0), Coord::new(0));
    assert!(!unsupported.is_engine_supported());
    assert_eq!(unsupported.intent_class(), IntentClass::Unsupported);
    assert_eq!(
        Constraint::Align(vec!["a".into()], Axis::X).intent_class(),
        IntentClass::Hard
    );
}

#[test]
fn conflict_class_is_blamed_against_the_right_gate() {
    assert_eq!(
        ConflictClass::CoverageGap.gate(),
        AcceptanceGate::TechnologyCoverage
    );
    assert_eq!(
        ConflictClass::TerminalAccess.gate(),
        AcceptanceGate::TerminalAccess
    );
    assert_eq!(
        ConflictClass::IntentViolation.gate(),
        AcceptanceGate::IntentSatisfaction
    );
}

#[test]
fn default_hard_vector_is_feasible() {
    assert!(HardVector::default().is_feasible());
}

#[test]
fn hard_vector_lexicographic_order() {
    let clean = HardVector::default();
    let one_drc = HardVector {
        drc_violations: 1,
        ..Default::default()
    };
    let one_lvs = HardVector {
        lvs_mismatches: 1,
        ..Default::default()
    };
    // A clean route is strictly more feasible than any with a hard violation.
    assert!(clean.lex_le(&one_drc));
    assert!(!one_drc.lex_le(&clean));
    // DRC=0 (Level 1) is gated before LVS (Level 2): a route that clears DRC
    // but fails LVS ranks *better* than one that still fails DRC.
    assert!(one_lvs.lex_le(&one_drc));
    assert!(!one_drc.lex_le(&one_lvs));
}

#[test]
fn core_stub_certificate_is_honest() {
    let cert = RouteCertificate::stub();
    // Feasible-shaped (nothing proven-wrong) but not signoff-clean.
    assert!(cert.hard.is_feasible());
    assert!(!cert.is_signoff_clean());
    assert!(cert.degraded_confidence);
    assert_eq!(cert.pdk_state, PdkState::SparseResearch);
}

#[test]
fn coverage_external_only_sums_legacy_buckets() {
    let r = RuleCoverageReport {
        lvs_only: 2,
        signoff_only: 3,
        ..Default::default()
    };
    assert_eq!(r.count(Coverage::ExternalOnly), 5);
}

#[test]
fn grouped_net_classes_route_jointly() {
    assert!(NetClass::DifferentialPair.is_grouped());
    assert!(!NetClass::Ordinary.is_grouped());
}

#[test]
fn stub_evidence_names_each_gate() {
    let cert = PlacementCertificate::stub();
    assert_eq!(
        cert.gates[1].evidence,
        "LocalDrc: engine stub \u{2014} gate not evaluated"
    );
    assert_eq!(cert.degraded_causes.len(), 6);
    assert!(cert.degraded_causes.iter().all(|c| c.coverage == Coverage::Missing));
    assert_eq!(cert.solver_path, "baseline (stub)");
}

#[test]
fn coverage_map_is_sorted_by_tag() {
    let r = RuleCoverageReport { coded: 4, lvs_only: 1, signoff_only: 1, ..Default::default() };
    let m = r.as_map();
    assert_eq!(m.len(), 9);
    assert_eq!(m[0], ("approximate", 0));
    assert_eq!(m[1], ("coded", 4));
    assert_eq!(m[3], ("external-only", 2));
    let mut tags: Vec<&str> = m.iter().map(|p| p.0).collect();
    let sorted = { let mut t = tags.clone(); t.sort(); t };
    assert_eq!(tags, sorted);
    tags.dedup();
    assert_eq!(tags.len(), 9);
}

#[test]
fn signoff_quality_needs_passing_gates_and_confidence() {
    let mut cert = PlacementCertificate::stub();
    for g in cert.gates.iter_mut() {
        g.status = GateStatus::Pass;
    }
    assert!(!cert.is_signoff_quality());
    cert.degraded_confidence = false;
    assert!(cert.is_signoff_quality());
    assert!(cert.is_accepted());
    cert.gates[2].status = GateStatus::Fail;
    assert!(!cert.is_accepted());
}

#[test]
fn as_priority_lists_levels_in_order() {
    let h = HardVector { invalid_pdk: true, lvs_mismatches: 4, ..Default::default() };
    assert_eq!(h.as_priority(), [1, 0, 0, 4, 0, 0]);
    assert!(!h.is_feasible());
    assert!(HardVector::default().lex_le(&h));
}

