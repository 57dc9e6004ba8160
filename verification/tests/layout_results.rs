use philis::{
    constraint_input, run_constraints, run_placement, run_routing, Circuit, ConstraintRunInput, Pdk,
    PlacedInstance, PlacementRunInput, RoutingRunInput, RunConfig, SpiceNetlist, Strategy,
    Violation,
};

fn solved() -> philis::Layout {
    Circuit::from_spice_str("m1 d g s b nmos\nm2 d g s b nmos\n")
        .unwrap()
        .analyze(&Pdk::from_json_str("{}").unwrap())
        .unwrap()
        .place(RunConfig::default())
        .unwrap()
        .route(RunConfig::default())
        .unwrap()
}

#[test]
fn layout_inspectors_in_facade_terms() {
    let l = solved();
    assert_eq!(l.width(), 0);
    assert_eq!(l.height(), 0);
    assert_eq!(l.area(), 0);
    assert!(l.lvs_clean());
    assert_eq!(l.violations(), Vec::<Violation>::new());
    assert_eq!(l.placed_count(), 2);
    assert_eq!(l.routed_segment_count(), 0);
    assert_eq!(l.instances(), Vec::<PlacedInstance>::new());
    assert!(!l.is_signoff_quality());
    assert!(!l.router_handoff().has_access_map);
    assert_eq!(l.gds().cell_count(), 0);
}

#[test]
fn layout_flow_is_the_labeled_escape_hatch() {
    let l = solved();
    let flow = l.flow();
    assert_eq!(flow.placement.placed_count, 2);
    assert_eq!(flow.constraints.honored, 2);
    assert!(flow.routing.quality.degraded_confidence);
    assert_eq!(flow.routing.quality.em_margin_min, f64::INFINITY.to_bits());
}

#[test]
fn tier2_oracles_are_directly_callable() {
    let c = run_constraints(&ConstraintRunInput { device_count: 4 });
    assert_eq!(c.honored, 4);

    let p = run_placement(&PlacementRunInput { device_count: 4 });
    assert_eq!(p.placed_count, 4);
    assert!(p.baseline_used);

    let r = run_routing(&RoutingRunInput {
        net_count: 4,
        baseline_used: p.baseline_used,
    });
    assert_eq!(r.routed_segments, 0);
}


#[test]
fn constraint_input_derives_from_netlist() {
    let nl = SpiceNetlist::from_devices(vec!["a".into(), "b".into(), "c".into()]);
    assert_eq!(nl.top_device_count(), 3);
    assert!(!nl.top_is_empty());
    let input = constraint_input(&nl);
    assert_eq!(input.device_count, 3);
}

#[test]
fn placed_instance_and_violation_are_constructible() {
    let v = Violation {
        message: "spacing < min".into(),
    };
    assert!(v.message.contains("spacing"));
    let inst = PlacedInstance {
        name: "M1".into(),
        x: philis::Coord::nm(0),
        y: philis::Coord::nm(0),
    };
    assert_eq!(inst.name, "M1");
    let _ = Strategy::Grid.name();
}

#[test]
fn strategy_names() {
    assert_eq!(Strategy::CommonCentroid.name(), "common-centroid");
    assert_eq!(Strategy::GuardRingEnclosed.name(), "guard-ring-enclosed");
}
