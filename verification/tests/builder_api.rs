use philis::{ApiError, HintBuilder, Objective, Pdk, Strategy};
use philis::{
    BuildError, BuildResult, BuildWarning, CircuitDef, Constraint, DeviceKind, MosfetPort,
    PassivePort,
};

#[test]
fn every_device_kind_builds() {
    let built = CircuitDef::new()
        .nmos("M1", |d| d.nf(1))
        .pmos("M2", |d| d)
        .resistor("R1", |d| d)
        .capacitor("C1", |d| d)
        .bjt("Q1", |d| d)
        .diode("D1", |d| d)
        .generic("X1", |d| d)
        .build()
        .unwrap();
    assert_eq!(built.device_count(), 7);
    assert_eq!(built.net_count(), 0);
    assert!(built.netlist().device_count() == 7);
}

#[test]
fn device_builder_reports_kind() {
    CircuitDef::new().nmos("M1", |d| {
        assert_eq!(d.device_kind(), Some(DeviceKind::Nmos));
        d
    });
}

#[test]
fn nets_and_connection_counting() {
    let built = CircuitDef::new()
        .nmos("M1", |d| d)
        .nmos("M2", |d| d)
        .net("GATE", |n| {
            assert_eq!(n.connection_count(), 0);
            n.connect("M1", MosfetPort::Gate).connect("M2", MosfetPort::Gate)
        })
        .build()
        .unwrap();
    assert_eq!(built.net_count(), 1);
}

#[test]
fn duplicate_device_is_error() {
    let err = CircuitDef::new()
        .nmos("M1", |d| d)
        .nmos("M1", |d| d)
        .build()
        .unwrap_err();
    assert!(err.contains(|e| matches!(e, BuildError::DuplicateDevice(n) if n == "M1")));
    assert_eq!(err.errors().len(), 1);
    assert!(!err.message().is_empty());
}

#[test]
fn duplicate_net_is_error() {
    let err = CircuitDef::new()
        .nmos("M1", |d| d)
        .net("N", |n| n.connect("M1", MosfetPort::Gate))
        .net("N", |n| n.connect("M1", MosfetPort::Drain))
        .build()
        .unwrap_err();
    assert!(err.contains(|e| matches!(e, BuildError::DuplicateNet(_))));
}

#[test]
fn connect_to_unknown_device_is_error() {
    let err = CircuitDef::new()
        .nmos("M1", |d| d)
        .net("N", |n| n.connect("GHOST", MosfetPort::Gate))
        .build()
        .unwrap_err();
    assert!(err.contains(|e| matches!(e, BuildError::UnknownDevice(n) if n == "GHOST")));
}

#[test]
fn terminal_conflict_is_error() {
    let err = CircuitDef::new()
        .nmos("M1", |d| d)
        .nmos("M2", |d| d)
        .net("A", |n| n.connect("M1", MosfetPort::Gate).connect("M2", MosfetPort::Gate))
        .net("B", |n| n.connect("M1", MosfetPort::Gate).connect("M2", MosfetPort::Drain))
        .build()
        .unwrap_err();
    assert!(err.contains(
        |e| matches!(e, BuildError::TerminalConflict { device, .. } if device == "M1")
    ));
}

#[test]
fn floating_net_is_a_warning_not_an_error() {
    let built = CircuitDef::new()
        .nmos("M1", |d| d)
        .net("DANGLE", |n| n.connect("M1", MosfetPort::Gate))
        .build()
        .unwrap();
    assert!(built
        .warnings()
        .iter()
        .any(|w| matches!(w, BuildWarning::FloatingNet(n) if n == "DANGLE")));
}

#[test]
fn unsupported_constraint_warns_instead_of_silently_dropping() {
    let built = CircuitDef::new()
        .nmos("M1", |d| d)
        .nmos("M2", |d| d)
        .net("G", |n| n.connect("M1", MosfetPort::Gate).connect("M2", MosfetPort::Gate))
        .constrain(Constraint::Symmetric("M1".into(), "M2".into()))
        .constrain(Constraint::DoNotRoute("VDD".into()))
        .build()
        .unwrap();
    let unsupported: Vec<_> = built
        .warnings()
        .iter()
        .filter_map(|w| match w {
            BuildWarning::UnsupportedConstraint(k) => Some(*k),
            _ => None,
        })
        .collect();
    assert_eq!(unsupported, vec!["DoNotRoute"]);
    assert_eq!(built.constraints().len(), 2);
}

#[test]
fn constraint_referencing_unknown_device_is_error() {
    let err = CircuitDef::new()
        .nmos("M1", |d| d)
        .constrain(Constraint::Symmetric("M1".into(), "GHOST".into()))
        .build()
        .unwrap_err();
    assert!(err.contains(|e| matches!(e, BuildError::UnknownDevice(n) if n == "GHOST")));
}

#[test]
fn passive_ports_connect() {
    CircuitDef::new()
        .resistor("R1", |d| d)
        .net("P", |n| n.connect("R1", PassivePort::Plus))
        .net("M", |n| n.connect("R1", PassivePort::Minus))
        .build()
        .unwrap();
}

#[test]
fn build_result_is_constructible() {
    let circuit = CircuitDef::new().nmos("M1", |d| d).build().unwrap();
    let warnings = circuit.warnings().to_vec();
    let r = BuildResult { circuit, warnings };
    assert_eq!(r.circuit.device_count(), 1);
    assert_eq!(r.warnings.len(), r.circuit.warnings().len());
}

#[test]
fn validation_errors_come_in_order() {
    let err = CircuitDef::new()
        .nmos("M1", |d| d)
        .nmos("M1", |d| d)
        .net("N", |n| n.connect("X", MosfetPort::Gate))
        .net("N", |n| n)
        .constrain(Constraint::Matching("M1".into(), "Y".into()))
        .build()
        .unwrap_err();
    assert_eq!(
        err.errors(),
        &[
            BuildError::DuplicateDevice("M1".to_string()),
            BuildError::DuplicateNet("N".to_string()),
            BuildError::UnknownDevice("X".to_string()),
            BuildError::UnknownDevice("Y".to_string()),
        ]
    );
    assert_eq!(err.message(), "circuit validation failed: 4 error(s)");
}

#[test]
fn terminal_conflict_names_both_nets() {
    let err = CircuitDef::new()
        .nmos("M1", |d| d)
        .net("A", |n| n.connect("M1", MosfetPort::Source))
        .net("B", |n| n.connect("M1", MosfetPort::Source))
        .build()
        .unwrap_err();
    assert_eq!(
        err.errors(),
        &[BuildError::TerminalConflict {
            device: "M1".to_string(),
            port: "source".to_string(),
            net_a: "A".to_string(),
            net_b: "B".to_string(),
        }]
    );
}

#[test]
fn same_net_twice_on_one_terminal_is_no_conflict() {
    let built = CircuitDef::new()
        .nmos("M1", |d| d)
        .nmos("M2", |d| d)
        .net("A", |n| {
            n.connect("M1", MosfetPort::Gate)
                .connect("M1", MosfetPort::Gate)
                .connect("M2", MosfetPort::Gate)
        })
        .build()
        .unwrap();
    assert!(built.warnings().is_empty());
}

#[test]
fn solve_and_solve_with_hints() {
    let pdk = Pdk::from_json_str("{}").unwrap();
    let built = CircuitDef::new()
        .nmos("M1", |d| d)
        .nmos("M2", |d| d)
        .build()
        .unwrap();

    let l1 = built.solve(&pdk, Objective::Area).unwrap();
    assert_eq!(l1.placed_count(), 2);

    let l2 = built
        .solve_with(&pdk, Objective::Speed, |h: &mut HintBuilder| {
            h.seed(7)
                .fix_position("M1", 0f64.to_bits(), 0f64.to_bits())
                .arrange(&["M1", "M2"], Strategy::CommonCentroid);
        })
        .unwrap();
    assert_eq!(l2.placed_count(), 2);
}

#[test]
fn hints_are_recorded() {
    let mut h = HintBuilder::new();
    assert_eq!(h.seed_value(), None);
    h.seed(3).fix_position("M1", 0, 0).arrange(&["A", "B"], Strategy::Grid);
    assert_eq!(h.seed_value(), Some(3));
    assert_eq!(h.fixed_count(), 1);
    assert_eq!(h.arrangement_count(), 1);
}

#[test]
fn empty_circuit_does_not_solve() {
    let built = CircuitDef::new().build().unwrap();
    let pdk = Pdk::from_json_str("{}").unwrap();
    assert!(matches!(built.solve(&pdk, Objective::Area), Err(ApiError::EmptyNetlist)));
}

#[test]
fn built_constraints_are_copied_unchanged() {
    let built = CircuitDef::new()
        .nmos("M1", |d| d)
        .nmos("M2", |d| d)
        .net("G", |n| n.connect("M1", MosfetPort::Gate).connect("M2", MosfetPort::Gate))
        .constrain(Constraint::AspectRatio(3, 4))
        .constrain(Constraint::Symmetric("M1".into(), "M2".into()))
        .build()
        .unwrap();
    assert_eq!(
        built.constraints(),
        &[Constraint::AspectRatio(3, 4), Constraint::Symmetric("M1".into(), "M2".into())]
    );
}
