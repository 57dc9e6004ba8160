use philis::{CircuitDef, Constraint, MosfetPort, Objective};
use philis::{parse, place_and_route};

#[test]
fn step1_quickstart_path() {
    // The genuinely-working Tier 0 quickstart.
    let netlist = "inv0 0 0\ninv1 10 0\ninv2 10 5\n";
    assert_eq!(
        place_and_route(netlist).unwrap(),
        "placed 3 cells, bbox 10x5, hpwl 15"
    );
    assert_eq!(parse("# c\na 1 2\nb 3 4\n").unwrap().len(), 2);
}

fn flow_pdk() -> philis::Pdk {
    philis::Pdk::from_json_str("{\"tech\":\"stub\"}").unwrap()
}

#[test]
fn step2_spice_one_shot() {
    let circuit = philis::Circuit::from_spice_str("m1 d g s b nmos\nm2 d g s b nmos\n").unwrap();
    let flow = circuit.run(&flow_pdk(), philis::RunConfig::default()).unwrap();
    assert_eq!(flow.placement.placed_count, 2);
}

#[test]
fn step3_staged_chain_matches_one_shot() {
    let circuit = philis::Circuit::from_spice_str("m1 d g s b nmos\nm2 d g s b nmos\n").unwrap();
    let staged = circuit
        .analyze(&flow_pdk())
        .unwrap()
        .place(philis::RunConfig::default())
        .unwrap()
        .route(philis::RunConfig::default())
        .unwrap();
    let one_shot = circuit.run(&flow_pdk(), philis::RunConfig::default()).unwrap();
    assert_eq!(staged.placed_count(), one_shot.placement.placed_count);
}

#[test]
fn step4_builder_to_layout() {
    let layout = CircuitDef::new()
        .nmos("M1", |d| d.nf(2))
        .nmos("M2", |d| d.nf(2))
        .net("GATE", |n| n.connect("M1", MosfetPort::Gate).connect("M2", MosfetPort::Gate))
        .constrain(Constraint::Symmetric("M1".into(), "M2".into()))
        .build()
        .unwrap()
        .solve(&flow_pdk(), Objective::Area)
        .unwrap();

    let _ = layout.area();
    let _ = layout.violations();
    assert!(layout.lvs_clean());
}
