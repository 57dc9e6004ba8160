use philis::Gds;
use philis::pdk::PdkFormat;
use philis::spice::SpiceNetlist;
use philis::{CheckKind, Circuit, Pdk};

fn pdk() -> Pdk {
    Pdk::from_json_str("{\"tech\":\"stub\"}").unwrap()
}

#[test]
fn spice_parses_continuations_and_subckts() {
    let text = "* a comment\n.subckt inv a y\nm1 y a 0 0 nmos w=1u\n+ l=180n\n.ends\n";
    let nl = SpiceNetlist::parse(text).unwrap();
    assert!(nl.subckts().contains(&"inv".to_string()));
    // round-trip preserves device count
    let reparsed = SpiceNetlist::parse(&nl.to_spice()).unwrap();
    assert_eq!(reparsed.device_count(), nl.device_count());
}

#[test]
fn spice_from_devices_is_flat() {
    let nl = SpiceNetlist::from_devices(vec!["M1".into(), "M2".into()]);
    assert_eq!(nl.device_count(), 2);
    assert_eq!(nl.top_device_count(), 2);
    assert!(!nl.top_is_empty());
}

#[test]
fn pdk_reads_json_and_toml_with_accessors() {
    let j = Pdk::from_json_str("{\"tech\":\"sky130\",\"layers\":[\"met1\",\"met2\"]}").unwrap();
    assert_eq!(j.tech(), Some("sky130"));
    assert_eq!(j.layers().len(), 2);
    assert_eq!(j.format(), Some(PdkFormat::Json));

    let t = Pdk::from_toml_str("tech = \"gf180\"\nlayers = [\"poly\"]\n").unwrap();
    assert_eq!(t.tech(), Some("gf180"));
    assert_eq!(t.format(), Some(PdkFormat::Toml));
}

#[test]
fn checks_run_on_the_constraint_tier() {
    let circuit = Circuit::from_spice_str("m1 d g s b nmos\nm2 d g s b nmos\n").unwrap();
    let constraints = circuit.analyze(&pdk()).unwrap();
    for kind in [CheckKind::Drc, CheckKind::Lvs, CheckKind::Pex, CheckKind::Erc] {
        let r = constraints.check(kind);
        assert_eq!(r.kind, kind);
        assert!(r.is_clean());
        assert!(r.findings().is_empty());
        assert!(!kind.name().is_empty());
    }
    assert_eq!(CheckKind::Lvs.name(), "LVS");
}

#[test]
fn pdk_layer_lists_and_numbers() {
    let j = Pdk::from_json_str("{ \"db_unit_nm\" : -25, \"layers\": [ \"m1\" , bad, \"m2\" ] }").unwrap();
    assert_eq!(j.db_unit_nm(), Some(-25));
    assert_eq!(j.layers(), &["m1".to_string(), "m2".to_string()]);
    assert_eq!(j.tech(), None);
    assert_eq!(j.warnings().len(), 1);

    let t = Pdk::from_toml_str("  layers = [\"a\",\"b\"]  \ndb_unit_nm = 7x\ntech=\"n\"").unwrap();
    assert_eq!(t.layers(), &["a".to_string(), "b".to_string()]);
    assert_eq!(t.db_unit_nm(), None);
    assert_eq!(t.tech(), Some("n"));
    assert!(t.warnings().is_empty());
}

#[test]
fn gds_round_trips() {
    let mut g = Gds::new("PHILIS");
    assert_eq!(g.lib_name(), "PHILIS");
    g.add_rect("TOP", 1, 0, 0, 1000, 2000);
    g.add_rect("TOP", 2, 500, 500, 100, 100);
    assert!(g.add_cell("SUB"));
    assert!(!g.add_cell("SUB"));

    let bytes = g.write();
    let back = Gds::read(&bytes).unwrap();
    assert_eq!(back.lib_name(), "PHILIS");
    assert_eq!(back.cell_count(), g.cell_count());
    assert_eq!(back.element_count(), g.element_count());
    assert_eq!(back.element_count(), 2);
}

#[test]
fn gds_rejects_truncated_stream() {
    assert!(Gds::read(&[0x00, 0x06, 0x00, 0x02]).is_err());
}

#[test]
fn checks_run_on_every_manual_tier() {
    let circuit = Circuit::from_spice_str("m1 d g s b nmos\nm2 d g s b nmos\n").unwrap();
    let constraints = circuit.analyze(&pdk()).unwrap();
    for kind in [CheckKind::Drc, CheckKind::Lvs, CheckKind::Pex, CheckKind::Erc] {
        let r = constraints.check(kind);
        assert_eq!(r.kind, kind);
        assert!(r.is_clean());
        assert!(r.findings().is_empty());
        assert!(!kind.name().is_empty());
    }
    let placed = constraints.place(philis::RunConfig::default()).unwrap();
    assert!(placed.check(CheckKind::Drc).is_clean());
}

#[test]
fn checks_run_after_automation_on_layout() {
    let layout = Circuit::from_spice_str("m1 d g s b nmos\n")
        .unwrap()
        .analyze(&pdk())
        .unwrap()
        .place(philis::RunConfig::default())
        .unwrap()
        .route(philis::RunConfig::default())
        .unwrap();
    assert!(layout.drc().is_clean());
    assert!(layout.lvs().is_clean());
    assert!(layout.pex().is_clean());
    assert!(layout.erc().is_clean());
    assert!(layout.lvs_clean());
    assert!(layout.violations().is_empty());
}

#[test]
fn pdk_warns_once_per_unknown_key() {
    let p = Pdk::from_json_str("{\"tech\":\"sky130\",\"vendor_extra\":1}").unwrap();
    assert_eq!(p.tech(), Some("sky130"));
    assert_eq!(p.warnings().len(), 1);
    assert_eq!(p.warnings()[0], "unrecognized key `vendor_extra` (stub parser)");

    let q = Pdk::from_json_str("{\"a\": {\"b\": \"c\"}, \"layers\": [\"m1\"]}").unwrap();
    let w: Vec<&str> = q.warnings().iter().map(|s| s.as_str()).collect();
    assert_eq!(
        w,
        vec![
            "unrecognized key `a` (stub parser)",
            "unrecognized key `b` (stub parser)",
            "schema declares no `tech` key (stub parser)",
        ]
    );

    let t = Pdk::from_toml_str("# note = 1\ntech = \"gf180\"\n[extra]\nvendor = 2\n").unwrap();
    assert_eq!(t.warnings().len(), 1);
    assert_eq!(t.warnings()[0], "unrecognized key `vendor` (stub parser)");
}
