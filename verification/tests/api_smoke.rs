use philis::PdkFormat;
use philis::{ApiError, Circuit, Pdk, RunConfig};

#[test]
fn pdk_from_str_parses_schema_and_warns() {
    // A complete schema parses cleanly and exposes its fields.
    let p = Pdk::from_json_str("{\"tech\":\"sky130\",\"db_unit_nm\":1,\"layers\":[\"met1\"]}")
        .unwrap();
    assert!(p.warnings().is_empty());
    assert_eq!(p.tech(), Some("sky130"));
    assert_eq!(p.db_unit_nm(), Some(1));
    assert_eq!(p.layers(), &["met1".to_string()]);

    // A schema missing `tech`, or text that isn't JSON, warns rather than failing.
    assert!(!Pdk::from_json_str("{}").unwrap().warnings().is_empty());
    assert!(!Pdk::from_json_str("not json").unwrap().warnings().is_empty());
}

#[test]
fn pdk_from_toml_str() {
    let p = Pdk::from_toml_str("tech = \"gf180\"\ndb_unit_nm = 5\n").unwrap();
    assert_eq!(p.tech(), Some("gf180"));
    assert_eq!(p.db_unit_nm(), Some(5));
}

#[test]
fn pdk_empty_is_error() {
    assert!(matches!(Pdk::from_json_str("   "), Err(ApiError::Pdk(_))));
}

#[test]
fn subckt_selection() {
    let text = ".subckt inv a y\nm1 y a 0 0 nmos\n.ends\n";
    let c = Circuit::from_spice_str(text).unwrap();
    assert!(c.netlist().subckts().contains(&"inv".to_string()));

    // named selection: present -> ok, absent -> error
    let c = Circuit::from_spice_str(text).unwrap();
    assert!(c.select_subckt("inv").is_ok());
    let c = Circuit::from_spice_str(text).unwrap();
    assert!(matches!(
        c.select_subckt("nope"),
        Err(ApiError::SubcktNotFound(_))
    ));

    // first-subckt promotion when top is empty
    let c = Circuit::from_spice_str(text).unwrap().use_first_subckt_as_top();
    assert!(c.netlist().device_count() >= 1);
}

#[test]
fn run_config_default_values() {
    let cfg = RunConfig::default();
    assert_eq!(cfg.row_pitch_nm, 2000);
    assert_eq!(cfg.site_width_nm, 20);
    assert_eq!(cfg.track_pitch_nm, 160);
    assert!(!cfg.strict_constraints);
    assert!(!cfg.fabricatability_mode);
}

#[test]
fn api_error_display_is_nonempty() {
    let e = ApiError::EmptyNetlist;
    assert!(!e.message().is_empty());
}

#[test]
fn analyze_counts_devices_and_rejects_empty_netlists() {
    let pdk = Pdk::from_json_str("{\"tech\":\"stub\"}").unwrap();
    let c = Circuit::from_spice_str("m1 d g s b nmos\nm2 d g s b nmos\n").unwrap();
    assert_eq!(c.analyze(&pdk).unwrap().result().honored, 2);
    let empty = Circuit::from_spice_str("* only a comment\n").unwrap();
    assert!(matches!(empty.analyze(&pdk), Err(ApiError::EmptyNetlist)));
    assert_eq!(
        Circuit::from_spice_str(".ends\n").unwrap_err(),
        ApiError::Spice("line 1: `.ends` with no matching `.subckt`".to_string())
    );
}

#[test]
fn api_error_messages() {
    assert_eq!(ApiError::Pdk("x".into()).message(), "pdk error: x");
    assert_eq!(
        ApiError::SubcktNotFound("inv".into()).message(),
        "subckt not found: inv"
    );
    assert_eq!(ApiError::EmptyNetlist.message(), "empty netlist: nothing to place");
}

#[test]
fn pdk_from_missing_file_is_io_error() {
    let read: Result<String, String> = Err("No such file or directory (os error 2)".to_string());
    assert!(matches!(
        Pdk::from_json_file("/no/such/philis.json", read),
        Err(ApiError::Io(_))
    ));
}

#[test]
fn pdk_file_read_error_names_the_path() {
    let read: Result<String, String> = Err("denied".to_string());
    match Pdk::from_toml_file("/p/k.toml", read) {
        Err(ApiError::Io(m)) => assert_eq!(m, "/p/k.toml: denied"),
        other => panic!("unexpected {other:?}"),
    }
}

#[test]
fn pdk_from_path_picks_format_by_extension() {
    let toml = "tech = \"gf180\"\n";
    let json = "{\"tech\":\"x\"}";
    let p = Pdk::from_path("/pdks/gf180.TOML", Ok(toml.to_string())).unwrap();
    assert_eq!(p.format(), Some(PdkFormat::Toml));
    assert_eq!(p.tech(), Some("gf180"));
    let p = Pdk::from_path("pdk.json", Ok(json.to_string())).unwrap();
    assert_eq!(p.format(), Some(PdkFormat::Json));
    let p = Pdk::from_path("noext", Ok(json.to_string())).unwrap();
    assert_eq!(p.format(), Some(PdkFormat::Json));
    // A hidden file named `.toml` has no extension.
    let p = Pdk::from_path("/pdks/.toml", Ok(json.to_string())).unwrap();
    assert_eq!(p.format(), Some(PdkFormat::Json));
    // Trailing separators and `.` components do not hide the file name.
    let p = Pdk::from_path("/pdks/a.toml/", Ok(toml.to_string())).unwrap();
    assert_eq!(p.format(), Some(PdkFormat::Toml));
    let p = Pdk::from_path("/pdks/a.toml/.", Ok(toml.to_string())).unwrap();
    assert_eq!(p.format(), Some(PdkFormat::Toml));
}

#[test]
fn circuit_from_str_and_file() {
    let c = Circuit::from_spice_str("m1 d g s b nmos\n").unwrap();
    assert_eq!(c.netlist().device_count(), 1);
    // The file's text, as read.
    let c2 = Circuit::from_spice_str("m1 d g s b nmos\nm2 d g s b nmos\n").unwrap();
    assert_eq!(c2.netlist().device_count(), 2);
}

#[test]
fn empty_netlist_errors_on_run_and_analyze() {
    let c = Circuit::from_spice_str("* only a comment\n").unwrap();
    assert!(matches!(
        c.run(&flow_stub_pdk(), RunConfig::default()),
        Err(ApiError::EmptyNetlist)
    ));
    assert!(matches!(c.analyze(&flow_stub_pdk()), Err(ApiError::EmptyNetlist)));
}

#[test]
fn staged_tiers_expose_intermediate_results() {
    let c = Circuit::from_spice_str("m1 d g s b nmos\nm2 d g s b nmos\n").unwrap();
    let constraints = c.analyze(&flow_stub_pdk()).unwrap();
    assert_eq!(constraints.result().honored, 2);

    let placed = constraints.place(RunConfig::default()).unwrap();
    assert!(placed.result().baseline_used);

    let layout = placed.route(RunConfig::default()).unwrap();
    assert_eq!(layout.placed_count(), 2);
}

fn flow_stub_pdk() -> Pdk {
    Pdk::from_json_str("{\"tech\":\"stub\"}").unwrap()
}
