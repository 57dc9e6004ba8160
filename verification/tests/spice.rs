use philis::spice::{SpiceError, SpiceNetlist};

#[test]
fn comments_and_blanks_are_skipped() {
    let src = "\
* this is a full-line comment
   * indented comment still counts

R1 a b 1k ; trailing inline comment
C1 b 0 1p $ dollar inline comment
";
    let nl = SpiceNetlist::parse(src).unwrap();
    assert_eq!(nl.device_count(), 2);
    assert_eq!(nl.top_device_count(), 2);
    assert!(!nl.top_is_empty());
}

#[test]
fn empty_or_directive_only_is_empty() {
    let src = "\
* header only
.param vdd=1.8
.option temp=27
.global vdd gnd
";
    let nl = SpiceNetlist::parse(src).unwrap();
    assert_eq!(nl.device_count(), 0);
    assert!(nl.top_is_empty());
    assert_eq!(nl.directives().len(), 3);
}

#[test]
fn line_continuation_joins() {
    let src = "\
M1 d g s b nmos
+ w=2u l=0.18u
+ nf=4
";
    let nl = SpiceNetlist::parse(src).unwrap();
    assert_eq!(nl.device_count(), 1);
    let m = &nl.top_devices()[0];
    assert_eq!(m.name, "M1");
    assert_eq!(m.kind, 'M');
    assert_eq!(m.nodes, vec!["d", "g", "s", "b"]);
    assert_eq!(m.model.as_deref(), Some("nmos"));
    assert_eq!(m.param("w"), Some("2u"));
    assert_eq!(m.param("l"), Some("0.18u"));
    assert_eq!(m.param("nf"), Some("4"));
}

#[test]
fn dangling_continuation_errors() {
    let err = SpiceNetlist::parse("+ w=1u\n").unwrap_err();
    assert_eq!(err, SpiceError::DanglingContinuation { line: 1 });
}

#[test]
fn device_cards_mrc_params() {
    let src = "\
M1 nd ng ns nb pmos w=4u l=180n
R1 n1 n2 10k
C1 n2 0 1.5p
";
    let nl = SpiceNetlist::parse(src).unwrap();
    assert_eq!(nl.device_count(), 3);

    let m = &nl.top_devices()[0];
    assert_eq!(m.kind, 'M');
    assert_eq!(m.nodes, vec!["nd", "ng", "ns", "nb"]);
    assert_eq!(m.model.as_deref(), Some("pmos"));
    assert_eq!(m.param("w"), Some("4u"));

    let r = &nl.top_devices()[1];
    assert_eq!(r.kind, 'R');
    assert_eq!(r.nodes[0], "n1");
    assert_eq!(r.nodes[1], "n2");
    assert_eq!(r.model, None);

    let c = &nl.top_devices()[2];
    assert_eq!(c.kind, 'C');
    assert_eq!(c.nodes[0], "n2");
    assert_eq!(c.nodes[1], "0");
}

#[test]
fn subckt_block_and_count() {
    let src = "\
.subckt inv in out vdd vss
M1 out in vdd vdd pmos w=2u l=180n
M2 out in vss vss nmos w=1u l=180n
.ends inv
X1 a y vdd vss inv
";
    let nl = SpiceNetlist::parse(src).unwrap();
    // 2 inside the subckt + 1 top-level X instance.
    assert_eq!(nl.device_count(), 3);
    assert_eq!(nl.top_device_count(), 1);
    assert_eq!(nl.subckts(), &["inv".to_string()]);

    let def = nl.subckt("inv").unwrap();
    assert_eq!(def.ports, vec!["in", "out", "vdd", "vss"]);
    assert_eq!(def.body.len(), 2);

    let x = &nl.top_devices()[0];
    assert_eq!(x.kind, 'X');
    assert_eq!(x.name, "X1");
    assert_eq!(x.nodes, vec!["a", "y", "vdd", "vss"]);
    assert_eq!(x.model.as_deref(), Some("inv"));
}

#[test]
fn unexpected_ends_errors() {
    let err = SpiceNetlist::parse(".ends\n").unwrap_err();
    assert_eq!(err, SpiceError::UnexpectedEnds { line: 1 });
}

#[test]
fn unterminated_subckt_errors() {
    let err = SpiceNetlist::parse(".subckt foo a b\nR1 a b 1k\n").unwrap_err();
    assert_eq!(
        err,
        SpiceError::UnterminatedSubckt {
            name: "foo".to_string()
        }
    );
}

#[test]
fn missing_subckt_name_errors() {
    let err = SpiceNetlist::parse(".subckt\n").unwrap_err();
    assert_eq!(err, SpiceError::MissingSubcktName { line: 1 });
}

#[test]
fn select_subckt_promotes_body() {
    let src = "\
.subckt inv in out
M1 out in 0 0 nmos
M2 out in 0 0 pmos
.ends
";
    let mut nl = SpiceNetlist::parse(src).unwrap();
    assert!(nl.top_is_empty());
    assert!(!nl.select_subckt("nope"));
    assert!(nl.select_subckt("inv"));
    assert!(!nl.top_is_empty());
    assert_eq!(nl.top_device_count(), 2);
}

#[test]
fn promote_first_subckt_when_empty() {
    let src = "\
.subckt a x y
R1 x y 1k
.ends
.subckt b p q
C1 p q 1p
.ends
";
    let mut nl = SpiceNetlist::parse(src).unwrap();
    assert!(nl.top_is_empty());
    nl.promote_first_subckt();
    // First in source order is `a` (one device).
    assert_eq!(nl.top_device_count(), 1);
    assert_eq!(nl.top_devices()[0].name, "R1");
}

#[test]
fn promote_first_subckt_noop_when_nonempty() {
    let src = "\
R1 a b 1k
.subckt s x y
C1 x y 1p
.ends
";
    let mut nl = SpiceNetlist::parse(src).unwrap();
    assert!(!nl.top_is_empty());
    let before = nl.top_device_count();
    nl.promote_first_subckt();
    assert_eq!(nl.top_device_count(), before);
}

#[test]
fn from_devices_is_flat() {
    let nl = SpiceNetlist::from_devices(vec!["M1".into(), "R1".into(), "C1".into()]);
    assert_eq!(nl.device_count(), 3);
    assert_eq!(nl.top_device_count(), 3);
    assert!(!nl.top_is_empty());
    assert_eq!(nl.top_devices()[0].kind, 'M');
}

#[test]
fn from_devices_empty_is_empty() {
    let nl = SpiceNetlist::from_devices(vec![]);
    assert_eq!(nl.device_count(), 0);
    assert!(nl.top_is_empty());
}

#[test]
fn to_spice_round_trip_preserves_count() {
    let src = "\
* a small deck
.param vdd=1.8
.subckt inv in out vdd vss
M1 out in vdd vdd pmos w=2u l=180n
M2 out in vss vss nmos w=1u l=180n
.ends inv
X1 a y vdd vss inv
R1 y 0 10k
";
    let nl = SpiceNetlist::parse(src).unwrap();
    let text = nl.to_spice();
    let again = SpiceNetlist::parse(&text).unwrap();

    assert_eq!(again.device_count(), nl.device_count());
    assert_eq!(again.subckts(), nl.subckts());
    assert_eq!(again.top_device_count(), nl.top_device_count());
}

#[test]
fn round_trip_after_promotion() {
    let src = "\
.subckt inv in out
M1 out in 0 0 nmos w=1u
.ends
";
    let mut nl = SpiceNetlist::parse(src).unwrap();
    nl.promote_first_subckt();
    let text = nl.to_spice();
    let again = SpiceNetlist::parse(&text).unwrap();
    // Top-level promoted M1 + the still-emitted subckt body M1 => 2.
    assert_eq!(again.device_count(), nl.device_count());
}

#[test]
fn bjt_substrate_and_subckt_instance_cards() {
    let src = "Q1 c b e sub npn area=2\nQ2 c b e npn\nXU1 a b c mycell m=2 extra\n";
    let nl = SpiceNetlist::parse(src).unwrap();
    let q1 = &nl.top_devices()[0];
    assert_eq!(q1.nodes, vec!["c", "b", "e", "sub"]);
    assert_eq!(q1.model.as_deref(), Some("npn"));
    assert_eq!(q1.param("AREA"), Some("2"));
    let q2 = &nl.top_devices()[1];
    assert_eq!(q2.nodes, vec!["c", "b", "e"]);
    assert_eq!(q2.model.as_deref(), Some("npn"));
    let x = &nl.top_devices()[2];
    assert_eq!(x.kind, 'X');
    assert_eq!(x.nodes, vec!["a", "b", "c", "extra"]);
    assert_eq!(x.model.as_deref(), Some("mycell"));
    assert_eq!(x.arity(), 4);
    assert_eq!(x.param("m"), Some("2"));
    assert_eq!(x.param("w"), None);
}

#[test]
fn directives_are_case_insensitive_and_end_is_kept() {
    let src = ".SUBCKT amp in out PARAMS: gain=2\nR1 in out 1k\n.ENDS\n.param x=1\n.end\nR9 a b 1k\n";
    let nl = SpiceNetlist::parse(src).unwrap();
    assert_eq!(nl.subckts(), &["amp".to_string()]);
    let def = nl.subckt("amp").unwrap();
    assert_eq!(def.ports, vec!["in", "out"]);
    assert_eq!(def.params, vec![("gain".to_string(), "2".to_string())]);
    // `.end` is kept verbatim as a directive, and reading goes on after it.
    assert_eq!(nl.directives(), &[".param x=1".to_string(), ".end".to_string()]);
    assert_eq!(nl.device_count(), 2);
    assert_eq!(nl.top_device_count(), 1);
}

#[test]
fn end_is_collected_as_a_directive() {
    let nl = SpiceNetlist::parse("R1 a b 1k\n.param vdd=1.8\n.end\n").unwrap();
    assert_eq!(nl.device_count(), 1);
    assert_eq!(nl.directives(), &[".param vdd=1.8".to_string(), ".end".to_string()]);
}

#[test]
fn redefining_a_subckt_replaces_it_in_place() {
    let src = ".subckt a x\nR1 x 0 1k\nR2 x 0 1k\n.ends\n.subckt b y\n.ends\n.subckt a z\nC1 z 0 1p\n.ends\n";
    let nl = SpiceNetlist::parse(src).unwrap();
    assert_eq!(nl.subckts(), &["a".to_string(), "b".to_string()]);
    assert_eq!(nl.subckt("a").unwrap().ports, vec!["z"]);
    assert_eq!(nl.device_count(), 1);
}

#[test]
fn error_messages_name_the_line() {
    let err = SpiceNetlist::parse("R1 a b 1k\n.ends\n").unwrap_err();
    assert_eq!(err.message(), "line 2: `.ends` with no matching `.subckt`");
    let err = SpiceNetlist::parse(".subckt top a\n").unwrap_err();
    assert_eq!(err.message(), "subckt `top` is never closed with `.ends`");
    let err = SpiceNetlist::parse("\n\n+ x\n").unwrap_err();
    assert_eq!(err, SpiceError::DanglingContinuation { line: 3 });
    assert_eq!(err.message(), "line 3: continuation `+` with no preceding line");
}

#[test]
fn to_spice_writes_every_card() {
    let nl = SpiceNetlist::parse(".option x\n.subckt s a b p=1\nR1 a b 1k t=2\n.ends\nX1 n1 n2 s\n").unwrap();
    assert_eq!(
        nl.to_spice(),
        "* Philis SPICE netlist (generated)\n.option x\n.subckt s a b p=1\nR1 a b 1k t=2\n.ends s\nX1 n1 n2 s\n.end\n"
    );
}


#[test]
fn parsed_and_promoted_decks_write_back() {
    let src = "* deck\n.param vdd=1.8 ; supply\n.subckt inv a y $ ports\nm1 y a 0 0 nmos w=1u\n+ l=180n\nm2 y a vdd vdd pmos\n.ends\n.subckt buf a y\nx1 a m inv\nx2 m y inv\n.ends\nr1 n1 n2 1k\n.end\n";
    let mut nl = SpiceNetlist::parse(src).unwrap();
    let again = SpiceNetlist::parse(&nl.to_spice()).unwrap();
    assert_eq!(again.device_count(), nl.device_count());
    assert_eq!(again.subckts(), nl.subckts());
    assert_eq!(again.top_device_count(), nl.top_device_count());
    let mut dirs = nl.directives().to_vec();
    dirs.push(".end".to_string());
    assert_eq!(again.directives(), &dirs[..]);

    assert!(nl.select_subckt("buf"));
    let again = SpiceNetlist::parse(&nl.to_spice()).unwrap();
    assert_eq!(again.device_count(), nl.device_count());
    assert_eq!(again.subckts(), nl.subckts());
    assert_eq!(again.top_device_count(), 3);
}
