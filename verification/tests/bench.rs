use philis::{synthetic_quick_netlist, synthetic_spice, parse, SpiceNetlist};

#[test]
fn quick_netlist_is_exact() {
    assert_eq!(
        synthetic_quick_netlist(3),
        "cell0 -500 -500\ncell1 261 3\ncell2 22 -494\n"
    );
    assert_eq!(synthetic_quick_netlist(0), "");
}

#[test]
fn quick_netlist_parses_to_n_cells() {
    let text = synthetic_quick_netlist(64);
    let cells = parse(&text).unwrap();
    assert_eq!(cells.len(), 64);
}

#[test]
fn spice_netlist_is_exact() {
    assert_eq!(synthetic_spice(2), "m0 d0 g0 0 0 nmos\nm1 d1 g1 0 0 pmos\n");
    assert_eq!(synthetic_spice(0), "");
}

#[test]
fn spice_netlist_parses_to_n_devices() {
    let nl = SpiceNetlist::parse(&synthetic_spice(100)).unwrap();
    assert_eq!(nl.device_count(), 100);
}
