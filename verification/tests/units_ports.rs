use philis::{
    port_ref_from_name, valid_port_names, BjtPort, Coord, DeviceKind, Distance, MosfetPort,
    PassivePort, PortRef,
};

#[test]
fn distance_and_coord_vocabulary_is_unified() {
    assert_eq!(Distance::new(5).as_nm(), 5);
    assert_eq!(Distance::nm(5).as_nm(), 5);
    assert_eq!(Distance::um(3).as_nm(), 3_000);
    assert_eq!(Coord::new(5).as_nm(), 5);
    assert_eq!(Coord::nm(5).as_nm(), 5);
    assert_eq!(Coord::um(3).as_nm(), 3_000);
    assert_eq!(Distance::default(), Distance(0));
    assert_eq!(Coord::default(), Coord(0));
}

#[test]
fn mosfet_port_idx_name_and_ref() {
    assert_eq!(MosfetPort::Gate.idx(), 0);
    assert_eq!(MosfetPort::Drain.idx(), 1);
    assert_eq!(MosfetPort::Source.idx(), 2);
    assert_eq!(MosfetPort::Bulk.idx(), 3);
    assert_eq!(MosfetPort::Gate.name(), "gate");
    let r: PortRef = MosfetPort::Bulk.into();
    assert_eq!(r.idx(), 3);
    assert_eq!(r.name(), "bulk");
}

#[test]
fn passive_and_bjt_ports() {
    assert_eq!(PassivePort::Plus.idx(), 0);
    assert_eq!(PassivePort::Minus.idx(), 1);
    assert_eq!(PassivePort::Plus.name(), "plus");
    assert_eq!(BjtPort::Collector.idx(), 0);
    assert_eq!(BjtPort::Base.idx(), 1);
    assert_eq!(BjtPort::Emitter.idx(), 2);
    assert_eq!(BjtPort::Emitter.name(), "emitter");
    let _: PortRef = PassivePort::Minus.into();
    let _: PortRef = BjtPort::Base.into();
}

#[test]
fn port_ref_from_name_handles_aliases() {
    // "body" is an alias for bulk; lookups are case-insensitive.
    assert_eq!(
        port_ref_from_name(DeviceKind::Nmos, "body").unwrap().name(),
        "bulk"
    );
    assert_eq!(
        port_ref_from_name(DeviceKind::Pmos, "GATE").unwrap().name(),
        "gate"
    );
    assert_eq!(
        port_ref_from_name(DeviceKind::Resistor, "+").unwrap().name(),
        "plus"
    );
    assert_eq!(
        port_ref_from_name(DeviceKind::Bjt, "c").unwrap().name(),
        "collector"
    );
    assert!(port_ref_from_name(DeviceKind::Nmos, "nonsense").is_none());
}

#[test]
fn valid_port_names_per_kind() {
    assert_eq!(
        valid_port_names(DeviceKind::Nmos),
        &["gate", "drain", "source", "bulk"]
    );
    assert_eq!(valid_port_names(DeviceKind::Capacitor), &["plus", "minus"]);
    assert_eq!(
        valid_port_names(DeviceKind::Bjt),
        &["collector", "base", "emitter"]
    );
    // every advertised name resolves
    for kind in [DeviceKind::Nmos, DeviceKind::Resistor, DeviceKind::Bjt] {
        for name in valid_port_names(kind) {
            assert!(port_ref_from_name(kind, name).is_some());
        }
    }
}

#[test]
fn port_lookup_is_per_kind() {
    // `b` is bulk on a MOSFET but base on a BJT; a passive has no `b`.
    assert_eq!(port_ref_from_name(DeviceKind::Generic, "B").unwrap().idx(), 3);
    assert_eq!(port_ref_from_name(DeviceKind::Bjt, "b").unwrap().name(), "base");
    assert!(port_ref_from_name(DeviceKind::Diode, "b").is_none());
    assert_eq!(port_ref_from_name(DeviceKind::Diode, "Cathode").unwrap().idx(), 1);
    let p: PortRef = PassivePort::Minus.into();
    assert_eq!(p, port_ref_from_name(DeviceKind::Capacitor, "-").unwrap());
}
