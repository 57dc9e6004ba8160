use std::collections::HashMap;

use philis::drc::{LayerId, ShapeRef};
use philis::extract::extract_connectivity;
use philis::geom::Rect;
use philis::lvs::NetId;

fn rect(x_lo: i64, y_lo: i64, x_hi: i64, y_hi: i64) -> Rect {
    Rect::new(x_lo, y_lo, x_hi, y_hi).unwrap()
}

#[test]
fn overlapping_same_layer_shapes_form_one_net() {
    let m1 = LayerId(1);
    let shapes = vec![
        (ShapeRef(0), m1, rect(0, 0, 100, 100), Some(NetId(1))),
        (ShapeRef(1), m1, rect(50, 50, 150, 150), Some(NetId(1))),
    ];

    let (mut tracker, result) = extract_connectivity(shapes, vec![], &HashMap::new());

    assert!(tracker.same_component(0, 1));
    assert!(result.is_clean());
}

#[test]
fn touching_same_layer_shapes_are_connected() {
    let m1 = LayerId(1);
    let shapes = vec![
        (ShapeRef(0), m1, rect(0, 0, 100, 100), None),
        (ShapeRef(1), m1, rect(100, 0, 200, 100), None),
    ];

    let (mut tracker, result) = extract_connectivity(shapes, vec![], &HashMap::new());

    assert!(tracker.same_component(0, 1));
    assert!(result.is_clean());
}

#[test]
fn disconnected_same_net_shapes_report_open() {
    let m1 = LayerId(1);
    let shapes = vec![
        (ShapeRef(0), m1, rect(0, 0, 100, 100), Some(NetId(1))),
        (ShapeRef(1), m1, rect(200, 0, 300, 100), Some(NetId(1))),
    ];

    let (_tracker, result) = extract_connectivity(shapes, vec![], &HashMap::new());

    assert_eq!(result.opens.len(), 1);
    assert_eq!(result.opens[0].net, NetId(1));
    assert!(result.shorts.is_empty());
}

#[test]
fn touching_different_net_shapes_report_short() {
    let m1 = LayerId(1);
    let shapes = vec![
        (ShapeRef(0), m1, rect(0, 0, 100, 100), Some(NetId(1))),
        (ShapeRef(1), m1, rect(100, 0, 200, 100), Some(NetId(2))),
    ];

    let (_tracker, result) = extract_connectivity(shapes, vec![], &HashMap::new());

    assert_eq!(result.shorts.len(), 1);
    assert_eq!(result.shorts[0].nets, vec![NetId(1), NetId(2)]);
    assert!(result.opens.is_empty());
}

#[test]
fn via_connects_shapes_on_different_layers() {
    let m1 = LayerId(1);
    let m2 = LayerId(2);
    let via1 = LayerId(10);

    let shapes = vec![
        (ShapeRef(0), m1, rect(0, 0, 100, 100), Some(NetId(1))),
        (ShapeRef(1), m2, rect(0, 0, 100, 100), Some(NetId(1))),
    ];
    let vias = vec![(ShapeRef(2), via1, rect(40, 40, 60, 60))];
    let mut via_connects = HashMap::new();
    via_connects.insert(via1.0, (m1, m2));

    let (mut tracker, result) = extract_connectivity(shapes, vias, &via_connects);

    assert!(tracker.same_component(0, 1));
    assert!(result.is_clean());
}

#[test]
fn separate_nets_remain_separate_components() {
    let m1 = LayerId(1);
    let shapes = vec![
        (ShapeRef(0), m1, rect(0, 0, 100, 100), Some(NetId(1))),
        (ShapeRef(1), m1, rect(200, 200, 300, 300), Some(NetId(2))),
    ];

    let (mut tracker, result) = extract_connectivity(shapes, vec![], &HashMap::new());

    assert!(!tracker.same_component(0, 1));
    assert!(result.is_clean());
}

#[test]
fn via_without_layer_pair_joins_nothing() {
    let m1 = LayerId(1);
    let m2 = LayerId(2);
    let shapes = vec![
        (ShapeRef(0), m1, rect(0, 0, 100, 100), None),
        (ShapeRef(1), m2, rect(0, 0, 100, 100), None),
    ];
    let vias = vec![(ShapeRef(2), LayerId(11), rect(40, 40, 60, 60))];
    let mut via_connects = HashMap::new();
    via_connects.insert(10u32, (m1, m2));

    let (mut tracker, _result) = extract_connectivity(shapes, vias, &via_connects);
    assert!(!tracker.same_component(0, 1));
    assert_eq!(tracker.component_count(), 2);
}

#[test]
fn chains_of_touching_shapes_are_one_component() {
    let m1 = LayerId(1);
    let shapes = vec![
        (ShapeRef(0), m1, rect(0, 0, 10, 10), Some(NetId(4))),
        (ShapeRef(1), m1, rect(30, 0, 40, 10), None),
        (ShapeRef(2), m1, rect(10, 0, 30, 10), None),
        (ShapeRef(3), LayerId(2), rect(10, 0, 30, 10), None),
    ];
    let (mut tracker, result) = extract_connectivity(shapes, vec![], &HashMap::new());
    assert!(tracker.same_component(0, 1));
    assert!(!tracker.same_component(0, 3));
    assert_eq!(tracker.component_net(1), Some(NetId(4)));
    assert!(result.is_clean());
}
