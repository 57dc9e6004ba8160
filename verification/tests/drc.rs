use philis::drc::{DrcDelta, DrcRegion, DrcViolation, LayerId, RuleId, ShapeRef, ViolationKind};
use philis::geom::Rect;

fn rect(x_lo: i64, y_lo: i64, x_hi: i64, y_hi: i64) -> Rect {
    Rect::new(x_lo, y_lo, x_hi, y_hi).unwrap()
}

fn violation(kind: ViolationKind) -> DrcViolation {
    DrcViolation {
        kind,
        rule: RuleId("R.1".to_string()),
        layer: LayerId(1),
        shapes: (ShapeRef(0), Some(ShapeRef(1))),
        region: rect(0, 0, 1, 1),
        required: 0,
        actual: 0,
        same_net: false,
    }
}

#[test]
fn drc_region_dilates_on_all_sides() {
    let origin = rect(10, 10, 20, 20);
    let region = DrcRegion::new(origin, 5);

    assert_eq!(region.origin, origin);
    assert_eq!(region.r_max, 5);
    assert_eq!(region.dilated, rect(5, 5, 25, 25));
}

#[test]
fn drc_region_zero_r_max_is_identity() {
    let origin = rect(0, 0, 10, 10);
    let region = DrcRegion::new(origin, 0);

    assert_eq!(region.dilated, origin);
}

#[test]
fn drc_delta_merge_appends_added_and_removed() {
    let mut a = DrcDelta {
        added: vec![violation(ViolationKind::Spacing)],
        removed: vec![violation(ViolationKind::Width)],
    };
    let b = DrcDelta {
        added: vec![violation(ViolationKind::Overlap)],
        removed: vec![],
    };

    a.merge(b);

    assert_eq!(a.added.len(), 2);
    assert_eq!(a.removed.len(), 1);
}

#[test]
fn drc_delta_net_change_and_is_clean() {
    let clean = DrcDelta {
        added: vec![],
        removed: vec![violation(ViolationKind::Spacing)],
    };
    assert_eq!(clean.net_change(), -1);
    assert!(clean.is_clean());

    let dirty = DrcDelta {
        added: vec![
            violation(ViolationKind::Spacing),
            violation(ViolationKind::Width),
        ],
        removed: vec![violation(ViolationKind::Overlap)],
    };
    assert_eq!(dirty.net_change(), 1);
    assert!(!dirty.is_clean());
}

#[test]
fn drc_delta_merge_is_associative() {
    let a = DrcDelta {
        added: vec![violation(ViolationKind::Spacing)],
        removed: vec![],
    };
    let b = DrcDelta {
        added: vec![violation(ViolationKind::Width)],
        removed: vec![violation(ViolationKind::Overlap)],
    };
    let c = DrcDelta {
        added: vec![],
        removed: vec![violation(ViolationKind::Area)],
    };

    let mut left = a.clone();
    left.merge(b.clone());
    left.merge(c.clone());

    let mut bc = b.clone();
    bc.merge(c.clone());
    let mut right = a.clone();
    right.merge(bc);

    assert_eq!(left.added, right.added);
    assert_eq!(left.removed, right.removed);
}

#[test]
fn drc_delta_merge_keeps_order() {
    let mut a = DrcDelta::new();
    a.added.push(violation(ViolationKind::Spacing));
    let mut b = DrcDelta::default();
    b.added.push(violation(ViolationKind::Width));
    b.removed.push(violation(ViolationKind::Area));
    a.merge(b);
    assert_eq!(a.added[0].kind, ViolationKind::Spacing);
    assert_eq!(a.added[1].kind, ViolationKind::Width);
    assert_eq!(a.removed[0].kind, ViolationKind::Area);
    assert_eq!(a.net_change(), 1);
}
