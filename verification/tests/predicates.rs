use philis::drc::{LayerId, RuleId, ShapeRef, ViolationKind};
use philis::geom::Rect;
use philis::predicates::{
    check_area, check_cut_spacing, check_enclosure, check_eol_spacing, check_grid_snap,
    check_outline_exceed, check_overlap, check_prl_spacing, check_same_net_notch, check_spacing,
    check_well_enclosure, check_well_spacing, check_width, check_implant_spacing,
};

fn rect(x_lo: i64, y_lo: i64, x_hi: i64, y_hi: i64) -> Rect {
    Rect::new(x_lo, y_lo, x_hi, y_hi).unwrap()
}

fn rule(name: &str) -> RuleId {
    RuleId(name.to_string())
}

const LAYER: LayerId = LayerId(1);
const A: ShapeRef = ShapeRef(0);
const B: ShapeRef = ShapeRef(1);

// --- check_spacing -----------------------------------------------------

#[test]
fn spacing_passes_at_exactly_min_spacing() {
    let a = rect(0, 0, 10, 10);
    let b = rect(15, 0, 25, 10);
    assert_eq!(
        check_spacing(&a, &b, A, B, LAYER, rule("S.1"), 5, false),
        None
    );
}

#[test]
fn spacing_fails_when_too_close() {
    let a = rect(0, 0, 10, 10);
    let b = rect(13, 0, 23, 10);
    let v = check_spacing(&a, &b, A, B, LAYER, rule("S.1"), 5, false).unwrap();
    assert_eq!(v.kind, ViolationKind::Spacing);
    assert_eq!(v.required, 5);
    assert_eq!(v.actual, 3);
    assert!(!v.same_net);
}

#[test]
fn spacing_symmetric() {
    let a = rect(0, 0, 10, 10);
    let b = rect(13, 0, 23, 10);
    let fwd = check_spacing(&a, &b, A, B, LAYER, rule("S.1"), 5, false);
    let rev = check_spacing(&b, &a, B, A, LAYER, rule("S.1"), 5, false);
    assert_eq!(fwd.map(|v| v.actual), rev.map(|v| v.actual));
}

#[test]
fn spacing_does_not_fire_on_overlap() {
    let a = rect(0, 0, 10, 10);
    let b = rect(5, 5, 15, 15);
    assert_eq!(
        check_spacing(&a, &b, A, B, LAYER, rule("S.1"), 100, false),
        None
    );
}

// --- check_width --------------------------------------------------------

#[test]
fn width_passes_at_exactly_min_width() {
    let shape = rect(0, 0, 5, 5);
    assert_eq!(check_width(&shape, A, LAYER, rule("W.1"), 5), None);
}

#[test]
fn width_fails_when_too_narrow() {
    let shape = rect(0, 0, 10, 3);
    let v = check_width(&shape, A, LAYER, rule("W.1"), 5).unwrap();
    assert_eq!(v.kind, ViolationKind::Width);
    assert_eq!(v.required, 5);
    assert_eq!(v.actual, 3);
    assert_eq!(v.shapes, (A, None));
}

#[test]
fn width_is_orientation_independent() {
    let tall = rect(0, 0, 3, 10);
    let wide = rect(0, 0, 10, 3);
    assert_eq!(
        check_width(&tall, A, LAYER, rule("W.1"), 5).unwrap().actual,
        check_width(&wide, A, LAYER, rule("W.1"), 5).unwrap().actual,
    );
}

// --- check_area ----------------------------------------------------------

#[test]
fn area_passes_at_exactly_min_area() {
    let shape = rect(0, 0, 4, 4);
    assert_eq!(check_area(&shape, A, LAYER, rule("A.1"), 16), None);
}

#[test]
fn area_fails_when_too_small() {
    let shape = rect(0, 0, 3, 3);
    let v = check_area(&shape, A, LAYER, rule("A.1"), 16).unwrap();
    assert_eq!(v.kind, ViolationKind::Area);
    assert_eq!(v.required, 16);
    assert_eq!(v.actual, 9);
}

// --- check_overlap ---------------------------------------------------------

#[test]
fn overlap_fires_on_positive_area_overlap() {
    let a = rect(0, 0, 10, 10);
    let b = rect(5, 5, 15, 15);
    let v = check_overlap(&a, &b, A, B, LAYER, rule("O.1"), false).unwrap();
    assert_eq!(v.kind, ViolationKind::Overlap);
    assert_eq!(v.required, 0);
    assert_eq!(v.actual, 5);
}

#[test]
fn overlap_does_not_fire_when_touching() {
    let a = rect(0, 0, 10, 10);
    let b = rect(10, 0, 20, 10);
    assert_eq!(check_overlap(&a, &b, A, B, LAYER, rule("O.1"), false), None);
}

#[test]
fn overlap_does_not_fire_for_same_net() {
    let a = rect(0, 0, 10, 10);
    let b = rect(5, 5, 15, 15);
    assert_eq!(check_overlap(&a, &b, A, B, LAYER, rule("O.1"), true), None);
}

#[test]
fn overlap_symmetric() {
    let a = rect(0, 0, 10, 10);
    let b = rect(5, 5, 15, 15);
    let fwd = check_overlap(&a, &b, A, B, LAYER, rule("O.1"), false).unwrap();
    let rev = check_overlap(&b, &a, B, A, LAYER, rule("O.1"), false).unwrap();
    assert_eq!(fwd.region, rev.region);
    assert_eq!(fwd.actual, rev.actual);
}

// --- check_grid_snap -----------------------------------------------------

#[test]
fn grid_snap_passes_on_grid() {
    let shape = rect(0, 10, 50, 60);
    assert_eq!(check_grid_snap(&shape, A, LAYER, rule("G.1"), 5), None);
}

#[test]
fn grid_snap_fails_off_grid() {
    let shape = rect(0, 0, 11, 10);
    let v = check_grid_snap(&shape, A, LAYER, rule("G.1"), 5).unwrap();
    assert_eq!(v.kind, ViolationKind::GridSnap);
    assert_eq!(v.required, 0);
    assert_eq!(v.actual, 1);
}

#[test]
fn grid_snap_handles_negative_coordinates() {
    let shape = rect(-10, -5, 0, 5);
    assert_eq!(check_grid_snap(&shape, A, LAYER, rule("G.1"), 5), None);

    let off = rect(-11, -5, 0, 5);
    let v = check_grid_snap(&off, A, LAYER, rule("G.1"), 5).unwrap();
    assert_eq!(v.actual, 1);
}

// --- check_outline_exceed --------------------------------------------------

#[test]
fn outline_exceed_passes_inside_boundary() {
    let boundary = rect(0, 0, 100, 100);
    let shape = rect(0, 0, 100, 100);
    assert_eq!(
        check_outline_exceed(&shape, A, &boundary, LAYER, rule("B.1")),
        None
    );
}

#[test]
fn outline_exceed_fires_when_outside() {
    let boundary = rect(0, 0, 100, 100);
    let shape = rect(90, 90, 110, 95);
    let v = check_outline_exceed(&shape, A, &boundary, LAYER, rule("B.1")).unwrap();
    assert_eq!(v.kind, ViolationKind::OutlineExceed);
    assert_eq!(v.required, 0);
    assert_eq!(v.actual, 10);
    assert_eq!(v.shapes, (A, None));
}

// --- check_enclosure ------------------------------------------------------

#[test]
fn enclosure_passes_at_exactly_min_enclosure() {
    let outer = rect(0, 0, 20, 20);
    let inner = rect(2, 2, 18, 18);
    assert_eq!(
        check_enclosure(&outer, &inner, A, B, LAYER, rule("E.1"), 2),
        None
    );
}

#[test]
fn enclosure_fails_when_too_close_to_edge() {
    let outer = rect(0, 0, 20, 20);
    let inner = rect(1, 2, 18, 18);
    let v = check_enclosure(&outer, &inner, A, B, LAYER, rule("E.1"), 2).unwrap();
    assert_eq!(v.kind, ViolationKind::Enclosure);
    assert_eq!(v.required, 2);
    assert_eq!(v.actual, 1);
    assert_eq!(v.shapes, (A, Some(B)));
}

#[test]
fn enclosure_fires_negative_when_inner_outside_outer() {
    let outer = rect(0, 0, 10, 10);
    let inner = rect(8, 8, 20, 20);
    let v = check_enclosure(&outer, &inner, A, B, LAYER, rule("E.1"), 2).unwrap();
    assert_eq!(v.kind, ViolationKind::Enclosure);
    assert!(v.actual < 0);
}

// --- facing_overlap / check_prl_spacing -------------------------------------

#[test]
fn prl_does_not_fire_below_threshold() {
    let a = rect(0, 0, 10, 5);
    let b = rect(13, 0, 23, 5);
    // run length (y overlap) is 5, threshold is 10 -> below threshold
    assert_eq!(
        check_prl_spacing(&a, &b, A, B, LAYER, rule("P.1"), 10, 5, false),
        None
    );
}

#[test]
fn prl_fires_when_run_length_meets_threshold_and_spacing_too_small() {
    let a = rect(0, 0, 10, 20);
    let b = rect(13, 0, 23, 20);
    let v = check_prl_spacing(&a, &b, A, B, LAYER, rule("P.1"), 10, 5, false).unwrap();
    assert_eq!(v.kind, ViolationKind::PRL);
    assert_eq!(v.required, 5);
    assert_eq!(v.actual, 3);
}

#[test]
fn prl_symmetric() {
    let a = rect(0, 0, 10, 20);
    let b = rect(13, 0, 23, 20);
    let fwd = check_prl_spacing(&a, &b, A, B, LAYER, rule("P.1"), 10, 5, false);
    let rev = check_prl_spacing(&b, &a, B, A, LAYER, rule("P.1"), 10, 5, false);
    assert_eq!(fwd.map(|v| v.actual), rev.map(|v| v.actual));
}

#[test]
fn prl_returns_none_for_diagonal_separation() {
    let a = rect(0, 0, 10, 10);
    let b = rect(15, 15, 25, 25);
    assert_eq!(
        check_prl_spacing(&a, &b, A, B, LAYER, rule("P.1"), 0, 100, false),
        None
    );
}

// --- check_cut_spacing -----------------------------------------------------

#[test]
fn cut_spacing_same_semantics_as_spacing() {
    let a = rect(0, 0, 10, 10);
    let b = rect(13, 0, 23, 10);
    let v = check_cut_spacing(&a, &b, A, B, LAYER, rule("C.1"), 5, false).unwrap();
    assert_eq!(v.kind, ViolationKind::CutSpacing);
    assert_eq!(v.required, 5);
    assert_eq!(v.actual, 3);
}

// --- check_same_net_notch ----------------------------------------------------

#[test]
fn same_net_notch_fires_for_narrow_short_channel() {
    let a = rect(0, 0, 10, 20);
    let b = rect(11, 0, 21, 20);
    let v = check_same_net_notch(&a, &b, A, B, LAYER, rule("N.1"), 2, 30).unwrap();
    assert_eq!(v.kind, ViolationKind::SameNetNotch);
    assert_eq!(v.required, 2);
    assert_eq!(v.actual, 1);
    assert!(v.same_net);
}

#[test]
fn same_net_notch_does_not_fire_when_notch_too_long() {
    let a = rect(0, 0, 10, 50);
    let b = rect(11, 0, 21, 50);
    assert_eq!(
        check_same_net_notch(&a, &b, A, B, LAYER, rule("N.1"), 2, 30),
        None
    );
}

#[test]
fn same_net_notch_does_not_fire_when_wide_enough() {
    let a = rect(0, 0, 10, 20);
    let b = rect(15, 0, 25, 20);
    assert_eq!(
        check_same_net_notch(&a, &b, A, B, LAYER, rule("N.1"), 2, 30),
        None
    );
}

// --- check_well_spacing / check_implant_spacing -------------------------------

#[test]
fn well_spacing_same_semantics_as_spacing() {
    let a = rect(0, 0, 10, 10);
    let b = rect(13, 0, 23, 10);
    let v = check_well_spacing(&a, &b, A, B, LAYER, rule("WS.1"), 5).unwrap();
    assert_eq!(v.kind, ViolationKind::WellSpacing);
    assert_eq!(v.actual, 3);
    assert!(!v.same_net);
}

#[test]
fn implant_spacing_same_semantics_as_spacing() {
    let a = rect(0, 0, 10, 10);
    let b = rect(13, 0, 23, 10);
    let v = check_implant_spacing(&a, &b, A, B, LAYER, rule("IS.1"), 5).unwrap();
    assert_eq!(v.kind, ViolationKind::ImplantSpacing);
    assert_eq!(v.actual, 3);
    assert!(!v.same_net);
}

// --- check_well_enclosure ----------------------------------------------------

#[test]
fn well_enclosure_delegates_to_enclosure_math() {
    let well = rect(0, 0, 20, 20);
    let diffusion = rect(1, 2, 18, 18);
    let v = check_well_enclosure(&well, &diffusion, A, B, LAYER, rule("WE.1"), 2).unwrap();
    assert_eq!(v.kind, ViolationKind::WellEnclosure);
    assert_eq!(v.required, 2);
    assert_eq!(v.actual, 1);
}

// --- check_eol_spacing -------------------------------------------------------

#[test]
fn eol_spacing_does_not_fire_without_eol_edge() {
    // Neither shape is narrow enough to have an EOL edge.
    let a = rect(0, 0, 10, 10);
    let b = rect(11, 0, 21, 10);
    assert_eq!(
        check_eol_spacing(&a, &b, A, B, LAYER, rule("EOL.1"), 2, 5, 10, false),
        None
    );
}

#[test]
fn eol_spacing_fires_for_narrow_shape_within_range() {
    // `a` is narrow (height 2 <= eol_width 2), so it has an EOL edge.
    let a = rect(0, 0, 10, 2);
    let b = rect(11, 0, 21, 2);
    let v = check_eol_spacing(&a, &b, A, B, LAYER, rule("EOL.1"), 2, 5, 10, false).unwrap();
    assert_eq!(v.kind, ViolationKind::EOL);
    assert_eq!(v.required, 5);
    assert_eq!(v.actual, 1);
}

#[test]
fn eol_spacing_does_not_fire_beyond_within_distance() {
    let a = rect(0, 0, 10, 2);
    let b = rect(20, 0, 30, 2);
    assert_eq!(
        check_eol_spacing(&a, &b, A, B, LAYER, rule("EOL.1"), 2, 50, 5, false),
        None
    );
}

// --- further cases ------------------------------------------------------

#[test]
fn spacing_same_net_flag_is_carried() {
    let a = rect(0, 0, 10, 10);
    let b = rect(0, 12, 10, 20);
    let v = check_spacing(&a, &b, A, B, LAYER, rule("S.2"), 5, true).unwrap();
    assert!(v.same_net);
    assert_eq!(v.actual, 2);
    assert_eq!(v.shapes, (A, Some(B)));
}

#[test]
fn area_reports_exact_area() {
    let shape = rect(-2, -3, 2, 3);
    let v = check_area(&shape, A, LAYER, rule("A.2"), 25).unwrap();
    assert_eq!(v.actual, 24);
    assert_eq!(v.region, shape);
}

#[test]
fn grid_snap_reports_distance_to_nearest_line() {
    // 13 is 2 from 15 on a pitch of 5 (nearer than 3 from 10).
    let shape = rect(0, 0, 13, 10);
    let v = check_grid_snap(&shape, A, LAYER, rule("G.2"), 5).unwrap();
    assert_eq!(v.actual, 2);
}

#[test]
fn outline_exceed_takes_the_worst_side() {
    let boundary = rect(0, 0, 100, 100);
    let shape = rect(-7, 10, 50, 103);
    let v = check_outline_exceed(&shape, A, &boundary, LAYER, rule("B.2")).unwrap();
    assert_eq!(v.actual, 7);
}

