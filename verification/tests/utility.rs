use philis::utility::bounds;

#[test]
fn bounds_of_empty_is_none() {
    assert_eq!(bounds(&[]), None);
}

#[test]
fn bounds_of_values() {
    assert_eq!(bounds(&[3, -2, 7, 0]), Some((-2, 7)));
}

#[test]
fn extent_projects_a_field() {
    let pts = [(0, 3), (10, 1), (4, 8)];
    let xs: Vec<i64> = pts.iter().map(|p| p.0).collect();
    let ys: Vec<i64> = pts.iter().map(|p| p.1).collect();
    assert_eq!(bounds(&xs), Some((0, 10)));
    assert_eq!(bounds(&ys), Some((1, 8)));
}

#[test]
fn bounds_of_one_value_is_that_value() {
    assert_eq!(bounds(&[i64::MIN]), Some((i64::MIN, i64::MIN)));
}
