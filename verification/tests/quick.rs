use philis::{parse, place_and_route, Cell};

#[test]
fn parses_and_skips_comments_and_blanks() {
    let cells = parse("# header\na 0 0\n\nb 3 4\n").unwrap();
    assert_eq!(cells.len(), 2);
    assert_eq!(
        cells[1],
        Cell {
            name: "b".into(),
            x: 3,
            y: 4
        }
    );
}

#[test]
fn computes_hpwl() {
    let out = place_and_route("a 0 0\nb 3 4").unwrap();
    assert_eq!(out, "placed 2 cells, bbox 3x4, hpwl 7");
}

#[test]
fn empty_input_places_nothing() {
    assert_eq!(place_and_route("\n# nothing\n").unwrap(), "placed 0 cells");
}

#[test]
fn rejects_malformed_lines() {
    assert!(place_and_route("a 1").is_err());
    assert!(place_and_route("a 1 two").is_err());
}

#[test]
fn error_messages_name_line_and_field() {
    assert_eq!(
        parse("a 1 2\n\nb x 3\n").unwrap_err(),
        "line 3: missing or invalid x coordinate"
    );
    assert_eq!(parse("a 1").unwrap_err(), "line 1: missing or invalid y coordinate");
    assert_eq!(parse("a +7 -9 extra\r\n").unwrap()[0], Cell { name: "a".into(), x: 7, y: -9 });
}

#[test]
fn negative_extents_and_i64_limits() {
    assert_eq!(
        place_and_route("p -5 -5\nq -1 -2\n").unwrap(),
        "placed 2 cells, bbox 4x3, hpwl 7"
    );
    assert_eq!(
        parse("m -9223372036854775808 9223372036854775807").unwrap()[0],
        Cell { name: "m".into(), x: i64::MIN, y: i64::MAX }
    );
    assert!(parse("m 9223372036854775808 0").is_err());
}

#[test]
fn extent_check_matches_place_and_route_domain() {
    assert!(philis::extent_fits_input("a 0 0\nb 10 20\n"));
    assert!(philis::extent_fits_input(""));
    assert!(philis::extent_fits_input("not a cell line"));
    let wide = format!("a {} 0\nb {} 0\n", i64::MIN, i64::MAX);
    assert!(!philis::extent_fits_input(&wide));
    let edge = format!("a 0 0\nb {} 0\n", i64::MAX);
    assert!(philis::extent_fits_input(&edge));
    let over = format!("a 0 0\nb {} 1\n", i64::MAX);
    assert!(!philis::extent_fits_input(&over));
}
