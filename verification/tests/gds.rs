use philis::{Gds, GdsError};

#[test]
fn library_round_trip() {
    let mut g = Gds::new("PHILIS");
    g.add_rect("TOP", 1, 0, 0, 100, 200);
    g.add_rect("TOP", 2, 50, 50, 10, 10);
    g.add_rect("CELLB", 1, -100, -100, 100, 100);

    assert_eq!(g.lib_name(), "PHILIS");
    assert_eq!(g.cell_count(), 2);
    assert_eq!(g.element_count(), 3);

    let bytes = g.write();
    let g2 = Gds::read(&bytes).expect("read back");

    assert_eq!(g2.lib_name(), "PHILIS");
    assert_eq!(g2.cell_count(), 2);
    assert_eq!(g2.element_count(), 3);

    // Units (and everything else) survive: the stream written again is identical.
    assert_eq!(g2.write(), bytes);
}

#[test]
fn add_cell_dedup() {
    let mut g = Gds::new("LIB");
    assert!(g.add_cell("A"));
    assert!(!g.add_cell("A"));
    assert_eq!(g.cell_count(), 1);
}

#[test]
fn add_rect_creates_cell_and_closes_polygon() {
    let mut g = Gds::new("LIB");
    g.add_rect("NEW", 5, 1, 2, 3, 4);
    assert_eq!(g.cell_count(), 1);
    assert_eq!(g.element_count(), 1);
    let bytes = g.write();
    // The XY record of the boundary: 10 INT4 values, closed (first == last).
    let xy_header = [0x00u8, 44, 0x10, 0x03];
    let at = bytes
        .windows(4)
        .position(|w| w == xy_header)
        .expect("XY record");
    let vals: Vec<i32> = bytes[at + 4..at + 44]
        .chunks(4)
        .map(|c| i32::from_be_bytes([c[0], c[1], c[2], c[3]]))
        .collect();
    assert_eq!(vals, vec![1, 2, 4, 2, 4, 6, 1, 6, 1, 2]);
    // The LAYER record carries 5.
    let layer_header = [0x00u8, 6, 0x0d, 0x02];
    let at = bytes
        .windows(4)
        .position(|w| w == layer_header)
        .expect("LAYER record");
    assert_eq!(&bytes[at + 4..at + 6], &[0u8, 5]);
}

#[test]
fn malformed_truncated_record() {
    let mut g = Gds::new("LIB");
    g.add_rect("C", 1, 0, 0, 10, 10);
    let mut bytes = g.write();
    bytes.truncate(bytes.len() - 3);
    let err = Gds::read(&bytes).unwrap_err();
    assert!(
        matches!(err, GdsError::BadRecordLength { .. } | GdsError::UnexpectedEof),
        "unexpected error: {err:?}"
    );
}

#[test]
fn missing_header_rejected() {
    // A first record that is not HEADER (an ENDLIB record).
    let bytes = [0x00u8, 0x04, 0x04, 0x00];
    assert_eq!(Gds::read(&bytes).unwrap_err(), GdsError::MissingHeader);
    assert_eq!(Gds::read(&[]).unwrap_err(), GdsError::MissingHeader);
}

#[test]
fn bad_record_length_too_small() {
    let bytes = [0x00u8, 0x02, 0x00, 0x02];
    let err = Gds::read(&bytes).unwrap_err();
    assert!(matches!(err, GdsError::BadRecordLength { .. }));
}

#[test]
fn display_and_error_trait() {
    let e = GdsError::UnexpectedEof;
    let s: String = e.message();
    assert!(!s.is_empty());
}

#[test]
fn error_messages_are_exact() {
    assert_eq!(GdsError::UnexpectedEof.message(), "unexpected end of GDSII stream");
    assert_eq!(
        GdsError::BadRecordLength { offset: 12, len: 2 }.message(),
        "bad record length 2 at offset 12"
    );
    assert_eq!(
        GdsError::BadPayload { rtype: 0x0d, len: 3 }.message(),
        "bad payload length 3 for record type 0x0d"
    );
    assert_eq!(
        GdsError::MissingHeader.message(),
        "stream does not start with a HEADER record"
    );
}

#[test]
fn new_library_stream_is_exact() {
    let g = Gds::new("AB");
    let bytes = g.write();
    let expected: Vec<u8> = vec![
        // HEADER 600
        0x00, 0x06, 0x00, 0x02, 0x02, 0x58, //
        // BGNLIB, 12 zero INT2
        0x00, 0x1c, 0x01, 0x02, 0, 0, 0, 0, 0, 0, 0, 0, 0, 0, 0, 0, 0, 0, 0, 0, 0, 0, 0, 0, 0, 0,
        0, 0, //
        // LIBNAME "AB"
        0x00, 0x06, 0x02, 0x06, b'A', b'B', //
        // UNITS 1e-3, 1e-9
        0x00, 0x14, 0x03, 0x05, 0x3e, 0x41, 0x89, 0x37, 0x4b, 0xc6, 0xa7, 0xf0, 0x39, 0x44, 0xb8,
        0x2f, 0xa0, 0x9b, 0x5a, 0x54, //
        // ENDLIB
        0x00, 0x04, 0x04, 0x00,
    ];
    assert_eq!(bytes, expected);
}

#[test]
fn odd_name_is_nul_padded_and_read_back() {
    let mut g = Gds::new("ABC");
    g.add_cell("XYZ");
    let bytes = g.write();
    let g2 = Gds::read(&bytes).unwrap();
    assert_eq!(g2.lib_name(), "ABC");
    assert_eq!(g2.cell_count(), 1);
    assert_eq!(g2.element_count(), 0);
    // LIBNAME payload is 4 bytes: "ABC\0".
    assert_eq!(&bytes[34..42], &[0x00, 0x08, 0x02, 0x06, b'A', b'B', b'C', 0]);
}

#[test]
fn odd_int2_payload_is_bad_payload() {
    // HEADER, then a LAYER record with a 3-byte payload.
    let bytes = [0x00u8, 0x06, 0x00, 0x02, 0x02, 0x58, 0x00, 0x07, 0x0d, 0x02, 1, 2, 3];
    assert_eq!(
        Gds::read(&bytes).unwrap_err(),
        GdsError::BadPayload { rtype: 0x0d, len: 3 }
    );
}

#[test]
fn element_outside_a_structure_gets_an_orphan_cell() {
    // HEADER, BOUNDARY, ENDEL, ENDLIB.
    let bytes = [
        0x00u8, 0x06, 0x00, 0x02, 0x02, 0x58, 0x00, 0x04, 0x08, 0x00, 0x00, 0x04, 0x11, 0x00,
        0x00, 0x04, 0x04, 0x00,
    ];
    let g = Gds::read(&bytes).unwrap();
    assert_eq!(g.cell_count(), 1);
    assert_eq!(g.element_count(), 1);
}

#[test]
fn stream_without_endlib_ends_cleanly() {
    let bytes = [0x00u8, 0x06, 0x00, 0x02, 0x02, 0x58];
    let g = Gds::read(&bytes).unwrap();
    assert_eq!(g.lib_name(), "");
    assert_eq!(g.cell_count(), 0);
}

#[test]
fn read_library_writes_back_byte_for_byte() {
    let mut g = Gds::new("LIB");
    g.add_cell("EMPTY");
    g.add_rect("TOP", 1, 0, 0, 10, 20);
    g.add_rect("TOP", 2, -5, -5, 3, 3);
    let bytes = g.write();
    let r = Gds::read(&bytes).unwrap();
    assert_eq!(r.lib_name(), "LIB");
    assert_eq!(r.cell_count(), 2);
    assert_eq!(r.element_count(), 2);
    assert_eq!(r.write(), bytes);
}

#[test]
fn read_normalizes_units_as_a_double_would() {
    // HEADER, BGNLIB, LIBNAME "L", UNITS with an unnormalized first real
    // (0x41 0x01..., i.e. 1/16 with a leading zero hex digit) and a
    // 56-bit mantissa that a double must round, then ENDLIB.
    let mut bytes: Vec<u8> = vec![0, 6, 0x00, 0x02, 0x02, 0x58];
    bytes.extend_from_slice(&[0, 28, 0x01, 0x02]);
    bytes.extend_from_slice(&[0u8; 24]);
    bytes.extend_from_slice(&[0, 6, 0x02, 0x06, b'L', 0]);
    bytes.extend_from_slice(&[0, 20, 0x03, 0x05]);
    bytes.extend_from_slice(&[0x41, 0x01, 0, 0, 0, 0, 0, 0]);
    bytes.extend_from_slice(&[0x41, 0xff, 0xff, 0xff, 0xff, 0xff, 0xff, 0xff]);
    bytes.extend_from_slice(&[0, 4, 0x04, 0x00]);
    let g = Gds::read(&bytes).unwrap();
    let out = g.write();
    let units_at = out.windows(4).position(|w| w == [0, 20, 0x03, 0x05]).unwrap() + 4;
    // 1/16 * 16 = 1/256 * 16^2 ... normalized: exponent 0x40, mantissa 0x10...
    assert_eq!(&out[units_at..units_at + 8], &[0x40, 0x10, 0, 0, 0, 0, 0, 0]);
    // All-ones mantissa rounds up to 16^1 * 1: exponent 0x42, mantissa 0x10...
    assert_eq!(&out[units_at + 8..units_at + 16], &[0x42, 0x10, 0, 0, 0, 0, 0, 0]);
    // Reading what was written changes nothing more.
    assert_eq!(Gds::read(&out).unwrap().write(), out);
}
