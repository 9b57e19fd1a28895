use js_source_mapper_ffi::{
    consume, decode_value, encode_value, load, parse_mappings, Cache, Mapping, Position,
    SourceMapError,
};

fn strings(items: &[&str]) -> Vec<String> {
    items.iter().map(|s| s.to_string()).collect()
}

fn decode(mappings: &str, sources: &[&str], names: &[&str]) -> Result<Vec<Mapping>, SourceMapError> {
    parse_mappings(mappings.as_bytes(), &strings(sources), &strings(names))
}

fn cache(mappings: &str) -> Cache {
    match load(&strings(&["a.js"]), &strings(&["foo"]), mappings) {
        Ok(c) => c,
        Err(e) => panic!("load failed: {:?}", e),
    }
}

fn consume_err(text: &str) -> SourceMapError {
    match consume(text) {
        Ok(_) => panic!("expected an error"),
        Err(e) => e,
    }
}

fn pos(line: u32, column: u32) -> Position {
    Position { line, column }
}

#[test]
fn vlq_round_trip_over_a_range() {
    let mut values: Vec<i32> = (-70000..70000).step_by(7).collect();
    values.extend_from_slice(&[0, 1, -1, 15, 16, -16, 31, 32, -32, 1023, 1024, i32::MAX, i32::MIN]);
    for v in values {
        let mut encoded = encode_value(v);
        let len = encoded.len();
        encoded.extend_from_slice(b",AAAA");
        assert_eq!(decode_value(&encoded, 0), Ok((v as i64, len)), "value {}", v);
    }
}

#[test]
fn vlq_known_encodings() {
    assert_eq!(encode_value(0), b"A".to_vec());
    assert_eq!(encode_value(1), b"C".to_vec());
    assert_eq!(encode_value(-1), b"D".to_vec());
    assert_eq!(encode_value(16), b"gB".to_vec());
    assert_eq!(encode_value(1000000), b"gkh9B".to_vec());
    assert_eq!(encode_value(-1000000), b"hkh9B".to_vec());
    assert_eq!(decode_value(b"gkh9B", 0), Ok((1000000, 5)));
}

#[test]
fn vlq_errors() {
    assert_eq!(decode_value(b"g", 0), Err(SourceMapError::TruncatedVlq(1)));
    assert_eq!(decode_value(b"g,", 0), Err(SourceMapError::TruncatedVlq(1)));
    assert_eq!(decode_value(b"A@", 1), Err(SourceMapError::InvalidVlqCharacter(b'@', 1)));
    assert_eq!(decode_value(b"gggggggA", 0), Err(SourceMapError::VlqTooLong(6)));
    assert_eq!(decode_value(b"ggggggA", 0).map(|(_, e)| e), Ok(7));
}

#[test]
fn single_segment_has_zero_deltas() {
    let ms = decode("AAAA", &["a.js"], &[]).unwrap();
    assert_eq!(ms.len(), 1);
    let m = &ms[0];
    assert_eq!(m.generated, pos(0, 0));
    assert_eq!(m.original, pos(0, 0));
    assert_eq!(m.source_index, Some(0));
    assert_eq!(m.source, "a.js");
    assert_eq!(m.name_index, None);
    assert_eq!(m.name, "");
}

#[test]
fn second_segment_adds_its_deltas() {
    // 'C' is the digit 2, which carries the delta +1.
    let ms = decode("AAAA,CAAC", &["a.js"], &[]).unwrap();
    assert_eq!(ms.len(), 2);
    assert_eq!(ms[0].generated, pos(0, 0));
    assert_eq!(ms[1].generated, pos(0, 1));
    assert_eq!(ms[1].original, pos(0, 1));
    assert_eq!(ms[0].source_index, Some(0));
    assert_eq!(ms[1].source_index, Some(0));
}

#[test]
fn semicolon_advances_the_line() {
    let ms = decode(";AAAA", &["a.js"], &[]).unwrap();
    assert_eq!(ms.len(), 1);
    assert_eq!(ms[0].generated, pos(1, 0));
}

#[test]
fn generated_column_resets_per_line_other_state_carries() {
    let ms = decode("EAEEA;CACCC", &["a.js", "b.js"], &["x", "y", "z"]).unwrap();
    assert_eq!(ms.len(), 2);
    assert_eq!(ms[0].generated, pos(0, 2));
    assert_eq!(ms[0].original, pos(2, 2));
    assert_eq!(ms[0].name, "x");
    assert_eq!(ms[1].generated, pos(1, 1));
    assert_eq!(ms[1].source_index, Some(0));
    assert_eq!(ms[1].original, pos(3, 3));
    assert_eq!(ms[1].name_index, Some(1));
    assert_eq!(ms[1].name, "y");
}

#[test]
fn one_field_segment_has_no_source() {
    let ms = decode("C", &["a.js"], &["n"]).unwrap();
    assert_eq!(ms[0].generated, pos(0, 1));
    assert_eq!(ms[0].source_index, None);
    assert_eq!(ms[0].source, "");
    assert_eq!(ms[0].name, "");
}

#[test]
fn index_beyond_table_resolves_to_empty() {
    let ms = decode("ACAAC", &["a.js"], &["n"]).unwrap();
    assert_eq!(ms[0].source_index, Some(1));
    assert_eq!(ms[0].source, "");
    assert_eq!(ms[0].name_index, Some(1));
    assert_eq!(ms[0].name, "");
}

#[test]
fn mapping_count_equals_non_empty_segments() {
    let ms = decode(",AAAA,,CAAC;;EAAE,;", &["a.js"], &[]).unwrap();
    assert_eq!(ms.len(), 3);
    assert_eq!(decode("", &[], &[]).unwrap().len(), 0);
    assert_eq!(decode(";;,;", &[], &[]).unwrap().len(), 0);
}

#[test]
fn segment_errors() {
    assert_eq!(decode("AA", &["a.js"], &[]).unwrap_err(), SourceMapError::InvalidSegment(2));
    assert_eq!(decode("AAAA,AAA;", &["a.js"], &[]).unwrap_err(), SourceMapError::InvalidSegment(8));
    assert_eq!(decode("AAAAAA", &["a.js"], &[]).unwrap_err(), SourceMapError::InvalidSegment(6));
    assert_eq!(decode("D", &[], &[]).unwrap_err(), SourceMapError::PositionOutOfRange(1));
    assert_eq!(decode("AAAA,ADAA", &["a.js"], &[]).unwrap_err(), SourceMapError::PositionOutOfRange(9));
    assert_eq!(decode("AAg", &["a.js"], &[]).unwrap_err(), SourceMapError::TruncatedVlq(3));
}

#[test]
fn character_outside_alphabet_fails() {
    assert_eq!(decode("AA@A", &["a.js"], &[]).unwrap_err(), SourceMapError::InvalidVlqCharacter(b'@', 2));
    match consume_err(r#"{"version":3,"sources":["a.js"],"names":[],"mappings":"A@"}"#) {
        SourceMapError::InvalidVlqCharacter(c, _) => assert_eq!(c, b'@'),
        e => panic!("unexpected {:?}", e),
    }
}

#[test]
fn lookup_finds_greatest_at_or_before() {
    let c = cache("AAAA,EAAC;CAAC");
    assert_eq!(c.len(), 3);
    assert_eq!(c.lookup(0, 0).generated, pos(0, 0));
    assert_eq!(c.lookup(0, 1).generated, pos(0, 0));
    assert_eq!(c.lookup(0, 2).generated, pos(0, 2));
    assert_eq!(c.lookup(0, 99).generated, pos(0, 2));
    assert_eq!(c.lookup(1, 0).generated, pos(0, 2));
    assert_eq!(c.lookup(1, 1).generated, pos(1, 1));
    assert_eq!(c.lookup(7, 7).generated, pos(1, 1));
    assert_eq!(c.lookup(1, 1).original, pos(0, 2));
}

#[test]
fn lookup_before_first_returns_first() {
    let c = cache(";EAAA");
    let m = c.lookup(0, 5);
    assert_eq!(m.generated, pos(1, 2));
    assert_eq!(m.source, "a.js");
    assert_eq!(c.lookup(1, 0).generated, pos(1, 2));
}

#[test]
fn lookup_on_empty_index_returns_sentinel() {
    let c = match consume(r#"{"version":3,"sources":[],"names":[],"mappings":""}"#) {
        Ok(c) => c,
        Err(e) => panic!("{:?}", e),
    };
    assert_eq!(c.len(), 0);
    let m = c.lookup(3, 4);
    assert_eq!(m.source, "");
    assert_eq!(m.name, "");
    assert_eq!(m.generated, pos(0, 0));
    assert_eq!(m.original, pos(0, 0));
    assert_eq!(m.source_index, None);
}

#[test]
fn lookup_is_monotonic() {
    let c = cache("IAAA,DAAC,GAAC;AACA,KAAC;;CAAC");
    let mut positions = Vec::new();
    for line in 0..5u32 {
        for column in 0..8u32 {
            positions.push(pos(line, column));
        }
    }
    let mut last = (0u32, 0u32);
    for p in positions {
        let g = c.lookup(p.line, p.column).generated;
        assert!((g.line, g.column) >= last, "at {:?}", p);
        last = (g.line, g.column);
    }
}

#[test]
fn out_of_order_segments_are_ordered_in_the_index() {
    let c = cache("KAAA,HAAC,DAAC");
    assert_eq!(c.len(), 3);
    assert_eq!(c.get(0).generated, pos(0, 1));
    assert_eq!(c.get(1).generated, pos(0, 2));
    assert_eq!(c.get(2).generated, pos(0, 5));
    assert_eq!(c.get(0).original, pos(0, 2));
    assert_eq!(c.lookup(0, 3).generated, pos(0, 2));
}

#[test]
fn equal_positions_keep_their_order() {
    let c = cache("AAAA,AAAC");
    assert_eq!(c.get(0).original, pos(0, 0));
    assert_eq!(c.get(1).original, pos(0, 1));
    assert_eq!(c.lookup(0, 0).original, pos(0, 1));
}

#[test]
fn consume_reads_the_document() {
    let text = r#"{
        "version": 3,
        "file": "out.js",
        "sourceRoot": "",
        "sources": ["foo.js", "bar.js"],
        "names": ["src", "maps", "are", "fun"],
        "mappings": "AAAA,SCSAA;;GDCEC"
    }"#;
    let c = match consume(text) {
        Ok(c) => c,
        Err(e) => panic!("{:?}", e),
    };
    assert_eq!(c.len(), 3);
    let m = c.lookup(0, 9);
    assert_eq!(m.generated, pos(0, 9));
    assert_eq!(m.source, "bar.js");
    assert_eq!(m.original, pos(9, 0));
    assert_eq!(m.name, "src");
    let m = c.lookup(2, 3);
    assert_eq!(m.generated, pos(2, 3));
    assert_eq!(m.source, "foo.js");
    assert_eq!(m.original, pos(10, 2));
    assert_eq!(m.name, "maps");
}

#[test]
fn missing_mappings_field_is_malformed() {
    let e = consume_err(r#"{"version":3,"sources":["a.js"],"names":[]}"#);
    assert_eq!(e, SourceMapError::MalformedSourceMap("mappings".to_string()));
}

#[test]
fn mistyped_fields_are_malformed() {
    assert_eq!(
        consume_err(r#"{"names":[],"mappings":""}"#),
        SourceMapError::MalformedSourceMap("sources".to_string())
    );
    assert_eq!(
        consume_err(r#"{"sources":["a",1],"names":[],"mappings":""}"#),
        SourceMapError::MalformedSourceMap("sources".to_string())
    );
    assert_eq!(
        consume_err(r#"{"sources":[],"names":"x","mappings":""}"#),
        SourceMapError::MalformedSourceMap("names".to_string())
    );
    assert_eq!(
        consume_err(r#"{"sources":[],"names":[],"mappings":3}"#),
        SourceMapError::MalformedSourceMap("mappings".to_string())
    );
    assert_eq!(consume_err("[1, 2]"), SourceMapError::MalformedSourceMap("sources".to_string()));
}

#[test]
fn invalid_json_is_reported() {
    match consume_err("{\"sources\": [") {
        SourceMapError::InvalidJson(msg) => assert!(!msg.is_empty()),
        e => panic!("unexpected {:?}", e),
    }
}

#[test]
fn document_without_version_and_with_extra_fields_loads() {
    let text = r#"{"sources":[],"names":[],"mappings":"","file":"x.js","sourceRoot":"/"}"#;
    match consume(text) {
        Ok(c) => assert_eq!(c.len(), 0),
        Err(e) => panic!("{:?}", e),
    }
}

#[test]
fn first_missing_field_is_named() {
    assert_eq!(
        consume_err(r#"{"version":3,"names":[],"mappings":"AAAA"}"#),
        SourceMapError::MalformedSourceMap("sources".to_string())
    );
    assert_eq!(
        consume_err(r#"{"version":3,"sources":["a.js"],"names":[],"mappings":5}"#),
        SourceMapError::MalformedSourceMap("mappings".to_string())
    );
    assert_eq!(
        consume_err(r#"{"version":3,"sources":["a.js"]}"#),
        SourceMapError::MalformedSourceMap("names".to_string())
    );
}
