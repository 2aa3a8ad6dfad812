use editable::{decode_field, encode_field, parse_records, CsvDialect, CsvError, Encoding, FieldIndex};

#[test]
fn parses_multiline_quoted_field() {
    let dialect = CsvDialect::default();
    let records = parse_records(b"a,b\n\"one\ntwo\",3\n", dialect).unwrap();
    assert_eq!(records.len(), 2);
    assert_eq!(records[1].fields.len(), 2);
    assert_eq!(
        decode_field(b"a,b\n\"one\ntwo\",3\n", records[1].fields[0], dialect),
        "one\ntwo"
    );
}

#[test]
fn encodes_quotes_by_doubling() {
    assert_eq!(
        encode_field("a \"quote\"", CsvDialect::default()),
        "\"a \"\"quote\"\"\""
    );
}

#[test]
fn plain_fields_are_written_as_they_are() {
    let d = CsvDialect::default();
    assert_eq!(encode_field("plain", d), "plain");
    assert_eq!(encode_field("", d), "");
    assert_eq!(encode_field("a,b", d), "\"a,b\"");
    assert_eq!(encode_field("line\nbreak", d), "\"line\nbreak\"");
    assert_eq!(encode_field("cr\rhere", d), "\"cr\rhere\"");
    let semi = CsvDialect { delimiter: b';', ..d };
    assert_eq!(encode_field("a,b", semi), "a,b");
    assert_eq!(encode_field("a;b", semi), "\"a;b\"");
}

#[test]
fn every_line_break_ends_a_record() {
    let d = CsvDialect::default();
    let bytes = b"a\r\nb\rc\n\nd";
    let records = parse_records(bytes, d).unwrap();
    assert_eq!(records.len(), 5);
    assert_eq!(decode_field(bytes, records[0].fields[0], d), "a");
    assert_eq!(decode_field(bytes, records[1].fields[0], d), "b");
    assert_eq!(decode_field(bytes, records[2].fields[0], d), "c");
    assert_eq!(records[3].fields.len(), 1);
    assert_eq!(decode_field(bytes, records[3].fields[0], d), "");
    assert_eq!(decode_field(bytes, records[4].fields[0], d), "d");
}

#[test]
fn utf16_sources_are_refused() {
    let le = CsvDialect { encoding: Encoding::Utf16Le, ..CsvDialect::default() };
    match parse_records(b"\xFF\xFEa\x00", le) {
        Err(CsvError::UnsupportedEncoding(name)) => assert_eq!(name, "UTF-16 LE"),
        other => panic!("unexpected {:?}", other.is_ok()),
    }
    let be = CsvDialect { encoding: Encoding::Utf16Be, ..CsvDialect::default() };
    match parse_records(b"\xFE\xFF\x00a", be) {
        Err(CsvError::UnsupportedEncoding(name)) => assert_eq!(name, "UTF-16 BE"),
        other => panic!("unexpected {:?}", other.is_ok()),
    }
}

#[test]
fn bom_is_skipped_by_the_parser() {
    let d = CsvDialect { encoding: Encoding::Utf8Bom, ..CsvDialect::default() };
    let bytes = b"\xEF\xBB\xBFx,y";
    let records = parse_records(bytes, d).unwrap();
    assert_eq!(records.len(), 1);
    assert_eq!(decode_field(bytes, records[0].fields[0], d), "x");
    assert_eq!(decode_field(bytes, records[0].fields[1], d), "y");
}

#[test]
fn written_field_reads_back() {
    let d = CsvDialect::default();
    for value in ["a \"quote\"", "x,y", "multi\nline", "plain", "", "\"", "ünïcödé, \"q\""] {
        let written = encode_field(value, d);
        let bytes = written.as_bytes();
        let quoted = bytes.first() == Some(&b'"');
        let field = FieldIndex { start: 0, end: bytes.len(), quoted };
        assert_eq!(decode_field(bytes, field, d), value);
    }
}

#[test]
fn invalid_utf8_decodes_lossily() {
    let d = CsvDialect::default();
    let bytes = b"a\xFFb";
    let field = FieldIndex { start: 0, end: 3, quoted: false };
    assert_eq!(decode_field(bytes, field, d), "a\u{FFFD}b");
}

#[test]
fn trailing_line_break_adds_no_record() {
    let d = CsvDialect::default();
    let records = parse_records(b"a,b\n1,2\n", d).unwrap();
    assert_eq!(records.len(), 2);
    assert_eq!(records[0].start, 0);
    assert_eq!(records[0].end, 3);
    assert_eq!(records[1].start, 4);
    assert_eq!(records[1].end, 7);
}

#[test]
fn written_records_read_back() {
    let mut d = CsvDialect::default();
    d.delimiter = b';';
    let records: Vec<Vec<String>> = vec![
        vec!["name".to_string(), "note".to_string()],
        vec!["Ada".to_string(), "semi;colon".to_string()],
        vec!["".to_string(), "two\nlines \"quoted\"".to_string()],
        vec!["last".to_string()],
    ];
    let mut out = String::new();
    editable::writer::write_records(&mut out, &records, d);
    let bytes = out.as_bytes();
    let parsed = parse_records(bytes, d).unwrap();
    assert_eq!(parsed.len(), records.len());
    for (record, written) in parsed.iter().zip(records.iter()) {
        let texts: Vec<String> = record.fields.iter().map(|f| decode_field(bytes, *f, d)).collect();
        assert_eq!(&texts, written);
    }
}

#[test]
fn records_and_fields_tile_the_input() {
    let d = CsvDialect::default();
    let bytes = b"a,\"b,c\"\r\nd,,e\nf";
    let records = parse_records(bytes, d).unwrap();
    assert_eq!(records.len(), 3);
    for (i, r) in records.iter().enumerate() {
        assert_eq!(r.fields[0].start, r.start);
        assert_eq!(r.fields.last().unwrap().end, r.end);
        for j in 1..r.fields.len() {
            assert_eq!(bytes[r.fields[j - 1].end], b',');
            assert_eq!(r.fields[j].start, r.fields[j - 1].end + 1);
        }
        for f in &r.fields {
            assert_eq!(f.quoted, f.start < f.end && bytes[f.start] == b'"');
            if !f.quoted {
                assert!(bytes[f.start..f.end].iter().all(|&c| c != b',' && c != b'\n' && c != b'\r'));
            }
        }
        if i + 1 < records.len() {
            assert!(r.end < records[i + 1].start);
            assert!(bytes[r.end] == b'\n' || bytes[r.end] == b'\r');
        }
    }
}
