use editable::dialect::{detect_delimiter, detect_encoding, detect_line_ending};
use editable::{detect_dialect, CsvDialect, Encoding, LineEnding};

#[test]
fn detects_semicolon_and_crlf() {
    let dialect = detect_dialect(b"a;b;c\r\n1;2;3\r\n");
    assert_eq!(dialect.delimiter, b';');
    assert_eq!(dialect.line_ending, LineEnding::CrLf);
}

#[test]
fn ignores_delimiters_inside_quotes() {
    let dialect = detect_dialect(b"\"a,b\";c;d\n\"1,2\";3;4\n");
    assert_eq!(dialect.delimiter, b';');
}

#[test]
fn default_dialect_is_comma_quote_lf_utf8() {
    let d = CsvDialect::default();
    assert_eq!(d.delimiter, b',');
    assert_eq!(d.quote, b'"');
    assert_eq!(d.escape, None);
    assert_eq!(d.line_ending, LineEnding::Lf);
    assert_eq!(d.encoding, Encoding::Utf8);
}

#[test]
fn byte_order_marks_tell_the_encoding() {
    assert_eq!(detect_encoding(b"\xEF\xBB\xBFa,b"), Encoding::Utf8Bom);
    assert_eq!(detect_encoding(b"\xFF\xFEa\x00"), Encoding::Utf16Le);
    assert_eq!(detect_encoding(b"\xFE\xFF\x00a"), Encoding::Utf16Be);
    assert_eq!(detect_encoding(b"a,b"), Encoding::Utf8);
    assert_eq!(detect_encoding(b""), Encoding::Utf8);
}

#[test]
fn line_endings_by_majority() {
    assert_eq!(detect_line_ending(b"a\nb\nc\r\n"), LineEnding::Lf);
    assert_eq!(detect_line_ending(b"a\r\nb\r\nc\n"), LineEnding::CrLf);
    assert_eq!(detect_line_ending(b"a\rb\rc\n"), LineEnding::Cr);
    assert_eq!(detect_line_ending(b"no breaks"), LineEnding::Lf);
    assert_eq!(detect_line_ending(b"a\r\nb\n"), LineEnding::CrLf);
}

#[test]
fn tab_and_pipe_separators_are_detected() {
    assert_eq!(detect_delimiter(b"a\tb\tc\n1\t2\t3\n"), b'\t');
    assert_eq!(detect_delimiter(b"a|b|c\n1|2|3\n"), b'|');
    assert_eq!(detect_delimiter(b"a,b,c\n1,2,3\n"), b',');
}

#[test]
fn line_ending_text() {
    assert_eq!(LineEnding::Lf.as_str(), "\n");
    assert_eq!(LineEnding::CrLf.as_str(), "\r\n");
    assert_eq!(LineEnding::Cr.as_str(), "\r");
}

#[test]
fn bom_is_skipped_when_detecting_the_separator() {
    let d = detect_dialect(b"\xEF\xBB\xBFa;b\n1;2\n");
    assert_eq!(d.encoding, Encoding::Utf8Bom);
    assert_eq!(d.delimiter, b';');
}
