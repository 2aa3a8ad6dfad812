use crate::dialect::{CsvDialect, Encoding};
use crate::error::CsvError;
use crate::text::{push_char, string_from_utf8_lossy, utf8_lossy};
use vstd::prelude::*;
use vstd::std_specs::iter::IteratorSpec;

verus! {

/// Byte range of one field inside the source, and whether it opened with a quote.
#[derive(Debug, Clone, Copy, PartialEq, Eq, Structural)]
pub struct FieldIndex {
    pub start: usize,
    pub end: usize,
    pub quoted: bool,
}

/// Byte range of one record inside the source, with its fields.
#[derive(Debug, Clone, PartialEq, Eq)]
pub struct RecordIndex {
    pub start: usize,
    pub end: usize,
    pub fields: Vec<FieldIndex>,
}

/// A record as plain values.
pub struct RecordView {
    pub start: usize,
    pub end: usize,
    pub fields: Seq<FieldIndex>,
}

impl View for RecordIndex {
    type V = RecordView;

    open spec fn view(&self) -> RecordView {
        RecordView { start: self.start, end: self.end, fields: self.fields@ }
    }
}

pub open spec fn records_view(v: Seq<RecordIndex>) -> Seq<RecordView> {
    v.map_values(|r: RecordIndex| r@)
}

/// Every field and record lies inside a source of `len` bytes, start before end.
pub open spec fn fields_in_bounds(fields: Seq<FieldIndex>, len: int) -> bool {
    forall|k: int| 0 <= k < fields.len() ==> #[trigger] fields[k].start <= fields[k].end <= len
}

pub open spec fn record_in_bounds(r: RecordView, len: int) -> bool {
    r.start <= r.end <= len && fields_in_bounds(r.fields, len)
}

pub open spec fn records_in_bounds(records: Seq<RecordView>, len: int) -> bool {
    forall|k: int| 0 <= k < records.len() ==> record_in_bounds(#[trigger] records[k], len)
}

proof fn lemma_fields_bounds_mono(f: Seq<FieldIndex>, a: int, b: int)
    requires
        fields_in_bounds(f, a),
        a <= b,
    ensures
        fields_in_bounds(f, b),
{
}

proof fn lemma_records_bounds_mono(r: Seq<RecordView>, a: int, b: int)
    requires
        records_in_bounds(r, a),
        a <= b,
    ensures
        records_in_bounds(r, b),
{
    assert forall|k: int| 0 <= k < r.len() implies record_in_bounds(#[trigger] r[k], b) by {
        lemma_fields_bounds_mono(r[k].fields, a, b);
    }
}

/// Progress of the record scanner.
pub struct ParseScan {
    pub i: int,
    pub record_start: int,
    pub field_start: int,
    pub fields: Seq<FieldIndex>,
    pub in_quotes: bool,
    pub field_quoted: bool,
    pub at_field_start: bool,
    pub records: Seq<RecordView>,
}

/// One step of the scanner at `s.i`, which must lie inside `b`.
pub open spec fn parse_step(b: Seq<u8>, q: u8, d: u8, s: ParseScan) -> ParseScan {
    let c = b[s.i];
    if s.at_field_start && c == q {
        ParseScan { i: s.i + 1, field_quoted: true, in_quotes: true, at_field_start: false, ..s }
    } else if s.in_quotes {
        if c == q {
            if s.i + 1 < b.len() && b[s.i + 1] == q {
                ParseScan { i: s.i + 2, ..s }
            } else {
                ParseScan { i: s.i + 1, in_quotes: false, ..s }
            }
        } else {
            ParseScan { i: s.i + 1, ..s }
        }
    } else if c == d {
        ParseScan {
            i: s.i + 1,
            fields: s.fields.push(
                FieldIndex {
                    start: s.field_start as usize,
                    end: s.i as usize,
                    quoted: s.field_quoted,
                },
            ),
            field_start: s.i + 1,
            field_quoted: false,
            at_field_start: true,
            ..s
        }
    } else if c == 10u8 || c == 13u8 {
        let fields = s.fields.push(
            FieldIndex { start: s.field_start as usize, end: s.i as usize, quoted: s.field_quoted },
        );
        let last: int = if c == 13u8 && s.i + 1 < b.len() && b[s.i + 1] == 10u8 {
            s.i + 1
        } else {
            s.i
        };
        ParseScan {
            i: last + 1,
            record_start: last + 1,
            field_start: last + 1,
            fields: Seq::empty(),
            in_quotes: s.in_quotes,
            field_quoted: false,
            at_field_start: true,
            records: s.records.push(
                RecordView { start: s.record_start as usize, end: s.i as usize, fields },
            ),
        }
    } else {
        ParseScan { i: s.i + 1, at_field_start: false, ..s }
    }
}

/// Runs the scanner to the end of `b`.
pub open spec fn parse_run(b: Seq<u8>, q: u8, d: u8, s: ParseScan) -> ParseScan
    decreases b.len() - s.i,
{
    if 0 <= s.i < b.len() {
        let n = parse_step(b, q, d, s);
        if n.i > s.i {
            parse_run(b, q, d, n)
        } else {
            s
        }
    } else {
        s
    }
}

/// Where scanning starts: after a UTF-8 byte order mark, if the dialect has one.
pub open spec fn parse_origin(b: Seq<u8>, dialect: CsvDialect) -> int {
    if dialect.encoding == Encoding::Utf8Bom {
        if b.len() < 3 {
            b.len() as int
        } else {
            3
        }
    } else {
        0
    }
}

pub open spec fn parse_start(b: Seq<u8>, dialect: CsvDialect) -> ParseScan {
    let o = parse_origin(b, dialect);
    ParseScan {
        i: o,
        record_start: o,
        field_start: o,
        fields: Seq::empty(),
        in_quotes: false,
        field_quoted: false,
        at_field_start: true,
        records: Seq::empty(),
    }
}

/// The records of a scan that reached the end: a last record without a trailing
/// line break is closed at the end of the input.
pub open spec fn parse_finish(b: Seq<u8>, s: ParseScan) -> Seq<RecordView> {
    if s.field_start < b.len() || s.fields.len() > 0 || s.record_start < b.len() {
        s.records.push(
            RecordView {
                start: s.record_start as usize,
                end: b.len() as usize,
                fields: s.fields.push(
                    FieldIndex {
                        start: s.field_start as usize,
                        end: b.len() as usize,
                        quoted: s.field_quoted,
                    },
                ),
            },
        )
    } else {
        s.records
    }
}

/// The record index of a UTF-8 source.
pub open spec fn spec_records(b: Seq<u8>, dialect: CsvDialect) -> Seq<RecordView> {
    parse_finish(b, parse_run(b, dialect.quote, dialect.delimiter, parse_start(b, dialect)))
}

pub open spec fn scan_of(
    i: usize,
    record_start: usize,
    field_start: usize,
    fields: Seq<FieldIndex>,
    in_quotes: bool,
    field_quoted: bool,
    at_field_start: bool,
    records: Seq<RecordIndex>,
) -> ParseScan {
    ParseScan {
        i: i as int,
        record_start: record_start as int,
        field_start: field_start as int,
        fields,
        in_quotes,
        field_quoted,
        at_field_start,
        records: records_view(records),
    }
}

/// The fields of a record tile its bytes: the first starts where the record
/// starts, each one but the last ends at a separator byte right after which
/// the next one starts, and the last ends where the record ends.
pub open spec fn fields_tile(b: Seq<u8>, d: u8, r: RecordView) -> bool {
    &&& r.fields.len() > 0
    &&& r.start <= r.end <= b.len()
    &&& r.fields[0].start == r.start
    &&& r.fields.last().end == r.end
    &&& fields_chain(b, d, r.fields)
}

/// Each field after the first starts right after a separator byte that
/// ends the one before.
pub open spec fn fields_chain(b: Seq<u8>, d: u8, f: Seq<FieldIndex>) -> bool {
    forall|i: int, j: int|
        #![trigger f[i], f[j]]
        0 <= i && j == i + 1 && j < f.len() ==> f[j].start == f[i].end + 1 && f[i].end < b.len()
            && b[f[i].end as int] == d
}

/// A field starting right after a separator that ends the last field
/// continues the chain.
proof fn lemma_chain_push(b: Seq<u8>, d: u8, f: Seq<FieldIndex>, x: FieldIndex)
    requires
        fields_chain(b, d, f),
        f.len() > 0 ==> x.start == f.last().end + 1 && f.last().end < b.len() && b[f.last().end as int]
            == d,
    ensures
        fields_chain(b, d, f.push(x)),
{
    let g = f.push(x);
    assert forall|i: int, j: int|
        #![trigger g[i], g[j]]
        0 <= i && j == i + 1 && j < g.len() implies g[j].start == g[i].end + 1 && g[i].end < b.len()
            && b[g[i].end as int] == d by {
        assert(g[i] == f[i]);
        if j < f.len() {
            assert(g[j] == f[j]);
        }
    }
}

/// Records come one after another, each but the last ending at a line-break
/// byte before the next one starts.
pub open spec fn records_separated(b: Seq<u8>, rs: Seq<RecordView>) -> bool {
    &&& forall|i: int, j: int| 0 <= i < j < rs.len() ==> #[trigger] rs[i].end < #[trigger] rs[j].start
    &&& forall|i: int|
        0 <= i < rs.len() - 1 ==> (#[trigger] rs[i]).end < b.len() && (b[rs[i].end as int] == 10u8
            || b[rs[i].end as int] == 13u8)
}

/// A dialect that keeps separators, quotes and line breaks apart.
pub open spec fn distinct_marks(d: CsvDialect) -> bool {
    &&& d.delimiter != d.quote
    &&& d.delimiter != 10u8 && d.delimiter != 13u8
    &&& d.quote != 10u8 && d.quote != 13u8
}

/// What every scan state keeps: the pending fields tile the current record
/// so far, and the records already closed tile their bytes, end at line
/// breaks and come in order before the current record.
pub open spec fn scan_tiles(b: Seq<u8>, d: u8, s: ParseScan) -> bool {
    &&& 0 <= s.record_start <= s.field_start <= s.i <= b.len()
    &&& s.fields.len() == 0 ==> s.field_start == s.record_start
    &&& s.fields.len() > 0 ==> s.fields[0].start == s.record_start && s.fields.last().end < b.len()
        && s.field_start == s.fields.last().end + 1 && b[s.fields.last().end as int] == d
    &&& fields_chain(b, d, s.fields)
    &&& forall|k: int| 0 <= k < s.records.len() ==> fields_tile(b, d, #[trigger] s.records[k])
    &&& forall|i: int, j: int|
        0 <= i < j < s.records.len() ==> #[trigger] s.records[i].end < #[trigger] s.records[j].start
    &&& forall|k: int|
        0 <= k < s.records.len() ==> (#[trigger] s.records[k]).end < b.len() && (b[s.records[k].end as int]
            == 10u8 || b[s.records[k].end as int] == 13u8) && s.records[k].end < s.record_start
}

proof fn lemma_step_tiles(b: Seq<u8>, q: u8, d: u8, s: ParseScan)
    requires
        b.len() <= usize::MAX,
        d != q,
        d != 10u8 && d != 13u8,
        scan_tiles(b, d, s),
        0 <= s.i < b.len(),
    ensures
        scan_tiles(b, d, parse_step(b, q, d, s)),
        parse_step(b, q, d, s).i > s.i,
{
    let n = parse_step(b, q, d, s);
    let c = b[s.i];
    if !(s.at_field_start && c == q) && !s.in_quotes && c != d && (c == 10u8 || c == 13u8) {
        let r = n.records.last();
        assert(r.fields == s.fields.push(
            FieldIndex { start: s.field_start as usize, end: s.i as usize, quoted: s.field_quoted },
        ));
        lemma_chain_push(
            b,
            d,
            s.fields,
            FieldIndex { start: s.field_start as usize, end: s.i as usize, quoted: s.field_quoted },
        );
        assert(r.fields.len() > 0);
        assert(r.fields[0].start == r.start);
        assert(r.fields.last().end == r.end);
        assert(r.start <= r.end <= b.len());
        assert(fields_tile(b, d, r));
        assert forall|k: int| 0 <= k < n.records.len() implies fields_tile(b, d, #[trigger] n.records[k]) by {
            if k < s.records.len() {
                assert(n.records[k] == s.records[k]);
            }
        }
        assert forall|i: int, j: int|
            0 <= i < j < n.records.len() implies #[trigger] n.records[i].end
            < #[trigger] n.records[j].start by {
            assert(n.records[i] == s.records[i]);
            if j < s.records.len() {
                assert(n.records[j] == s.records[j]);
            }
        }
        assert forall|k: int| 0 <= k < n.records.len() implies (#[trigger] n.records[k]).end < b.len()
            && (b[n.records[k].end as int] == 10u8 || b[n.records[k].end as int] == 13u8)
            && n.records[k].end < n.record_start by {
            if k < s.records.len() {
                assert(n.records[k] == s.records[k]);
            }
        }
        assert(scan_tiles(b, d, n));
    } else if !(s.at_field_start && c == q) && !s.in_quotes && c == d {
        lemma_chain_push(
            b,
            d,
            s.fields,
            FieldIndex { start: s.field_start as usize, end: s.i as usize, quoted: s.field_quoted },
        );
        assert(scan_tiles(b, d, n));
    } else {
        assert(n.fields == s.fields);
        assert(n.records == s.records);
        assert(n.record_start == s.record_start);
        assert(n.field_start == s.field_start);
        assert(scan_tiles(b, d, n));
    }
}

proof fn lemma_run_tiles(b: Seq<u8>, q: u8, d: u8, s: ParseScan)
    requires
        b.len() <= usize::MAX,
        d != q,
        d != 10u8 && d != 13u8,
        scan_tiles(b, d, s),
    ensures
        scan_tiles(b, d, parse_run(b, q, d, s)),
    decreases b.len() - s.i,
{
    if 0 <= s.i < b.len() {
        lemma_step_tiles(b, q, d, s);
        lemma_run_tiles(b, q, d, parse_step(b, q, d, s));
    }
}

/// The records of a source tile it: in a dialect whose separator, quote and
/// line breaks differ, every record's fields tile the record's bytes (fields
/// split at separators), and the records come in order, each but the last
/// ending at a line break.
pub proof fn lemma_records_tile(b: Seq<u8>, dialect: CsvDialect)
    requires
        b.len() <= usize::MAX,
        distinct_marks(dialect),
    ensures
        forall|k: int|
            0 <= k < spec_records(b, dialect).len() ==> fields_tile(
                b,
                dialect.delimiter,
                #[trigger] spec_records(b, dialect)[k],
            ),
        records_separated(b, spec_records(b, dialect)),
{
    let st = parse_start(b, dialect);
    lemma_run_tiles(b, dialect.quote, dialect.delimiter, st);
    let s = parse_run(b, dialect.quote, dialect.delimiter, st);
    let rs = spec_records(b, dialect);
    let d = dialect.delimiter;
    if s.field_start < b.len() || s.fields.len() > 0 || s.record_start < b.len() {
        let r = rs.last();
        assert(rs == s.records.push(r));
        lemma_chain_push(
            b,
            d,
            s.fields,
            FieldIndex { start: s.field_start as usize, end: b.len() as usize, quoted: s.field_quoted },
        );
        assert(r.fields.len() > 0);
        assert(r.fields[0].start == r.start);
        assert(r.fields.last().end == r.end);
        assert(r.start <= r.end <= b.len());
        assert(fields_tile(b, d, r));
        assert forall|k: int| 0 <= k < rs.len() implies fields_tile(b, d, #[trigger] rs[k]) by {
            if k < s.records.len() {
                assert(rs[k] == s.records[k]);
            } else {
                assert(rs[k] == r);
            }
        }
        assert forall|i: int, j: int| 0 <= i < j < rs.len() implies #[trigger] rs[i].end
            < #[trigger] rs[j].start by {
            assert(rs[i] == s.records[i]);
            if j < s.records.len() {
                assert(rs[j] == s.records[j]);
            }
        }
        assert forall|i: int| 0 <= i < rs.len() - 1 implies (#[trigger] rs[i]).end < b.len() && (
        b[rs[i].end as int] == 10u8 || b[rs[i].end as int] == 13u8) by {
            assert(rs[i] == s.records[i]);
        }
    }
}

/// A field is marked quoted exactly when it starts with the quote byte, and
/// an unquoted field holds no separator and no line break.
pub open spec fn field_marked(b: Seq<u8>, d: u8, q: u8, f: FieldIndex) -> bool {
    &&& f.quoted <==> (f.start < f.end && b[f.start as int] == q)
    &&& !f.quoted ==> forall|k: int|
        f.start <= k < f.end ==> #[trigger] b[k] != d && b[k] != 10u8 && b[k] != 13u8
}

/// What every scan state keeps about quotes: the current field is quoted
/// exactly when it started with a quote, an unquoted one has met no
/// separator or line break, and every field closed so far is marked right.
pub open spec fn scan_quotes(b: Seq<u8>, d: u8, q: u8, s: ParseScan) -> bool {
    &&& 0 <= s.field_start <= s.i <= b.len()
    &&& s.at_field_start ==> s.i == s.field_start && !s.in_quotes
    &&& !s.at_field_start ==> s.i > s.field_start
    &&& s.field_quoted <==> (s.i > s.field_start && b[s.field_start] == q)
    &&& s.in_quotes ==> s.field_quoted
    &&& !s.field_quoted ==> forall|k: int|
        s.field_start <= k < s.i ==> #[trigger] b[k] != d && b[k] != 10u8 && b[k] != 13u8
    &&& forall|j: int| 0 <= j < s.fields.len() ==> field_marked(b, d, q, #[trigger] s.fields[j])
    &&& forall|k: int, j: int|
        0 <= k < s.records.len() && 0 <= j < s.records[k].fields.len() ==> field_marked(
            b,
            d,
            q,
            #[trigger] s.records[k].fields[j],
        )
}

proof fn lemma_step_quotes(b: Seq<u8>, q: u8, d: u8, s: ParseScan)
    requires
        b.len() <= usize::MAX,
        d != q,
        d != 10u8 && d != 13u8,
        scan_quotes(b, d, q, s),
        0 <= s.i < b.len(),
    ensures
        scan_quotes(b, d, q, parse_step(b, q, d, s)),
        parse_step(b, q, d, s).i > s.i,
{
    let n = parse_step(b, q, d, s);
    let c = b[s.i];
    let x = FieldIndex { start: s.field_start as usize, end: s.i as usize, quoted: s.field_quoted };
    if s.at_field_start && c == q {
        assert(scan_quotes(b, d, q, n));
    } else if s.in_quotes {
        assert(scan_quotes(b, d, q, n));
    } else if c == d || c == 10u8 || c == 13u8 {
        assert(field_marked(b, d, q, x));
        if c == d {
            assert forall|j: int| 0 <= j < n.fields.len() implies field_marked(b, d, q, #[trigger] n.fields[j]) by {
                if j < s.fields.len() {
                    assert(n.fields[j] == s.fields[j]);
                }
            }
        } else {
            let fs = s.fields.push(x);
            assert forall|j: int| 0 <= j < fs.len() implies field_marked(b, d, q, #[trigger] fs[j]) by {
                if j < s.fields.len() {
                    assert(fs[j] == s.fields[j]);
                }
            }
            assert forall|k: int, j: int|
                0 <= k < n.records.len() && 0 <= j < n.records[k].fields.len() implies field_marked(
                b,
                d,
                q,
                #[trigger] n.records[k].fields[j],
            ) by {
                if k < s.records.len() {
                    assert(n.records[k] == s.records[k]);
                } else {
                    assert(n.records[k].fields == fs);
                }
            }
        }
        assert(scan_quotes(b, d, q, n));
    } else {
        assert forall|k: int| !n.field_quoted && n.field_start <= k < n.i implies #[trigger] b[k]
            != d && b[k] != 10u8 && b[k] != 13u8 by {
            if k < s.i {
            }
        }
        assert(scan_quotes(b, d, q, n));
    }
}

proof fn lemma_run_quotes(b: Seq<u8>, q: u8, d: u8, s: ParseScan)
    requires
        b.len() <= usize::MAX,
        d != q,
        d != 10u8 && d != 13u8,
        scan_quotes(b, d, q, s),
    ensures
        scan_quotes(b, d, q, parse_run(b, q, d, s)),
        parse_run(b, q, d, s).i == b.len(),
    decreases b.len() - s.i,
{
    if 0 <= s.i < b.len() {
        lemma_step_quotes(b, q, d, s);
        lemma_run_quotes(b, q, d, parse_step(b, q, d, s));
    }
}

/// Fields are marked as the bytes show them: in a dialect whose separator,
/// quote and line breaks differ, a field is quoted exactly when it starts
/// with the quote byte, and an unquoted field holds no separator and no line
/// break.
pub proof fn lemma_fields_marked(b: Seq<u8>, dialect: CsvDialect)
    requires
        b.len() <= usize::MAX,
        distinct_marks(dialect),
    ensures
        forall|k: int, j: int|
            0 <= k < spec_records(b, dialect).len() && 0 <= j < spec_records(b, dialect)[k].fields.len()
                ==> field_marked(
                b,
                dialect.delimiter,
                dialect.quote,
                #[trigger] spec_records(b, dialect)[k].fields[j],
            ),
{
    let q = dialect.quote;
    let d = dialect.delimiter;
    let st = parse_start(b, dialect);
    lemma_run_quotes(b, q, d, st);
    let s = parse_run(b, q, d, st);
    let rs = spec_records(b, dialect);
    if s.field_start < b.len() || s.fields.len() > 0 || s.record_start < b.len() {
        let x = FieldIndex { start: s.field_start as usize, end: b.len() as usize, quoted: s.field_quoted };
        let fs = s.fields.push(x);
        assert(field_marked(b, d, q, x));
        assert forall|k: int, j: int| 0 <= k < rs.len() && 0 <= j < rs[k].fields.len() implies field_marked(
            b,
            d,
            q,
            #[trigger] rs[k].fields[j],
        ) by {
            if k < s.records.len() {
                assert(rs[k] == s.records[k]);
            } else {
                assert(rs[k].fields == fs);
                if j < s.fields.len() {
                    assert(fs[j] == s.fields[j]);
                }
            }
        }
    }
}

/// Splits a source into records and fields.
///
/// Delimiters and line breaks inside quoted fields do not split; a doubled quote
/// inside quotes is part of the field. CR, LF and CRLF all end a record. UTF-16
/// sources are refused.
pub fn parse_records(bytes: &[u8], dialect: CsvDialect) -> (r: Result<Vec<RecordIndex>, CsvError>)
    ensures
        dialect.encoding == Encoding::Utf16Le ==> (r matches Err(CsvError::UnsupportedEncoding(
            name,
        )) && name@ == "UTF-16 LE"@),
        dialect.encoding == Encoding::Utf16Be ==> (r matches Err(CsvError::UnsupportedEncoding(
            name,
        )) && name@ == "UTF-16 BE"@),
        (dialect.encoding == Encoding::Utf8 || dialect.encoding == Encoding::Utf8Bom) ==> (
        r matches Ok(v) && records_view(v@) == spec_records(bytes@, dialect)
            && records_in_bounds(records_view(v@), bytes@.len() as int)),
{
    match dialect.encoding {
        Encoding::Utf8 | Encoding::Utf8Bom => {},
        Encoding::Utf16Le => {
            return Err(CsvError::UnsupportedEncoding("UTF-16 LE"));
        },
        Encoding::Utf16Be => {
            return Err(CsvError::UnsupportedEncoding("UTF-16 BE"));
        },
    }
    let n = bytes.len();
    let q = dialect.quote;
    let d = dialect.delimiter;
    let mut records: Vec<RecordIndex> = Vec::new();
    let mut record_start: usize = if dialect.encoding == Encoding::Utf8Bom {
        if n < 3 {
            n
        } else {
            3
        }
    } else {
        0
    };
    let mut field_start: usize = record_start;
    let mut fields: Vec<FieldIndex> = Vec::new();
    let mut in_quotes = false;
    let mut field_quoted = false;
    let mut at_field_start = true;
    let mut i: usize = record_start;
    proof {
        assert(records_view(records@) =~= Seq::<RecordView>::empty());
        assert(scan_of(
            i,
            record_start,
            field_start,
            fields@,
            in_quotes,
            field_quoted,
            at_field_start,
            records@,
        ) == parse_start(bytes@, dialect));
    }
    while i < n
        invariant
            n == bytes@.len(),
            q == dialect.quote,
            d == dialect.delimiter,
            record_start <= field_start <= i <= n,
            fields_in_bounds(fields@, i as int),
            records_in_bounds(records_view(records@), i as int),
            parse_run(
                bytes@,
                q,
                d,
                scan_of(
                    i,
                    record_start,
                    field_start,
                    fields@,
                    in_quotes,
                    field_quoted,
                    at_field_start,
                    records@,
                ),
            ) == parse_run(bytes@, q, d, parse_start(bytes@, dialect)),
        decreases n - i,
    {
        let ghost s0 = scan_of(
            i,
            record_start,
            field_start,
            fields@,
            in_quotes,
            field_quoted,
            at_field_start,
            records@,
        );
        let ghost i0 = i;
        let b = bytes[i];
        if at_field_start && b == q {
            field_quoted = true;
            in_quotes = true;
            at_field_start = false;
            i += 1;
        } else if in_quotes {
            if b == q {
                if i + 1 < n && bytes[i + 1] == q {
                    i += 2;
                } else {
                    in_quotes = false;
                    i += 1;
                }
            } else {
                i += 1;
            }
        } else if b == d {
            fields.push(FieldIndex { start: field_start, end: i, quoted: field_quoted });
            field_start = i + 1;
            field_quoted = false;
            at_field_start = true;
            i += 1;
        } else if b == 10u8 || b == 13u8 {
            fields.push(FieldIndex { start: field_start, end: i, quoted: field_quoted });
            let record_end = i;
            if b == 13u8 && i + 1 < n && bytes[i + 1] == 10u8 {
                i += 1;
            }
            let ghost old_records = records@;
            if record_end > record_start || !fields.is_empty() {
                let mut done: Vec<FieldIndex> = Vec::new();
                std::mem::swap(&mut done, &mut fields);
                records.push(RecordIndex { start: record_start, end: record_end, fields: done });
            }
            proof {
                assert(records_view(records@) =~= records_view(old_records).push(
                    records@.last()@,
                ));
                lemma_records_bounds_mono(records_view(old_records), i0 as int, record_end + 1);
                lemma_fields_bounds_mono(records@.last()@.fields, i0 as int, record_end + 1);
                assert(records_in_bounds(records_view(records@), record_end + 1));
            }
            i += 1;
            record_start = i;
            field_start = i;
            fields = Vec::new();
            field_quoted = false;
            at_field_start = true;
        } else {
            at_field_start = false;
            i += 1;
        }
        proof {
            let s1 = scan_of(
                i,
                record_start,
                field_start,
                fields@,
                in_quotes,
                field_quoted,
                at_field_start,
                records@,
            );
            assert(s1 == parse_step(bytes@, q, d, s0));
            lemma_records_bounds_mono(records_view(records@), i0 as int, i as int);
            lemma_fields_bounds_mono(fields@, i0 as int, i as int);
        }
    }
    let ghost fin = scan_of(
        i,
        record_start,
        field_start,
        fields@,
        in_quotes,
        field_quoted,
        at_field_start,
        records@,
    );
    assert(fin == parse_run(bytes@, q, d, parse_start(bytes@, dialect)));
    if field_start < n || !fields.is_empty() || record_start < n {
        proof {
            lemma_fields_bounds_mono(fields@, i as int, n as int);
        }
        fields.push(FieldIndex { start: field_start, end: n, quoted: field_quoted });
        assert(fields_in_bounds(fields@, n as int));
        let ghost old_records = records@;
        records.push(RecordIndex { start: record_start, end: n, fields });
        proof {
            assert(records_view(records@) =~= records_view(old_records).push(records@.last()@));
            lemma_records_bounds_mono(records_view(old_records), i as int, n as int);
            assert(record_in_bounds(records_view(records@).last(), n as int));
            assert(records_in_bounds(records_view(records@), n as int));
        }
    } else {
        proof {
            lemma_records_bounds_mono(records_view(records@), i as int, n as int);
        }
    }
    assert(records_view(records@) =~= spec_records(bytes@, dialect));
    Ok(records)
}

/// The bytes of a field with its enclosing quotes (if it opened with one) removed.
pub open spec fn field_body(b: Seq<u8>, f: FieldIndex, q: u8) -> Seq<u8> {
    let slice = b.subrange(f.start as int, f.end as int);
    if f.quoted && slice.len() >= 2 && slice[0] == q && slice[slice.len() - 1] == q {
        slice.subrange(1, slice.len() - 1)
    } else {
        slice
    }
}

/// Collapses each doubled quote to one quote, scanning from the front.
pub open spec fn unescape(s: Seq<u8>, q: u8) -> Seq<u8>
    decreases s.len(),
{
    if s.len() == 0 {
        Seq::empty()
    } else if s.len() >= 2 && s[0] == q && s[1] == q {
        seq![q] + unescape(s.skip(2), q)
    } else {
        seq![s[0]] + unescape(s.skip(1), q)
    }
}

/// The raw bytes that a field stands for.
pub open spec fn field_bytes(b: Seq<u8>, f: FieldIndex, q: u8) -> Seq<u8> {
    unescape(field_body(b, f, q), q)
}

/// The text of a field: its bytes decoded as UTF-8, or their lossy decoding
/// when they are not valid UTF-8.
pub open spec fn spec_decode_field(b: Seq<u8>, f: FieldIndex, dialect: CsvDialect) -> Seq<char> {
    let fb = field_bytes(b, f, dialect.quote);
    if vstd::utf8::valid_utf8(fb) {
        vstd::utf8::decode_utf8(fb)
    } else {
        utf8_lossy(fb)
    }
}

/// Reads the text of one field: strips its quotes, collapses doubled quotes and
/// decodes UTF-8 (invalid sequences become U+FFFD).
pub fn decode_field(bytes: &[u8], field: FieldIndex, dialect: CsvDialect) -> (s: String)
    requires
        field.start <= field.end <= bytes@.len(),
    ensures
        s@ == spec_decode_field(bytes@, field, dialect),
        vstd::utf8::valid_utf8(field_bytes(bytes@, field, dialect.quote)) ==> s@
            == vstd::utf8::decode_utf8(field_bytes(bytes@, field, dialect.quote)),
{
    let q = dialect.quote;
    let mut lo = field.start;
    let mut hi = field.end;
    if field.quoted && hi - lo >= 2 && bytes[lo] == q && bytes[hi - 1] == q {
        lo = lo + 1;
        hi = hi - 1;
    }
    let ghost body = bytes@.subrange(lo as int, hi as int);
    assert(body =~= field_body(bytes@, field, q));
    let mut out: Vec<u8> = Vec::with_capacity(hi - lo);
    let mut i = lo;
    assert(body.skip(0) =~= body);
    while i < hi
        invariant
            lo <= i <= hi <= bytes@.len(),
            body == bytes@.subrange(lo as int, hi as int),
            out@ + unescape(body.skip(i - lo), q) == unescape(body, q),
        decreases hi - i,
    {
        let ghost rest = body.skip(i - lo);
        if bytes[i] == q && i + 1 < hi && bytes[i + 1] == q {
            out.push(q);
            assert(rest.skip(2) =~= body.skip(i + 2 - lo));
            assert(out@ + unescape(body.skip(i + 2 - lo), q) =~= unescape(body, q));
            i += 2;
        } else {
            out.push(bytes[i]);
            assert(rest.skip(1) =~= body.skip(i + 1 - lo));
            assert(out@ + unescape(body.skip(i + 1 - lo), q) =~= unescape(body, q));
            i += 1;
        }
    }
    assert(out@ =~= unescape(body, q));
    string_from_utf8_lossy(out.as_slice())
}

/// Some byte of the value is the delimiter, the quote, CR or LF.
pub open spec fn needs_quotes(b: Seq<u8>, dialect: CsvDialect) -> bool {
    exists|i: int|
        0 <= i < b.len() && (#[trigger] b[i] == dialect.delimiter || b[i] == 10u8 || b[i] == 13u8
            || b[i] == dialect.quote)
}

/// The text with each quote character written twice.
pub open spec fn double_quotes(s: Seq<char>, qc: char) -> Seq<char>
    decreases s.len(),
{
    if s.len() == 0 {
        Seq::empty()
    } else {
        double_quotes(s.drop_last(), qc) + if s.last() == qc {
            seq![qc, qc]
        } else {
            seq![s.last()]
        }
    }
}

/// The field as written: quoted (with doubled inner quotes) when it holds a
/// delimiter, quote or line break, otherwise unchanged.
pub open spec fn spec_encode_field(v: Seq<char>, dialect: CsvDialect) -> Seq<char> {
    let qc = dialect.quote as char;
    if needs_quotes(vstd::utf8::encode_utf8(v), dialect) {
        seq![qc] + double_quotes(v, qc) + seq![qc]
    } else {
        v
    }
}

/// Writes one field for output, quoting it when needed.
pub fn encode_field(value: &str, dialect: CsvDialect) -> (s: String)
    ensures
        s@ == spec_encode_field(value@, dialect),
{
    let bytes = value.as_bytes();
    let mut must_quote = false;
    let mut k: usize = 0;
    while k < bytes.len()
        invariant
            k <= bytes@.len(),
            bytes@ == vstd::utf8::encode_utf8(value@),
            !must_quote ==> forall|j: int|
                0 <= j < k ==> !(#[trigger] bytes@[j] == dialect.delimiter || bytes@[j] == 10u8
                    || bytes@[j] == 13u8 || bytes@[j] == dialect.quote),
            must_quote ==> needs_quotes(bytes@, dialect),
        decreases bytes@.len() - k,
    {
        let b = bytes[k];
        if b == dialect.delimiter || b == 10u8 || b == 13u8 || b == dialect.quote {
            must_quote = true;
        }
        k += 1;
    }
    if !must_quote {
        return value.to_owned();
    }
    let qc = dialect.quote as char;
    let mut encoded = String::new();
    push_char(&mut encoded, qc);
    broadcast use vstd::string::group_string_axioms;
    let mut it = value.chars();
    let ghost mut done: Seq<char> = Seq::empty();
    assert(it.remaining() == value@);
    loop
        invariant
            value@ == done + it.remaining(),
            it.obeys_prophetic_iter_laws(),
            it.decrease() is Some,
            encoded@ == seq![qc] + double_quotes(done, qc),
        ensures
            encoded@ == seq![qc] + double_quotes(value@, qc),
        decreases it.decrease()->0,
    {
        let ghost rem = it.remaining();
        match it.next() {
            Some(ch) => {
                if ch == qc {
                    push_char(&mut encoded, qc);
                    push_char(&mut encoded, qc);
                } else {
                    push_char(&mut encoded, ch);
                }
                proof {
                    let next_done = done.push(ch);
                    assert(next_done.drop_last() =~= done);
                    assert(value@ =~= next_done + it.remaining());
                    done = next_done;
                }
            },
            None => {
                assert(done =~= value@);
                break;
            },
        }
    }
    assert(encoded@ == seq![qc] + double_quotes(value@, qc));
    push_char(&mut encoded, qc);
    assert(needs_quotes(vstd::utf8::encode_utf8(value@), dialect));
    encoded
}

} // verus!
