use crate::dialect::{line_ending_chars, CsvDialect, Encoding, LineEnding};
use crate::writer::{
    clip, lemma_used_width_bound, lemma_widest_bound, record_text, records_text, used_rows,
    used_width, widest, filled,
};
use crate::document::{
    csv_records, csv_text, header_row, kept_width, lemma_matching_all,
    lemma_wf_facts, max_fields, opened_dialect, opened_table, opened_width,
    range_seq, rebased, record_texts, records_after, saved_options, table, first_data_record,
    CsvDocument,
};
use crate::dialect::{spec_dialect, spec_encoding};
use crate::parser::{
    double_quotes, field_body, field_bytes, needs_quotes, parse_finish, parse_run, parse_start,
    parse_step, spec_decode_field, spec_encode_field, spec_records, unescape, FieldIndex, ParseScan,
    RecordView,
};
use vstd::prelude::*;
use vstd::utf8::{encode_utf8, decode_utf8};

verus! {

/// The bytes with each quote byte written twice.
pub open spec fn escape_quotes(x: Seq<u8>, q: u8) -> Seq<u8>
    decreases x.len(),
{
    if x.len() == 0 {
        Seq::empty()
    } else {
        (if x[0] == q {
            seq![q, q]
        } else {
            seq![x[0]]
        }) + escape_quotes(x.skip(1), q)
    }
}

/// No byte of `x` is `q`.
pub open spec fn free_of(x: Seq<u8>, q: u8) -> bool {
    forall|i: int| 0 <= i < x.len() ==> #[trigger] x[i] != q
}

/// Encoding a concatenation encodes each part.
pub proof fn lemma_encode_concat(a: Seq<char>, b: Seq<char>)
    ensures
        encode_utf8(a + b) == encode_utf8(a) + encode_utf8(b),
    decreases a.len(),
{
    if a.len() == 0 {
        assert(a + b =~= b);
    } else {
        assert((a + b).drop_first() =~= a.drop_first() + b);
        assert((a + b)[0] == a[0]);
        lemma_encode_concat(a.drop_first(), b);
        assert(encode_utf8(a + b) =~= encode_utf8(a) + encode_utf8(b));
    }
}

proof fn lemma_width_1_byte(v: u32)
    by (bit_vector)
    requires
        v < 128,
    ensures
        ((v & 0x7F) as u8) as u32 == v,
{
}

proof fn lemma_high_bytes(v: u32)
    by (bit_vector)
    ensures
        (0xC0u8 | ((v >> 6) & 0x1F) as u8) >= 128,
        (0xE0u8 | ((v >> 12) & 0x0F) as u8) >= 128,
        (0xF0u8 | ((v >> 18) & 0x7) as u8) >= 128,
        (0x80u8 | (v & 0x3F) as u8) >= 128,
        (0x80u8 | ((v >> 6) & 0x3F) as u8) >= 128,
        (0x80u8 | ((v >> 12) & 0x3F) as u8) >= 128,
{
}

/// One character is encoded as its scalar value.
pub proof fn lemma_encode_one(c: char)
    ensures
        encode_utf8(seq![c]) == vstd::utf8::encode_scalar(c as u32),
{
    assert(seq![c].drop_first() =~= Seq::<char>::empty());
    assert(encode_utf8(Seq::<char>::empty()) =~= Seq::<u8>::empty());
    assert(seq![c][0] == c);
    assert(encode_utf8(seq![c]) =~= vstd::utf8::encode_scalar(c as u32) + encode_utf8(
        Seq::<char>::empty(),
    ));
}

/// An ASCII character is encoded as its own byte.
pub proof fn lemma_encode_ascii(c: char)
    requires
        (c as u32) < 128,
    ensures
        encode_utf8(seq![c]) == seq![(c as u32) as u8],
        ((c as u32) as u8) as u32 == c as u32,
{
    lemma_width_1_byte(c as u32);
    lemma_encode_one(c);
    assert(encode_utf8(seq![c]) =~= seq![((c as u32 & 0x7F) as u8)]);
}

/// Every byte of the encoding of a character beyond ASCII is at least 128.
pub proof fn lemma_encode_high(c: char)
    requires
        (c as u32) >= 128,
    ensures
        forall|i: int| 0 <= i < encode_utf8(seq![c]).len() ==> #[trigger] encode_utf8(seq![c])[i]
            >= 128,
{
    lemma_high_bytes(c as u32);
    lemma_encode_one(c);
}

/// Escaping a concatenation escapes each part.
pub proof fn lemma_escape_concat(x: Seq<u8>, y: Seq<u8>, q: u8)
    ensures
        escape_quotes(x + y, q) == escape_quotes(x, q) + escape_quotes(y, q),
    decreases x.len(),
{
    if x.len() == 0 {
        assert(x + y =~= y);
    } else {
        assert((x + y).skip(1) =~= x.skip(1) + y);
        assert((x + y)[0] == x[0]);
        lemma_escape_concat(x.skip(1), y, q);
        let h = if x[0] == q {
            seq![q, q]
        } else {
            seq![x[0]]
        };
        assert(escape_quotes(x + y, q) == h + escape_quotes(x.skip(1) + y, q));
        assert(escape_quotes(x + y, q) =~= escape_quotes(x, q) + escape_quotes(y, q));
    }
}

/// Bytes without the quote byte are left as they are by escaping.
pub proof fn lemma_escape_free(x: Seq<u8>, q: u8)
    requires
        free_of(x, q),
    ensures
        escape_quotes(x, q) == x,
    decreases x.len(),
{
    if x.len() > 0 {
        assert(x[0] != q);
        assert(free_of(x.skip(1), q)) by {
            assert forall|i: int| 0 <= i < x.skip(1).len() implies #[trigger] x.skip(1)[i] != q by {
                assert(x.skip(1)[i] == x[i + 1]);
            }
        }
        lemma_escape_free(x.skip(1), q);
        assert(seq![x[0]] + x.skip(1) =~= x);
    }
}

/// Bytes without the quote byte are left as they are by unescaping.
pub proof fn lemma_unescape_free(x: Seq<u8>, q: u8)
    requires
        free_of(x, q),
    ensures
        unescape(x, q) == x,
    decreases x.len(),
{
    if x.len() > 0 {
        assert(x[0] != q);
        assert(free_of(x.skip(1), q)) by {
            assert forall|i: int| 0 <= i < x.skip(1).len() implies #[trigger] x.skip(1)[i] != q by {
                assert(x.skip(1)[i] == x[i + 1]);
            }
        }
        lemma_unescape_free(x.skip(1), q);
        assert(seq![x[0]] + x.skip(1) =~= x);
    }
}

/// Unescaping undoes escaping.
pub proof fn lemma_unescape_escape(x: Seq<u8>, q: u8)
    ensures
        unescape(escape_quotes(x, q), q) == x,
    decreases x.len(),
{
    if x.len() > 0 {
        let rest = escape_quotes(x.skip(1), q);
        lemma_unescape_escape(x.skip(1), q);
        let e = escape_quotes(x, q);
        if x[0] == q {
            assert(e == seq![q, q] + rest);
            assert(e.skip(2) =~= rest);
            assert(e[0] == q && e[1] == q);
        } else {
            assert(e == seq![x[0]] + rest);
            assert(e.skip(1) =~= rest);
            assert(e[0] == x[0]);
        }
        assert(seq![x[0]] + x.skip(1) =~= x);
    }
}

/// The bytes of the text with doubled quote characters are the bytes of the
/// text with doubled quote bytes (for an ASCII quote).
pub proof fn lemma_encode_double_quotes(v: Seq<char>, q: u8)
    requires
        q < 128,
    ensures
        encode_utf8(double_quotes(v, q as char)) == escape_quotes(encode_utf8(v), q),
    decreases v.len(),
{
    let qc = q as char;
    if v.len() == 0 {
        assert(encode_utf8(v) =~= Seq::<u8>::empty());
    } else {
        let p = v.drop_last();
        let c = v.last();
        lemma_encode_double_quotes(p, q);
        assert(p + seq![c] =~= v);
        lemma_encode_concat(p, seq![c]);
        lemma_escape_concat(encode_utf8(p), encode_utf8(seq![c]), q);
        let t = if c == qc {
            seq![qc, qc]
        } else {
            seq![c]
        };
        lemma_encode_concat(double_quotes(p, qc), t);
        lemma_encode_ascii(qc);
        if c == qc {
            assert(seq![qc, qc] =~= seq![qc] + seq![qc]);
            lemma_encode_concat(seq![qc], seq![qc]);
            assert(encode_utf8(seq![c]) =~= seq![q]);
            assert(escape_quotes(seq![q], q) =~= seq![q, q]) by {
                assert(seq![q].skip(1) =~= Seq::<u8>::empty());
                assert(escape_quotes(Seq::<u8>::empty(), q) =~= Seq::<u8>::empty());
                assert(seq![q][0] == q);
                assert(escape_quotes(seq![q], q) =~= seq![q, q] + escape_quotes(
                    Seq::<u8>::empty(),
                    q,
                ));
            }
            assert(encode_utf8(t) =~= seq![q, q]);
        } else {
            if (c as u32) < 128 {
                lemma_encode_ascii(c);
                lemma_encode_ascii(qc);
                vstd::utf8::char_u32_cast(c, c as u32);
                vstd::utf8::char_u32_cast(qc, qc as u32);
                assert((c as u32) != (qc as u32));
                assert(encode_utf8(seq![c])[0] != q);
                assert(free_of(encode_utf8(seq![c]), q));
            } else {
                lemma_encode_high(c);
                assert(free_of(encode_utf8(seq![c]), q));
            }
            lemma_escape_free(encode_utf8(seq![c]), q);
        }
    }
}

/// Reading back a written field gives the value: the field that covers
/// exactly the bytes `encode_field` wrote, marked quoted when they were
/// quoted, decodes to the value (for an ASCII quote byte).
pub proof fn lemma_field_round_trip(v: Seq<char>, d: CsvDialect)
    requires
        d.quote < 128,
    ensures
        ({
            let b = encode_utf8(spec_encode_field(v, d));
            let f = FieldIndex {
                start: 0,
                end: b.len() as usize,
                quoted: needs_quotes(encode_utf8(v), d),
            };
            b.len() <= usize::MAX ==> spec_decode_field(b, f, d) == v
        }),
{
    let q = d.quote;
    let qc = q as char;
    let ev = encode_utf8(v);
    let b = encode_utf8(spec_encode_field(v, d));
    if b.len() <= usize::MAX {
        let f = FieldIndex { start: 0, end: b.len() as usize, quoted: needs_quotes(ev, d) };
        assert(b.subrange(0, b.len() as int) =~= b);
        if needs_quotes(ev, d) {
            lemma_encode_ascii(qc);
            lemma_encode_double_quotes(v, q);
            lemma_encode_concat(seq![qc], double_quotes(v, qc));
            lemma_encode_concat(seq![qc] + double_quotes(v, qc), seq![qc]);
            let inner = escape_quotes(ev, q);
            assert(b =~= seq![q] + inner + seq![q]);
            assert(b.subrange(1, b.len() - 1) =~= inner);
            assert(field_body(b, f, q) =~= inner);
            lemma_unescape_escape(ev, q);
        } else {
            assert(free_of(ev, q)) by {
                assert forall|i: int| 0 <= i < ev.len() implies #[trigger] ev[i] != q by {
                    if ev[i] == q {
                        assert(needs_quotes(ev, d));
                    }
                }
            }
            lemma_unescape_free(ev, q);
            assert(field_body(b, f, q) == ev);
        }
        assert(field_bytes(b, f, q) == ev);
        vstd::utf8::encode_utf8_valid_utf8(v);
        vstd::utf8::encode_utf8_decode_utf8(v);
    }
}


/// One step of the scanner that moves forward can be taken before running it.
proof fn lemma_run_step(b: Seq<u8>, q: u8, dl: u8, s: ParseScan)
    requires
        0 <= s.i < b.len(),
        parse_step(b, q, dl, s).i > s.i,
    ensures
        parse_run(b, q, dl, s) == parse_run(b, q, dl, parse_step(b, q, dl, s)),
{
}

/// Scanning `k` bytes that are neither the quote, the delimiter nor a line
/// break, outside quotes, only moves forward.
proof fn lemma_scan_plain(b: Seq<u8>, q: u8, dl: u8, s: ParseScan, k: int)
    requires
        0 <= k,
        0 <= s.i,
        s.i + k <= b.len(),
        forall|j: int|
            s.i <= j < s.i + k ==> #[trigger] b[j] != q && b[j] != dl && b[j] != 10u8 && b[j]
                != 13u8,
        !s.in_quotes,
    ensures
        parse_run(b, q, dl, s) == parse_run(
            b,
            q,
            dl,
            ParseScan {
                i: s.i + k,
                at_field_start: if k == 0 {
                    s.at_field_start
                } else {
                    false
                },
                ..s
            },
        ),
    decreases k,
{
    if k > 0 {
        let n = parse_step(b, q, dl, s);
        assert(b[s.i] != q && b[s.i] != dl && b[s.i] != 10u8 && b[s.i] != 13u8);
        assert(n == ParseScan { i: s.i + 1, at_field_start: false, ..s });
        lemma_run_step(b, q, dl, s);
        lemma_scan_plain(b, q, dl, n, k - 1);
        assert(ParseScan { i: n.i + (k - 1), at_field_start: if k - 1 == 0 {
            n.at_field_start
        } else {
            false
        }, ..n } == ParseScan { i: s.i + k, at_field_start: false, ..s });
    } else {
        assert(ParseScan { i: s.i + k, at_field_start: s.at_field_start, ..s } == s);
    }
}

/// Scanning escaped bytes inside quotes, up to a quote that follows them,
/// only moves forward.
proof fn lemma_scan_quoted(b: Seq<u8>, q: u8, dl: u8, s: ParseScan, x: Seq<u8>)
    requires
        s.in_quotes,
        !s.at_field_start,
        0 <= s.i,
        s.i + escape_quotes(x, q).len() < b.len(),
        b.subrange(s.i, s.i + escape_quotes(x, q).len()) == escape_quotes(x, q),
        b[s.i + escape_quotes(x, q).len()] == q,
    ensures
        parse_run(b, q, dl, s) == parse_run(
            b,
            q,
            dl,
            ParseScan { i: s.i + escape_quotes(x, q).len(), ..s },
        ),
    decreases x.len(),
{
    let e = escape_quotes(x, q);
    if x.len() == 0 {
        assert(ParseScan { i: s.i + e.len(), ..s } == s);
    } else {
        let rest = escape_quotes(x.skip(1), q);
        let w: int = if x[0] == q {
            2
        } else {
            1
        };
        assert(e == (if x[0] == q {
            seq![q, q]
        } else {
            seq![x[0]]
        }) + rest);
        assert(b[s.i] == e[0]);
        let n = parse_step(b, q, dl, s);
        if x[0] == q {
            assert(b[s.i + 1] == e[1]);
            assert(n == ParseScan { i: s.i + 2, ..s });
        } else {
            assert(n == ParseScan { i: s.i + 1, ..s });
        }
        lemma_run_step(b, q, dl, s);
        assert(b.subrange(n.i, n.i + rest.len()) =~= rest) by {
            assert forall|j: int| 0 <= j < rest.len() implies b.subrange(n.i, n.i + rest.len())[j]
                == rest[j] by {
                assert(b[n.i + j] == b.subrange(s.i, s.i + e.len())[w + j]);
                assert(e[w + j] == rest[j]);
            }
        }
        lemma_scan_quoted(b, q, dl, n, x.skip(1));
        assert(ParseScan { i: n.i + rest.len(), ..n } == ParseScan { i: s.i + e.len(), ..s });
    }
}


/// A dialect that writing and reading agree on: an ASCII quote and an ASCII
/// delimiter, different from each other and from the line break bytes.
pub open spec fn dialect_ok(d: CsvDialect) -> bool {
    &&& d.quote < 128
    &&& d.delimiter < 128
    &&& d.quote != d.delimiter
    &&& d.quote != 10u8
    &&& d.quote != 13u8
    &&& d.delimiter != 10u8
    &&& d.delimiter != 13u8
}

/// The bytes written for a field.
pub open spec fn field_code(v: Seq<char>, d: CsvDialect) -> Seq<u8> {
    encode_utf8(spec_encode_field(v, d))
}

/// Whether a field is written quoted.
pub open spec fn field_flag(v: Seq<char>, d: CsvDialect) -> bool {
    needs_quotes(encode_utf8(v), d)
}

/// Position `j` of `b` ends a field: the end, a delimiter or a line break.
pub open spec fn ends_field(b: Seq<u8>, j: int, d: CsvDialect) -> bool {
    j == b.len() || (0 <= j < b.len() && (b[j] == d.delimiter || b[j] == 10u8 || b[j] == 13u8))
}

/// Decoding a field reads only the bytes it covers.
proof fn lemma_decode_local(b: Seq<u8>, f: FieldIndex, c: Seq<u8>, d: CsvDialect)
    requires
        f.start <= f.end <= b.len(),
        b.subrange(f.start as int, f.end as int) == c,
        c.len() <= usize::MAX,
    ensures
        spec_decode_field(b, f, d) == spec_decode_field(
            c,
            FieldIndex { start: 0, end: c.len() as usize, quoted: f.quoted },
            d,
        ),
{
    assert(c.subrange(0, c.len() as int) =~= c);
}

/// Scanning a written field from the start of a field ends right after it,
/// and the field it covers reads back as the value.
proof fn lemma_scan_field(b: Seq<u8>, d: CsvDialect, s: ParseScan, v: Seq<char>)
    requires
        dialect_ok(d),
        b.len() <= usize::MAX,
        0 <= s.i,
        s.i + field_code(v, d).len() <= b.len(),
        b.subrange(s.i, s.i + field_code(v, d).len()) == field_code(v, d),
        ends_field(b, s.i + field_code(v, d).len(), d),
        s.at_field_start,
        !s.in_quotes,
        !s.field_quoted,
    ensures
        parse_run(b, d.quote, d.delimiter, s) == parse_run(
            b,
            d.quote,
            d.delimiter,
            ParseScan {
                i: s.i + field_code(v, d).len(),
                at_field_start: field_code(v, d).len() == 0,
                field_quoted: field_flag(v, d),
                ..s
            },
        ),
        spec_decode_field(
            b,
            FieldIndex {
                start: s.i as usize,
                end: (s.i + field_code(v, d).len()) as usize,
                quoted: field_flag(v, d),
            },
            d,
        ) == v,
{
    let q = d.quote;
    let dl = d.delimiter;
    let qc = q as char;
    let ev = encode_utf8(v);
    let fc = field_code(v, d);
    let end = s.i + fc.len();
    lemma_field_round_trip(v, d);
    lemma_decode_local(
        b,
        FieldIndex { start: s.i as usize, end: end as usize, quoted: field_flag(v, d) },
        fc,
        d,
    );
    if field_flag(v, d) {
        lemma_encode_ascii(qc);
        lemma_encode_double_quotes(v, q);
        lemma_encode_concat(seq![qc], double_quotes(v, qc));
        lemma_encode_concat(seq![qc] + double_quotes(v, qc), seq![qc]);
        let esc = escape_quotes(ev, q);
        assert(fc =~= seq![q] + esc + seq![q]);
        assert(b[s.i] == fc[0]);
        let n = parse_step(b, q, dl, s);
        assert(n == ParseScan {
            i: s.i + 1,
            field_quoted: true,
            in_quotes: true,
            at_field_start: false,
            ..s
        });
        lemma_run_step(b, q, dl, s);
        assert(b.subrange(n.i, n.i + esc.len()) =~= esc) by {
            assert forall|j: int| 0 <= j < esc.len() implies b.subrange(n.i, n.i + esc.len())[j]
                == esc[j] by {
                assert(b[n.i + j] == b.subrange(s.i, end)[1 + j]);
            }
        }
        assert(b[n.i + esc.len()] == b.subrange(s.i, end)[fc.len() - 1]);
        lemma_scan_quoted(b, q, dl, n, ev);
        let m = ParseScan { i: n.i + esc.len(), ..n };
        let k = parse_step(b, q, dl, m);
        assert(m.i + 1 == end);
        if end < b.len() {
            assert(b[end] != q);
        }
        assert(k == ParseScan { i: end, in_quotes: false, ..m });
        lemma_run_step(b, q, dl, m);
        assert(k == ParseScan { i: end, at_field_start: false, field_quoted: true, ..s });
    } else {
        assert(fc == ev);
        assert forall|j: int| s.i <= j < end implies #[trigger] b[j] != q && b[j] != dl && b[j]
            != 10u8 && b[j] != 13u8 by {
            assert(b[j] == ev[j - s.i]);
            if ev[j - s.i] == q || ev[j - s.i] == dl || ev[j - s.i] == 10u8 || ev[j - s.i] == 13u8 {
                assert(needs_quotes(ev, d));
            }
        }
        lemma_scan_plain(b, q, dl, s, fc.len() as int);
    }
}


/// A record is its first field, then the delimiter and the rest of it.
proof fn lemma_record_text_front(vals: Seq<Seq<char>>, d: CsvDialect)
    requires
        vals.len() >= 1,
    ensures
        vals.len() == 1 ==> record_text(vals, d) == spec_encode_field(vals[0], d),
        vals.len() >= 2 ==> record_text(vals, d) == spec_encode_field(vals[0], d) + seq![
            d.delimiter as char,
        ] + record_text(vals.drop_first(), d),
    decreases vals.len(),
{
    if vals.len() == 1 {
        assert(vals.drop_last() =~= Seq::<Seq<char>>::empty());
        assert(record_text(vals.drop_last(), d) =~= Seq::<char>::empty());
        assert(vals.last() == vals[0]);
        assert(record_text(vals, d) =~= spec_encode_field(vals[0], d));
    } else if vals.len() == 2 {
        lemma_record_text_front(vals.drop_last(), d);
        lemma_record_text_front(vals.drop_first(), d);
        assert(vals.drop_last()[0] == vals[0]);
        assert(vals.drop_first()[0] == vals.last());
    } else {
        lemma_record_text_front(vals.drop_last(), d);
        assert(vals.drop_last().drop_first() =~= vals.drop_first().drop_last());
        assert(vals.drop_first().last() == vals.last());
        assert(vals.drop_last()[0] == vals[0]);
        assert(record_text(vals, d) =~= spec_encode_field(vals[0], d) + seq![d.delimiter as char]
            + record_text(vals.drop_first(), d));
    }
}

/// Records are the first record, then the line ending and the rest of them.
proof fn lemma_records_text_front(recs: Seq<Seq<Seq<char>>>, d: CsvDialect)
    requires
        recs.len() >= 1,
    ensures
        recs.len() == 1 ==> records_text(recs, d) == record_text(recs[0], d),
        recs.len() >= 2 ==> records_text(recs, d) == record_text(recs[0], d) + line_ending_chars(
            d.line_ending,
        ) + records_text(recs.drop_first(), d),
    decreases recs.len(),
{
    if recs.len() == 1 {
        assert(recs.drop_last() =~= Seq::<Seq<Seq<char>>>::empty());
        assert(records_text(recs.drop_last(), d) =~= Seq::<char>::empty());
        assert(recs.last() == recs[0]);
        assert(records_text(recs, d) =~= record_text(recs[0], d));
    } else if recs.len() == 2 {
        lemma_records_text_front(recs.drop_last(), d);
        lemma_records_text_front(recs.drop_first(), d);
        assert(recs.drop_last()[0] == recs[0]);
        assert(recs.drop_first()[0] == recs.last());
    } else {
        lemma_records_text_front(recs.drop_last(), d);
        assert(recs.drop_last().drop_first() =~= recs.drop_first().drop_last());
        assert(recs.drop_first().last() == recs.last());
        assert(recs.drop_last()[0] == recs[0]);
        assert(records_text(recs, d) =~= record_text(recs[0], d) + line_ending_chars(d.line_ending)
            + records_text(recs.drop_first(), d));
    }
}

/// The bytes of a line ending.
pub open spec fn eol_bytes(le: LineEnding) -> Seq<u8> {
    match le {
        LineEnding::Lf => seq![10u8],
        LineEnding::CrLf => seq![13u8, 10u8],
        LineEnding::Cr => seq![13u8],
    }
}

proof fn lemma_encode_eol(le: LineEnding)
    ensures
        encode_utf8(line_ending_chars(le)) == eol_bytes(le),
{
    lemma_encode_ascii('\n');
    lemma_encode_ascii('\r');
    lemma_encode_concat(seq!['\r'], seq!['\n']);
    assert(seq!['\r', '\n'] =~= seq!['\r'] + seq!['\n']);
}

/// The bytes of `x` from position `p` on are `x`'s bytes laid out at `p`.
pub open spec fn lies_at(b: Seq<u8>, p: int, x: Seq<u8>) -> bool {
    0 <= p && p + x.len() <= b.len() && b.subrange(p, p + x.len()) == x
}

proof fn lemma_lies_at_split(b: Seq<u8>, p: int, x: Seq<u8>, y: Seq<u8>)
    requires
        lies_at(b, p, x + y),
    ensures
        lies_at(b, p, x),
        lies_at(b, p + x.len(), y),
{
    let w = b.subrange(p, p + (x + y).len());
    assert(b.subrange(p, p + x.len()) =~= x) by {
        assert forall|k: int| 0 <= k < x.len() implies b.subrange(p, p + x.len())[k] == x[k] by {
            assert(w[k] == (x + y)[k]);
        }
    }
    assert(b.subrange(p + x.len(), p + x.len() + y.len()) =~= y) by {
        assert forall|k: int| 0 <= k < y.len() implies b.subrange(
            p + x.len(),
            p + x.len() + y.len(),
        )[k] == y[k] by {
            assert(w[x.len() + k] == (x + y)[x.len() + k]);
        }
    }
}

/// Scanning a written record from its start ends at its end, with every
/// field but the last one pushed and the last one pending; each reads back
/// as its value.
proof fn lemma_scan_fields(b: Seq<u8>, d: CsvDialect, s: ParseScan, vals: Seq<Seq<char>>) -> (t:
    ParseScan)
    requires
        dialect_ok(d),
        b.len() <= usize::MAX,
        vals.len() >= 1,
        lies_at(b, s.i, encode_utf8(record_text(vals, d))),
        s.i + encode_utf8(record_text(vals, d)).len() == b.len() || b[s.i + encode_utf8(
            record_text(vals, d),
        ).len()] == 10u8 || b[s.i + encode_utf8(record_text(vals, d)).len()] == 13u8,
        s.at_field_start,
        !s.in_quotes,
        !s.field_quoted,
        s.field_start == s.i,
    ensures
        parse_run(b, d.quote, d.delimiter, s) == parse_run(b, d.quote, d.delimiter, t),
        t.i == s.i + encode_utf8(record_text(vals, d)).len(),
        t.records == s.records,
        t.record_start == s.record_start,
        !t.in_quotes,
        s.i <= t.field_start <= t.i,
        t.fields.len() == s.fields.len() + vals.len() - 1,
        t.fields.take(s.fields.len() as int) == s.fields,
        vals.len() == 1 && vals[0].len() > 0 ==> t.field_start < t.i,
        forall|j: int|
            0 <= j < vals.len() - 1 ==> spec_decode_field(
                b,
                #[trigger] t.fields[s.fields.len() + j],
                d,
            ) == vals[j],
        spec_decode_field(
            b,
            FieldIndex { start: t.field_start as usize, end: t.i as usize, quoted: t.field_quoted },
            d,
        ) == vals.last(),
    decreases vals.len(),
{
    let q = d.quote;
    let dl = d.delimiter;
    let v = vals[0];
    let fc = field_code(v, d);
    lemma_record_text_front(vals, d);
    if vals.len() == 1 {
        assert(encode_utf8(record_text(vals, d)) == fc);
        lemma_scan_field(b, d, s, v);
        let t = ParseScan {
            i: s.i + fc.len(),
            at_field_start: fc.len() == 0,
            field_quoted: field_flag(v, d),
            ..s
        };
        assert(t.fields.take(s.fields.len() as int) =~= s.fields);
        if v.len() > 0 {
            vstd::utf8::encode_utf8_valid_utf8(v);
            assert(encode_utf8(v).len() > 0) by {
                if encode_utf8(v).len() == 0 {
                    vstd::utf8::encode_utf8_decode_utf8(v);
                    assert(decode_utf8(encode_utf8(v)) =~= Seq::<char>::empty()) by {
                        assert(encode_utf8(v) =~= Seq::<u8>::empty());
                    }
                }
            }
            if !field_flag(v, d) {
                assert(fc == encode_utf8(v));
            } else {
                lemma_encode_concat(seq![q as char], double_quotes(v, q as char));
                lemma_encode_concat(seq![q as char] + double_quotes(v, q as char), seq![q as char]);
                lemma_encode_ascii(q as char);
            }
        }
        t
    } else {
        let rest = vals.drop_first();
        let dc = d.delimiter as char;
        lemma_encode_ascii(dc);
        lemma_encode_concat(spec_encode_field(v, d) + seq![dc], record_text(rest, d));
        lemma_encode_concat(spec_encode_field(v, d), seq![dc]);
        let x_rest = encode_utf8(record_text(rest, d));
        assert(encode_utf8(record_text(vals, d)) == fc + seq![dl] + x_rest);
        lemma_lies_at_split(b, s.i, fc + seq![dl], x_rest);
        lemma_lies_at_split(b, s.i, fc, seq![dl]);
        let j = s.i + fc.len();
        assert(b[j] == dl) by {
            assert(b.subrange(j, j + 1)[0] == b[j]);
        }
        lemma_scan_field(b, d, s, v);
        let m = ParseScan { i: j, at_field_start: fc.len() == 0, field_quoted: field_flag(v, d), ..s };
        let f0 = FieldIndex { start: s.i as usize, end: j as usize, quoted: field_flag(v, d) };
        let n = parse_step(b, q, dl, m);
        assert(n == ParseScan {
            i: j + 1,
            fields: s.fields.push(f0),
            field_start: j + 1,
            field_quoted: false,
            at_field_start: true,
            ..m
        });
        lemma_run_step(b, q, dl, m);
        assert(rest.len() >= 1);
        let t = lemma_scan_fields(b, d, n, rest);
        assert(t.fields.take(s.fields.len() as int) =~= s.fields) by {
            assert(t.fields.take(n.fields.len() as int) == n.fields);
            assert forall|k: int| 0 <= k < s.fields.len() implies t.fields[k] == s.fields[k] by {
                assert(t.fields.take(n.fields.len() as int)[k] == n.fields[k]);
            }
        }
        assert(t.fields[s.fields.len() as int] == f0) by {
            assert(t.fields.take(n.fields.len() as int)[s.fields.len() as int] == n.fields[
                s.fields.len() as int
            ]);
        }
        assert forall|k: int| 0 <= k < vals.len() - 1 implies spec_decode_field(
            b,
            #[trigger] t.fields[s.fields.len() + k],
            d,
        ) == vals[k] by {
            if k > 0 {
                assert(t.fields[n.fields.len() + (k - 1)] == t.fields[s.fields.len() + k]);
                assert(rest[k - 1] == vals[k]);
            }
        }
        assert(rest.last() == vals.last());
        t
    }
}


/// The first byte of a written record, if any, is not a line break.
proof fn lemma_record_first_byte(vals: Seq<Seq<char>>, d: CsvDialect)
    requires
        dialect_ok(d),
        vals.len() >= 1,
    ensures
        encode_utf8(record_text(vals, d)).len() > 0 ==> encode_utf8(record_text(vals, d))[0]
            != 10u8 && encode_utf8(record_text(vals, d))[0] != 13u8,
{
    let q = d.quote;
    let v = vals[0];
    let fc = field_code(v, d);
    let ev = encode_utf8(v);
    lemma_record_text_front(vals, d);
    let x = encode_utf8(record_text(vals, d));
    let tail: Seq<u8> = if vals.len() >= 2 {
        let dc = d.delimiter as char;
        lemma_encode_ascii(dc);
        lemma_encode_concat(spec_encode_field(v, d) + seq![dc], record_text(vals.drop_first(), d));
        lemma_encode_concat(spec_encode_field(v, d), seq![dc]);
        seq![d.delimiter] + encode_utf8(record_text(vals.drop_first(), d))
    } else {
        Seq::empty()
    };
    assert(x == fc + tail);
    if x.len() > 0 {
        if fc.len() > 0 {
            assert(x[0] == fc[0]);
            if field_flag(v, d) {
                lemma_encode_ascii(q as char);
                lemma_encode_concat(seq![q as char], double_quotes(v, q as char));
                lemma_encode_concat(seq![q as char] + double_quotes(v, q as char), seq![q as char]);
                assert(fc[0] == q);
            } else {
                assert(fc == ev);
                if ev[0] == 10u8 || ev[0] == 13u8 {
                    assert(needs_quotes(ev, d));
                }
            }
        } else {
            assert(vals.len() >= 2);
            assert(x[0] == tail[0]);
        }
    }
}

/// `recs` read from `b` hold exactly the texts of `records`.
pub open spec fn reads_back(
    b: Seq<u8>,
    d: CsvDialect,
    recs: Seq<RecordView>,
    records: Seq<Seq<Seq<char>>>,
) -> bool {
    &&& recs.len() == records.len()
    &&& forall|i: int| 0 <= i < records.len() ==> (#[trigger] recs[i]).fields.len() == records[i].len()
    &&& forall|i: int, j: int|
        0 <= i < records.len() && 0 <= j < records[i].len() ==> spec_decode_field(
            b,
            #[trigger] recs[i].fields[j],
            d,
        ) == records[i][j]
}

/// Records that can be written and read back unchanged: every record has a
/// field, and the last one is not a single empty field (which writes
/// nothing).
pub open spec fn writable_records(records: Seq<Seq<Seq<char>>>) -> bool {
    &&& forall|i: int| 0 <= i < records.len() ==> (#[trigger] records[i]).len() >= 1
    &&& records.len() > 0 ==> !(records.last().len() == 1 && records.last()[0].len() == 0)
}

/// Scanning written records from the start of a record reads them all back.
proof fn lemma_scan_records(b: Seq<u8>, d: CsvDialect, s: ParseScan, records: Seq<Seq<Seq<char>>>) -> (recs:
    Seq<RecordView>)
    requires
        dialect_ok(d),
        b.len() <= usize::MAX,
        records.len() >= 1,
        writable_records(records),
        lies_at(b, s.i, encode_utf8(records_text(records, d))),
        s.i + encode_utf8(records_text(records, d)).len() == b.len(),
        s.record_start == s.i,
        s.field_start == s.i,
        s.fields.len() == 0,
        s.at_field_start,
        !s.in_quotes,
        !s.field_quoted,
    ensures
        parse_finish(b, parse_run(b, d.quote, d.delimiter, s)) == s.records + recs,
        reads_back(b, d, recs, records),
    decreases records.len(),
{
    let q = d.quote;
    let dl = d.delimiter;
    let r0 = records[0];
    let e0 = encode_utf8(record_text(r0, d));
    lemma_records_text_front(records, d);
    assert(r0.len() >= 1);
    if records.len() == 1 {
        assert(encode_utf8(records_text(records, d)) == e0);
        let t = lemma_scan_fields(b, d, s, r0);
        assert(parse_run(b, q, dl, t) == t);
        assert(t.field_start < b.len() || t.fields.len() > 0) by {
            if r0.len() == 1 {
                assert(records.last() == r0);
                assert(r0[0].len() > 0);
            }
        }
        let fields = t.fields.push(
            FieldIndex { start: t.field_start as usize, end: b.len() as usize, quoted: t.field_quoted },
        );
        let rec = RecordView { start: s.record_start as usize, end: b.len() as usize, fields };
        let recs = seq![rec];
        assert(parse_finish(b, t) == s.records.push(rec));
        assert(s.records.push(rec) =~= s.records + recs);
        assert forall|i: int, j: int|
            0 <= i < records.len() && 0 <= j < records[i].len() implies spec_decode_field(
            b,
            #[trigger] recs[i].fields[j],
            d,
        ) == records[i][j] by {
            assert(i == 0);
            if j < r0.len() - 1 {
                assert(fields[j] == t.fields[0 + j]);
            } else {
                assert(fields[j] == fields.last());
            }
        }
        recs
    } else {
        let rest = records.drop_first();
        let le = d.line_ending;
        let eol = eol_bytes(le);
        let x_rest = encode_utf8(records_text(rest, d));
        lemma_encode_eol(le);
        lemma_encode_concat(record_text(r0, d) + line_ending_chars(le), records_text(rest, d));
        lemma_encode_concat(record_text(r0, d), line_ending_chars(le));
        assert(encode_utf8(records_text(records, d)) == e0 + eol + x_rest);
        lemma_lies_at_split(b, s.i, e0 + eol, x_rest);
        lemma_lies_at_split(b, s.i, e0, eol);
        let j = s.i + e0.len();
        assert(b[j] == eol[0]) by {
            assert(b.subrange(j, j + eol.len())[0] == b[j]);
        }
        let t = lemma_scan_fields(b, d, s, r0);
        let c = b[j];
        let fields = t.fields.push(
            FieldIndex { start: t.field_start as usize, end: j as usize, quoted: t.field_quoted },
        );
        let rec = RecordView { start: s.record_start as usize, end: j as usize, fields };
        let p = j + eol.len();
        if le == LineEnding::CrLf {
            assert(b[j + 1] == eol[1]) by {
                assert(b.subrange(j, j + eol.len())[1] == b[j + 1]);
            }
        }
        if le == LineEnding::Cr && j + 1 < b.len() {
            assert(rest.len() >= 1);
            let r1 = rest[0];
            assert(r1.len() >= 1);
            lemma_record_first_byte(r1, d);
            lemma_records_text_front(rest, d);
            let e1 = encode_utf8(record_text(r1, d));
            if rest.len() >= 2 {
                lemma_encode_eol(le);
                lemma_encode_concat(record_text(r1, d) + line_ending_chars(le), records_text(
                    rest.drop_first(),
                    d,
                ));
                lemma_encode_concat(record_text(r1, d), line_ending_chars(le));
                assert(x_rest == e1 + eol + encode_utf8(records_text(rest.drop_first(), d)));
            } else {
                assert(x_rest == e1);
            }
            assert(b[j + 1] == x_rest[0]) by {
                assert(b.subrange(p, p + x_rest.len())[0] == b[p]);
            }
            assert(x_rest[0] != 10u8);
        }
        let n = ParseScan {
            i: p,
            record_start: p,
            field_start: p,
            fields: Seq::empty(),
            in_quotes: false,
            field_quoted: false,
            at_field_start: true,
            records: s.records.push(rec),
        };
        assert(parse_step(b, q, dl, t) == n);
        lemma_run_step(b, q, dl, t);
        let recs_rest = lemma_scan_records(b, d, n, rest);
        let recs = seq![rec] + recs_rest;
        assert(s.records.push(rec) + recs_rest =~= s.records + recs);
        assert forall|i: int| 0 <= i < records.len() implies (#[trigger] recs[i]).fields.len()
            == records[i].len() by {
            if i > 0 {
                assert(recs[i] == recs_rest[i - 1]);
                assert(records[i] == rest[i - 1]);
            }
        }
        assert forall|i: int, k: int|
            0 <= i < records.len() && 0 <= k < records[i].len() implies spec_decode_field(
            b,
            #[trigger] recs[i].fields[k],
            d,
        ) == records[i][k] by {
            if i == 0 {
                if k < r0.len() - 1 {
                    assert(fields[k] == t.fields[0 + k]);
                } else {
                    assert(fields[k] == fields.last());
                }
            } else {
                assert(recs[i] == recs_rest[i - 1]);
                assert(records[i] == rest[i - 1]);
            }
        }
        recs
    }
}

/// Reading back written records gives them back: the bytes of
/// `records_text` parse, in the same dialect, into records whose fields
/// decode to the written texts. The dialect must be one that writing and
/// reading agree on, read without a byte order mark; every record must have
/// a field, and the last one must not be a single empty field.
pub proof fn lemma_records_round_trip(records: Seq<Seq<Seq<char>>>, d: CsvDialect)
    requires
        dialect_ok(d),
        d.encoding != Encoding::Utf8Bom,
        writable_records(records),
        encode_utf8(records_text(records, d)).len() <= usize::MAX,
    ensures
        reads_back(
            encode_utf8(records_text(records, d)),
            d,
            spec_records(encode_utf8(records_text(records, d)), d),
            records,
        ),
{
    let b = encode_utf8(records_text(records, d));
    let s = parse_start(b, d);
    assert(s.i == 0);
    if records.len() == 0 {
        assert(records_text(records, d) =~= Seq::<char>::empty());
        assert(b =~= Seq::<u8>::empty());
        assert(parse_run(b, d.quote, d.delimiter, s) == s);
    } else {
        assert(b.subrange(0, b.len() as int) =~= b);
        let recs = lemma_scan_records(b, d, s, records);
        assert(s.records + recs =~= recs);
    }
}


/// Writing with dialects that agree on the delimiter, the quote and the line
/// ending writes the same field.
proof fn lemma_encode_field_dialects(v: Seq<char>, d1: CsvDialect, d2: CsvDialect)
    requires
        d1.delimiter == d2.delimiter,
        d1.quote == d2.quote,
    ensures
        spec_encode_field(v, d1) == spec_encode_field(v, d2),
{
    assert(needs_quotes(encode_utf8(v), d1) == needs_quotes(encode_utf8(v), d2));
}

/// ... the same record.
proof fn lemma_record_text_dialects(vals: Seq<Seq<char>>, d1: CsvDialect, d2: CsvDialect)
    requires
        d1.delimiter == d2.delimiter,
        d1.quote == d2.quote,
    ensures
        record_text(vals, d1) == record_text(vals, d2),
    decreases vals.len(),
{
    if vals.len() > 0 {
        lemma_record_text_dialects(vals.drop_last(), d1, d2);
        lemma_encode_field_dialects(vals.last(), d1, d2);
    }
}

/// ... and the same records.
proof fn lemma_records_text_dialects(recs: Seq<Seq<Seq<char>>>, d1: CsvDialect, d2: CsvDialect)
    requires
        d1.delimiter == d2.delimiter,
        d1.quote == d2.quote,
        d1.line_ending == d2.line_ending,
    ensures
        records_text(recs, d1) == records_text(recs, d2),
    decreases recs.len(),
{
    if recs.len() > 0 {
        lemma_records_text_dialects(recs.drop_last(), d1, d2);
        lemma_record_text_dialects(recs.last(), d1, d2);
    }
}

proof fn lemma_leading_bytes(v: u32)
    by (bit_vector)
    ensures
        ((v & 0x7F) as u8) <= 0xF7u8,
        (0xC0u8 | ((v >> 6) & 0x1F) as u8) <= 0xF7u8,
        (0xE0u8 | ((v >> 12) & 0x0F) as u8) <= 0xF7u8,
        (0xF0u8 | ((v >> 18) & 0x7) as u8) <= 0xF7u8,
{
}

/// UTF-8 text never starts with the bytes of a UTF-16 byte order mark.
proof fn lemma_not_utf16(v: Seq<char>)
    ensures
        spec_encoding(encode_utf8(v)) != Encoding::Utf16Le,
        spec_encoding(encode_utf8(v)) != Encoding::Utf16Be,
{
    if v.len() > 0 {
        let b = encode_utf8(v);
        lemma_leading_bytes(v[0] as u32);
        assert(b[0] == vstd::utf8::encode_scalar(v[0] as u32)[0]);
        assert(b[0] <= 0xF7u8);
    } else {
        assert(encode_utf8(v) =~= Seq::<u8>::empty());
    }
}

/// Records that all have `k` fields have at most `k` fields, exactly `k`
/// when there is one.
proof fn lemma_max_fields_uniform(recs: Seq<RecordView>, k: nat)
    requires
        forall|i: int| 0 <= i < recs.len() ==> (#[trigger] recs[i]).fields.len() == k,
    ensures
        max_fields(recs) == if recs.len() > 0 {
            k
        } else {
            0
        },
    decreases recs.len(),
{
    if recs.len() > 0 {
        assert forall|i: int| 0 <= i < recs.drop_last().len() implies (
        #[trigger] recs.drop_last()[i]).fields.len() == k by {
            assert(recs.drop_last()[i] == recs[i]);
        }
        lemma_max_fields_uniform(recs.drop_last(), k);
        assert(recs.last().fields.len() == k);
    }
}

/// A row with a value has a positive used width.
proof fn lemma_filled_width(row: Seq<Seq<char>>)
    requires
        filled(row),
    ensures
        used_width(row) >= 1,
    decreases row.len(),
{
    if row.last().len() == 0 {
        let i = choose|i: int| 0 <= i < row.len() && (#[trigger] row[i]).len() > 0;
        assert(i < row.len() - 1);
        assert(row.drop_last()[i] == row[i]);
        lemma_filled_width(row.drop_last());
    }
}

/// A row below the used rows is at most as wide as the widest one.
proof fn lemma_widest_at_least(rows: Seq<Seq<Seq<char>>>, i: int)
    requires
        0 <= i < rows.len(),
    ensures
        used_width(rows[i]) <= widest(rows),
    decreases rows.len(),
{
    if i < rows.len() - 1 {
        assert(rows.drop_last()[i] == rows[i]);
        lemma_widest_at_least(rows.drop_last(), i);
    }
}

/// When rows are used, the last used one has a value.
proof fn lemma_used_rows_filled(rows: Seq<Seq<Seq<char>>>)
    requires
        used_rows(rows) > 0,
    ensures
        used_rows(rows) <= rows.len(),
        filled(rows[used_rows(rows) - 1]),
    decreases rows.len(),
{
    if !filled(rows.last()) {
        lemma_used_rows_filled(rows.drop_last());
        assert(rows.drop_last()[used_rows(rows) - 1] == rows[used_rows(rows) - 1]);
    }
}

/// Saving keeps the table: when a document without filters or sort keys is
/// saved (its `to_csv_bytes` written and read back by `save_to`), the
/// document shows the rows and columns that were written, every cell with
/// the text it had, the same rows kept aside and the same header texts.
///
/// The written bytes must read back as written: the delimiter is an ASCII
/// byte other than the quote and the line breaks, the text does not start
/// with a byte order mark, every record written has a field, and the last
/// one is not a single empty field.
pub proof fn lemma_saved_table_reads_back<F: Fn(&str) -> Option<u64>>(
    old: CsvDocument,
    new: CsvDocument,
    path: Seq<char>,
    f: &F,
)
    requires
        old.wf(),
        dialect_ok(old.spec_dialect()),
        spec_encoding(encode_utf8(csv_text(old, old.spec_dialect(), true))) != Encoding::Utf8Bom,
        writable_records(csv_records(old, true)),
        encode_utf8(csv_text(old, old.spec_dialect(), true)).len() <= usize::MAX,
        rebased(old, new, path, encode_utf8(csv_text(old, old.spec_dialect(), true)), f),
        old.filter_list().len() == 0,
        old.sort_key_list().len() == 0,
    ensures
        ({
            let t = table(old);
            let nrows = used_rows(t);
            let ncols = kept_width(old, t.take(nrows as int));
            &&& new.spec_row_count() == nrows
            &&& forall|r: int, c: int|
                0 <= r < nrows && 0 <= c < ncols ==> #[trigger] new.spec_cell(r, c) == Some(
                    t[r][c],
                )
            &&& new.skipped() == old.skipped()
            &&& (old.spec_headers() is Some && ncols > 0) ==> new.spec_headers() == Some(
                header_row(old, ncols),
            )
        }),
{
    let d = old.spec_dialect();
    let rr = csv_records(old, true);
    let b = encode_utf8(csv_text(old, d, true));
    let opts = saved_options(old);
    let dr = opened_dialect(b, opts);
    let du = CsvDialect { encoding: Encoding::Utf8, ..d };
    let recs = spec_records(b, dr);
    assert(new.filter_list().len() == 0);
    assert(new.sort_key_list().len() == 0);
    lemma_wf_facts(old);
    lemma_wf_facts(new);
    lemma_records_text_dialects(rr, d, du);
    lemma_records_round_trip(rr, du);
    lemma_not_utf16(records_text(rr, d));
    assert(spec_dialect(b).quote == 34u8);
    assert(dr.quote == du.quote && dr.delimiter == du.delimiter);
    assert(spec_encoding(b) == Encoding::Utf8);
    assert(spec_records(b, du) == recs);
    let t = table(old);
    let nrows = used_rows(t);
    let ncols = kept_width(old, t.take(nrows as int));
    let cc = old.spec_column_count();
    let s0 = old.skipped().len();
    assert(opts.skip_rows as int == s0);
    let hdr = old.spec_headers() is Some && ncols > 0;
    let h: nat = if hdr {
        1
    } else {
        0
    };
    let body = clip(t.take(nrows as int), ncols);
    // Layout of the written records.
    assert(rr == old.skipped() + (if hdr {
        seq![header_row(old, ncols)]
    } else {
        Seq::<Seq<Seq<char>>>::empty()
    }) + body);
    assert(rr.len() == s0 + h + nrows) by {
        lemma_used_rows_bound_here(t);
    }
    let n = recs.len();
    assert(n == rr.len());
    // Widths.
    lemma_used_width_bound(header_row(old, cc));
    assert forall|i: int| 0 <= i < t.take(nrows as int).len() implies (#[trigger] t.take(
        nrows as int,
    )[i]).len() <= cc by {
        lemma_used_rows_bound_here(t);
        assert(t.take(nrows as int)[i] == t[i]);
    }
    lemma_widest_bound(t.take(nrows as int), cc);
    assert(ncols <= cc);
    if nrows > 0 {
        lemma_used_rows_bound_here(t);
        lemma_used_rows_filled(t);
        lemma_filled_width(t[nrows - 1]);
        assert(t.take(nrows as int)[nrows - 1] == t[nrows - 1]);
        lemma_widest_at_least(t.take(nrows as int), nrows - 1);
        assert(ncols >= 1);
    }
    // Every record from the header on has `ncols` fields.
    let after = records_after(recs, s0 as int);
    assert forall|i: int| 0 <= i < after.len() implies (#[trigger] after[i]).fields.len() == ncols by {
        assert(s0 < n);
        assert(after[i] == recs[s0 + i]);
        assert(recs[s0 + i].fields.len() == rr[s0 + i].len());
        if hdr && i == 0 {
            assert(rr[s0 + i] == header_row(old, ncols));
        } else {
            let k = i - h;
            assert(rr[s0 + i] == body[k]);
            lemma_used_rows_bound_here(t);
            assert(t.take(nrows as int)[k] == t[k]);
            assert(t[k].len() == cc);
        }
    }
    lemma_max_fields_uniform(after, ncols);
    let w = opened_width(b, opts);
    assert(recs == spec_records(b, opened_dialect(b, opts)));
    assert(w == max_fields(after));
    // Kept-aside rows.
    assert(s0 <= n);
    assert(new.skipped() =~= old.skipped()) by {
        assert forall|i: int| 0 <= i < s0 implies #[trigger] new.skipped()[i] == old.skipped()[i] by {
            assert(new.skipped().len() == s0);
            assert(new.skipped()[i] == record_texts(b, recs[i], dr));
            assert(rr[i] == old.skipped()[i]);
            assert(record_texts(b, recs[i], dr) =~= rr[i]) by {
                assert forall|j: int| 0 <= j < rr[i].len() implies #[trigger] record_texts(
                    b,
                    recs[i],
                    dr,
                )[j] == rr[i][j] by {
                    assert(spec_decode_field(b, recs[i].fields[j], du) == rr[i][j]);
                }
            }
        }
    }
    // Header.
    if hdr {
        assert(rr[s0 as int] == header_row(old, ncols));
        assert(record_texts(b, recs[s0 as int], dr) =~= rr[s0 as int]) by {
            assert forall|j: int| 0 <= j < rr[s0 as int].len() implies #[trigger] record_texts(
                b,
                recs[s0 as int],
                dr,
            )[j] == rr[s0 as int][j] by {
                assert(spec_decode_field(b, recs[s0 as int].fields[j], du) == rr[s0 as int][j]);
            }
        }
    }
    // Shown rows.
    let first = first_data_record(opts);
    let data_len = new.data_record().len();
    assert(data_len == nrows) by {
        if old.spec_headers() is Some && ncols == 0 {
            assert(nrows == 0);
        }
    }
    lemma_matching_all(new, f, data_len as int);
    assert(new.visible_rows() == range_seq(0, data_len as int));
    assert forall|r: int, c: int| 0 <= r < nrows && 0 <= c < ncols implies #[trigger] new.spec_cell(
        r,
        c,
    ) == Some(t[r][c]) by {
        let k = first + r;
        assert(k == s0 + h + r);
        assert(new.data_record()[r] == k as usize);
        assert(rr[k] == body[r]);
        lemma_used_rows_bound_here(t);
        assert(t.take(nrows as int)[r] == t[r]);
        assert(t[r].len() == cc);
        assert(body[r] == t[r].take(ncols as int));
        assert(recs[k].fields.len() == ncols);
        assert(spec_decode_field(b, recs[k].fields[c], du) == rr[k][c]);
        assert(new.source_value(r, c) == t[r][c]);
        assert(new.column_order_list().len() == w);
        assert(new.visible_columns()[c] as int == c);
        lemma_fresh_cell(new, r, c);
    }
}

/// In a document with no edit, a shown data row in its own place and a real
/// column in its own place show the source text of the cell.
proof fn lemma_fresh_cell(doc: CsvDocument, r: int, c: int)
    requires
        doc.edit_list().len() == 0,
        0 <= r < doc.visible_rows().len(),
        doc.visible_rows()[r] as int == r,
        0 <= c < doc.visible_columns().len(),
        doc.visible_columns()[c] as int == c,
        r < doc.data_record().len(),
        doc.data_record()[r] < doc.record_list().len(),
    ensures
        doc.spec_cell(r, c) == Some(doc.source_value(r, c)),
{
}

/// Used rows never exceed the rows.
proof fn lemma_used_rows_bound_here(rows: Seq<Seq<Seq<char>>>)
    ensures
        used_rows(rows) <= rows.len(),
    decreases rows.len(),
{
    if rows.len() > 0 {
        lemma_used_rows_bound_here(rows.drop_last());
    }
}

} // verus!
