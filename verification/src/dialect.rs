use vstd::prelude::*;

verus! {

/// Byte encoding of a CSV source, as told by its byte order mark.
#[derive(Debug, Clone, Copy, PartialEq, Eq, Structural)]
pub enum Encoding {
    Utf8,
    Utf8Bom,
    Utf16Le,
    Utf16Be,
}

/// Line terminator used between records.
#[derive(Debug, Clone, Copy, PartialEq, Eq, Structural)]
pub enum LineEnding {
    Lf,
    CrLf,
    Cr,
}

/// The characters of a line terminator.
pub open spec fn line_ending_chars(le: LineEnding) -> Seq<char> {
    match le {
        LineEnding::Lf => seq!['\n'],
        LineEnding::CrLf => seq!['\r', '\n'],
        LineEnding::Cr => seq!['\r'],
    }
}

impl LineEnding {
    /// The terminator as text.
    pub fn as_str(self) -> (s: &'static str)
        ensures
            s@ == line_ending_chars(self),
    {
        proof {
            reveal_strlit("\n");
            reveal_strlit("\r\n");
            reveal_strlit("\r");
        }
        match self {
            LineEnding::Lf => "\n",
            LineEnding::CrLf => "\r\n",
            LineEnding::Cr => "\r",
        }
    }
}

/// How a CSV source is laid out: separator, quote byte, line terminator and encoding.
#[derive(Debug, Clone, Copy, PartialEq, Eq, Structural)]
pub struct CsvDialect {
    pub delimiter: u8,
    pub quote: u8,
    pub escape: Option<u8>,
    pub line_ending: LineEnding,
    pub encoding: Encoding,
}

impl CsvDialect {
    /// Comma separated, double quoted, LF terminated UTF-8.
    pub open spec fn spec_default() -> CsvDialect {
        CsvDialect {
            delimiter: 44u8,
            quote: 34u8,
            escape: None,
            line_ending: LineEnding::Lf,
            encoding: Encoding::Utf8,
        }
    }
}

impl Default for CsvDialect {
    fn default() -> (d: Self)
        ensures
            d == CsvDialect::spec_default(),
    {
        Self {
            delimiter: 44u8,
            quote: 34u8,
            escape: None,
            line_ending: LineEnding::Lf,
            encoding: Encoding::Utf8,
        }
    }
}

/// Largest prefix of the source that dialect detection looks at.
pub const DETECTION_SAMPLE_LIMIT: usize = 1048576;

/// Most lines that delimiter detection scores.
pub const DETECTION_LINE_LIMIT: usize = 64;

/// The encoding that a byte order mark announces.
pub open spec fn spec_encoding(b: Seq<u8>) -> Encoding {
    if b.len() >= 3 && b[0] == 0xEFu8 && b[1] == 0xBBu8 && b[2] == 0xBFu8 {
        Encoding::Utf8Bom
    } else if b.len() >= 2 && b[0] == 0xFFu8 && b[1] == 0xFEu8 {
        Encoding::Utf16Le
    } else if b.len() >= 2 && b[0] == 0xFEu8 && b[1] == 0xFFu8 {
        Encoding::Utf16Be
    } else {
        Encoding::Utf8
    }
}

/// Counts of CRLF, LF and lone CR terminators in `b`, scanning from the front.
pub open spec fn eol_counts(b: Seq<u8>) -> (nat, nat, nat)
    decreases b.len(),
{
    if b.len() == 0 {
        (0, 0, 0)
    } else if b[0] == 13u8 && b.len() > 1 && b[1] == 10u8 {
        let c = eol_counts(b.skip(2));
        (c.0 + 1, c.1, c.2)
    } else if b[0] == 13u8 {
        let c = eol_counts(b.skip(1));
        (c.0, c.1, c.2 + 1)
    } else if b[0] == 10u8 {
        let c = eol_counts(b.skip(1));
        (c.0, c.1 + 1, c.2)
    } else {
        eol_counts(b.skip(1))
    }
}

/// The terminator that occurs most often: CRLF wins ties, LF is the fallback.
pub open spec fn spec_line_ending(b: Seq<u8>) -> LineEnding {
    let (crlf, lf, cr) = eol_counts(b);
    if crlf >= lf && crlf >= cr && crlf > 0 {
        LineEnding::CrLf
    } else if cr > lf {
        LineEnding::Cr
    } else {
        LineEnding::Lf
    }
}

/// The separators that detection considers, in order of preference on no evidence reversed:
/// comma, tab, semicolon, pipe, colon.
pub open spec fn candidate(k: int) -> u8 {
    if k == 0 {
        44u8
    } else if k == 1 {
        9u8
    } else if k == 2 {
        59u8
    } else if k == 3 {
        124u8
    } else {
        58u8
    }
}

/// Progress of the delimiter scan over a sample.
pub struct DelimScan {
    pub i: int,
    pub in_quotes: bool,
    pub line_has_data: bool,
    pub lines: int,
    pub current: Seq<int>,
    pub totals: Seq<int>,
    pub populated: Seq<int>,
}

pub open spec fn zeros5() -> Seq<int> {
    seq![0int, 0int, 0int, 0int, 0int]
}

pub open spec fn delim_scan_start() -> DelimScan {
    DelimScan {
        i: 0,
        in_quotes: false,
        line_has_data: false,
        lines: 0,
        current: zeros5(),
        totals: zeros5(),
        populated: zeros5(),
    }
}

/// Index of `byte` among the candidates, or 5.
pub open spec fn candidate_index(byte: u8) -> int {
    if byte == 44u8 {
        0
    } else if byte == 9u8 {
        1
    } else if byte == 59u8 {
        2
    } else if byte == 124u8 {
        3
    } else if byte == 58u8 {
        4
    } else {
        5
    }
}

/// One step of the scan at position `s.i` (which must be inside `b`).
pub open spec fn delim_step(b: Seq<u8>, s: DelimScan) -> DelimScan {
    let byte = b[s.i];
    if byte == 34u8 {
        if s.in_quotes && s.i + 1 < b.len() && b[s.i + 1] == 34u8 {
            DelimScan { i: s.i + 2, ..s }
        } else {
            DelimScan { i: s.i + 1, in_quotes: !s.in_quotes, ..s }
        }
    } else if !s.in_quotes {
        if byte == 10u8 || byte == 13u8 {
            let skip: int = if byte == 13u8 && s.i + 1 < b.len() && b[s.i + 1] == 10u8 {
                2
            } else {
                1
            };
            if s.line_has_data {
                DelimScan {
                    i: s.i + skip,
                    in_quotes: false,
                    line_has_data: false,
                    lines: s.lines + 1,
                    current: zeros5(),
                    totals: Seq::new(5, |k: int| s.totals[k] + s.current[k]),
                    populated: Seq::new(
                        5,
                        |k: int|
                            if s.current[k] > 0 {
                                s.populated[k] + 1
                            } else {
                                s.populated[k]
                            },
                    ),
                }
            } else {
                DelimScan {
                    i: s.i + skip,
                    line_has_data: false,
                    current: zeros5(),
                    ..s
                }
            }
        } else {
            let k = candidate_index(byte);
            DelimScan {
                i: s.i + 1,
                line_has_data: true,
                current: if k < 5 {
                    s.current.update(k, s.current[k] + 1)
                } else {
                    s.current
                },
                ..s
            }
        }
    } else {
        DelimScan { i: s.i + 1, line_has_data: true, ..s }
    }
}

/// Runs the scan until the sample ends or the line limit is reached.
pub open spec fn delim_run(b: Seq<u8>, s: DelimScan) -> DelimScan
    decreases b.len() - s.i,
{
    if 0 <= s.i < b.len() && s.lines < 64 {
        let n = delim_step(b, s);
        if n.i > s.i {
            delim_run(b, n)
        } else {
            s
        }
    } else {
        s
    }
}

/// The score of candidate `k`: lines it occurs on weigh a thousand times an occurrence.
pub open spec fn delim_key(s: DelimScan, k: int) -> int {
    s.populated[k] * 1000 + s.totals[k]
}

/// `k` holds the greatest score, and no later candidate holds as much.
pub open spec fn is_best_candidate(s: DelimScan, k: int) -> bool {
    &&& 0 <= k < 5
    &&& forall|j: int| 0 <= j < 5 ==> delim_key(s, j) <= delim_key(s, k)
    &&& forall|j: int| k < j < 5 ==> delim_key(s, j) < delim_key(s, k)
}

/// Some candidate holds the greatest score, later ones holding less.
proof fn lemma_best_exists(s: DelimScan)
    ensures
        exists|k: int| is_best_candidate(s, k),
{
    let mut c: int = 0;
    if delim_key(s, 1) >= delim_key(s, c) {
        c = 1;
    }
    if delim_key(s, 2) >= delim_key(s, c) {
        c = 2;
    }
    if delim_key(s, 3) >= delim_key(s, c) {
        c = 3;
    }
    if delim_key(s, 4) >= delim_key(s, c) {
        c = 4;
    }
    assert(is_best_candidate(s, c));
}

/// Lines weigh more than occurrences: a candidate separator that occurs on
/// more lines of the sample than the chosen one occurs at least a thousand
/// times less often than it; with as many lines, it occurs no more often.
pub proof fn lemma_more_lines_win(b: Seq<u8>, k: int)
    requires
        0 <= k < 5,
    ensures
        ({
            let s = delim_run(b, delim_scan_start());
            let c = candidate_index(spec_delimiter(b));
            &&& 0 <= c < 5
            &&& s.populated[k] > s.populated[c] ==> s.totals[c] >= s.totals[k] + 1000
            &&& s.populated[k] == s.populated[c] ==> s.totals[k] <= s.totals[c]
        }),
{
    let s = delim_run(b, delim_scan_start());
    lemma_best_exists(s);
    let c = choose|j: int| is_best_candidate(s, j);
    assert(delim_key(s, k) <= delim_key(s, c));
    assert(candidate_index(candidate(c)) == c);
}

/// The separator chosen for a sample.
pub open spec fn spec_delimiter(b: Seq<u8>) -> u8 {
    let s = delim_run(b, delim_scan_start());
    candidate(choose|k: int| is_best_candidate(s, k))
}

/// The prefix of the source that detection samples.
pub open spec fn detection_sample(b: Seq<u8>) -> Seq<u8> {
    let body = if spec_encoding(b) == Encoding::Utf8Bom && b.len() >= 3 {
        b.skip(3)
    } else {
        b
    };
    if body.len() > DETECTION_SAMPLE_LIMIT {
        body.take(DETECTION_SAMPLE_LIMIT as int)
    } else {
        body
    }
}

/// The dialect that detection settles on.
pub open spec fn spec_dialect(b: Seq<u8>) -> CsvDialect {
    let sample = detection_sample(b);
    CsvDialect {
        delimiter: spec_delimiter(sample),
        quote: 34u8,
        escape: None,
        line_ending: spec_line_ending(sample),
        encoding: spec_encoding(b),
    }
}

/// Guesses the dialect of a CSV source from its first mebibyte.
pub fn detect_dialect(bytes: &[u8]) -> (d: CsvDialect)
    ensures
        d == spec_dialect(bytes@),
{
    let encoding = detect_encoding(bytes);
    let start: usize = if encoding == Encoding::Utf8Bom && bytes.len() >= 3 {
        3
    } else {
        0
    };
    let body_len: usize = bytes.len() - start;
    let end: usize = if body_len > DETECTION_SAMPLE_LIMIT {
        start + DETECTION_SAMPLE_LIMIT
    } else {
        bytes.len()
    };
    let sample = &bytes[start..end];
    proof {
        let body = if spec_encoding(bytes@) == Encoding::Utf8Bom && bytes@.len() >= 3 {
            bytes@.skip(3)
        } else {
            bytes@
        };
        assert(sample@ =~= detection_sample(bytes@)) by {
            if body.len() > DETECTION_SAMPLE_LIMIT {
                assert(body.take(DETECTION_SAMPLE_LIMIT as int) =~= bytes@.subrange(
                    start as int,
                    end as int,
                ));
            } else {
                assert(body =~= bytes@.subrange(start as int, end as int));
            }
        }
    }
    CsvDialect {
        delimiter: detect_delimiter(sample),
        quote: 34u8,
        escape: None,
        line_ending: detect_line_ending(sample),
        encoding,
    }
}

/// Reads the byte order mark.
pub fn detect_encoding(bytes: &[u8]) -> (e: Encoding)
    ensures
        e == spec_encoding(bytes@),
{
    let n = bytes.len();
    if n >= 3 && bytes[0] == 0xEF && bytes[1] == 0xBB && bytes[2] == 0xBF {
        Encoding::Utf8Bom
    } else if n >= 2 && bytes[0] == 0xFF && bytes[1] == 0xFE {
        Encoding::Utf16Le
    } else if n >= 2 && bytes[0] == 0xFE && bytes[1] == 0xFF {
        Encoding::Utf16Be
    } else {
        Encoding::Utf8
    }
}

/// Picks the line terminator that occurs most often.
pub fn detect_line_ending(bytes: &[u8]) -> (le: LineEnding)
    ensures
        le == spec_line_ending(bytes@),
{
    let mut crlf: usize = 0;
    let mut lf: usize = 0;
    let mut cr: usize = 0;
    let mut i: usize = 0;
    let n = bytes.len();
    assert(bytes@.skip(0) =~= bytes@);
    while i < n
        invariant
            n == bytes@.len(),
            i <= n,
            crlf + lf + cr <= i,
            ({
                let rest = eol_counts(bytes@.skip(i as int));
                let all = eol_counts(bytes@);
                all.0 == crlf + rest.0 && all.1 == lf + rest.1 && all.2 == cr + rest.2
            }),
        decreases n - i,
    {
        let ghost before = bytes@.skip(i as int);
        if bytes[i] == 13u8 && i + 1 < n && bytes[i + 1] == 10u8 {
            crlf += 1;
            assert(before.skip(2) =~= bytes@.skip(i + 2));
            i += 2;
        } else if bytes[i] == 13u8 {
            cr += 1;
            assert(before.skip(1) =~= bytes@.skip(i + 1));
            i += 1;
        } else if bytes[i] == 10u8 {
            lf += 1;
            assert(before.skip(1) =~= bytes@.skip(i + 1));
            i += 1;
        } else {
            assert(before.skip(1) =~= bytes@.skip(i + 1));
            i += 1;
        }
    }
    assert(bytes@.skip(i as int).len() == 0);
    if crlf >= lf && crlf >= cr && crlf > 0 {
        LineEnding::CrLf
    } else if cr > lf {
        LineEnding::Cr
    } else {
        LineEnding::Lf
    }
}

/// The scan state that the executable counters stand for.
pub open spec fn scan_of(
    i: usize,
    in_quotes: bool,
    line_has_data: bool,
    lines: usize,
    current: Seq<usize>,
    totals: Seq<usize>,
    populated: Seq<usize>,
) -> DelimScan {
    DelimScan {
        i: i as int,
        in_quotes,
        line_has_data,
        lines: lines as int,
        current: current.map_values(|x: usize| x as int),
        totals: totals.map_values(|x: usize| x as int),
        populated: populated.map_values(|x: usize| x as int),
    }
}

/// Index of `byte` among the candidate separators.
fn candidate_position(byte: u8) -> (k: usize)
    ensures
        k as int == candidate_index(byte),
{
    if byte == 44u8 {
        0
    } else if byte == 9u8 {
        1
    } else if byte == 59u8 {
        2
    } else if byte == 124u8 {
        3
    } else if byte == 58u8 {
        4
    } else {
        5
    }
}

/// The separator at position `k` of the candidate list.
fn candidate_at(k: usize) -> (b: u8)
    ensures
        b == candidate(k as int),
{
    if k == 0 {
        44u8
    } else if k == 1 {
        9u8
    } else if k == 2 {
        59u8
    } else if k == 3 {
        124u8
    } else {
        58u8
    }
}

proof fn lemma_best_candidate_unique(s: DelimScan, a: int, b: int)
    requires
        is_best_candidate(s, a),
        is_best_candidate(s, b),
    ensures
        a == b,
{
    if a < b {
        assert(delim_key(s, b) < delim_key(s, a));
        assert(delim_key(s, b) <= delim_key(s, a));
        assert(delim_key(s, a) <= delim_key(s, b));
    } else if b < a {
        assert(delim_key(s, a) < delim_key(s, b));
        assert(delim_key(s, b) <= delim_key(s, a));
    }
}

/// Scores the candidate separators on up to 64 lines, ignoring quoted text, and
/// picks the one that occurs on the most lines (then most often; later candidates win ties).
pub fn detect_delimiter(bytes: &[u8]) -> (d: u8)
    ensures
        d == spec_delimiter(bytes@),
{
    let n = bytes.len();
    let mut current: Vec<usize> = vec![0, 0, 0, 0, 0];
    let mut totals: Vec<usize> = vec![0, 0, 0, 0, 0];
    let mut populated: Vec<usize> = vec![0, 0, 0, 0, 0];
    let mut in_quotes = false;
    let mut line_has_data = false;
    let mut lines: usize = 0;
    let mut i: usize = 0;
    proof {
        assert(scan_of(i, in_quotes, line_has_data, lines, current@, totals@, populated@)
            == delim_scan_start()) by {
            assert(current@.map_values(|x: usize| x as int) =~= zeros5());
            assert(totals@.map_values(|x: usize| x as int) =~= zeros5());
            assert(populated@.map_values(|x: usize| x as int) =~= zeros5());
        }
    }
    while i < n && lines < DETECTION_LINE_LIMIT
        invariant
            n == bytes@.len(),
            i <= n,
            lines <= DETECTION_LINE_LIMIT,
            current@.len() == 5,
            totals@.len() == 5,
            populated@.len() == 5,
            forall|k: int| 0 <= k < 5 ==> #[trigger] current@[k] <= i,
            forall|k: int| 0 <= k < 5 ==> #[trigger] totals@[k] <= i,
            forall|k: int| 0 <= k < 5 ==> #[trigger] populated@[k] <= lines,
            forall|k: int| 0 <= k < 5 ==> #[trigger] totals@[k] + current@[k] <= i,
            delim_run(
                bytes@,
                scan_of(i, in_quotes, line_has_data, lines, current@, totals@, populated@),
            ) == delim_run(bytes@, delim_scan_start()),
        decreases n - i,
    {
        let ghost s0 = scan_of(i, in_quotes, line_has_data, lines, current@, totals@, populated@);
        let byte = bytes[i];
        if byte == 34u8 {
            if in_quotes && i + 1 < n && bytes[i + 1] == 34u8 {
                i += 2;
            } else {
                in_quotes = !in_quotes;
                i += 1;
            }
        } else if !in_quotes {
            if byte == 10u8 || byte == 13u8 {
                let skip: usize = if byte == 13u8 && i + 1 < n && bytes[i + 1] == 10u8 {
                    2
                } else {
                    1
                };
                if line_has_data {
                    let ghost c0 = current@;
                    let ghost t0 = totals@;
                    let ghost p0 = populated@;
                    let mut k: usize = 0;
                    while k < 5
                        invariant
                            k <= 5,
                            current@ == c0,
                            c0.len() == 5,
                            t0.len() == 5,
                            p0.len() == 5,
                            totals@.len() == 5,
                            populated@.len() == 5,
                            lines < DETECTION_LINE_LIMIT,
                            forall|j: int| k <= j < 5 ==> #[trigger] totals@[j] == t0[j],
                            forall|j: int| k <= j < 5 ==> #[trigger] populated@[j] == p0[j],
                            forall|j: int| 0 <= j < k ==> #[trigger] totals@[j] == t0[j] + c0[j],
                            forall|j: int|
                                0 <= j < k ==> #[trigger] populated@[j] == (if c0[j] > 0 {
                                    p0[j] + 1
                                } else {
                                    p0[j] as int
                                }),
                            forall|j: int| 0 <= j < 5 ==> #[trigger] t0[j] + c0[j] <= i,
                            forall|j: int| 0 <= j < 5 ==> #[trigger] p0[j] <= lines,
                        decreases 5 - k,
                    {
                        let c = current[k];
                        let t = totals[k];
                        totals.set(k, t + c);
                        if c > 0 {
                            let p = populated[k];
                            populated.set(k, p + 1);
                        }
                        k += 1;
                    }
                    lines += 1;
                }
                current = vec![0, 0, 0, 0, 0];
                line_has_data = false;
                i += skip;
            } else {
                line_has_data = true;
                let k = candidate_position(byte);
                if k < 5 {
                    let c = current[k];
                    current.set(k, c + 1);
                }
                i += 1;
            }
        } else {
            line_has_data = true;
            i += 1;
        }
        proof {
            let s1 = scan_of(i, in_quotes, line_has_data, lines, current@, totals@, populated@);
            assert(s1 == delim_step(bytes@, s0)) by {
                assert(s1.current =~= delim_step(bytes@, s0).current);
                assert(s1.totals =~= delim_step(bytes@, s0).totals);
                assert(s1.populated =~= delim_step(bytes@, s0).populated);
            }
        }
    }
    let ghost fin = scan_of(i, in_quotes, line_has_data, lines, current@, totals@, populated@);
    assert(fin == delim_run(bytes@, delim_scan_start()));
    let mut best: usize = 0;
    let mut best_key: u128 = (populated[0] as u128) * 1000 + (totals[0] as u128);
    let mut k: usize = 1;
    while k < 5
        invariant
            1 <= k <= 5,
            best < k,
            populated@.len() == 5,
            totals@.len() == 5,
            forall|j: int| 0 <= j < 5 ==> #[trigger] populated@[j] <= DETECTION_LINE_LIMIT,
            fin == scan_of(i, in_quotes, line_has_data, lines, current@, totals@, populated@),
            best_key == delim_key(fin, best as int),
            forall|j: int| 0 <= j < k ==> delim_key(fin, j) <= delim_key(fin, best as int),
            forall|j: int| best < j < k ==> delim_key(fin, j) < delim_key(fin, best as int),
        decreases 5 - k,
    {
        let key: u128 = (populated[k] as u128) * 1000 + (totals[k] as u128);
        if key >= best_key {
            best = k;
            best_key = key;
        }
        k += 1;
    }
    proof {
        assert(is_best_candidate(fin, best as int));
        let c = choose|k: int| is_best_candidate(fin, k);
        lemma_best_candidate_unique(fin, c, best as int);
    }
    candidate_at(best)
}

} // verus!
