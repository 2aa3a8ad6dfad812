use vstd::prelude::*;
use vstd::string::StringExecFns;

verus! {

/// What `String::from_utf8_lossy` makes of a byte sequence.
pub uninterp spec fn utf8_lossy(bytes: Seq<u8>) -> Seq<char>;

/// Decodes bytes as UTF-8, replacing each invalid sequence with U+FFFD.
///
/// Calls `String::from_utf8_lossy`. Claimed: the result is the named lossy decoding
/// of the bytes, and for valid UTF-8 it is exactly the decoded text (the std
/// documentation says valid input is returned unchanged).
#[verifier::external_body]
pub(crate) fn string_from_utf8_lossy(bytes: &[u8]) -> (s: String)
    ensures
        s@ == utf8_lossy(bytes@),
        vstd::utf8::valid_utf8(bytes@) ==> s@ == vstd::utf8::decode_utf8(bytes@),
{
    String::from_utf8_lossy(bytes).into_owned()
}

/// Appends one character.
///
/// Calls `String::push`. Claimed: the text grows by exactly that character.
#[verifier::external_body]
pub(crate) fn push_char(s: &mut String, c: char)
    ensures
        final(s)@ == old(s)@.push(c),
{
    s.push(c);
}

/// Appends a text.
pub(crate) fn push_str(s: &mut String, t: &str)
    ensures
        final(s)@ == old(s)@ + t@,
{
    s.append(t);
}

/// What `str::trim` leaves of a text.
pub uninterp spec fn trimmed(s: Seq<char>) -> Seq<char>;

/// Removes leading and trailing Unicode white space.
///
/// Calls `str::trim`. Claimed: the result is the named trimming of the text.
#[verifier::external_body]
pub(crate) fn trim(s: &str) -> (r: &str)
    ensures
        r@ == trimmed(s@),
{
    s.trim()
}

/// What `str::to_lowercase` makes of a text.
pub uninterp spec fn lowercase(s: Seq<char>) -> Seq<char>;

/// Unicode lowercase mapping.
///
/// Calls `str::to_lowercase`. Claimed: the result is the named lowercase form of the text.
#[verifier::external_body]
pub(crate) fn to_lowercase(s: &str) -> (r: String)
    ensures
        r@ == lowercase(s@),
{
    s.to_lowercase()
}

/// Three-way comparison outcome.
#[derive(Debug, Clone, Copy, PartialEq, Eq, Structural)]
pub enum Comparison {
    Less,
    Equal,
    Greater,
}

impl Comparison {
    pub open spec fn spec_reverse(self) -> Comparison {
        match self {
            Comparison::Less => Comparison::Greater,
            Comparison::Equal => Comparison::Equal,
            Comparison::Greater => Comparison::Less,
        }
    }

    /// The opposite outcome.
    pub fn reverse(self) -> (r: Comparison)
        ensures
            r == self.spec_reverse(),
    {
        match self {
            Comparison::Less => Comparison::Greater,
            Comparison::Equal => Comparison::Equal,
            Comparison::Greater => Comparison::Less,
        }
    }
}

/// Compares two integers.
pub open spec fn int_order(a: int, b: int) -> Comparison {
    if a < b {
        Comparison::Less
    } else if a == b {
        Comparison::Equal
    } else {
        Comparison::Greater
    }
}

/// Lexicographic order of byte strings: the order of `str` and `String`.
pub open spec fn lex_order(a: Seq<u8>, b: Seq<u8>) -> Comparison
    decreases a.len(),
{
    if a.len() == 0 && b.len() == 0 {
        Comparison::Equal
    } else if a.len() == 0 {
        Comparison::Less
    } else if b.len() == 0 {
        Comparison::Greater
    } else if a[0] < b[0] {
        Comparison::Less
    } else if a[0] > b[0] {
        Comparison::Greater
    } else {
        lex_order(a.skip(1), b.skip(1))
    }
}

/// Compares two byte strings lexicographically.
pub fn compare_bytes(a: &[u8], b: &[u8]) -> (c: Comparison)
    ensures
        c == lex_order(a@, b@),
{
    let mut i: usize = 0;
    assert(a@.skip(0) =~= a@);
    assert(b@.skip(0) =~= b@);
    while i < a.len() && i < b.len()
        invariant
            i <= a@.len(),
            i <= b@.len(),
            lex_order(a@.skip(i as int), b@.skip(i as int)) == lex_order(a@, b@),
        decreases a@.len() - i,
    {
        if a[i] < b[i] {
            return Comparison::Less;
        } else if a[i] > b[i] {
            return Comparison::Greater;
        }
        assert(a@.skip(i as int).skip(1) =~= a@.skip(i + 1));
        assert(b@.skip(i as int).skip(1) =~= b@.skip(i + 1));
        i += 1;
    }
    if i == a.len() && i == b.len() {
        Comparison::Equal
    } else if i == a.len() {
        Comparison::Less
    } else {
        Comparison::Greater
    }
}

/// `p` occurs in `v` starting at byte `i`.
pub open spec fn occurs_at(v: Seq<u8>, p: Seq<u8>, i: int) -> bool {
    0 <= i && i + p.len() <= v.len() && v.subrange(i, i + p.len()) == p
}

/// `p` occurs somewhere in `v` (the empty pattern occurs everywhere).
pub open spec fn bytes_contain(v: Seq<u8>, p: Seq<u8>) -> bool {
    exists|i: int| occurs_at(v, p, i)
}

pub open spec fn bytes_start_with(v: Seq<u8>, p: Seq<u8>) -> bool {
    occurs_at(v, p, 0)
}

pub open spec fn bytes_end_with(v: Seq<u8>, p: Seq<u8>) -> bool {
    occurs_at(v, p, v.len() - p.len())
}

fn occurs_at_exec(v: &[u8], p: &[u8], i: usize) -> (r: bool)
    requires
        i + p@.len() <= v@.len(),
    ensures
        r == occurs_at(v@, p@, i as int),
{
    let mut k: usize = 0;
    let n = v.len();
    while k < p.len()
        invariant
            n == v@.len(),
            k <= p@.len(),
            i + p@.len() <= v@.len(),
            forall|j: int| 0 <= j < k ==> v@[i + j] == p@[j],
        decreases p@.len() - k,
    {
        assert(i + k < v@.len());
        if v[i + k] != p[k] {
            assert(v@.subrange(i as int, i + p@.len())[k as int] != p@[k as int]);
            return false;
        }
        k += 1;
    }
    assert(v@.subrange(i as int, i + p@.len()) =~= p@);
    true
}

/// Whether `p` occurs in `v`.
pub fn contains_bytes(v: &[u8], p: &[u8]) -> (r: bool)
    ensures
        r == bytes_contain(v@, p@),
{
    if p.len() > v.len() {
        return false;
    }
    let last = v.len() - p.len();
    let mut i: usize = 0;
    while i <= last
        invariant
            last + p@.len() == v@.len(),
            forall|j: int| 0 <= j < i ==> !occurs_at(v@, p@, j),
        ensures
            forall|j: int| 0 <= j <= last ==> !occurs_at(v@, p@, j),
        decreases last + 1 - i,
    {
        if occurs_at_exec(v, p, i) {
            return true;
        }
        if i == last {
            break;
        }
        i += 1;
    }
    assert forall|j: int| !occurs_at(v@, p@, j) by {
        if 0 <= j && j + p@.len() <= v@.len() {
            assert(j <= last);
        }
    }
    false
}

/// Whether `v` begins with `p`.
pub fn starts_with_bytes(v: &[u8], p: &[u8]) -> (r: bool)
    ensures
        r == bytes_start_with(v@, p@),
{
    if p.len() > v.len() {
        false
    } else {
        occurs_at_exec(v, p, 0)
    }
}

/// Whether `v` ends with `p`.
pub fn ends_with_bytes(v: &[u8], p: &[u8]) -> (r: bool)
    ensures
        r == bytes_end_with(v@, p@),
{
    if p.len() > v.len() {
        false
    } else {
        occurs_at_exec(v, p, v.len() - p.len())
    }
}

/// Whether two byte strings are equal.
pub fn equal_bytes(a: &[u8], b: &[u8]) -> (r: bool)
    ensures
        r == (a@ == b@),
{
    if a.len() != b.len() {
        return false;
    }
    let r = occurs_at_exec(a, b, 0);
    assert(a@.subrange(0, a@.len() as int) =~= a@);
    r
}

/// `f` answers every text, and answers equal texts alike.
pub open spec fn is_number_reader<F: Fn(&str) -> Option<u64>>(f: &F) -> bool {
    &&& forall|s: &str| #[trigger] f.requires((s,))
    &&& forall|s1: &str, s2: &str, r1: Option<u64>, r2: Option<u64>|
        s1@ == s2@ && #[trigger] f.ensures((s1,), r1) && #[trigger] f.ensures((s2,), r2) ==> r1
            == r2
}

/// The reader gave answer `r` for some text equal to `t`.
pub open spec fn answers<F: Fn(&str) -> Option<u64>>(f: &F, t: Seq<char>, r: Option<u64>) -> bool {
    exists|s: &str| s@ == t && #[trigger] f.ensures((s,), r)
}

/// What the reader answers for a text.
pub open spec fn reading<F: Fn(&str) -> Option<u64>>(f: &F, t: Seq<char>) -> Option<u64> {
    choose|r: Option<u64>| #[trigger] answers(f, t, r)
}

/// Asks the reader about a text; the answer is the reading of that text.
pub fn read_with<F: Fn(&str) -> Option<u64>>(f: &F, s: &str) -> (r: Option<u64>)
    requires
        is_number_reader(f),
    ensures
        r == reading(f, s@),
{
    let r = f(s);
    proof {
        assert(answers(f, s@, r));
        let c = reading(f, s@);
        assert(answers(f, s@, c));
        let w = choose|x: &str| x@ == s@ && #[trigger] f.ensures((x,), c);
        assert(f.ensures((w,), c));
    }
    r
}

} // verus!
