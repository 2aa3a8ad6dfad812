use crate::document::{key_order, matching_rows, refreshed, row_order, sorted_rows, total_on, CsvDocument};
use crate::rules::{
    float_order, lowercase_order, natural_order, number_of, rule_holds, FilterOperator,
    SortDirection, SortKey,
};
use crate::text::{int_order, lex_order, Comparison};
use vstd::prelude::*;

verus! {

/// A comparison of rows behaves as a total preorder on the rows of `s`:
/// swapping the rows swaps the outcome, and each outcome chains.
pub open spec fn preorder_on(c: spec_fn(usize, usize) -> Comparison, s: Seq<usize>) -> bool {
    &&& forall|a: usize, b: usize|
        s.contains(a) && s.contains(b) ==> (#[trigger] c(a, b) == Comparison::Less <==> c(b, a)
            == Comparison::Greater)
    &&& forall|a: usize, b: usize|
        s.contains(a) && s.contains(b) ==> (#[trigger] c(a, b) == Comparison::Equal <==> c(b, a)
            == Comparison::Equal)
    &&& forall|a: usize, b: usize, x: usize|
        s.contains(a) && s.contains(b) && s.contains(x) && #[trigger] c(a, b) == Comparison::Less
            && #[trigger] c(b, x) == Comparison::Less ==> c(a, x) == Comparison::Less
    &&& forall|a: usize, b: usize, x: usize|
        s.contains(a) && s.contains(b) && s.contains(x) && #[trigger] c(a, b) == Comparison::Equal
            && #[trigger] c(b, x) == Comparison::Equal ==> c(a, x) == Comparison::Equal
    &&& forall|a: usize, b: usize, x: usize|
        s.contains(a) && s.contains(b) && s.contains(x) && #[trigger] c(a, b)
            == Comparison::Greater && #[trigger] c(b, x) == Comparison::Greater ==> c(a, x)
            == Comparison::Greater
}

/// Compare by `c`, and by `d` where `c` finds the rows equal.
pub open spec fn then_by(
    c: spec_fn(usize, usize) -> Comparison,
    d: spec_fn(usize, usize) -> Comparison,
) -> spec_fn(usize, usize) -> Comparison {
    |a: usize, b: usize|
        if c(a, b) != Comparison::Equal {
            c(a, b)
        } else {
            d(a, b)
        }
}

/// In a total preorder, an outcome chained with equality keeps the outcome.
proof fn lemma_chain_with_equal(c: spec_fn(usize, usize) -> Comparison, s: Seq<usize>, a: usize, b: usize, x: usize)
    requires
        preorder_on(c, s),
        s.contains(a),
        s.contains(b),
        s.contains(x),
    ensures
        c(a, b) != Comparison::Equal && c(b, x) == Comparison::Equal ==> c(a, x) == c(a, b),
        c(a, b) == Comparison::Equal && c(b, x) != Comparison::Equal ==> c(a, x) == c(b, x),
{
    if c(a, b) != Comparison::Equal && c(b, x) == Comparison::Equal {
        assert(c(x, b) == Comparison::Equal);
        if c(a, x) == Comparison::Equal {
            assert(c(a, b) == Comparison::Equal);
        } else if c(a, x) != c(a, b) {
            if c(a, b) == Comparison::Less {
                assert(c(x, a) == Comparison::Less);
                assert(c(x, b) == Comparison::Less);
            } else {
                assert(c(x, a) == Comparison::Greater);
                assert(c(x, b) == Comparison::Greater);
            }
        }
    }
    if c(a, b) == Comparison::Equal && c(b, x) != Comparison::Equal {
        assert(c(b, a) == Comparison::Equal);
        if c(a, x) == Comparison::Equal {
            assert(c(b, x) == Comparison::Equal);
        } else if c(a, x) != c(b, x) {
            if c(b, x) == Comparison::Less {
                assert(c(x, a) == Comparison::Less);
                assert(c(b, a) == Comparison::Less);
            } else {
                assert(c(x, a) == Comparison::Greater);
                assert(c(b, a) == Comparison::Greater);
            }
        }
    }
}

/// Comparing by one total preorder and then by another is a total preorder.
proof fn lemma_then_by(
    c: spec_fn(usize, usize) -> Comparison,
    d: spec_fn(usize, usize) -> Comparison,
    s: Seq<usize>,
)
    requires
        preorder_on(c, s),
        preorder_on(d, s),
    ensures
        preorder_on(then_by(c, d), s),
{
    let e = then_by(c, d);
    assert forall|a: usize, b: usize, x: usize|
        s.contains(a) && s.contains(b) && s.contains(x) && #[trigger] e(a, b) == Comparison::Less
            && #[trigger] e(b, x) == Comparison::Less implies e(a, x) == Comparison::Less by {
        lemma_chain_with_equal(c, s, a, b, x);
    }
    assert forall|a: usize, b: usize, x: usize|
        s.contains(a) && s.contains(b) && s.contains(x) && #[trigger] e(a, b) == Comparison::Greater
            && #[trigger] e(b, x) == Comparison::Greater implies e(a, x) == Comparison::Greater by {
        lemma_chain_with_equal(c, s, a, b, x);
    }
    assert forall|a: usize, b: usize, x: usize|
        s.contains(a) && s.contains(b) && s.contains(x) && #[trigger] e(a, b) == Comparison::Equal
            && #[trigger] e(b, x) == Comparison::Equal implies e(a, x) == Comparison::Equal by {
        lemma_chain_with_equal(c, s, a, b, x);
    }
}

/// Integers compare as a total order.
pub proof fn lemma_int_order_total(s: Seq<usize>)
    ensures
        preorder_on(|a: usize, b: usize| int_order(a as int, b as int), s),
{
}

/// Swapping two byte strings swaps how they compare, and they compare equal
/// only when they are the same.
proof fn lemma_lex_swap(a: Seq<u8>, b: Seq<u8>)
    ensures
        lex_order(a, b) == lex_order(b, a).spec_reverse(),
        lex_order(a, b) == Comparison::Equal <==> a == b,
    decreases a.len(),
{
    if a.len() > 0 && b.len() > 0 && a[0] == b[0] {
        lemma_lex_swap(a.skip(1), b.skip(1));
        if a.skip(1) == b.skip(1) {
            assert forall|i: int| 0 <= i < a.len() implies a[i] == b[i] by {
                if i > 0 {
                    assert(a[i] == a.skip(1)[i - 1]);
                    assert(b[i] == b.skip(1)[i - 1]);
                }
            }
            assert(a =~= b);
        } else {
            assert(a != b);
        }
    } else if a.len() == 0 && b.len() == 0 {
        assert(a =~= b);
    }
}

/// Byte strings that come one before the next come in that order.
proof fn lemma_lex_less_trans(a: Seq<u8>, b: Seq<u8>, c: Seq<u8>)
    requires
        lex_order(a, b) == Comparison::Less,
        lex_order(b, c) == Comparison::Less,
    ensures
        lex_order(a, c) == Comparison::Less,
    decreases a.len(),
{
    if a.len() > 0 && b.len() > 0 && c.len() > 0 && a[0] == b[0] && b[0] == c[0] {
        lemma_lex_less_trans(a.skip(1), b.skip(1), c.skip(1));
    }
}

/// Byte strings compare as a total order.
proof fn lemma_lex_order(a: Seq<u8>, b: Seq<u8>, c: Seq<u8>)
    ensures
        lex_order(a, b) == lex_order(b, a).spec_reverse(),
        lex_order(a, b) == Comparison::Less && lex_order(b, c) == Comparison::Less ==> lex_order(a, c)
            == Comparison::Less,
        lex_order(a, b) == Comparison::Equal && lex_order(b, c) == Comparison::Equal ==> lex_order(a, c)
            == Comparison::Equal,
        lex_order(a, b) == Comparison::Greater && lex_order(b, c) == Comparison::Greater ==> lex_order(
            a,
            c,
        ) == Comparison::Greater,
{
    lemma_lex_swap(a, b);
    lemma_lex_swap(b, c);
    lemma_lex_swap(a, c);
    lemma_lex_swap(c, b);
    lemma_lex_swap(b, a);
    if lex_order(a, b) == Comparison::Less && lex_order(b, c) == Comparison::Less {
        lemma_lex_less_trans(a, b, c);
    }
    if lex_order(a, b) == Comparison::Greater && lex_order(b, c) == Comparison::Greater {
        lemma_lex_less_trans(c, b, a);
        lemma_lex_swap(c, a);
    }
}

/// Finite doubles, by their bits, compare as a total preorder.
proof fn lemma_float_order(a: u64, b: u64, c: u64)
    ensures
        float_order(a, b) == float_order(b, a).spec_reverse(),
        float_order(a, b) == Comparison::Less && float_order(b, c) == Comparison::Less ==> float_order(
            a,
            c,
        ) == Comparison::Less,
        float_order(a, b) == Comparison::Equal && float_order(b, c) == Comparison::Equal ==> float_order(
            a,
            c,
        ) == Comparison::Equal,
        float_order(a, b) == Comparison::Greater && float_order(b, c) == Comparison::Greater
            ==> float_order(a, c) == Comparison::Greater,
{
}

/// The values are all numbers, or none is.
pub open spec fn same_kind<F: Fn(&str) -> Option<u64>>(f: &F, u: Seq<char>, v: Seq<char>, w: Seq<char>) -> bool {
    ||| (number_of(f, u) is Some && number_of(f, v) is Some && number_of(f, w) is Some)
    ||| (number_of(f, u) is None && number_of(f, v) is None && number_of(f, w) is None)
}

/// Cell texts compare as a total preorder when they are all numbers or all
/// texts; swapping two of them always swaps the outcome.
proof fn lemma_natural_order<F: Fn(&str) -> Option<u64>>(f: &F, u: Seq<char>, v: Seq<char>, w: Seq<char>)
    ensures
        natural_order(f, u, v) == natural_order(f, v, u).spec_reverse(),
        same_kind(f, u, v, w) ==> {
            &&& natural_order(f, u, v) == Comparison::Less && natural_order(f, v, w) == Comparison::Less
                ==> natural_order(f, u, w) == Comparison::Less
            &&& natural_order(f, u, v) == Comparison::Equal && natural_order(f, v, w)
                == Comparison::Equal ==> natural_order(f, u, w) == Comparison::Equal
            &&& natural_order(f, u, v) == Comparison::Greater && natural_order(f, v, w)
                == Comparison::Greater ==> natural_order(f, u, w) == Comparison::Greater
        },
{
    match (number_of(f, u), number_of(f, v), number_of(f, w)) {
        (Some(a), Some(b), Some(c)) => {
            lemma_float_order(a, b, c);
        },
        _ => {},
    }
    match (number_of(f, u), number_of(f, v)) {
        (Some(a), Some(b)) => {
            lemma_float_order(a, b, a);
        },
        _ => {},
    }
    let (x, y, z) = (
        vstd::utf8::encode_utf8(crate::text::lowercase(u)),
        vstd::utf8::encode_utf8(crate::text::lowercase(v)),
        vstd::utf8::encode_utf8(crate::text::lowercase(w)),
    );
    lemma_lex_order(x, y, z);
}

/// How two cell texts compare under a sort key's direction: empty cells
/// after all others in either direction, the others in natural order
/// (reversed when descending).
pub open spec fn value_order<F: Fn(&str) -> Option<u64>>(
    f: &F,
    direction: SortDirection,
    l: Seq<char>,
    r: Seq<char>,
) -> Comparison {
    if l.len() == 0 && r.len() > 0 {
        Comparison::Greater
    } else if l.len() > 0 && r.len() == 0 {
        Comparison::Less
    } else if l.len() == 0 && r.len() == 0 {
        Comparison::Equal
    } else {
        match direction {
            SortDirection::Ascending => natural_order(f, l, r),
            SortDirection::Descending => natural_order(f, l, r).spec_reverse(),
        }
    }
}

/// The comparison of rows by one sort key.
pub open spec fn key_comparison<F: Fn(&str) -> Option<u64>>(
    doc: CsvDocument,
    f: &F,
    key: SortKey,
) -> spec_fn(usize, usize) -> Comparison {
    |a: usize, b: usize|
        value_order(
            f,
            key.direction,
            doc.source_value(a as int, key.column as int),
            doc.source_value(b as int, key.column as int),
        )
}

/// The comparison of rows by the sort keys from the `k`-th on.
pub open spec fn keys_comparison<F: Fn(&str) -> Option<u64>>(
    doc: CsvDocument,
    f: &F,
    keys: Seq<SortKey>,
    k: int,
) -> spec_fn(usize, usize) -> Comparison {
    |a: usize, b: usize| key_order(doc, f, keys, k, a, b)
}

/// On the rows of `s`, the non-empty cells of the column are all numbers, or
/// none is.
pub open spec fn uniform_column<F: Fn(&str) -> Option<u64>>(
    doc: CsvDocument,
    f: &F,
    column: usize,
    s: Seq<usize>,
) -> bool {
    ||| forall|a: usize|
        s.contains(a) && #[trigger] doc.source_value(a as int, column as int).len() > 0 ==> number_of(
            f,
            doc.source_value(a as int, column as int),
        ) is Some
    ||| forall|a: usize|
        s.contains(a) && #[trigger] doc.source_value(a as int, column as int).len() > 0 ==> number_of(
            f,
            doc.source_value(a as int, column as int),
        ) is None
}

/// One sort key compares the rows of `s` as a total preorder when its column
/// holds only numbers or only texts there.
proof fn lemma_key_comparison<F: Fn(&str) -> Option<u64>>(
    doc: CsvDocument,
    f: &F,
    key: SortKey,
    s: Seq<usize>,
)
    requires
        uniform_column(doc, f, key.column, s),
    ensures
        preorder_on(key_comparison(doc, f, key), s),
{
    let c = key_comparison(doc, f, key);
    assert forall|a: usize, b: usize, x: usize|
        s.contains(a) && s.contains(b) && s.contains(x) implies {
        &&& (c(a, b) == Comparison::Less <==> c(b, a) == Comparison::Greater)
        &&& (c(a, b) == Comparison::Equal <==> c(b, a) == Comparison::Equal)
        &&& (c(a, b) == Comparison::Less && c(b, x) == Comparison::Less ==> c(a, x) == Comparison::Less)
        &&& (c(a, b) == Comparison::Equal && c(b, x) == Comparison::Equal ==> c(a, x)
            == Comparison::Equal)
        &&& (c(a, b) == Comparison::Greater && c(b, x) == Comparison::Greater ==> c(a, x)
            == Comparison::Greater)
    } by {
        let u = doc.source_value(a as int, key.column as int);
        let v = doc.source_value(b as int, key.column as int);
        let w = doc.source_value(x as int, key.column as int);
        lemma_natural_order(f, u, v, w);
        lemma_natural_order(f, v, w, u);
        lemma_natural_order(f, u, w, v);
        if u.len() > 0 && v.len() > 0 && w.len() > 0 {
            assert(same_kind(f, u, v, w));
        }
    }
}

/// The comparison by the keys from the `k`-th on is the `k`-th key's, then
/// the rest's.
proof fn lemma_keys_step<F: Fn(&str) -> Option<u64>>(
    doc: CsvDocument,
    f: &F,
    keys: Seq<SortKey>,
    k: int,
)
    requires
        0 <= k < keys.len(),
    ensures
        keys_comparison(doc, f, keys, k) == then_by(
            key_comparison(doc, f, keys[k]),
            keys_comparison(doc, f, keys, k + 1),
        ),
{
    assert(keys_comparison(doc, f, keys, k) =~= then_by(
        key_comparison(doc, f, keys[k]),
        keys_comparison(doc, f, keys, k + 1),
    ));
}

/// The sort keys from the `k`-th on compare the rows of `s` as a total order
/// (rows that no key tells apart come in data order).
proof fn lemma_keys_comparison<F: Fn(&str) -> Option<u64>>(
    doc: CsvDocument,
    f: &F,
    keys: Seq<SortKey>,
    k: int,
    s: Seq<usize>,
)
    requires
        0 <= k <= keys.len(),
        forall|i: int| k <= i < keys.len() ==> uniform_column(doc, f, (#[trigger] keys[i]).column, s),
    ensures
        preorder_on(keys_comparison(doc, f, keys, k), s),
    decreases keys.len() - k,
{
    if k == keys.len() {
        lemma_int_order_total(s);
        assert(keys_comparison(doc, f, keys, k) =~= (|a: usize, b: usize| int_order(a as int, b as int)));
    } else {
        lemma_keys_comparison(doc, f, keys, k + 1, s);
        lemma_key_comparison(doc, f, keys[k], s);
        lemma_then_by(key_comparison(doc, f, keys[k]), keys_comparison(doc, f, keys, k + 1), s);
        lemma_keys_step(doc, f, keys, k);
    }
}

/// Sorting compares the rows totally when every sort key's column holds, on
/// those rows, only numbers or only texts (empty cells aside): the sort then
/// puts them in one definite order, by the keys and then by data order.
pub proof fn lemma_uniform_columns_sort_totally<F: Fn(&str) -> Option<u64>>(
    doc: CsvDocument,
    f: &F,
    keys: Seq<SortKey>,
    s: Seq<usize>,
)
    requires
        forall|i: int| 0 <= i < keys.len() ==> uniform_column(doc, f, (#[trigger] keys[i]).column, s),
    ensures
        total_on(doc, f, keys, s),
{
    lemma_keys_comparison(doc, f, keys, 0, s);
    let c = keys_comparison(doc, f, keys, 0);
    assert forall|a: usize, b: usize| #[trigger] row_order(doc, f, keys, a, b) == c(a, b) by {}
    reveal(total_on);
}

/// A view shows its rows in sort order when every sort key's column holds,
/// among the rows that pass the filters, only numbers or only texts (empty
/// cells aside).
pub proof fn lemma_view_in_key_order<F: Fn(&str) -> Option<u64>>(doc: CsvDocument, f: &F)
    requires
        refreshed(doc, f),
        forall|i: int|
            0 <= i < doc.sort_key_list().len() ==> uniform_column(
                doc,
                f,
                (#[trigger] doc.sort_key_list()[i]).column,
                matching_rows(doc, f, doc.data_record().len() as int),
            ),
    ensures
        sorted_rows(doc, f, doc.sort_key_list(), doc.visible_rows()),
{
    lemma_uniform_columns_sort_totally(
        doc,
        f,
        doc.sort_key_list(),
        matching_rows(doc, f, doc.data_record().len() as int),
    );
}

/// The ordering filter rules fit together: a value passes "at least" exactly
/// when it can be compared with the pattern (both numbers, or neither) and
/// does not pass "less than", and "at most" exactly when it can be compared
/// and does not pass "greater than". So a value equal to the pattern passes
/// both, and every value passes both against itself.
pub proof fn lemma_ordering_rules<F: Fn(&str) -> Option<u64>>(f: &F, pattern: Seq<char>, value: Seq<char>)
    ensures
        rule_holds(f, FilterOperator::GreaterThanOrEqual, pattern, value) <==> ((number_of(f, value)
            is Some == number_of(f, pattern) is Some) && !rule_holds(
            f,
            FilterOperator::LessThan,
            pattern,
            value,
        )),
        rule_holds(f, FilterOperator::LessThanOrEqual, pattern, value) <==> ((number_of(f, value)
            is Some == number_of(f, pattern) is Some) && !rule_holds(
            f,
            FilterOperator::GreaterThan,
            pattern,
            value,
        )),
        rule_holds(f, FilterOperator::GreaterThanOrEqual, value, value),
        rule_holds(f, FilterOperator::LessThanOrEqual, value, value),
{
    let x = vstd::utf8::encode_utf8(crate::text::lowercase(value));
    lemma_lex_swap(x, x);
    match number_of(f, value) {
        Some(a) => {
            lemma_float_order(a, a, a);
        },
        None => {},
    }
}

} // verus!
