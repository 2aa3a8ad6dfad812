use crate::formatting::{decimal, decimal_text};
use crate::rules::{is_finite_bits, number_of};
use crate::text::{is_number_reader, push_str, read_with, trim, trimmed};
use crate::writer::texts;
use vstd::hash_set::StringHashSet;
use vstd::multiset::Multiset;
use vstd::prelude::*;

verus! {

/// The figures the selection summary can show.
#[derive(Debug, Clone, Copy, PartialEq, Eq, Structural, Default)]
pub enum SelectionMetric {
    #[default]
    Values,
    Blanks,
    Distinct,
    Total,
    Minimum,
    Average,
    Median,
    Maximum,
    Summary,
}

impl SelectionMetric {
    /// The name of the figure.
    pub open spec fn label_text(self) -> Seq<char> {
        match self {
            SelectionMetric::Values => "Values"@,
            SelectionMetric::Blanks => "Blanks"@,
            SelectionMetric::Distinct => "Distinct"@,
            SelectionMetric::Total => "Total"@,
            SelectionMetric::Minimum => "Minimum"@,
            SelectionMetric::Average => "Average"@,
            SelectionMetric::Median => "Median"@,
            SelectionMetric::Maximum => "Maximum"@,
            SelectionMetric::Summary => "Summary"@,
        }
    }

    /// The name of the figure.
    pub fn label(self) -> (s: &'static str)
        ensures
            s@ == self.label_text(),
    {
        match self {
            SelectionMetric::Values => "Values",
            SelectionMetric::Blanks => "Blanks",
            SelectionMetric::Distinct => "Distinct",
            SelectionMetric::Total => "Total",
            SelectionMetric::Minimum => "Minimum",
            SelectionMetric::Average => "Average",
            SelectionMetric::Median => "Median",
            SelectionMetric::Maximum => "Maximum",
            SelectionMetric::Summary => "Summary",
        }
    }
}

/// One figure of the selection summary, with its text.
#[derive(Debug, Clone, PartialEq, Eq)]
pub struct SelectionStat {
    pub metric: SelectionMetric,
    pub value: String,
}

impl SelectionStat {
    /// The figure as shown: its name, a colon and its text.
    pub fn display_text(&self) -> (s: String)
        ensures
            s@ == self.metric.label_text() + ": "@ + self.value@,
    {
        let mut s = self.metric.label().to_owned();
        push_str(&mut s, ": ");
        push_str(&mut s, self.value.as_str());
        s
    }
}

/// The position of the figure to show first in the summary menu: the first
/// figure of the preferred kind, or the first figure when there is none.
pub fn preferred_stat_index(stats: &Vec<SelectionStat>, preferred: SelectionMetric) -> (i: usize)
    ensures
        (exists|k: int| 0 <= k < stats@.len() && #[trigger] stats@[k].metric == preferred) ==> (
        i < stats@.len() && stats@[i as int].metric == preferred && forall|k: int|
            0 <= k < i ==> #[trigger] stats@[k].metric != preferred),
        !(exists|k: int| 0 <= k < stats@.len() && #[trigger] stats@[k].metric == preferred) ==> i
            == 0,
{
    let mut i: usize = 0;
    while i < stats.len()
        invariant
            i <= stats@.len(),
            forall|k: int| 0 <= k < i ==> #[trigger] stats@[k].metric != preferred,
        decreases stats@.len() - i,
    {
        if stats[i].metric == preferred {
            return i;
        }
        i += 1;
    }
    0
}

/// A figure as plain values.
pub open spec fn stat_view(s: SelectionStat) -> (SelectionMetric, Seq<char>) {
    (s.metric, s.value@)
}

/// The trimmed values.
pub open spec fn trimmed_all(values: Seq<Seq<char>>) -> Seq<Seq<char>> {
    Seq::new(values.len(), |i: int| trimmed(values[i]))
}

/// The texts that are not empty, in order.
pub open spec fn nonempty_texts(s: Seq<Seq<char>>) -> Seq<Seq<char>>
    decreases s.len(),
{
    if s.len() == 0 {
        Seq::empty()
    } else {
        let p = nonempty_texts(s.drop_last());
        if s.last().len() > 0 {
            p.push(s.last())
        } else {
            p
        }
    }
}

/// The trimmed values that are not empty, in order.
pub open spec fn filled_texts(values: Seq<Seq<char>>) -> Seq<Seq<char>> {
    nonempty_texts(trimmed_all(values))
}

/// The numbers the filled values hold, in order, when every filled value
/// holds one; none otherwise.
pub open spec fn filled_numbers<F: Fn(&str) -> Option<u64>>(f: &F, values: Seq<Seq<char>>) -> Option<
    Seq<u64>,
>
    decreases values.len(),
{
    if values.len() == 0 {
        Some(Seq::empty())
    } else {
        let prev = filled_numbers(f, values.drop_last());
        let t = trimmed(values.last());
        if t.len() == 0 {
            prev
        } else {
            match (prev, number_of(f, values.last())) {
                (Some(p), Some(b)) => Some(p.push(b)),
                _ => None,
            }
        }
    }
}

/// The counting figures of a selection of more than one cell: filled cells,
/// blank cells, distinct filled texts and all cells.
pub open spec fn count_stats(values: Seq<Seq<char>>) -> Seq<(SelectionMetric, Seq<char>)> {
    let filled = filled_texts(values);
    seq![
        (SelectionMetric::Values, decimal(filled.len())),
        (SelectionMetric::Blanks, decimal((values.len() - filled.len()) as nat)),
        (SelectionMetric::Distinct, decimal(filled.to_set().len())),
        (SelectionMetric::Total, decimal(values.len())),
    ]
}

/// The filled text a value contributes: its trimmed text, when not empty.
pub open spec fn filled_of(x: Seq<char>) -> Multiset<Seq<char>> {
    if trimmed(x).len() > 0 {
        Multiset::singleton(trimmed(x))
    } else {
        Multiset::empty()
    }
}

proof fn lemma_filled_push(s: Seq<Seq<char>>, x: Seq<char>)
    ensures
        filled_texts(s.push(x)).to_multiset() == filled_texts(s).to_multiset().add(filled_of(x)),
{
    broadcast use vstd::multiset::group_multiset_axioms, vstd::seq_lib::to_multiset_build;

    assert(trimmed_all(s.push(x)).drop_last() =~= trimmed_all(s));
    assert(trimmed_all(s.push(x)).last() == trimmed(x));
    let f = filled_texts(s);
    if trimmed(x).len() > 0 {
        assert(filled_texts(s.push(x)) == f.push(trimmed(x)));
        assert(f.push(trimmed(x)).to_multiset() =~= f.to_multiset().add(filled_of(x)));
    } else {
        assert(filled_texts(s.push(x)) == f);
        assert(f.to_multiset() =~= f.to_multiset().add(filled_of(x)));
    }
}

proof fn lemma_filled_remove(s: Seq<Seq<char>>, i: int)
    requires
        0 <= i < s.len(),
    ensures
        filled_texts(s).to_multiset() == filled_texts(s.remove(i)).to_multiset().add(filled_of(s[i])),
    decreases s.len(),
{
    broadcast use vstd::multiset::group_multiset_axioms;

    let t = s.drop_last();
    assert(t.push(s.last()) =~= s);
    lemma_filled_push(t, s.last());
    if i == s.len() - 1 {
        assert(s.remove(i) =~= t);
    } else {
        lemma_filled_remove(t, i);
        assert(t.remove(i).push(s.last()) =~= s.remove(i));
        lemma_filled_push(t.remove(i), s.last());
        assert(t[i] == s[i]);
        assert(filled_texts(s).to_multiset() =~= filled_texts(s.remove(i)).to_multiset().add(
            filled_of(s[i]),
        ));
    }
}

proof fn lemma_filled_permutation(p: Seq<Seq<char>>, v: Seq<Seq<char>>)
    requires
        p.to_multiset() == v.to_multiset(),
    ensures
        filled_texts(p).to_multiset() == filled_texts(v).to_multiset(),
    decreases v.len(),
{
    broadcast use vstd::multiset::group_multiset_axioms, vstd::seq_lib::to_multiset_build,
        vstd::seq_lib::to_multiset_remove, vstd::seq_lib::to_multiset_len,
        vstd::seq_lib::to_multiset_contains;

    if v.len() == 0 {
        assert(p.to_multiset().len() == 0);
        assert(p =~= v);
    } else {
        let x = v.last();
        let t = v.drop_last();
        assert(t.push(x) =~= v);
        assert(v.to_multiset().count(x) > 0);
        assert(p.contains(x));
        let i = choose|i: int| 0 <= i < p.len() && p[i] == x;
        assert(p.remove(i).to_multiset() =~= t.to_multiset());
        lemma_filled_permutation(p.remove(i), t);
        lemma_filled_remove(p, i);
        lemma_filled_push(t, x);
    }
}

/// The counting figures do not depend on the order of the values: values in
/// any other order (each as often) give the same figures.
pub proof fn lemma_counts_ignore_order(p: Seq<Seq<char>>, v: Seq<Seq<char>>)
    requires
        p.to_multiset() == v.to_multiset(),
    ensures
        count_stats(p) == count_stats(v),
{
    broadcast use vstd::seq_lib::to_multiset_len, vstd::seq_lib::to_multiset_contains;

    lemma_filled_permutation(p, v);
    let fp = filled_texts(p);
    let fv = filled_texts(v);
    assert(fp.len() == fp.to_multiset().len());
    assert(fv.len() == fv.to_multiset().len());
    assert(p.len() == p.to_multiset().len());
    assert(v.len() == v.to_multiset().len());
    assert(fp.to_set() =~= fv.to_set()) by {
        assert forall|t: Seq<char>| fp.to_set().contains(t) <==> fv.to_set().contains(t) by {
            assert(fp.contains(t) <==> fp.to_multiset().count(t) > 0);
            assert(fv.contains(t) <==> fv.to_multiset().count(t) > 0);
        }
    }
}

fn stat(metric: SelectionMetric, n: usize) -> (s: SelectionStat)
    ensures
        stat_view(s) == (metric, decimal(n as nat)),
{
    SelectionStat { metric, value: decimal_text(n) }
}

/// Summarises the cells of a selection.
///
/// A selection of one cell or none has no summary. Otherwise the counting
/// figures come first (values trimmed, blanks being the empty ones); when at
/// least one value is filled and every filled value reads as a finite
/// number, those numbers are also returned, in order, for the numeric
/// figures (smallest, mean, median, largest, sum).
pub fn compute_stats<F: Fn(&str) -> Option<u64>>(values: &Vec<String>, numbers: &F) -> (r: (
    Vec<SelectionStat>,
    Option<Vec<u64>>,
))
    requires
        is_number_reader(numbers),
    ensures
        values@.len() <= 1 ==> r.0@.len() == 0 && r.1 is None,
        values@.len() > 1 ==> r.0@.map_values(|s: SelectionStat| stat_view(s)) == count_stats(
            texts(values@),
        ),
        values@.len() > 1 ==> match r.1 {
            Some(v) => filled_texts(texts(values@)).len() > 0 && filled_numbers(
                numbers,
                texts(values@),
            ) == Some(v@),
            None => filled_texts(texts(values@)).len() == 0 || filled_numbers(
                numbers,
                texts(values@),
            ) is None,
        },
{
    let total = values.len();
    if total <= 1 {
        return (Vec::new(), None);
    }
    let ghost vs = texts(values@);
    let ghost tv = trimmed_all(vs);
    let mut filled: usize = 0;
    let mut distinct = StringHashSet::new();
    let mut nums: Vec<u64> = Vec::new();
    let mut all_numbers = true;
    let mut i: usize = 0;
    while i < total
        invariant
            total == values@.len(),
            i <= total,
            is_number_reader(numbers),
            vs == texts(values@),
            tv == trimmed_all(vs),
            filled == nonempty_texts(tv.take(i as int)).len(),
            distinct@ == nonempty_texts(tv.take(i as int)).to_set(),
            filled <= i,
            all_numbers ==> filled_numbers(numbers, vs.take(i as int)) == Some(nums@),
            !all_numbers ==> filled_numbers(numbers, vs.take(i as int)) is None,
        decreases total - i,
    {
        let ghost pre = tv.take(i as int);
        proof {
            assert(tv.take(i + 1).drop_last() =~= pre);
            assert(tv.take(i + 1).last() == tv[i as int]);
            assert(vs.take(i + 1).drop_last() =~= vs.take(i as int));
            assert(vs.take(i + 1).last() == values@[i as int]@);
        }
        let t = trim(values[i].as_str());
        if t.unicode_len() > 0 {
            proof {
                let ne = nonempty_texts(pre);
                assert(ne.push(t@) =~= ne + seq![t@]);
                Seq::lemma_to_set_insert_commutes(ne, t@);
            }
            filled += 1;
            distinct.insert(t.to_owned());
            if all_numbers {
                match read_with(numbers, t) {
                    Some(b) => {
                        if is_finite_bits(b) {
                            nums.push(b);
                        } else {
                            all_numbers = false;
                        }
                    },
                    None => {
                        all_numbers = false;
                    },
                }
            }
        }
        i += 1;
    }
    proof {
        assert(tv.take(total as int) =~= tv);
        assert(vs.take(total as int) =~= vs);
    }
    let mut stats: Vec<SelectionStat> = Vec::new();
    stats.push(stat(SelectionMetric::Values, filled));
    stats.push(stat(SelectionMetric::Blanks, total - filled));
    stats.push(stat(SelectionMetric::Distinct, distinct.len()));
    stats.push(stat(SelectionMetric::Total, total));
    proof {
        assert(stats@.map_values(|s: SelectionStat| stat_view(s)) =~= count_stats(vs));
    }
    if filled > 0 && all_numbers {
        (stats, Some(nums))
    } else {
        (stats, None)
    }
}

} // verus!
