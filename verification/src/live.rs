use vstd::prelude::*;

verus! {

/// The entries of `s` that are not dead, in order.
pub open spec fn keep_live(s: Seq<usize>, dead: Set<usize>) -> Seq<usize>
    decreases s.len(),
{
    if s.len() == 0 {
        Seq::empty()
    } else {
        let p = keep_live(s.drop_last(), dead);
        if dead.contains(s.last()) {
            p
        } else {
            p.push(s.last())
        }
    }
}

/// Keeping the live entries of one more element adds it when it is live.
pub proof fn lemma_keep_live_step(s: Seq<usize>, dead: Set<usize>, k: int)
    requires
        0 <= k < s.len(),
    ensures
        keep_live(s.take(k + 1), dead) == if dead.contains(s[k]) {
            keep_live(s.take(k), dead)
        } else {
            keep_live(s.take(k), dead).push(s[k])
        },
{
    assert(s.take(k + 1).drop_last() =~= s.take(k));
}

/// The live entries of a prefix are a prefix of the live entries.
pub proof fn lemma_keep_live_prefix(s: Seq<usize>, dead: Set<usize>, k: int)
    requires
        0 <= k <= s.len(),
    ensures
        keep_live(s.take(k), dead).len() <= keep_live(s, dead).len(),
        keep_live(s.take(k), dead) == keep_live(s, dead).take(keep_live(s.take(k), dead).len() as int),
    decreases s.len(),
{
    if k == s.len() {
        assert(s.take(k) =~= s);
    } else {
        assert(s.drop_last().take(k) =~= s.take(k));
        lemma_keep_live_prefix(s.drop_last(), dead, k);
        let p = keep_live(s.drop_last(), dead);
        let q = keep_live(s.take(k), dead);
        if !dead.contains(s.last()) {
            assert(p.push(s.last()).take(q.len() as int) =~= p.take(q.len() as int));
        }
    }
}

/// Every live entry is an entry, not dead, and every entry that is not dead is live.
pub proof fn lemma_keep_live_members(s: Seq<usize>, dead: Set<usize>)
    ensures
        keep_live(s, dead).len() <= s.len(),
        forall|i: int|
            0 <= i < keep_live(s, dead).len() ==> s.contains(#[trigger] keep_live(s, dead)[i])
                && !dead.contains(keep_live(s, dead)[i]),
        forall|x: usize| s.contains(x) && !dead.contains(x) ==> keep_live(s, dead).contains(x),
    decreases s.len(),
{
    if s.len() > 0 {
        lemma_keep_live_members(s.drop_last(), dead);
        let p = keep_live(s.drop_last(), dead);
        assert forall|i: int|
            0 <= i < keep_live(s, dead).len() implies s.contains(
            #[trigger] keep_live(s, dead)[i],
        ) && !dead.contains(keep_live(s, dead)[i]) by {
            if i < p.len() {
                assert(keep_live(s, dead)[i] == p[i]);
                let j = choose|j: int| 0 <= j < s.drop_last().len() && s.drop_last()[j] == p[i];
                assert(s[j] == p[i]);
            } else {
                assert(s[s.len() - 1] == s.last());
            }
        }
        assert forall|x: usize| s.contains(x) && !dead.contains(x) implies keep_live(
            s,
            dead,
        ).contains(x) by {
            let j = choose|j: int| 0 <= j < s.len() && s[j] == x;
            if j < s.len() - 1 {
                assert(s.drop_last()[j] == x);
                assert(s.drop_last().contains(x));
                let m = choose|m: int| 0 <= m < p.len() && p[m] == x;
                if !dead.contains(s.last()) {
                    assert(keep_live(s, dead)[m] == x);
                }
            } else {
                assert(keep_live(s, dead)[keep_live(s, dead).len() - 1] == x);
            }
        }
    }
}

/// Number of live entries before position `k`.
pub open spec fn live_before(s: Seq<usize>, dead: Set<usize>, k: int) -> int {
    keep_live(s.take(k), dead).len() as int
}

/// Removing a live entry removes it from the live entries.
pub proof fn lemma_keep_live_remove(s: Seq<usize>, dead: Set<usize>, i: int)
    requires
        0 <= i < s.len(),
        !dead.contains(s[i]),
    ensures
        0 <= live_before(s, dead, i) < keep_live(s, dead).len(),
        keep_live(s.remove(i), dead) == keep_live(s, dead).remove(live_before(s, dead, i)),
    decreases s.len(),
{
    lemma_keep_live_step(s, dead, i);
    lemma_keep_live_prefix(s, dead, i + 1);
    if i == s.len() - 1 {
        assert(s.remove(i) =~= s.drop_last());
        assert(s.take(i) =~= s.drop_last());
        assert(keep_live(s, dead).remove(live_before(s, dead, i)) =~= keep_live(s.drop_last(), dead));
    } else {
        let t = s.drop_last();
        assert(s.remove(i).drop_last() =~= t.remove(i));
        assert(s.remove(i).last() == s.last());
        assert(t.take(i) =~= s.take(i));
        lemma_keep_live_remove(t, dead, i);
        let p = live_before(s, dead, i);
        if !dead.contains(s.last()) {
            assert(keep_live(t, dead).remove(p).push(s.last()) =~= keep_live(t, dead).push(
                s.last(),
            ).remove(p));
        }
    }
}

/// Inserting a live entry inserts it among the live entries.
pub proof fn lemma_keep_live_insert(s: Seq<usize>, dead: Set<usize>, j: int, x: usize)
    requires
        0 <= j <= s.len(),
        !dead.contains(x),
    ensures
        0 <= live_before(s, dead, j) <= keep_live(s, dead).len(),
        keep_live(s.insert(j, x), dead) == keep_live(s, dead).insert(live_before(s, dead, j), x),
    decreases s.len(),
{
    lemma_keep_live_prefix(s, dead, j);
    if j == s.len() {
        assert(s.insert(j, x) =~= s.push(x));
        assert(s.take(j) =~= s);
        assert(s.push(x).drop_last() =~= s);
        assert(keep_live(s, dead).insert(live_before(s, dead, j), x) =~= keep_live(s, dead).push(
            x,
        ));
    } else {
        let t = s.drop_last();
        assert(s.insert(j, x).drop_last() =~= t.insert(j, x));
        assert(s.insert(j, x).last() == s.last());
        assert(t.take(j) =~= s.take(j));
        lemma_keep_live_insert(t, dead, j, x);
        let p = live_before(s, dead, j);
        if !dead.contains(s.last()) {
            assert(keep_live(t, dead).insert(p, x).push(s.last()) =~= keep_live(t, dead).push(
                s.last(),
            ).insert(p, x));
        }
    }
}

/// The live entries of a list without duplicates hold no duplicates.
pub proof fn lemma_keep_live_unique(s: Seq<usize>, dead: Set<usize>)
    requires
        s.no_duplicates(),
    ensures
        keep_live(s, dead).no_duplicates(),
    decreases s.len(),
{
    if s.len() > 0 {
        let t = s.drop_last();
        assert(t.no_duplicates());
        lemma_keep_live_unique(t, dead);
        lemma_keep_live_members(t, dead);
        if !dead.contains(s.last()) {
            assert forall|a: int| 0 <= a < keep_live(t, dead).len() implies keep_live(t, dead)[a]
                != s.last() by {
                assert(t.contains(keep_live(t, dead)[a]));
                let k = choose|k: int| 0 <= k < t.len() && t[k] == keep_live(t, dead)[a];
                assert(s[k] != s[s.len() - 1]);
            }
        }
    }
}

/// In a list without duplicates, the live position of an entry is the number of
/// live entries before it.
pub proof fn lemma_live_position(s: Seq<usize>, dead: Set<usize>, i: int, f: int)
    requires
        s.no_duplicates(),
        0 <= i < s.len(),
        0 <= f < keep_live(s, dead).len(),
        keep_live(s, dead)[f] == s[i],
    ensures
        live_before(s, dead, i) == f,
{
    lemma_keep_live_members(s, dead);
    lemma_keep_live_step(s, dead, i);
    lemma_keep_live_prefix(s, dead, i + 1);
    lemma_keep_live_unique(s, dead);
    let lc = live_before(s, dead, i);
    let l = keep_live(s, dead);
    assert(keep_live(s.take(i + 1), dead)[lc] == s[i]);
    assert(l.take(keep_live(s.take(i + 1), dead).len() as int)[lc] == l[lc]);
}

/// Appending an entry adds it to the set of entries.
pub proof fn lemma_push_to_set(s: Seq<usize>, x: usize)
    ensures
        s.push(x).to_set() == s.to_set().insert(x),
{
    assert(s.push(x) =~= s + seq![x]);
    Seq::lemma_to_set_insert_commutes(s, x);
}

/// A list without duplicates of numbers below `n` has at most `n` entries.
pub proof fn lemma_unique_below_len(s: Seq<usize>, n: int)
    requires
        0 <= n,
        s.no_duplicates(),
        forall|k: int| 0 <= k < s.len() ==> #[trigger] s[k] < n,
    ensures
        s.len() <= n,
    decreases s.len(),
{
    if s.len() > 0 {
        let x = s.last();
        let t = s.drop_last();
        let u = Seq::new(t.len(), |k: int| if t[k] > x { (t[k] - 1) as usize } else { t[k] });
        assert(x < n);
        assert forall|a: int, b: int| 0 <= a < b < u.len() implies u[a] != u[b] by {
            assert(t[a] == s[a] && t[b] == s[b]);
            assert(s[a] != s[b]);
            assert(s[a] != s[s.len() - 1]);
            assert(s[b] != s[s.len() - 1]);
        }
        assert forall|k: int| 0 <= k < u.len() implies #[trigger] u[k] < n - 1 by {
            assert(t[k] == s[k]);
            assert(s[k] != s[s.len() - 1]);
            assert(s[k] < n);
        }
        lemma_unique_below_len(u, n - 1);
        assert(u.len() + 1 == s.len());
    }
}

/// Finds the entry at position `n` among the live entries.
pub fn nth_live(s: &Vec<usize>, dead: &Vec<usize>, n: usize) -> (r: Option<usize>)
    ensures
        n < keep_live(s@, dead@.to_set()).len() ==> r == Some(keep_live(s@, dead@.to_set())[n as int]),
        n >= keep_live(s@, dead@.to_set()).len() ==> r is None,
{
    let ghost d = dead@.to_set();
    let mut count: usize = 0;
    let mut k: usize = 0;
    while k < s.len()
        invariant
            k <= s@.len(),
            d == dead@.to_set(),
            count == keep_live(s@.take(k as int), d).len(),
            count <= n,
        decreases s@.len() - k,
    {
        proof {
            lemma_keep_live_step(s@, d, k as int);
        }
        let x = s[k];
        if !contains_usize(dead, x) {
            if count == n {
                proof {
                    lemma_keep_live_prefix(s@, d, k + 1);
                    let q = keep_live(s@.take(k + 1), d);
                    assert(q[count as int] == x);
                    assert(keep_live(s@, d).take(q.len() as int)[count as int] == keep_live(
                        s@,
                        d,
                    )[count as int]);
                }
                return Some(x);
            }
            count += 1;
        }
        k += 1;
    }
    assert(s@.take(k as int) =~= s@);
    None
}

/// Counts the live entries.
pub fn count_live(s: &Vec<usize>, dead: &Vec<usize>) -> (r: usize)
    ensures
        r == keep_live(s@, dead@.to_set()).len(),
{
    let ghost d = dead@.to_set();
    let mut count: usize = 0;
    let mut k: usize = 0;
    while k < s.len()
        invariant
            k <= s@.len(),
            d == dead@.to_set(),
            count == keep_live(s@.take(k as int), d).len(),
            count <= k,
        decreases s@.len() - k,
    {
        proof {
            lemma_keep_live_step(s@, d, k as int);
        }
        if !contains_usize(dead, s[k]) {
            count += 1;
        }
        k += 1;
    }
    assert(s@.take(k as int) =~= s@);
    count
}

/// Position of `x` among the live entries, when it is one of them.
pub fn position_live(s: &Vec<usize>, dead: &Vec<usize>, x: usize) -> (r: Option<usize>)
    ensures
        match r {
            Some(p) => p < keep_live(s@, dead@.to_set()).len() && keep_live(s@, dead@.to_set())[p as int] == x
                && forall|j: int| 0 <= j < p ==> keep_live(s@, dead@.to_set())[j] != x,
            None => !keep_live(s@, dead@.to_set()).contains(x),
        },
{
    let ghost d = dead@.to_set();
    let mut count: usize = 0;
    let mut k: usize = 0;
    while k < s.len()
        invariant
            k <= s@.len(),
            d == dead@.to_set(),
            count == keep_live(s@.take(k as int), d).len(),
            count <= k,
            !keep_live(s@.take(k as int), d).contains(x),
        decreases s@.len() - k,
    {
        proof {
            lemma_keep_live_step(s@, d, k as int);
        }
        let y = s[k];
        if !contains_usize(dead, y) {
            if y == x {
                proof {
                    lemma_keep_live_prefix(s@, d, k + 1);
                    let l = keep_live(s@, d);
                    let pre = keep_live(s@.take(k as int), d);
                    let q = keep_live(s@.take(k + 1), d);
                    assert(q == pre.push(x));
                    assert(q[count as int] == x);
                    assert(l.take(q.len() as int)[count as int] == l[count as int]);
                    assert forall|j: int| 0 <= j < count implies l[j] != x by {
                        assert(l.take(q.len() as int)[j] == l[j]);
                        assert(q[j] == pre[j]);
                        assert(pre.contains(pre[j]));
                    }
                }
                return Some(count);
            }
            count += 1;
        }
        k += 1;
    }
    assert(s@.take(k as int) =~= s@);
    None
}

/// Whether `x` occurs in `v`.
pub fn contains_usize(v: &Vec<usize>, x: usize) -> (r: bool)
    ensures
        r == v@.contains(x),
        r == v@.to_set().contains(x),
{
    let mut i: usize = 0;
    while i < v.len()
        invariant
            i <= v@.len(),
            forall|j: int| 0 <= j < i ==> v@[j] != x,
        decreases v@.len() - i,
    {
        if v[i] == x {
            assert(v@[i as int] == x);
            return true;
        }
        i += 1;
    }
    false
}

/// Position of `x` in `v`, if any (the first one).
pub fn position_usize(v: &Vec<usize>, x: usize) -> (r: Option<usize>)
    ensures
        match r {
            Some(p) => p < v@.len() && v@[p as int] == x && forall|j: int| 0 <= j < p ==> v@[j] != x,
            None => !v@.contains(x),
        },
{
    let mut i: usize = 0;
    while i < v.len()
        invariant
            i <= v@.len(),
            forall|j: int| 0 <= j < i ==> v@[j] != x,
        decreases v@.len() - i,
    {
        if v[i] == x {
            return Some(i);
        }
        i += 1;
    }
    None
}

} // verus!
