use vstd::prelude::*;
use crate::decomposition::count_set;

verus! {

/// `lc` records, for each prefix length `t`, where the last segment of the
/// best segmentation of the first `t` values starts; a valid record points
/// strictly backwards, and the empty prefix has no change point.
pub open spec fn valid_last_change(lc: Seq<usize>) -> bool {
    &&& lc.len() > 0 ==> lc[0] == 0
    &&& forall|t: int| 1 <= t < lc.len() ==> #[trigger] lc[t] < t
}

/// The segments recovered by walking the record back from `tau`: the chain
/// `(lc[t], t)` followed while the start is positive, earliest segment first.
pub open spec fn backtrack(lc: Seq<usize>, tau: usize) -> Seq<(usize, usize)>
    decreases tau,
{
    if tau < lc.len() && 0 < lc[tau as int] && lc[tau as int] < tau {
        backtrack(lc, lc[tau as int]).push((lc[tau as int], tau))
    } else {
        Seq::empty()
    }
}

/// The segments read back from a valid record tile the end of the series:
/// every change point lies strictly inside `(0, tau)`, each segment ends
/// where the next begins, the last one ends at `tau`, and so the change
/// points come out strictly increasing.
pub proof fn lemma_backtrack_segments(lc: Seq<usize>, tau: usize)
    requires
        valid_last_change(lc),
        tau < lc.len(),
    ensures
        forall|k: int|
            0 <= k < backtrack(lc, tau).len() ==> 0 < (#[trigger] backtrack(lc, tau)[k]).0
                < backtrack(lc, tau)[k].1 <= tau,
        forall|k: int|
            0 <= k < backtrack(lc, tau).len() - 1 ==> (#[trigger] backtrack(lc, tau)[k]).1
                == backtrack(lc, tau)[k + 1].0,
        backtrack(lc, tau).len() > 0 ==> backtrack(lc, tau).last().1 == tau,
        forall|j: int, k: int|
            0 <= j < k < backtrack(lc, tau).len() ==> (#[trigger] backtrack(lc, tau)[j]).0
                < (#[trigger] backtrack(lc, tau)[k]).0,
        forall|k: int|
            0 <= k < backtrack(lc, tau).len() ==> lc[(#[trigger] backtrack(lc, tau)[k]).1 as int]
                == backtrack(lc, tau)[k].0,
        backtrack(lc, tau).len() > 0 <==> lc[tau as int] > 0,
        backtrack(lc, tau).len() > 0 ==> lc[backtrack(lc, tau)[0].0 as int] == 0,
    decreases tau,
{
    let s = backtrack(lc, tau);
    if tau < lc.len() && 0 < lc[tau as int] && lc[tau as int] < tau {
        let t = lc[tau as int];
        lemma_backtrack_segments(lc, t);
        let r = backtrack(lc, t);
        assert(s == r.push((t, tau)));
        assert forall|k: int| 0 <= k < s.len() implies lc[(#[trigger] s[k]).1 as int] == s[k].0 by {
            if k < r.len() {
                assert(s[k] == r[k]);
            }
        }
        if r.len() > 0 {
            assert(s[0] == r[0]);
        } else {
            assert(lc[t as int] == 0 || t == 0);
        }
        assert forall|j: int, k: int| 0 <= j < k < s.len() implies (#[trigger] s[j]).0
            < (#[trigger] s[k]).0 by {
            if k < s.len() - 1 {
                assert(s[j] == r[j]);
                assert(s[k] == r[k]);
            } else {
                assert(s[j] == r[j]);
            }
        }
    }
}

/// The change points of a PELT segmentation, read back from the record of
/// last change points: each entry is `(start, end)` of a segment whose start
/// is a detected change point, in increasing order.
pub fn pelt_segments(last_cp: &Vec<usize>, n: usize) -> (res: Vec<(usize, usize)>)
    requires
        last_cp.len() == n + 1,
        valid_last_change(last_cp@),
    ensures
        res@ == backtrack(last_cp@, n),
        forall|k: int| 0 <= k < res.len() ==> 0 < (#[trigger] res[k]).0 < res[k].1 <= n,
        forall|j: int, k: int| 0 <= j < k < res.len() ==> (#[trigger] res[j]).0 < (#[trigger] res[k]).0,
        forall|k: int| 0 <= k < res.len() ==> last_cp[(#[trigger] res[k]).1 as int] == res[k].0,
        forall|k: int| 0 <= k < res.len() - 1 ==> (#[trigger] res[k]).1 == res[k + 1].0,
        res.len() > 0 <==> last_cp[n as int] > 0,
        res.len() > 0 ==> res[res.len() - 1].1 == n && last_cp[res[0].0 as int] == 0,
{
    proof {
        lemma_backtrack_segments(last_cp@, n);
    }
    let mut rev: Vec<(usize, usize)> = Vec::new();
    let mut tau: usize = n;
    while last_cp[tau] > 0
        invariant
            last_cp.len() == n + 1,
            valid_last_change(last_cp@),
            tau <= n,
            backtrack(last_cp@, n) =~= backtrack(last_cp@, tau) + rev@.reverse(),
        decreases tau,
    {
        let t = last_cp[tau];
        assert(tau >= 1);
        assert(last_cp@[tau as int] < tau);
        let ghost before = rev@;
        rev.push((t, tau));
        assert(rev@.reverse() =~= seq![(t, tau)] + before.reverse());
        tau = t;
    }
    let mut res: Vec<(usize, usize)> = Vec::new();
    let m = rev.len();
    let mut k: usize = 0;
    while k < m
        invariant
            m == rev.len(),
            k <= m,
            res@ =~= rev@.reverse().take(k as int),
        decreases m - k,
    {
        res.push(rev[m - 1 - k]);
        k = k + 1;
    }
    assert(rev@.reverse().take(m as int) =~= rev@.reverse());
    res
}

/// The candidate set after one PELT step: the candidates whose `keep` flag is
/// set, in their order, followed by the new candidate `tau`.
pub open spec fn spec_prune(cands: Seq<usize>, keep: Seq<bool>) -> Seq<usize>
    decreases cands.len(),
{
    if cands.len() == 0 {
        Seq::empty()
    } else {
        let rest = spec_prune(cands.drop_last(), keep);
        if keep[cands.len() - 1] {
            rest.push(cands.last())
        } else {
            rest
        }
    }
}

/// Strictly increasing.
pub open spec fn strictly_increasing(s: Seq<usize>) -> bool {
    forall|i: int, j: int| 0 <= i < j < s.len() ==> #[trigger] s[i] < #[trigger] s[j]
}

proof fn lemma_prune_below(c: Seq<usize>, k: Seq<bool>, bound: usize)
    requires
        strictly_increasing(c),
        forall|i: int| 0 <= i < c.len() ==> #[trigger] c[i] < bound,
    ensures
        strictly_increasing(spec_prune(c, k)),
        forall|m: int| 0 <= m < spec_prune(c, k).len() ==> #[trigger] spec_prune(c, k)[m] < bound,
    decreases c.len(),
{
    if c.len() > 0 {
        let d = c.drop_last();
        lemma_prune_below(d, k, c.last());
    }
}

/// A pruning step keeps the candidate set strictly increasing: from
/// increasing candidates below `tau`, the kept ones followed by `tau` are
/// again strictly increasing, and `tau` is the largest.
pub proof fn lemma_prune_keeps_order(cands: Seq<usize>, keep: Seq<bool>, tau: usize)
    requires
        strictly_increasing(cands),
        forall|i: int| 0 <= i < cands.len() ==> #[trigger] cands[i] < tau,
    ensures
        strictly_increasing(spec_prune(cands, keep).push(tau)),
        spec_prune(cands, keep).push(tau).last() == tau,
{
    lemma_prune_below(cands, keep, tau);
    let r = spec_prune(cands, keep);
    assert forall|i: int, j: int| 0 <= i < j < r.push(tau).len() implies #[trigger] r.push(tau)[i]
        < #[trigger] r.push(tau)[j] by {
        if j < r.len() {
            assert(r.push(tau)[i] == r[i]);
            assert(r.push(tau)[j] == r[j]);
        } else {
            assert(r.push(tau)[i] == r[i]);
        }
    }
}

/// Number of set flags among the first `i` entries of `keep`.
pub open spec fn rank(keep: Seq<bool>, i: int) -> nat {
    count_set(keep.take(i))
}

/// Pruning keeps exactly the flagged candidates, in order: there are as many
/// survivors as set flags, and the candidate at a flagged position `i` is the
/// survivor numbered by how many flags are set before `i`. With every flag
/// set, nothing is dropped.
pub proof fn lemma_prune_exact(cands: Seq<usize>, keep: Seq<bool>)
    requires
        keep.len() == cands.len(),
    ensures
        spec_prune(cands, keep).len() == count_set(keep),
        forall|i: int| 0 <= i < cands.len() && #[trigger] keep[i] ==> rank(keep, i) < count_set(keep),
        forall|i: int|
            0 <= i < cands.len() && #[trigger] keep[i] ==> spec_prune(cands, keep)[rank(keep, i) as int]
                == cands[i],
        (forall|i: int| 0 <= i < keep.len() ==> #[trigger] keep[i]) ==> spec_prune(cands, keep)
            == cands,
{
    lemma_prune_len(cands, keep);
    lemma_prune_index(cands, keep);
    assert forall|i: int| 0 <= i < cands.len() && #[trigger] keep[i] implies rank(keep, i) < count_set(
        keep,
    ) by {
        lemma_rank_below(keep, i);
    }
    if forall|i: int| 0 <= i < keep.len() ==> #[trigger] keep[i] {
        lemma_prune_all_kept(cands, keep);
    }
}

proof fn lemma_prune_len(cands: Seq<usize>, keep: Seq<bool>)
    requires
        keep.len() == cands.len(),
    ensures
        spec_prune(cands, keep).len() == count_set(keep),
    decreases cands.len(),
{
    let n = cands.len();
    if n > 0 {
        let dk = keep.drop_last();
        lemma_prune_prefix(cands, keep, dk);
        lemma_prune_len(cands.drop_last(), dk);
    }
}

#[verifier::rlimit(30)]
proof fn lemma_prune_index(cands: Seq<usize>, keep: Seq<bool>)
    requires
        keep.len() == cands.len(),
    ensures
        forall|i: int|
            0 <= i < cands.len() && #[trigger] keep[i] ==> spec_prune(cands, keep)[rank(keep, i) as int]
                == cands[i],
    decreases cands.len(),
{
    let n = cands.len();
    if n > 0 {
        let dc = cands.drop_last();
        let dk = keep.drop_last();
        lemma_prune_prefix(cands, keep, dk);
        lemma_prune_index(dc, dk);
        lemma_prune_len(dc, dk);
        let r = spec_prune(dc, dk);
        assert(spec_prune(cands, keep) == if keep[n - 1] {
            r.push(cands[n - 1])
        } else {
            r
        });
        assert forall|i: int|
            0 <= i < n && #[trigger] keep[i] implies spec_prune(cands, keep)[rank(keep, i) as int]
            == cands[i] by {
            if i < n - 1 {
                assert(keep.take(i) =~= dk.take(i));
                assert(dk[i] == keep[i]);
                lemma_rank_below(dk, i);
                assert(r[rank(dk, i) as int] == dc[i]);
            } else {
                assert(keep.take(i) =~= dk);
            }
        }
    }
}

proof fn lemma_prune_all_kept(cands: Seq<usize>, keep: Seq<bool>)
    requires
        keep.len() == cands.len(),
        forall|i: int| 0 <= i < keep.len() ==> #[trigger] keep[i],
    ensures
        spec_prune(cands, keep) == cands,
    decreases cands.len(),
{
    let n = cands.len();
    if n > 0 {
        let dk = keep.drop_last();
        lemma_prune_prefix(cands, keep, dk);
        assert(forall|i: int| 0 <= i < dk.len() ==> #[trigger] dk[i] == keep[i]);
        lemma_prune_all_kept(cands.drop_last(), dk);
        assert(keep[n - 1]);
        assert(spec_prune(cands, keep) =~= cands);
    }
}

proof fn lemma_prune_prefix(cands: Seq<usize>, keep: Seq<bool>, dk: Seq<bool>)
    requires
        keep.len() == cands.len(),
        cands.len() > 0,
        dk == keep.drop_last(),
    ensures
        spec_prune(cands.drop_last(), keep) == spec_prune(cands.drop_last(), dk),
{
    lemma_prune_flags_prefix(cands.drop_last(), keep, dk);
}

proof fn lemma_prune_flags_prefix(c: Seq<usize>, k1: Seq<bool>, k2: Seq<bool>)
    requires
        c.len() <= k1.len(),
        c.len() <= k2.len(),
        forall|i: int| 0 <= i < c.len() ==> k1[i] == k2[i],
    ensures
        spec_prune(c, k1) == spec_prune(c, k2),
    decreases c.len(),
{
    if c.len() > 0 {
        lemma_prune_flags_prefix(c.drop_last(), k1, k2);
    }
}

proof fn lemma_rank_below(k: Seq<bool>, i: int)
    requires
        0 <= i < k.len(),
        k[i],
    ensures
        rank(k, i) < count_set(k),
    decreases k.len(),
{
    let n = k.len();
    assert(k.take(n as int) =~= k);
    if i < n - 1 {
        let d = k.drop_last();
        assert(k.take(i) =~= d.take(i));
        lemma_rank_below(d, i);
    } else {
        assert(k.drop_last() =~= k.take(i));
    }
}

/// Drops the candidates whose flag in `keep` is unset and appends `tau`.
pub fn prune_candidates(candidates: &Vec<usize>, keep: &Vec<bool>, tau: usize) -> (res: Vec<usize>)
    requires
        keep.len() == candidates.len(),
    ensures
        res@ == spec_prune(candidates@, keep@).push(tau),
        res.len() == count_set(keep@) + 1,
        res[res.len() - 1] == tau,
        forall|i: int|
            0 <= i < candidates.len() && #[trigger] keep[i] ==> res[rank(keep@, i) as int]
                == candidates[i],
        (forall|i: int| 0 <= i < keep.len() ==> #[trigger] keep[i]) ==> res@ == candidates@.push(
            tau,
        ),
{
    proof {
        lemma_prune_exact(candidates@, keep@);
    }
    let mut res: Vec<usize> = Vec::new();
    let n = candidates.len();
    let mut i: usize = 0;
    while i < n
        invariant
            n == candidates.len(),
            keep.len() == n,
            i <= n,
            res@ == spec_prune(candidates@.take(i as int), keep@),
        decreases n - i,
    {
        let ghost prev = candidates@.take(i as int);
        assert(candidates@.take(i + 1).drop_last() =~= prev);
        if keep[i] {
            res.push(candidates[i]);
        }
        i = i + 1;
    }
    assert(candidates@.take(n as int) =~= candidates@);
    res.push(tau);
    res
}

/// `a` comes before `b` when ordered by key, ties broken by position.
pub open spec fn key_before(keys: Seq<usize>, a: usize, b: usize) -> bool {
    keys[a as int] < keys[b as int] || (keys[a as int] == keys[b as int] && a < b)
}

/// `order` lists each position of `keys` once, in increasing key order, with
/// equal keys kept in their original order (a stable sort by key).
pub open spec fn is_stable_order(keys: Seq<usize>, order: Seq<usize>) -> bool {
    &&& order.len() == keys.len()
    &&& forall|i: int| 0 <= i < order.len() ==> #[trigger] order[i] < keys.len()
    &&& forall|i: int, j: int|
        0 <= i < j < order.len() ==> key_before(keys, #[trigger] order[i], #[trigger] order[j])
}

/// The positions of `keys` in a stable ascending order by key: the order in
/// which a stable sort by key would arrange the items that carry them.
pub fn order_by_key(keys: &Vec<usize>) -> (order: Vec<usize>)
    ensures
        is_stable_order(keys@, order@),
        forall|i: int, j: int| 0 <= i < j < order.len() ==> order[i] != order[j],
        order.len() == keys.len(),
        forall|i: int| 0 <= i < order.len() ==> #[trigger] order[i] < keys.len(),
        forall|i: int, j: int|
            0 <= i < j < order.len() ==> keys[#[trigger] order[i] as int] <= keys[#[trigger] order[j] as int],
        forall|i: int, j: int|
            0 <= i < j < order.len() && keys[#[trigger] order[i] as int] == keys[#[trigger] order[j] as int]
                ==> order[i] < order[j],
{
    let n = keys.len();
    let mut order: Vec<usize> = Vec::new();
    let mut j: usize = 0;
    while j < n
        invariant
            n == keys.len(),
            j <= n,
            order.len() == j,
            forall|i: int| 0 <= i < order.len() ==> #[trigger] order[i] < j,
            forall|a: int, b: int|
                0 <= a < b < order.len() ==> key_before(keys@, #[trigger] order[a], #[trigger] order[b]),
        decreases n - j,
    {
        let kj = keys[j];
        let mut p: usize = 0;
        while p < order.len() && keys[order[p]] <= kj
            invariant
                n == keys.len(),
                j < n,
                kj == keys[j as int],
                p <= order.len(),
                forall|i: int| 0 <= i < order.len() ==> #[trigger] order[i] < j,
                forall|q: int| 0 <= q < p ==> keys[#[trigger] order[q] as int] <= kj,
            decreases order.len() - p,
        {
            p = p + 1;
        }
        let ghost old_order = order@;
        proof {
            old_order.insert_ensures(p as int, j);
            assert forall|q: int| p <= q < old_order.len() implies kj < keys[#[trigger] old_order[q] as int] by {
                if q > p {
                    assert(key_before(keys@, old_order[p as int], old_order[q]));
                }
            }
        }
        order.insert(p, j);
        assert forall|i: int| 0 <= i < order.len() implies #[trigger] order[i] < j + 1 by {
            if i < p {
                assert(order[i] == old_order[i]);
            } else if i > p {
                assert(order[i] == old_order[i - 1]);
            }
        }
        assert forall|a: int, b: int|
            0 <= a < b < order.len() implies key_before(keys@, #[trigger] order[a], #[trigger] order[b]) by {
            if b < p {
                assert(order[a] == old_order[a] && order[b] == old_order[b]);
            } else if b == p {
                assert(order[a] == old_order[a]);
            } else if a < p {
                assert(order[a] == old_order[a] && order[b] == old_order[b - 1]);
            } else if a == p {
                assert(order[b] == old_order[b - 1]);
            } else {
                assert(order[a] == old_order[a - 1] && order[b] == old_order[b - 1]);
            }
        }
        j = j + 1;
    }
    order
}

} // verus!
