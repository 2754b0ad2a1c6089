use vstd::prelude::*;
use vstd::arithmetic::div_mod::{lemma_fundamental_div_mod, lemma_mod_pos_bound};

verus! {

/// The detector that flagged an anomaly.
#[derive(Debug, Clone, Copy, PartialEq, Eq, Structural)]
pub enum AnomalyKind {
    ZScore,
    IQR,
    IsolationForest,
}

/// Positions of the first and third quartile in a sorted sample of `n` values.
pub open spec fn spec_quartile_positions(n: nat) -> (nat, nat) {
    (n * 25 / 100, n * 75 / 100)
}

/// The indices at which the interquartile-range detector reads its quartiles
/// in a sorted copy of `n` values.
pub fn quartile_positions(n: usize) -> (res: (usize, usize))
    requires
        n * 75 <= usize::MAX,
    ensures
        res.0 == spec_quartile_positions(n as nat).0,
        res.1 == spec_quartile_positions(n as nat).1,
        n > 0 ==> res.0 <= res.1 < n,
        res.0 * 100 <= 25 * n < res.0 * 100 + 100,
        res.1 * 100 <= 75 * n < res.1 * 100 + 100,
{
    let q1 = n * 25 / 100;
    let q3 = n * 75 / 100;
    proof {
        lemma_quartile_floor(n as nat);
    }
    (q1, q3)
}

/// The quartile positions are the floors of a quarter and three quarters of
/// the sample size: `q1` is the largest position with `100 * q1 <= 25 * n`,
/// and `q3` the largest with `100 * q3 <= 75 * n`.
pub proof fn lemma_quartile_floor(n: nat)
    ensures
        spec_quartile_positions(n).0 * 100 <= 25 * n < spec_quartile_positions(n).0 * 100 + 100,
        spec_quartile_positions(n).1 * 100 <= 75 * n < spec_quartile_positions(n).1 * 100 + 100,
{
    lemma_fundamental_div_mod((n * 25) as int, 100);
    lemma_mod_pos_bound((n * 25) as int, 100);
    lemma_fundamental_div_mod((n * 75) as int, 100);
    lemma_mod_pos_bound((n * 75) as int, 100);
}

/// The entries of `indices` whose flag is set (flags indexed by value
/// position), in their order.
pub open spec fn flagged(indices: Seq<usize>, flags: Seq<bool>) -> Seq<usize> {
    indices.filter(|i: usize| flags[i as int])
}

/// Splits the indices held by an isolation-tree node into those whose value
/// lies below the split point (`goes_left[i]`) and those whose value lies at
/// or above it (`goes_right[i]`), each keeping its order. Both flag vectors
/// are indexed by value position; a value that compares neither way (NaN)
/// is in neither part.
pub fn split_indices(indices: &Vec<usize>, goes_left: &Vec<bool>, goes_right: &Vec<bool>) -> (res: (
    Vec<usize>,
    Vec<usize>,
))
    requires
        goes_left.len() == goes_right.len(),
        forall|k: int| 0 <= k < indices.len() ==> #[trigger] indices[k] < goes_left.len(),
    ensures
        res.0@ == flagged(indices@, goes_left@),
        res.1@ == flagged(indices@, goes_right@),
        forall|k: int| 0 <= k < res.0.len() ==> goes_left[#[trigger] res.0[k] as int],
        forall|k: int| 0 <= k < res.1.len() ==> goes_right[#[trigger] res.1[k] as int],
        forall|k: int|
            0 <= k < indices.len() && goes_left[#[trigger] indices[k] as int] ==> res.0@.contains(
                indices[k],
            ),
        forall|k: int|
            0 <= k < indices.len() && goes_right[#[trigger] indices[k] as int] ==> res.1@.contains(
                indices[k],
            ),
{
    proof {
        lemma_split_partition(indices@, goes_left@, goes_right@);
        lemma_flagged_complete(indices@, goes_left@);
        lemma_flagged_complete(indices@, goes_right@);
    }
    let n = indices.len();
    let mut left: Vec<usize> = Vec::new();
    let mut right: Vec<usize> = Vec::new();
    let mut k: usize = 0;
    while k < n
        invariant
            n == indices.len(),
            k <= n,
            goes_left.len() == goes_right.len(),
            forall|m: int| 0 <= m < indices.len() ==> #[trigger] indices[m] < goes_left.len(),
            left@ == flagged(indices@.take(k as int), goes_left@),
            right@ == flagged(indices@.take(k as int), goes_right@),
        decreases n - k,
    {
        let ghost prev = indices@.take(k as int);
        let ghost next = indices@.take(k + 1);
        assert(next.drop_last() =~= prev);
        assert(next.last() == indices@[k as int]);
        proof {
            reveal(Seq::filter);
        }
        let i = indices[k];
        if goes_left[i] {
            left.push(i);
        }
        if goes_right[i] {
            right.push(i);
        }
        k = k + 1;
    }
    assert(indices@.take(n as int) =~= indices@);
    (left, right)
}

/// No flagged index is lost and order is kept: every index whose flag is set
/// appears among the flagged ones, and from strictly increasing indices the
/// flagged ones come out strictly increasing.
pub proof fn lemma_flagged_complete(indices: Seq<usize>, flags: Seq<bool>)
    ensures
        forall|k: int|
            0 <= k < indices.len() && flags[#[trigger] indices[k] as int] ==> flagged(
                indices,
                flags,
            ).contains(indices[k]),
        (forall|j: int, k: int| 0 <= j < k < indices.len() ==> #[trigger] indices[j] < #[trigger] indices[k])
            ==> (forall|j: int, k: int|
            0 <= j < k < flagged(indices, flags).len() ==> #[trigger] flagged(indices, flags)[j]
                < #[trigger] flagged(indices, flags)[k]),
    decreases indices.len(),
{
    reveal(Seq::filter);
    let n = indices.len();
    if n > 0 {
        let d = indices.drop_last();
        lemma_flagged_complete(d, flags);
        let r = flagged(d, flags);
        let f = flagged(indices, flags);
        assert forall|k: int|
            0 <= k < n && flags[#[trigger] indices[k] as int] implies f.contains(indices[k]) by {
            if k < n - 1 {
                assert(d[k] == indices[k]);
                let w = choose|w: int| 0 <= w < r.len() && r[w] == d[k];
                assert(f[w] == r[w]);
            } else {
                assert(f[f.len() - 1] == indices[k]);
            }
        }
        if forall|j: int, k: int| 0 <= j < k < n ==> #[trigger] indices[j] < #[trigger] indices[k] {
            assert forall|j: int, k: int| 0 <= j < k < d.len() implies #[trigger] d[j] < #[trigger] d[k] by {
                assert(d[j] == indices[j] && d[k] == indices[k]);
            }
            lemma_flagged_members(d, flags);
            assert forall|j: int, k: int| 0 <= j < k < f.len() implies #[trigger] f[j] < #[trigger] f[k] by {
                if k < r.len() {
                    assert(f[j] == r[j] && f[k] == r[k]);
                } else {
                    assert(f[j] == r[j]);
                    let w = choose|w: int| 0 <= w < d.len() && d[w] == r[j];
                    assert(indices[w] == d[w]);
                    assert(f[k] == indices[n - 1]);
                }
            }
        }
    }
}

proof fn lemma_flagged_members(indices: Seq<usize>, flags: Seq<bool>)
    ensures
        forall|m: int|
            0 <= m < flagged(indices, flags).len() ==> exists|w: int|
                0 <= w < indices.len() && indices[w] == #[trigger] flagged(indices, flags)[m],
    decreases indices.len(),
{
    reveal(Seq::filter);
    if indices.len() > 0 {
        let d = indices.drop_last();
        lemma_flagged_members(d, flags);
        let r = flagged(d, flags);
        let f = flagged(indices, flags);
        assert forall|m: int| 0 <= m < f.len() implies exists|w: int|
            0 <= w < indices.len() && indices[w] == #[trigger] f[m] by {
            if m < r.len() {
                assert(f[m] == r[m]);
                let w = choose|w: int| 0 <= w < d.len() && d[w] == r[m];
                assert(indices[w] == d[w]);
            } else {
                assert(indices[indices.len() - 1] == f[m]);
            }
        }
    }
}

/// Each side of a split holds only indices flagged for it, and neither side
/// grows past the node; when every value of the node compares exactly one
/// way (no NaN), the two sides partition the node's indices.
pub proof fn lemma_split_partition(indices: Seq<usize>, goes_left: Seq<bool>, goes_right: Seq<bool>)
    ensures
        forall|k: int|
            0 <= k < flagged(indices, goes_left).len() ==> goes_left[(#[trigger] flagged(
                indices,
                goes_left,
            )[k]) as int],
        forall|k: int|
            0 <= k < flagged(indices, goes_right).len() ==> goes_right[(#[trigger] flagged(
                indices,
                goes_right,
            )[k]) as int],
        (forall|k: int|
            0 <= k < indices.len() ==> goes_left[#[trigger] indices[k] as int] != goes_right[indices[k] as int])
            ==> flagged(indices, goes_left).len() + flagged(indices, goes_right).len() == indices.len(),
        flagged(indices, goes_left).len() <= indices.len(),
        flagged(indices, goes_right).len() <= indices.len(),
    decreases indices.len(),
{
    reveal(Seq::filter);
    if indices.len() > 0 {
        let d = indices.drop_last();
        lemma_split_partition(d, goes_left, goes_right);
        if forall|k: int|
            0 <= k < indices.len() ==> goes_left[#[trigger] indices[k] as int] != goes_right[indices[k] as int] {
            assert forall|k: int|
                0 <= k < d.len() implies goes_left[#[trigger] d[k] as int] != goes_right[d[k] as int] by {
                assert(d[k] == indices[k]);
            }
            assert(goes_left[indices[indices.len() - 1] as int] != goes_right[indices[indices.len() - 1] as int]);
        }
    }
}

} // verus!
