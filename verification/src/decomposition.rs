use vstd::prelude::*;
use vstd::arithmetic::div_mod::{
    lemma_basic_div, lemma_fundamental_div_mod, lemma_mod_pos_bound, lemma_small_mod,
};

verus! {

/// The averaging window of a moving average of width `w` over `n` values at
/// position `i`: the `w` values of the half-open range `[i - w/2, i - w/2 + w)`
/// (centred on `i` for odd `w`, one value more before `i` than after it for
/// even `w`), defined where `w/2 <= i < n - w/2`, and `None` (an undefined
/// value) elsewhere.
pub open spec fn spec_window(n: nat, w: nat, i: int) -> Option<(int, int)> {
    let half = (w / 2) as int;
    if half <= i && i + half < n {
        Some((i - half, i - half + w))
    } else {
        None
    }
}

/// The averaging windows of a moving average of width `w` over `n` values:
/// one entry per position, `Some((start, end))` for the half-open range of
/// values that position averages and `None` where the average is undefined.
/// A width of zero or an empty input gives no positions at all.
pub fn moving_average_windows(n: usize, w: usize) -> (res: Vec<Option<(usize, usize)>>)
    ensures
        (w == 0 || n == 0) ==> res.len() == 0,
        (w > 0 && n > 0) ==> res.len() == n,
        forall|i: int|
            0 <= i < res.len() ==> match #[trigger] res[i] {
                Some((s, e)) => spec_window(n as nat, w as nat, i) == Some((s as int, e as int)),
                None => spec_window(n as nat, w as nat, i) is None,
            },
        forall|i: int|
            0 <= i < res.len() ==> ((#[trigger] res[i] is Some) <==> (w / 2 <= i && i + w / 2 < n)),
        forall|i: int|
            0 <= i < res.len() ==> (#[trigger] res[i] matches Some((s, e)) ==> {
                &&& s <= i < e <= n
                &&& e - s == w
                &&& i - s == w / 2
            }),
{
    let mut res: Vec<Option<(usize, usize)>> = Vec::new();
    if w == 0 || n == 0 {
        return res;
    }
    let half = w / 2;
    let mut i: usize = 0;
    while i < n
        invariant
            i <= n,
            half == w / 2,
            res.len() == i,
            forall|k: int|
                0 <= k < i ==> match #[trigger] res[k] {
                    Some((s, e)) => spec_window(n as nat, w as nat, k) == Some((s as int, e as int)),
                    None => spec_window(n as nat, w as nat, k) is None,
                },
        decreases n - i,
    {
        if half <= i && i < n - half {
            res.push(Some((i - half, i - half + w)));
        } else {
            res.push(None);
        }
        i = i + 1;
    }
    res
}

/// Number of positions `i < d.len()` with `d[i]` set and `i % p == s`.
pub open spec fn season_count(d: Seq<bool>, p: nat, s: nat) -> nat
    decreases d.len(),
{
    if d.len() == 0 {
        0
    } else {
        season_count(d.drop_last(), p, s) + if d.last() && (d.len() - 1) as nat % p == s {
            1nat
        } else {
            0nat
        }
    }
}

/// Number of set entries of `d`.
pub open spec fn count_set(d: Seq<bool>) -> nat
    decreases d.len(),
{
    if d.len() == 0 {
        0
    } else {
        count_set(d.drop_last()) + if d.last() {
            1nat
        } else {
            0nat
        }
    }
}

proof fn lemma_season_count_bound(d: Seq<bool>, p: nat, s: nat)
    ensures
        season_count(d, p, s) <= d.len(),
    decreases d.len(),
{
    if d.len() > 0 {
        lemma_season_count_bound(d.drop_last(), p, s);
    }
}

/// With every value defined, season `s` counts the positions `i < n` with
/// `i % p == s`: `n / p` full periods, plus one when `s` falls in the
/// incomplete last period.
pub proof fn lemma_season_count_all_defined(d: Seq<bool>, p: nat, s: nat)
    requires
        p > 0,
        s < p,
        forall|i: int| 0 <= i < d.len() ==> #[trigger] d[i],
    ensures
        season_count(d, p, s) == d.len() / p + if s < d.len() % p {
            1nat
        } else {
            0nat
        },
    decreases d.len(),
{
    let n = d.len();
    if n == 0 {
        lemma_small_mod(0, p);
        lemma_basic_div(0, p as int);
    } else {
        let m = (n - 1) as nat;
        lemma_season_count_all_defined(d.drop_last(), p, s);
        assert(d.last());
        lemma_fundamental_div_mod(m as int, p as int);
        lemma_fundamental_div_mod(n as int, p as int);
        lemma_mod_pos_bound(m as int, p as int);
        lemma_mod_pos_bound(n as int, p as int);
        let q1 = (m / p) as int;
        let r1 = (m % p) as int;
        let q2 = (n / p) as int;
        let r2 = (n % p) as int;
        assert(q2 == q1 || q2 == q1 + 1) by (nonlinear_arith)
            requires
                m == p * q1 + r1,
                n == p * q2 + r2,
                n == m + 1,
                0 <= r1 < p,
                0 <= r2 < p,
        ;
        assert(q2 == q1 ==> r2 == r1 + 1) by (nonlinear_arith)
            requires
                m == p * q1 + r1,
                n == p * q2 + r2,
                n == m + 1,
        ;
        assert(q2 == q1 + 1 ==> r2 == 0 && r1 == p - 1) by (nonlinear_arith)
            requires
                m == p * q1 + r1,
                n == p * q2 + r2,
                n == m + 1,
                0 <= r1 < p,
                0 <= r2 < p,
        ;
    }
}

/// A season's count depends only on the positions of that season: two
/// series of flags that agree on every position `i` with `i % p == s` give
/// season `s` the same count; in particular a season with no defined
/// position counts zero.
pub proof fn lemma_season_count_local(d1: Seq<bool>, d2: Seq<bool>, p: nat, s: nat)
    requires
        p > 0,
        d1.len() == d2.len(),
        forall|i: int| 0 <= i < d1.len() && (i as nat) % p == s ==> #[trigger] d1[i] == d2[i],
    ensures
        season_count(d1, p, s) == season_count(d2, p, s),
        (forall|i: int| 0 <= i < d1.len() && (i as nat) % p == s ==> !#[trigger] d1[i])
            ==> season_count(d1, p, s) == 0,
    decreases d1.len(),
{
    if d1.len() > 0 {
        let n = d1.len();
        assert forall|i: int|
            0 <= i < d1.drop_last().len() && (i as nat) % p == s implies #[trigger] d1.drop_last()[i]
            == d2.drop_last()[i] by {
            assert(d1.drop_last()[i] == d1[i]);
            assert(d2[i] == d2.drop_last()[i]);
        }
        lemma_season_count_local(d1.drop_last(), d2.drop_last(), p, s);
        if forall|i: int| 0 <= i < d1.len() && (i as nat) % p == s ==> !#[trigger] d1[i] {
            assert forall|i: int|
                0 <= i < d1.drop_last().len() && (i as nat) % p == s implies !#[trigger] d1.drop_last()[i] by {
                assert(d1.drop_last()[i] == d1[i]);
            }
            lemma_season_count_local(d1.drop_last(), d1.drop_last(), p, s);
            assert(((n - 1) as nat) % p == s ==> !d1[n - 1]);
        }
    }
}

/// For each season `s < period`, how many of the positions `i` with
/// `i % period == s` hold a defined value: the counts by which a seasonal
/// decomposition averages its detrended values.
pub fn season_counts(defined: &Vec<bool>, period: usize) -> (counts: Vec<usize>)
    requires
        period > 0,
    ensures
        counts.len() == period,
        forall|s: int|
            0 <= s < period ==> #[trigger] counts[s] == season_count(
                defined@,
                period as nat,
                s as nat,
            ),
        (forall|i: int| 0 <= i < defined.len() ==> #[trigger] defined[i]) ==> forall|s: int|
            0 <= s < period ==> #[trigger] counts[s] == defined.len() / period + if s
                < defined.len() % period {
                1int
            } else {
                0int
            },
{
    let mut counts: Vec<usize> = Vec::new();
    let mut s: usize = 0;
    while s < period
        invariant
            s <= period,
            counts.len() == s,
            forall|k: int| 0 <= k < s ==> #[trigger] counts[k] == 0,
        decreases period - s,
    {
        counts.push(0);
        s = s + 1;
    }
    let n = defined.len();
    let mut i: usize = 0;
    while i < n
        invariant
            n == defined.len(),
            period > 0,
            i <= n,
            counts.len() == period,
            forall|k: int|
                0 <= k < period ==> #[trigger] counts[k] == season_count(
                    defined@.take(i as int),
                    period as nat,
                    k as nat,
                ),
        decreases n - i,
    {
        let ghost prev = defined@.take(i as int);
        let ghost next = defined@.take(i + 1);
        assert(next.drop_last() =~= prev);
        if defined[i] {
            let slot = i % period;
            proof {
                lemma_season_count_bound(prev, period as nat, slot as nat);
            }
            let c = counts[slot];
            counts.set(slot, c + 1);
        }
        i = i + 1;
    }
    assert(defined@.take(n as int) =~= defined@);
    proof {
        if forall|i: int| 0 <= i < defined.len() ==> #[trigger] defined[i] {
            assert forall|s: int| 0 <= s < period implies #[trigger] counts[s] == defined.len() / period
                + if s < defined.len() % period {
                1int
            } else {
                0int
            } by {
                lemma_season_count_all_defined(defined@, period as nat, s as nat);
            }
        }
    }
    counts
}

/// A defined window lies inside the series, spans exactly `w` consecutive
/// values that include its position, and is centred on it when `w` is odd;
/// positions get one exactly when they are at least `w / 2` away from both
/// ends.
pub proof fn lemma_window_centred(n: nat, w: nat, i: int)
    requires
        w > 0,
        0 <= i < n,
    ensures
        spec_window(n, w, i) is Some <==> (w / 2 <= i && i + w / 2 < n),
        spec_window(n, w, i) matches Some((s, e)) ==> {
            &&& 0 <= s <= i < e <= n
            &&& e - s == w
            &&& i - s == w / 2
            &&& w % 2 == 1 ==> i - s == e - 1 - i
        },
{
    assert(w == 2 * (w / 2) + w % 2) by (nonlinear_arith);
}

/// Sum of `season_count(d, p, s)` over the seasons `s < k`.
pub open spec fn sum_season_counts(d: Seq<bool>, p: nat, k: nat) -> nat
    decreases k,
{
    if k == 0 {
        0
    } else {
        sum_season_counts(d, p, (k - 1) as nat) + season_count(d, p, (k - 1) as nat)
    }
}

proof fn lemma_sum_season_counts_step(d: Seq<bool>, p: nat, k: nat)
    requires
        p > 0,
        d.len() > 0,
        k <= p,
    ensures
        sum_season_counts(d, p, k) == sum_season_counts(d.drop_last(), p, k) + if d.last() && (
        d.len() - 1) as nat % p < k {
            1nat
        } else {
            0nat
        },
    decreases k,
{
    if k > 0 {
        lemma_sum_season_counts_step(d, p, (k - 1) as nat);
    }
}

proof fn lemma_sum_season_counts_empty(d: Seq<bool>, p: nat, k: nat)
    requires
        d.len() == 0,
    ensures
        sum_season_counts(d, p, k) == 0,
    decreases k,
{
    if k > 0 {
        lemma_sum_season_counts_empty(d, p, (k - 1) as nat);
    }
}

/// The seasons partition the defined positions: summed over all `period`
/// seasons, the per-season counts give the number of defined positions.
pub proof fn lemma_season_counts_partition(defined: Seq<bool>, period: nat)
    requires
        period > 0,
    ensures
        sum_season_counts(defined, period, period) == count_set(defined),
    decreases defined.len(),
{
    if defined.len() > 0 {
        lemma_season_counts_partition(defined.drop_last(), period);
        lemma_sum_season_counts_step(defined, period, period);
        lemma_mod_pos_bound((defined.len() - 1) as int, period as int);
    } else {
        lemma_sum_season_counts_empty(defined, period, period);
    }
}

} // verus!
