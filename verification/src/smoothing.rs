use vstd::prelude::*;
use vstd::arithmetic::div_mod::{
    lemma_add_mod_noop, lemma_mod_add_multiples_vanish, lemma_mod_pos_bound, lemma_mod_self_0,
    lemma_small_mod,
};

verus! {

/// Where the `i`-th forecast step (counting from 1) reads its seasonal
/// offset among `len` seasonal factors of period `p`: the factor `(i - 1) % p`
/// steps into the last full period, when that index exists.
pub open spec fn season_position(len: nat, p: nat, i: nat) -> Option<nat>
    recommends
        p > 0,
        i >= 1,
{
    let base: nat = if len >= p {
        (len - p) as nat
    } else {
        0
    };
    let idx: nat = base + ((i - 1) as nat) % p;
    if idx < len {
        Some(idx)
    } else {
        None
    }
}

/// The seasonal offset (if any) used by each of the `h` forecast steps.
pub open spec fn spec_forecast_positions(len: nat, h: nat, period: Option<usize>) -> Seq<
    Option<nat>,
> {
    Seq::new(
        h,
        |k: int|
            match period {
                Some(p) => if len > 0 {
                    season_position(len, p as nat, (k + 1) as nat)
                } else {
                    None
                },
                None => None,
            },
    )
}

/// For each of the `h` steps of a smoothing forecast, the index of the
/// seasonal factor added to the trend line, or `None` where the step adds
/// none (no period given, no seasonal factors, or the index falls outside).
pub fn forecast_season_positions(seasonal_len: usize, h: usize, period: Option<usize>) -> (res: Vec<
    Option<usize>,
>)
    requires
        period matches Some(p) ==> (seasonal_len == 0 || h == 0 || p > 0),
    ensures
        res.len() == h,
        forall|k: int|
            0 <= k < h ==> match (#[trigger] res[k], spec_forecast_positions(
                seasonal_len as nat,
                h as nat,
                period,
            )[k]) {
                (Some(a), Some(b)) => a as nat == b,
                (None, None) => true,
                _ => false,
            },
        (period is None || seasonal_len == 0) ==> forall|k: int| 0 <= k < h ==> #[trigger] res[k]
            is None,
        period matches Some(p) ==> (seasonal_len > 0 && h > 0 ==> res[0] == Some(
            seasonal_len.saturating_sub(p),
        )),
        period matches Some(p) ==> (seasonal_len > 0 ==> forall|k: int|
            0 <= k && k + p < h ==> #[trigger] res[k + p] == res[k]),
        period matches Some(p) ==> (seasonal_len > 0 ==> forall|k: int|
            0 <= k && k + 1 < h && (k + 1) % (p as int) != 0 ==> match #[trigger] res[k] {
                Some(x) => res[k + 1] == if x + 1 < seasonal_len {
                    Some((x + 1) as usize)
                } else {
                    None
                },
                None => res[k + 1] is None,
            }),
{
    let mut res: Vec<Option<usize>> = Vec::new();
    let mut i: usize = 0;
    while i < h
        invariant
            i <= h,
            res.len() == i,
            period matches Some(p) ==> (seasonal_len == 0 || h == 0 || p > 0),
            forall|k: int|
                0 <= k < i ==> match (#[trigger] res[k], spec_forecast_positions(
                    seasonal_len as nat,
                    h as nat,
                    period,
                )[k]) {
                    (Some(a), Some(b)) => a as nat == b,
                    (None, None) => true,
                    _ => false,
                },
        decreases h - i,
    {
        let mut pos: Option<usize> = None;
        match period {
            Some(p) => {
                if seasonal_len > 0 {
                    let base = seasonal_len.saturating_sub(p);
                    let off = i % p;
                    assert(base + off < usize::MAX) by {
                        assert(off < p);
                    }
                    let idx = base + off;
                    if idx < seasonal_len {
                        pos = Some(idx);
                    }
                }
            },
            None => {},
        }
        res.push(pos);
        i = i + 1;
    }
    proof {
        let sp = spec_forecast_positions(seasonal_len as nat, h as nat, period);
        if let Some(p) = period {
            if seasonal_len > 0 && h > 0 {
                lemma_forecast_steps(seasonal_len as nat, p as nat, 1);
                assert(sp[0] == season_position(seasonal_len as nat, p as nat, 1));
                assert(res[0] matches Some(a) && a as nat == sp[0]->0);
            }
            if seasonal_len > 0 {
                assert forall|k: int| 0 <= k && k + p < h implies #[trigger] res[k + p] == res[k] by {
                    lemma_season_position_periodic(seasonal_len as nat, p as nat, (k + 1) as nat);
                    assert(sp[k] == season_position(seasonal_len as nat, p as nat, (k + 1) as nat));
                    assert(sp[k + p] == season_position(
                        seasonal_len as nat,
                        p as nat,
                        (k + 1 + p) as nat,
                    ));
                    let a = res[k];
                    let b = res[k + p];
                    assert(match (a, sp[k]) {
                        (Some(x), Some(y)) => x as nat == y,
                        (None, None) => true,
                        _ => false,
                    });
                    assert(match (b, sp[k + p]) {
                        (Some(x), Some(y)) => x as nat == y,
                        (None, None) => true,
                        _ => false,
                    });
                }
                assert forall|k: int|
                    0 <= k && k + 1 < h && (k + 1) % (p as int) != 0 implies match #[trigger] res[k] {
                    Some(x) => res[k + 1] == if x + 1 < seasonal_len {
                        Some((x + 1) as usize)
                    } else {
                        None
                    },
                    None => res[k + 1] is None,
                } by {
                    lemma_forecast_steps(seasonal_len as nat, p as nat, (k + 1) as nat);
                    assert(sp[k] == season_position(seasonal_len as nat, p as nat, (k + 1) as nat));
                    assert(sp[k + 1] == season_position(seasonal_len as nat, p as nat, (k + 2) as nat));
                    assert(match (res[k], sp[k]) {
                        (Some(x), Some(y)) => x as nat == y,
                        (None, None) => true,
                        _ => false,
                    });
                    assert(match (res[k + 1], sp[k + 1]) {
                        (Some(x), Some(y)) => x as nat == y,
                        (None, None) => true,
                        _ => false,
                    });
                }
            }
        }
    }
    res
}

/// How the seasonal offsets of consecutive forecast steps relate: the first
/// step reads the factor at `len - p` (or `0` with fewer than `p` factors),
/// and within a period each step reads the factor right after the previous
/// one, as long as it exists; once past the end, the rest of the period
/// reads none.
pub proof fn lemma_forecast_steps(len: nat, p: nat, i: nat)
    requires
        p > 0,
        len > 0,
        i >= 1,
    ensures
        season_position(len, p, 1) == Some(
            if len >= p {
                (len - p) as nat
            } else {
                0nat
            },
        ),
        i % p != 0 ==> match season_position(len, p, i) {
            Some(x) => season_position(len, p, i + 1) == if x + 1 < len {
                Some((x + 1) as nat)
            } else {
                None
            },
            None => season_position(len, p, i + 1) is None,
        },
{
    lemma_small_mod(0, p);
    if i % p != 0 {
        lemma_mod_pos_bound((i - 1) as int, p as int);
        lemma_add_mod_noop((i - 1) as int, 1, p as int);
        if p > 1 {
            lemma_small_mod(1, p);
            if ((i - 1) as nat) % p + 1 < p {
                lemma_small_mod((((i - 1) as nat) % p + 1) as nat, p);
            } else {
                lemma_mod_self_0(p as int);
            }
        } else {
            lemma_mod_self_0(1);
            lemma_mod_pos_bound(i as int, 1);
        }
    }
}

/// Seasonal forecasts repeat with the period: steps `i` and `i + p` read the
/// same seasonal factor.
pub proof fn lemma_season_position_periodic(len: nat, p: nat, i: nat)
    requires
        p > 0,
        i >= 1,
    ensures
        season_position(len, p, i + p) == season_position(len, p, i),
{
    lemma_mod_add_multiples_vanish((i - 1) as int, p as int);
}

/// With at least one full period of seasonal factors, every forecast step
/// reads a factor from the last period, cycling through it in order.
pub proof fn lemma_season_position_in_last_period(len: nat, p: nat, i: nat)
    requires
        0 < p <= len,
        i >= 1,
    ensures
        season_position(len, p, i) == Some((len - p + (i - 1) % (p as int)) as nat),
        season_position(len, p, i) matches Some(x) ==> len - p <= x < len,
{
    lemma_mod_pos_bound((i - 1) as int, p as int);
}

} // verus!
