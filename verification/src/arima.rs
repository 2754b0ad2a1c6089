use vstd::prelude::*;

verus! {

/// The half-open range of positions over which a fitted model is compared
/// with actual values: from the larger of the two model orders up to the
/// shorter of the two series, or `None` when that range is empty.
pub open spec fn spec_evaluation_range(actual_len: nat, fitted_len: nat, p: nat, q: nat) -> Option<
    (nat, nat),
> {
    let n = if actual_len < fitted_len {
        actual_len
    } else {
        fitted_len
    };
    let start = if p > q {
        p
    } else {
        q
    };
    if n == 0 || start >= n {
        None
    } else {
        Some((start, n))
    }
}

/// The positions scored by the error measures of an ARMA-type model of
/// orders `p` and `q`, whose first `max(p, q)` fitted values are warm-up.
pub fn evaluation_range(actual_len: usize, fitted_len: usize, p: usize, q: usize) -> (res: Option<
    (usize, usize),
>)
    ensures
        match (res, spec_evaluation_range(actual_len as nat, fitted_len as nat, p as nat, q as nat)) {
            (Some((a, b)), Some((c, d))) => a as nat == c && b as nat == d,
            (None, None) => true,
            _ => false,
        },
        res is None <==> (actual_len == 0 || fitted_len == 0 || p >= actual_len || p >= fitted_len
            || q >= actual_len || q >= fitted_len),
        res matches Some((a, b)) ==> {
            &&& b <= actual_len && b <= fitted_len
            &&& (b == actual_len || b == fitted_len)
            &&& a >= p && a >= q
            &&& (a == p || a == q)
            &&& a < b
        },
{
    let n = if actual_len < fitted_len {
        actual_len
    } else {
        fitted_len
    };
    let start = if p > q {
        p
    } else {
        q
    };
    if n == 0 || start >= n {
        None
    } else {
        Some((start, n))
    }
}

/// The scored range starts after the warm-up of `max(p, q)` positions and
/// stops at the end of the shorter series, so it never runs past either the
/// actual or the fitted values; it is empty exactly when the shorter series
/// is empty or no longer than the warm-up.
pub proof fn lemma_evaluation_range_bounds(actual_len: nat, fitted_len: nat, p: nat, q: nat)
    ensures
        spec_evaluation_range(actual_len, fitted_len, p, q) is None <==> (actual_len == 0
            || fitted_len == 0 || p >= actual_len || p >= fitted_len || q >= actual_len || q
            >= fitted_len),
        spec_evaluation_range(actual_len, fitted_len, p, q) matches Some((a, b)) ==> {
            &&& b <= actual_len && b <= fitted_len
            &&& (b == actual_len || b == fitted_len)
            &&& a >= p && a >= q
            &&& (a == p || a == q)
            &&& a < b
        },
{
}

} // verus!
