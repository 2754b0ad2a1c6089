use vstd::prelude::*;

verus! {

/// The one or two middle positions of a sorted sample of `n` values whose
/// average is the median: both `n / 2` for odd `n`, `n / 2 - 1` and `n / 2`
/// for even `n`.
pub fn median_positions(n: usize) -> (res: (usize, usize))
    requires
        n > 0,
    ensures
        n % 2 == 0 ==> res.0 == n / 2 - 1 && res.1 == n / 2,
        n % 2 == 1 ==> res.0 == n / 2 && res.1 == n / 2,
        res.0 <= res.1 < n,
        res.0 + res.1 + 1 == n,
{
    if n % 2 == 0 {
        (n / 2 - 1, n / 2)
    } else {
        (n / 2, n / 2)
    }
}

} // verus!
