//! Where the hypergeometric distribution has mass.
//!
//! `X ~ Hypergeom(M, n, N)` in the SciPy parameterisation: `M` the population
//! size, `n` its successes, `N` the number drawn. `P(X = k)` is
//! `C(n, k) C(M - n, N - k) / C(M, N)`, nonzero exactly where both binomial
//! coefficients are.

use vstd::prelude::*;

verus! {

/// Whether the binomial coefficient `C(a, b)` is nonzero.
pub open spec fn binom_nonzero(a: int, b: int) -> bool {
    0 <= b <= a
}

/// Whether `P(X = k)` is nonzero for `X ~ Hypergeom(m, n, big_n)`.
pub open spec fn hypergeom_mass_nonzero(k: int, m: int, n: int, big_n: int) -> bool {
    binom_nonzero(n, k) && binom_nonzero(m - n, big_n - k)
}

/// Whether `C(a, b)` is nonzero: `b` lies in `0..=a`. Outside that range the
/// logarithm of the coefficient is `-inf`.
pub fn binom_in_support(a: u64, b: i64) -> (r: bool)
    ensures
        r == binom_nonzero(a as int, b as int),
{
    !(b < 0 || b as u64 > a)
}

/// The support `lo..=hi` of `Hypergeom(m, n, big_n)`:
/// `lo = max(0, N - (M - n))`, `hi = min(n, N)`. The mass is nonzero at `k`
/// exactly when `k` lies in it.
pub fn hypergeom_support(m: u64, n: u64, big_n: u64) -> (r: (i64, i64))
    requires
        n <= m,
        big_n <= m,
        m <= i64::MAX,
    ensures
        r.0 == (if big_n - (m - n) > 0 {
            big_n - (m - n)
        } else {
            0
        }),
        r.1 == (if n < big_n {
            n as int
        } else {
            big_n as int
        }),
        0 <= r.0 <= r.1,
        forall|k: int| r.0 <= k <= r.1 <==> #[trigger] hypergeom_mass_nonzero(
            k,
            m as int,
            n as int,
            big_n as int,
        ),
{
    let d = (big_n as i64) - ((m as i64) - (n as i64));
    let lo = if d > 0 {
        d
    } else {
        0
    };
    let hi = if (n as i64) < (big_n as i64) {
        n as i64
    } else {
        big_n as i64
    };
    (lo, hi)
}

} // verus!
