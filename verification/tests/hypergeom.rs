use rsomics_boschloo_exact::{binom_in_support, hypergeom_support};

#[test]
fn binomial_support() {
    assert!(binom_in_support(5, 0));
    assert!(binom_in_support(5, 5));
    assert!(!binom_in_support(5, 6));
    assert!(!binom_in_support(5, -1));
    assert!(binom_in_support(0, 0));
}

#[test]
fn hypergeometric_support_bounds() {
    // hypergeom(M = 10, n = 5, N = 4): k in 0..=4
    assert_eq!(hypergeom_support(10, 5, 4), (0, 4));
    // hypergeom(M = 20, n = 10, N = 10): k in 0..=10
    assert_eq!(hypergeom_support(20, 10, 10), (0, 10));
    // hypergeom(M = 10, n = 8, N = 5): at least 3 successes must be drawn
    assert_eq!(hypergeom_support(10, 8, 5), (3, 5));
    assert_eq!(hypergeom_support(0, 0, 0), (0, 0));
}

/// The support is exactly where both binomial coefficients are nonzero.
#[test]
fn support_matches_nonzero_mass() {
    for m in 0u64..12 {
        for n in 0..=m {
            for big_n in 0..=m {
                let (lo, hi) = hypergeom_support(m, n, big_n);
                for k in -2i64..15 {
                    let mass = binom_in_support(n, k) && binom_in_support(m - n, big_n as i64 - k);
                    assert_eq!(lo <= k && k <= hi, mass, "m={m} n={n} N={big_n} k={k}");
                }
            }
        }
    }
}
