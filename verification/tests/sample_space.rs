use rsomics_boschloo_exact::{has_empty_column, hypergeom_support, SampleSpace};

#[test]
fn space_of_observed_table() {
    let sp = SampleSpace::of_table(7, 12, 8, 3);
    assert_eq!(sp.col1, 15);
    assert_eq!(sp.col2, 15);
    assert_eq!(sp.total(), 30);
    assert_eq!(sp.cell_count(), 256);
    assert_eq!(sp.cell_index(7, 12), 12 * 16 + 7);
}

#[test]
fn empty_column_detected() {
    assert!(has_empty_column(0, 5, 0, 4));
    assert!(has_empty_column(3, 0, 1, 0));
    assert!(has_empty_column(0, u64::MAX, 0, 1));
    assert!(!has_empty_column(0, 5, 1, 0));
    assert!(!has_empty_column(7, 12, 8, 3));
}

#[test]
fn diagonal_ranges() {
    let sp = SampleSpace::of_table(2, 1, 1, 2); // col1 = 3, col2 = 3
    assert_eq!(sp.diagonal(0), (0, 0));
    assert_eq!(sp.diagonal(2), (0, 2));
    assert_eq!(sp.diagonal(3), (0, 3));
    assert_eq!(sp.diagonal(4), (1, 3));
    assert_eq!(sp.diagonal(6), (3, 3));
    let sp = SampleSpace::of_table(450, 1, 450, 0); // col1 = 900, col2 = 1
    assert_eq!(sp.diagonal(0), (0, 0));
    assert_eq!(sp.diagonal(1), (0, 1));
    assert_eq!(sp.diagonal(500), (499, 500));
    assert_eq!(sp.diagonal(901), (900, 900));
}

/// Walking the diagonals visits every table of the space exactly once, at
/// distinct places of the flat array.
#[test]
fn diagonals_visit_every_cell_once() {
    for &(a, b, c, d) in &[(7u64, 12u64, 8u64, 3u64), (2, 7, 8, 2), (0, 1, 3, 0), (300, 2, 300, 0)] {
        let sp = SampleSpace::of_table(a, b, c, d);
        let mut seen = vec![0u32; sp.cell_count()];
        for s in 0..=sp.total() {
            let (lo, hi) = sp.diagonal(s);
            for x1 in lo..=hi {
                seen[sp.cell_index(x1, s - x1)] += 1;
            }
        }
        assert!(seen.iter().all(|&n| n == 1));
    }
}

/// On each diagonal, the tables are exactly the support of the conditional
/// hypergeometric law of `x1` (and, mirrored, of `x2`).
#[test]
fn diagonal_is_hypergeometric_support() {
    for &(a, b, c, d) in &[(7u64, 12u64, 8u64, 3u64), (2, 7, 8, 2), (300, 2, 300, 0)] {
        let sp = SampleSpace::of_table(a, b, c, d);
        for s in 0..=sp.total() {
            let (lo, hi) = sp.diagonal(s);
            assert_eq!(
                hypergeom_support(sp.total(), s, sp.col1),
                (lo as i64, hi as i64)
            );
            let (lo2, hi2) = hypergeom_support(sp.total(), s, sp.col2);
            assert_eq!((lo2 as u64, hi2 as u64), (s - hi, s - lo));
        }
    }
}
