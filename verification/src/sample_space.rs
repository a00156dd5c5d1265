//! The unconditional sample space of a 2x2 table: every table with the
//! observed column totals, numbered for a flat array and walked diagonal by
//! diagonal (tables sharing `x1 + x2`).

use vstd::prelude::*;
use crate::hypergeom::hypergeom_mass_nonzero;
use vstd::arithmetic::div_mod::{
    lemma_fundamental_div_mod, lemma_fundamental_div_mod_converse, lemma_mod_bound,
};

verus! {

/// The tables `[[x1, x2], [col1 - x1, col2 - x2]]` for `x1` in `0..=col1` and
/// `x2` in `0..=col2`: the column totals of the observed table held fixed.
#[derive(Debug, Clone, Copy, PartialEq, Eq, Structural)]
pub struct SampleSpace {
    /// Total of the first column, `a + c`.
    pub col1: u64,
    /// Total of the second column, `b + d`.
    pub col2: u64,
}

/// Whether a column of the table `[[a, b], [c, d]]` has both cells zero,
/// which leaves the test without a statistic.
pub fn has_empty_column(a: u64, b: u64, c: u64, d: u64) -> (r: bool)
    ensures
        r == ((a == 0 && c == 0) || (b == 0 && d == 0)),
{
    (a == 0 && c == 0) || (b == 0 && d == 0)
}

impl SampleSpace {
    /// The space can be walked with machine integers: its grand total is a
    /// `u64` and its tables can be numbered by `usize`.
    pub open spec fn wf(self) -> bool {
        &&& self.col1 + self.col2 <= u64::MAX
        &&& self.cells() <= usize::MAX
    }

    /// The number of tables in the space.
    pub open spec fn cells(self) -> int {
        (self.col1 + 1) * (self.col2 + 1)
    }

    pub open spec fn grand_total(self) -> int {
        self.col1 + self.col2
    }

    /// Whether `[[x1, x2], ..]` is a table of the space.
    pub open spec fn contains(self, x1: int, x2: int) -> bool {
        0 <= x1 <= self.col1 && 0 <= x2 <= self.col2
    }

    /// The smallest `x1` on the diagonal `x1 + x2 == s`.
    pub open spec fn diagonal_lo(self, s: int) -> int {
        if s > self.col2 {
            s - self.col2
        } else {
            0
        }
    }

    /// The largest `x1` on the diagonal `x1 + x2 == s`.
    pub open spec fn diagonal_hi(self, s: int) -> int {
        if s < self.col1 {
            s
        } else {
            self.col1 as int
        }
    }

    /// Whether `x1` lies in the range that the diagonal `s` walks.
    pub open spec fn on_diagonal(self, s: int, x1: int) -> bool {
        self.diagonal_lo(s) <= x1 <= self.diagonal_hi(s)
    }

    /// The place of the table `[[x1, x2], ..]` in a row-major array whose rows
    /// run over `x2` and whose columns run over `x1`.
    pub open spec fn index_of(self, x1: int, x2: int) -> int {
        x2 * (self.col1 + 1) + x1
    }

    /// The table at place `i` of that array.
    pub open spec fn table_at(self, i: int) -> (int, int) {
        (i % (self.col1 + 1), i / (self.col1 + 1))
    }

    /// The sample space of the observed table `[[a, b], [c, d]]`.
    pub fn of_table(a: u64, b: u64, c: u64, d: u64) -> (sp: SampleSpace)
        requires
            a + c + b + d <= u64::MAX,
            (a + c + 1) * (b + d + 1) <= usize::MAX,
        ensures
            sp.col1 == a + c,
            sp.col2 == b + d,
            sp.wf(),
            sp.contains(a as int, b as int),
    {
        SampleSpace { col1: a + c, col2: b + d }
    }

    /// The grand total `N` of the table.
    pub fn total(&self) -> (n: u64)
        requires
            self.wf(),
        ensures
            n == self.grand_total(),
    {
        self.col1 + self.col2
    }

    /// The number of tables in the space.
    pub fn cell_count(&self) -> (n: usize)
        requires
            self.wf(),
        ensures
            n == self.cells(),
    {
        proof {
            self.lemma_sides_fit();
        }
        let n1 = self.col1 as usize + 1;
        let n2 = self.col2 as usize + 1;
        n1 * n2
    }

    /// Each side of the space is no longer than the space has tables.
    proof fn lemma_sides_fit(self)
        requires
            self.wf(),
        ensures
            self.col1 + 1 <= self.cells(),
            self.col2 + 1 <= self.cells(),
    {
        let n = self.col1 + 1;
        let m = self.col2 + 1;
        assert(n <= n * m && m <= n * m) by (nonlinear_arith)
            requires
                n >= 1,
                m >= 1,
        ;
    }

    /// The range of `x1` over the tables with `x1 + x2 == s`.
    pub fn diagonal(&self, s: u64) -> (r: (u64, u64))
        requires
            self.wf(),
            s <= self.grand_total(),
        ensures
            r.0 == self.diagonal_lo(s as int),
            r.1 == self.diagonal_hi(s as int),
            r.0 <= r.1,
    {
        let lo = s.saturating_sub(self.col2);
        let hi = if s < self.col1 {
            s
        } else {
            self.col1
        };
        (lo, hi)
    }

    /// The place of the table `[[x1, x2], ..]` in the flat array.
    pub fn cell_index(&self, x1: u64, x2: u64) -> (i: usize)
        requires
            self.wf(),
            self.contains(x1 as int, x2 as int),
        ensures
            i == self.index_of(x1 as int, x2 as int),
            i < self.cells(),
    {
        proof {
            self.lemma_sides_fit();
            self.lemma_index_in_range(x1 as int, x2 as int);
            assert(x2 * (self.col1 + 1) <= self.index_of(x1 as int, x2 as int));
        }
        let n1 = self.col1 as usize + 1;
        (x2 as usize) * n1 + (x1 as usize)
    }

    proof fn lemma_index_in_range(self, x1: int, x2: int)
        requires
            self.contains(x1, x2),
        ensures
            0 <= self.index_of(x1, x2) < self.cells(),
    {
        let n = self.col1 + 1;
        let m = self.col2 + 1;
        assert(0 <= x2 * n <= (m - 1) * n) by (nonlinear_arith)
            requires
                0 <= x2 <= m - 1,
                n >= 1,
        ;
        assert((m - 1) * n + n == m * n) by (nonlinear_arith);
    }

    /// The diagonals partition the space: every table lies on the diagonal
    /// of its own sum `x1 + x2`, inside that diagonal's range, and every
    /// point of a diagonal's range is a table of the space. Walking the
    /// diagonals `0..=N` thus visits each table exactly once.
    pub proof fn lemma_diagonals_partition(self)
        requires
            self.wf(),
        ensures
            forall|x1: int, x2: int|
                #[trigger] self.contains(x1, x2) ==> 0 <= x1 + x2 <= self.grand_total()
                    && self.on_diagonal(x1 + x2, x1),
            forall|s: int, x1: int|
                0 <= s <= self.grand_total() && #[trigger] self.on_diagonal(s, x1)
                    ==> self.contains(x1, s - x1),
    {
    }

    /// The flat indices number the tables one-to-one onto `0..cells`.
    pub proof fn lemma_cell_index_bijective(self)
        requires
            self.wf(),
        ensures
            forall|x1: int, x2: int|
                #[trigger] self.contains(x1, x2) ==> 0 <= self.index_of(x1, x2) < self.cells()
                    && self.table_at(self.index_of(x1, x2)) == (x1, x2),
            forall|i: int|
                0 <= i < self.cells() ==> {
                    let t = #[trigger] self.table_at(i);
                    self.contains(t.0, t.1) && self.index_of(t.0, t.1) == i
                },
    {
        let n = self.col1 + 1;
        assert forall|x1: int, x2: int| #[trigger] self.contains(x1, x2) implies 0
            <= self.index_of(x1, x2) < self.cells() && self.table_at(self.index_of(x1, x2)) == (
            x1,
            x2,
        ) by {
            self.lemma_index_in_range(x1, x2);
            lemma_fundamental_div_mod_converse(self.index_of(x1, x2), n, x2, x1);
        }
        assert forall|i: int| 0 <= i < self.cells() implies {
            let t = #[trigger] self.table_at(i);
            self.contains(t.0, t.1) && self.index_of(t.0, t.1) == i
        } by {
            lemma_fundamental_div_mod(i, n);
            lemma_mod_bound(i, n);
            let q = i / n;
            let r = i % n;
            let m = self.col2 + 1;
            assert(0 <= q < m) by (nonlinear_arith)
                requires
                    i == n * q + r,
                    0 <= r < n,
                    0 <= i < m * n,
                    n >= 1,
            ;
            assert(q * n == n * q) by (nonlinear_arith);
        }
    }

    /// Conditioned on the diagonal `x1 + x2 == s`, `x1` follows
    /// `Hypergeom(N, s, col1)` and `x2` follows `Hypergeom(N, s, col2)`; each
    /// has mass exactly at the tables of the diagonal. The Fisher p-value of
    /// every table on a diagonal is thus read from one CDF row over its support.
    pub proof fn lemma_diagonal_is_hypergeom_support(self, s: int)
        requires
            self.wf(),
            0 <= s <= self.grand_total(),
        ensures
            forall|k: int|
                #[trigger] hypergeom_mass_nonzero(k, self.grand_total(), s, self.col1 as int)
                    <==> self.on_diagonal(s, k),
            forall|k: int|
                #[trigger] hypergeom_mass_nonzero(k, self.grand_total(), s, self.col2 as int)
                    <==> self.on_diagonal(s, s - k),
    {
    }
}

} // verus!
