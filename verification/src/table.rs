//! Reading a 2x2 table `[[a, b], [c, d]]` written as `a,b,c,d`.

use vstd::prelude::*;
use crate::text::{
    bounds_cut, chars_of, decimal_text, decimal_u64, lemma_decimal_text_reads_back,
    lemma_split_pieces_concat, lemma_split_pieces_single, piece_bounds, read_decimal,
    split_pieces, trim_bounds, trim_white_space,
};

verus! {

/// Why a table spec could not be read.
#[derive(Debug, PartialEq, Eq)]
pub enum TableError {
    /// The spec does not hold exactly four comma-separated cells; the spec as given.
    WrongCellCount(String),
    /// A cell is not a nonnegative integer that fits in 64 bits; the cell as written.
    NotACount(String),
}

/// The comma-separated cells of a table spec.
pub open spec fn table_cells(s: Seq<char>) -> Seq<Seq<char>> {
    split_pieces(s, ',')
}

/// The count that one cell holds: its decimal value once surrounding
/// whitespace is trimmed.
pub open spec fn cell_count(cell: Seq<char>) -> Option<u64> {
    decimal_u64(trim_white_space(cell))
}

/// Whether the cells before index `k` all hold counts.
pub open spec fn counts_before(cells: Seq<Seq<char>>, k: int) -> bool {
    forall|j: int| 0 <= j < k ==> #[trigger] cell_count(cells[j]) is Some
}

/// Whether `s` reads as a table: four cells, each holding a count.
pub open spec fn is_table_spec(s: Seq<char>) -> bool {
    table_cells(s).len() == 4 && counts_before(table_cells(s), 4)
}

/// Whether `r` is what reading the table spec `s` gives: the four counts
/// when `s` is a table spec, else the error that names the first fault.
pub open spec fn reads_table(s: Seq<char>, r: Result<(u64, u64, u64, u64), TableError>) -> bool {
    let cells = table_cells(s);
    &&& r is Ok <==> is_table_spec(s)
    &&& r matches Ok((a, b, c, d)) ==> {
        &&& cell_count(cells[0]) == Some(a)
        &&& cell_count(cells[1]) == Some(b)
        &&& cell_count(cells[2]) == Some(c)
        &&& cell_count(cells[3]) == Some(d)
    }
    &&& r matches Err(TableError::WrongCellCount(given)) ==> cells.len() != 4 && given@ == s
    &&& r matches Err(TableError::NotACount(cell)) ==> cells.len() == 4 && exists|k: int|
        0 <= k < 4 && counts_before(cells, k) && #[trigger] cell_count(cells[k]) is None
            && cell@ == cells[k]
}

/// Parse a `a,b,c,d` table spec into nonnegative counts.
///
/// The spec is cut at every comma; exactly four cells must come out, and each,
/// once surrounding whitespace is trimmed, must be an optional `+` and decimal
/// digits whose value fits in a `u64`. The first cell that does not read is
/// the one reported.
pub fn parse_table(spec: &str) -> (r: Result<(u64, u64, u64, u64), TableError>)
    ensures
        reads_table(spec@, r),
{
    let cs = chars_of(spec);
    let bounds = piece_bounds(&cs, ',');
    let ghost cells = table_cells(spec@);
    if bounds.len() != 4 {
        return Err(TableError::WrongCellCount(spec.to_owned()));
    }
    let mut counts: Vec<u64> = Vec::new();
    for k in 0..4usize
        invariant
            bounds.len() == 4,
            cells.len() == 4,
            cs@ == spec@,
            cells == split_pieces(cs@, ','),
            bounds_cut(cs@, bounds@, cells, cs.len() as int),
            counts.len() == k,
            forall|j: int| 0 <= j < k ==> cell_count(cells[j]) == Some(#[trigger] counts[j]),
    {
        let (lo, hi) = bounds[k];
        assert(bounds@[k as int] == (lo, hi));
        let (a, b) = trim_bounds(&cs, lo, hi);
        match read_decimal(&cs, a, b) {
            Some(v) => {
                counts.push(v);
            },
            None => {
                proof {
                    assert(cell_count(cells[k as int]) is None);
                    assert(counts_before(cells, k as int)) by {
                        assert forall|j: int| 0 <= j < k implies #[trigger] cell_count(
                            cells[j],
                        ) is Some by {
                            assert(cell_count(cells[j]) == Some(counts[j]));
                        }
                    }
                    assert(!counts_before(cells, 4));
                }
                return Err(TableError::NotACount(spec.substring_char(lo, hi).to_owned()));
            },
        }
    }
    proof {
        assert(counts_before(cells, 4)) by {
            assert forall|j: int| 0 <= j < 4 implies #[trigger] cell_count(cells[j]) is Some by {
                assert(cell_count(cells[j]) == Some(counts[j]));
            }
        }
    }
    Ok((counts[0], counts[1], counts[2], counts[3]))
}

/// The table `[[a, b], [c, d]]` written as `a,b,c,d` in plain decimal.
pub open spec fn written_table(a: u64, b: u64, c: u64, d: u64) -> Seq<char> {
    decimal_text(a as nat) + seq![','] + decimal_text(b as nat) + seq![','] + decimal_text(
        c as nat,
    ) + seq![','] + decimal_text(d as nat)
}

/// Reading a table gives back the counts it was written with: the spec
/// `a,b,c,d` in plain decimal reads as `(a, b, c, d)` for every four counts.
pub proof fn lemma_parse_table_reads_written(a: u64, b: u64, c: u64, d: u64)
    ensures
        reads_table(written_table(a, b, c, d), Ok((a, b, c, d))),
{
    let ta = decimal_text(a as nat);
    let tb = decimal_text(b as nat);
    let tc = decimal_text(c as nat);
    let td = decimal_text(d as nat);
    lemma_decimal_text_reads_back(a);
    lemma_decimal_text_reads_back(b);
    lemma_decimal_text_reads_back(c);
    lemma_decimal_text_reads_back(d);
    lemma_split_pieces_single(ta, ',');
    lemma_split_pieces_single(tb, ',');
    lemma_split_pieces_single(tc, ',');
    lemma_split_pieces_single(td, ',');
    lemma_split_pieces_concat(ta + seq![','] + tb + seq![','] + tc, td, ',');
    lemma_split_pieces_concat(ta + seq![','] + tb, tc, ',');
    lemma_split_pieces_concat(ta, tb, ',');
    let cells = table_cells(written_table(a, b, c, d));
    assert(cells =~= seq![ta, tb, tc, td]);
    assert(counts_before(cells, 4)) by {
        assert forall|j: int| 0 <= j < 4 implies #[trigger] cell_count(cells[j]) is Some by {
            if j == 0 {
                assert(cells[j] == ta);
            } else if j == 1 {
                assert(cells[j] == tb);
            } else if j == 2 {
                assert(cells[j] == tc);
            } else {
                assert(cells[j] == td);
            }
        }
    }
}

} // verus!
