//! The validator: a filled grid whose rows, columns and blocks each hold
//! nine distinct values.

use vstd::prelude::*;
use crate::grid::{
    band, blank_count, block, block_rows, block_values, cells_in_range, col_values, column,
    count_zero, has_blank, is_grid, lemma_blank_count_positive, same_block,
};

verus! {

/// Every row, every column and every block holds nine distinct values, and
/// no cell is blank.
pub open spec fn solved(g: Seq<Seq<i32>>) -> bool {
    &&& forall|r: int| 0 <= r < 9 ==> (#[trigger] g[r]).no_duplicates()
    &&& forall|c: int| 0 <= c < 9 ==> (#[trigger] column(g, c)).no_duplicates()
    &&& forall|r: int, c: int| 0 <= r < 9 && 0 <= c < 9 ==> (#[trigger] block(g, r, c)).no_duplicates()
    &&& blank_count(g) == 0
}

/// Two distinct cells share a row, a column or a block.
pub open spec fn peers(r1: int, c1: int, r2: int, c2: int) -> bool {
    !(r1 == r2 && c1 == c2) && (r1 == r2 || c1 == c2 || same_block(r1, c1, r2, c2))
}

/// No two peer cells hold the same digit (blanks aside).
pub open spec fn peers_distinct(g: Seq<Seq<i32>>) -> bool {
    forall|r1: int, c1: int, r2: int, c2: int|
        0 <= r1 < g.len() && 0 <= c1 < 9 && 0 <= r2 < g.len() && 0 <= c2 < 9 && peers(r1, c1, r2, c2)
            && #[trigger] g[r1][c1] != 0 ==> g[r1][c1] != #[trigger] g[r2][c2]
}

/// Every cell holds a digit `1..=9`.
pub open spec fn filled(g: Seq<Seq<i32>>) -> bool {
    forall|r: int, c: int| 0 <= r < 9 && 0 <= c < 9 ==> 1 <= #[trigger] g[r][c] <= 9
}

/// A complete, valid grid, whose every row, column and block holds each of
/// the digits 1 to 9 once, is solved and has no blank.
pub proof fn lemma_complete_grid_is_solved(g: Seq<Seq<i32>>)
    requires
        is_grid(g),
        filled(g),
        peers_distinct(g),
    ensures
        solved(g),
        blank_count(g) == 0,
{
    assert forall|r: int| 0 <= r < 9 implies (#[trigger] g[r]).no_duplicates() by {
        assert forall|i: int, j: int| 0 <= i < g[r].len() && 0 <= j < g[r].len() && i != j
            implies g[r][i] != g[r][j] by {
            assert(peers(r, i, r, j));
            assert(g[r][i] != 0);
        }
    }
    assert forall|c: int| 0 <= c < 9 implies (#[trigger] column(g, c)).no_duplicates() by {
        assert forall|i: int, j: int| 0 <= i < column(g, c).len() && 0 <= j < column(g, c).len() && i != j
            implies column(g, c)[i] != column(g, c)[j] by {
            assert(peers(i, c, j, c));
            assert(g[i][c] != 0);
        }
    }
    assert forall|r: int, c: int| 0 <= r < 9 && 0 <= c < 9 implies (#[trigger] block(g, r, c)).no_duplicates() by {
        let b = block(g, r, c);
        assert(block_rows(g, r) == 3);
        assert forall|i: int, j: int| 0 <= i < b.len() && 0 <= j < b.len() && i != j
            implies b[i] != b[j] by {
            let (r1, c1) = (band(r) + i / 3, band(c) + i % 3);
            let (r2, c2) = (band(r) + j / 3, band(c) + j % 3);
            assert(peers(r1, c1, r2, c2));
            assert(g[r1][c1] != 0);
        }
    }
    if has_blank(g) {
        let (r, c) = choose|r: int, c: int| 0 <= r < g.len() && 0 <= c < g[r].len() && #[trigger] g[r][c] == 0;
        assert(1 <= g[r][c]);
    }
    lemma_blank_count_positive(g);
}

/// A full-size grid whose peers never repeat a digit and that has no blank
/// is solved.
pub proof fn lemma_valid_filled_grid_is_solved(g: Seq<Seq<i32>>)
    requires
        is_grid(g),
        cells_in_range(g),
        peers_distinct(g),
        blank_count(g) == 0,
    ensures
        solved(g),
{
    lemma_blank_count_positive(g);
    assert forall|r: int, c: int| 0 <= r < 9 && 0 <= c < 9 implies 1 <= #[trigger] g[r][c] <= 9 by {
        if g[r][c] == 0 {
            assert(has_blank(g));
        }
    }
    lemma_complete_grid_is_solved(g);
}

/// Whether the values are pairwise distinct.
fn all_distinct(values: &Vec<i32>) -> (r: bool)
    ensures
        r == values@.no_duplicates(),
{
    let mut i: usize = 0;
    while i < values.len()
        invariant
            i <= values.len(),
            forall|a: int, b: int| 0 <= a < i && 0 <= b < values.len() && a != b ==> values@[a] != values@[b],
        decreases values.len() - i,
    {
        let mut j: usize = 0;
        while j < values.len()
            invariant
                i < values.len(),
                j <= values.len(),
                forall|a: int, b: int| 0 <= a < i && 0 <= b < values.len() && a != b ==> values@[a] != values@[b],
                forall|b: int| 0 <= b < j && i != b ==> values@[i as int] != values@[b],
            decreases values.len() - j,
        {
            if i != j && values[i] == values[j] {
                return false;
            }
            j += 1;
        }
        i += 1;
    }
    true
}

/// Whether every row, every column and every block holds nine distinct
/// values and no cell is blank.
pub fn check_solved(lines: &Vec<Vec<i32>>) -> (is_solved: bool)
    requires
        is_grid(lines.deep_view()),
    ensures
        is_solved == solved(lines.deep_view()),
{
    let ghost g = lines.deep_view();
    let mut row_index: usize = 0;
    while row_index < 9
        invariant
            g == lines.deep_view(),
            is_grid(g),
            row_index <= 9,
            forall|r: int| 0 <= r < row_index ==> (#[trigger] g[r]).no_duplicates(),
            forall|r: int, c: int| 0 <= r < row_index && 0 <= c < 9 ==> (#[trigger] block(g, r, c)).no_duplicates(),
            row_index > 0 ==> forall|c: int| 0 <= c < 9 ==> (#[trigger] column(g, c)).no_duplicates(),
        decreases 9 - row_index,
    {
        assert(g[row_index as int] == lines@[row_index as int]@);
        if !all_distinct(&lines[row_index]) {
            return false;
        }
        let mut col_index: usize = 0;
        while col_index < 9
            invariant
                g == lines.deep_view(),
                is_grid(g),
                row_index < 9,
                col_index <= 9,
                forall|c: int| 0 <= c < col_index ==> (#[trigger] column(g, c)).no_duplicates(),
                forall|c: int| 0 <= c < col_index ==> (#[trigger] block(g, row_index as int, c)).no_duplicates(),
            decreases 9 - col_index,
        {
            let col = col_values(lines, col_index);
            if !all_distinct(&col) {
                return false;
            }
            let blk = block_values(lines, row_index, col_index);
            if !all_distinct(&blk) {
                return false;
            }
            col_index += 1;
        }
        row_index += 1;
    }
    count_zero(lines) == 0
}

} // verus!
