//! The candidate engine: for each blank cell, the digits that none of its
//! peers holds.

use vstd::prelude::*;
use crate::grid::{block, block_values, col_values, column, contains_value, is_grid};

verus! {

/// The candidate digits of one blank cell.
pub struct CellCandidates {
    pub row_index: usize,
    pub col_index: usize,
    pub values: Vec<i32>,
}

/// What the contracts see of a [`CellCandidates`].
pub struct Candidate {
    pub row: int,
    pub col: int,
    pub values: Seq<i32>,
}

impl View for CellCandidates {
    type V = Candidate;

    open spec fn view(&self) -> Candidate {
        Candidate { row: self.row_index as int, col: self.col_index as int, values: self.values@ }
    }
}

/// The model of a candidate list.
pub open spec fn model(l: Seq<CellCandidates>) -> Seq<Candidate> {
    l.map_values(|x: CellCandidates| x@)
}

/// Digit `d` stands in the row, the column or the block of `(r, c)`.
pub open spec fn used_by_peers(g: Seq<Seq<i32>>, r: int, c: int, d: i32) -> bool {
    g[r].contains(d) || column(g, c).contains(d) || block(g, r, c).contains(d)
}

/// The digits `1..=n`, ascending, that no peer of `(r, c)` holds.
pub open spec fn free_digits(g: Seq<Seq<i32>>, r: int, c: int, n: int) -> Seq<i32>
    decreases n,
{
    if n <= 0 {
        seq![]
    } else if used_by_peers(g, r, c, n as i32) {
        free_digits(g, r, c, n - 1)
    } else {
        free_digits(g, r, c, n - 1).push(n as i32)
    }
}

/// The candidate set of cell `(r, c)`.
pub open spec fn usable_digits(g: Seq<Seq<i32>>, r: int, c: int) -> Seq<i32> {
    free_digits(g, r, c, 9)
}

/// The entries for the blank cells `(r, 0..c)`, left to right.
pub open spec fn row_candidates(g: Seq<Seq<i32>>, r: int, c: int) -> Seq<Candidate>
    decreases c,
{
    if c <= 0 {
        seq![]
    } else if g[r][c - 1] == 0 {
        row_candidates(g, r, c - 1).push(
            Candidate { row: r, col: c - 1, values: usable_digits(g, r, c - 1) },
        )
    } else {
        row_candidates(g, r, c - 1)
    }
}

/// The entries for the blank cells of rows `0..r`, in row-major order.
pub open spec fn rows_candidates(g: Seq<Seq<i32>>, r: int) -> Seq<Candidate>
    decreases r,
{
    if r <= 0 {
        seq![]
    } else {
        rows_candidates(g, r - 1) + row_candidates(g, r - 1, 9)
    }
}

/// One entry per blank cell, in row-major order, with its candidate set.
pub open spec fn candidates(g: Seq<Seq<i32>>) -> Seq<Candidate> {
    rows_candidates(g, 9)
}

/// Each value is a digit.
pub open spec fn all_digits(s: Seq<i32>) -> bool {
    forall|k: int| 0 <= k < s.len() ==> 1 <= #[trigger] s[k] <= 9
}

/// Each entry names a blank cell of `g` and lists that cell's candidate set.
pub open spec fn entries_on_blanks(g: Seq<Seq<i32>>, l: Seq<Candidate>) -> bool {
    forall|i: int|
        0 <= i < l.len() ==> {
            &&& 0 <= (#[trigger] l[i]).row < 9
            &&& 0 <= l[i].col < 9
            &&& g[l[i].row][l[i].col] == 0
            &&& all_digits(l[i].values)
            &&& l[i].values == usable_digits(g, l[i].row, l[i].col)
        }
}

pub proof fn lemma_free_digits(g: Seq<Seq<i32>>, r: int, c: int, n: int)
    requires
        n <= 9,
    ensures
        all_digits(free_digits(g, r, c, n)),
        forall|k: int|
            0 <= k < free_digits(g, r, c, n).len() ==> !used_by_peers(
                g,
                r,
                c,
                #[trigger] free_digits(g, r, c, n)[k],
            ),
    decreases n,
{
    if n > 0 {
        lemma_free_digits(g, r, c, n - 1);
    }
}

pub proof fn lemma_row_candidates(g: Seq<Seq<i32>>, r: int, c: int)
    requires
        0 <= r < 9,
        c <= 9,
    ensures
        entries_on_blanks(g, row_candidates(g, r, c)),
    decreases c,
{
    if c > 0 {
        lemma_row_candidates(g, r, c - 1);
        lemma_free_digits(g, r, c - 1, 9);
    }
}

/// Every entry of the candidate list names a blank cell and lists digits.
pub proof fn lemma_candidates_on_blanks(g: Seq<Seq<i32>>)
    ensures
        entries_on_blanks(g, candidates(g)),
{
    lemma_rows_candidates(g, 9);
}

proof fn lemma_rows_candidates(g: Seq<Seq<i32>>, r: int)
    requires
        r <= 9,
    ensures
        entries_on_blanks(g, rows_candidates(g, r)),
    decreases r,
{
    if r > 0 {
        lemma_rows_candidates(g, r - 1);
        lemma_row_candidates(g, r - 1, 9);
        let a = rows_candidates(g, r - 1);
        let b = row_candidates(g, r - 1, 9);
        assert forall|i: int| 0 <= i < (a + b).len() implies {
            &&& 0 <= (#[trigger] (a + b)[i]).row < 9
            &&& 0 <= (a + b)[i].col < 9
            &&& g[(a + b)[i].row][(a + b)[i].col] == 0
            &&& all_digits((a + b)[i].values)
            &&& (a + b)[i].values == usable_digits(g, (a + b)[i].row, (a + b)[i].col)
        } by {
            if i < a.len() {
                assert((a + b)[i] == a[i]);
            } else {
                assert((a + b)[i] == b[i - a.len()]);
            }
        }
    }
}

/// The candidate set of the blank cell `(r, c)`: the digits `1..=9`, in
/// ascending order, that its row, column and block do not hold.
fn usable_values(lines: &Vec<Vec<i32>>, r: usize, c: usize) -> (values: Vec<i32>)
    requires
        is_grid(lines.deep_view()),
        r < 9,
        c < 9,
    ensures
        values@ == usable_digits(lines.deep_view(), r as int, c as int),
{
    let ghost g = lines.deep_view();
    let row = &lines[r];
    assert(row@ == g[r as int]);
    let col = col_values(lines, c);
    let blk = block_values(lines, r, c);
    let mut values: Vec<i32> = Vec::new();
    let mut d: i32 = 1;
    while d <= 9
        invariant
            1 <= d <= 10,
            row@ == g[r as int],
            col@ == column(g, c as int),
            blk@ == block(g, r as int, c as int),
            values@ == free_digits(g, r as int, c as int, d - 1),
        decreases 10 - d,
    {
        if !contains_value(row, d) && !contains_value(&col, d) && !contains_value(&blk, d) {
            values.push(d);
        }
        d += 1;
    }
    values
}

/// One entry per blank cell, in row-major order, each with the digits that
/// the cell's row, column and block leave free.
pub fn fetch_usable_values(lines: &Vec<Vec<i32>>) -> (cells: Vec<CellCandidates>)
    requires
        is_grid(lines.deep_view()),
    ensures
        model(cells@) == candidates(lines.deep_view()),
{
    let ghost g = lines.deep_view();
    let mut cells: Vec<CellCandidates> = Vec::new();
    let mut r: usize = 0;
    while r < 9
        invariant
            g == lines.deep_view(),
            is_grid(g),
            r <= 9,
            model(cells@) =~= rows_candidates(g, r as int),
        decreases 9 - r,
    {
        let ghost before = model(cells@);
        let row = &lines[r];
        assert(row@ == g[r as int]);
        let mut c: usize = 0;
        while c < 9
            invariant
                g == lines.deep_view(),
                is_grid(g),
                r < 9,
                c <= 9,
                row@ == g[r as int],
                before == rows_candidates(g, r as int),
                model(cells@) =~= before + row_candidates(g, r as int, c as int),
            decreases 9 - c,
        {
            if row[c] == 0 {
                let values = usable_values(lines, r, c);
                let ghost prev = model(cells@);
                cells.push(CellCandidates { row_index: r, col_index: c, values });
                assert(model(cells@) =~= prev.push(cells@.last()@));
            }
            c += 1;
        }
        r += 1;
    }
    cells
}

} // verus!
