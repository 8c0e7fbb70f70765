//! The grid model: rows, columns, 3x3 blocks and blank counting.

use vstd::prelude::*;

verus! {

/// Every row of `g` has nine cells.
pub open spec fn rows_of_nine(g: Seq<Seq<i32>>) -> bool {
    forall|r: int| 0 <= r < g.len() ==> (#[trigger] g[r]).len() == 9
}

/// Up to nine rows of nine cells: a full grid, or one built row by row.
pub open spec fn partial_grid(g: Seq<Seq<i32>>) -> bool {
    g.len() <= 9 && rows_of_nine(g)
}

/// Nine rows of nine cells.
pub open spec fn is_grid(g: Seq<Seq<i32>>) -> bool {
    g.len() == 9 && rows_of_nine(g)
}

/// Every cell holds a blank or a digit.
pub open spec fn cells_in_range(g: Seq<Seq<i32>>) -> bool {
    forall|r: int, c: int|
        0 <= r < g.len() && 0 <= c < g[r].len() ==> 0 <= #[trigger] g[r][c] <= 9
}

/// The cells of column `c`, top to bottom.
pub open spec fn column(g: Seq<Seq<i32>>, c: int) -> Seq<i32> {
    Seq::new(g.len(), |r: int| g[r][c])
}

/// The first index of the three-wide band that holds index `i`.
pub open spec fn band(i: int) -> int {
    (i / 3) * 3
}

/// Two cells lie in the same 3x3 block.
pub open spec fn same_block(r1: int, c1: int, r2: int, c2: int) -> bool {
    r1 / 3 == r2 / 3 && c1 / 3 == c2 / 3
}

/// How many rows of the block band of row `r` are present in `g`.
pub open spec fn block_rows(g: Seq<Seq<i32>>, r: int) -> int {
    if g.len() <= band(r) {
        0
    } else if g.len() - band(r) >= 3 {
        3
    } else {
        g.len() - band(r)
    }
}

/// The cells of the block holding `(r, c)`, row by row, over the rows present.
pub open spec fn block(g: Seq<Seq<i32>>, r: int, c: int) -> Seq<i32> {
    Seq::new((3 * block_rows(g, r)) as nat, |k: int| g[band(r) + k / 3][band(c) + k % 3])
}

/// The number of blanks in a row.
pub open spec fn zeros(s: Seq<i32>) -> nat
    decreases s.len(),
{
    if s.len() == 0 {
        0
    } else {
        zeros(s.drop_last()) + if s.last() == 0 {
            1nat
        } else {
            0nat
        }
    }
}

/// The number of blanks in a grid.
pub open spec fn blank_count(g: Seq<Seq<i32>>) -> nat
    decreases g.len(),
{
    if g.len() == 0 {
        0
    } else {
        blank_count(g.drop_last()) + zeros(g.last())
    }
}

/// Some cell of `g` is blank.
pub open spec fn has_blank(g: Seq<Seq<i32>>) -> bool {
    exists|r: int, c: int| 0 <= r < g.len() && 0 <= c < g[r].len() && #[trigger] g[r][c] == 0
}

/// `g` with cell `(r, c)` set to `v`.
pub open spec fn with_cell(g: Seq<Seq<i32>>, r: int, c: int, v: i32) -> Seq<Seq<i32>> {
    g.update(r, g[r].update(c, v))
}

pub proof fn lemma_zeros_bound(s: Seq<i32>)
    ensures
        zeros(s) <= s.len(),
    decreases s.len(),
{
    if s.len() > 0 {
        lemma_zeros_bound(s.drop_last());
    }
}

/// A row has a blank exactly when its blank count is positive.
pub proof fn lemma_zeros_positive(s: Seq<i32>)
    ensures
        zeros(s) > 0 <==> exists|c: int| 0 <= c < s.len() && s[c] == 0,
    decreases s.len(),
{
    if s.len() > 0 {
        let t = s.drop_last();
        lemma_zeros_positive(t);
        if zeros(t) > 0 {
            let c = choose|c: int| 0 <= c < t.len() && t[c] == 0;
            assert(s[c] == 0);
        }
        if exists|c: int| 0 <= c < s.len() && s[c] == 0 {
            let c = choose|c: int| 0 <= c < s.len() && s[c] == 0;
            if c < t.len() {
                assert(t[c] == 0);
            }
        }
    }
}

pub proof fn lemma_blank_count_bound(g: Seq<Seq<i32>>)
    requires
        rows_of_nine(g),
    ensures
        blank_count(g) <= 9 * g.len(),
    decreases g.len(),
{
    if g.len() > 0 {
        assert(rows_of_nine(g.drop_last()));
        lemma_blank_count_bound(g.drop_last());
        lemma_zeros_bound(g.last());
    }
}

/// A grid has a blank exactly when its blank count is positive.
pub proof fn lemma_blank_count_positive(g: Seq<Seq<i32>>)
    ensures
        blank_count(g) > 0 <==> has_blank(g),
    decreases g.len(),
{
    if g.len() > 0 {
        let t = g.drop_last();
        lemma_blank_count_positive(t);
        lemma_zeros_positive(g.last());
        if has_blank(t) {
            let (r, c) = choose|r: int, c: int|
                0 <= r < t.len() && 0 <= c < t[r].len() && #[trigger] t[r][c] == 0;
            assert(g[r][c] == 0);
        }
        if zeros(g.last()) > 0 {
            let c = choose|c: int| 0 <= c < g.last().len() && g.last()[c] == 0;
            assert(g[g.len() - 1][c] == 0);
        }
        if has_blank(g) {
            let (r, c) = choose|r: int, c: int|
                0 <= r < g.len() && 0 <= c < g[r].len() && #[trigger] g[r][c] == 0;
            if r < t.len() {
                assert(t[r][c] == 0);
            }
        }
    }
}

/// Setting one cell changes the row's blank count by at most that cell.
pub proof fn lemma_zeros_update(s: Seq<i32>, c: int, v: i32)
    requires
        0 <= c < s.len(),
    ensures
        zeros(s.update(c, v)) + (if s[c] == 0 { 1int } else { 0int }) == zeros(s) + (if v == 0 {
            1int
        } else {
            0int
        }),
    decreases s.len(),
{
    let u = s.update(c, v);
    if c == s.len() - 1 {
        assert(u.drop_last() =~= s.drop_last());
    } else {
        assert(u.drop_last() =~= s.drop_last().update(c, v));
        lemma_zeros_update(s.drop_last(), c, v);
    }
}

/// Setting one cell changes the grid's blank count by at most that cell.
pub proof fn lemma_blank_count_update(g: Seq<Seq<i32>>, r: int, c: int, v: i32)
    requires
        0 <= r < g.len(),
        0 <= c < g[r].len(),
    ensures
        blank_count(with_cell(g, r, c, v)) + (if g[r][c] == 0 { 1int } else { 0int })
            == blank_count(g) + (if v == 0 { 1int } else { 0int }),
    decreases g.len(),
{
    let u = with_cell(g, r, c, v);
    lemma_zeros_update(g[r], c, v);
    if r == g.len() - 1 {
        assert(u.drop_last() =~= g.drop_last());
    } else {
        assert(u.drop_last() =~= with_cell(g.drop_last(), r, c, v));
        lemma_blank_count_update(g.drop_last(), r, c, v);
    }
}

/// The cells of column `col_index`, top to bottom.
pub fn col_values(lines: &Vec<Vec<i32>>, col_index: usize) -> (values: Vec<i32>)
    requires
        rows_of_nine(lines.deep_view()),
        col_index < 9,
    ensures
        values@ == column(lines.deep_view(), col_index as int),
{
    let ghost g = lines.deep_view();
    let mut values: Vec<i32> = Vec::new();
    let mut i: usize = 0;
    while i < lines.len()
        invariant
            g == lines.deep_view(),
            rows_of_nine(g),
            col_index < 9,
            i <= lines.len(),
            values@ =~= column(g, col_index as int).subrange(0, i as int),
        decreases lines.len() - i,
    {
        assert(g[i as int] == lines[i as int]@);
        values.push(lines[i][col_index]);
        i += 1;
    }
    values
}

/// The cells of the 3x3 block that holds `(row_index, col_index)`, row by
/// row. Rows of the block that `lines` does not have yet are skipped.
pub fn block_values(lines: &Vec<Vec<i32>>, row_index: usize, col_index: usize) -> (values: Vec<
    i32,
>)
    requires
        rows_of_nine(lines.deep_view()),
        row_index < 9,
        col_index < 9,
    ensures
        values@ == block(lines.deep_view(), row_index as int, col_index as int),
{
    let ghost g = lines.deep_view();
    let ghost want = block(g, row_index as int, col_index as int);
    let first_row: usize = row_index / 3 * 3;
    let first_col: usize = col_index / 3 * 3;
    let mut values: Vec<i32> = Vec::new();
    let mut row: usize = first_row;
    while row < first_row + 3
        invariant
            g == lines.deep_view(),
            rows_of_nine(g),
            row_index < 9,
            col_index < 9,
            first_row == band(row_index as int),
            first_col == band(col_index as int),
            want == block(g, row_index as int, col_index as int),
            first_row <= row <= first_row + 3,
            row <= lines.len() || row == first_row,
            values@ =~= want.subrange(0, 3 * (row - first_row)),
        ensures
            first_row <= row <= first_row + 3,
            row <= lines.len() || row == first_row,
            row == first_row + 3 || lines.len() <= row,
            values@ =~= want.subrange(0, 3 * (row - first_row)),
        decreases first_row + 3 - row,
    {
        if lines.len() <= row {
            break;
        }
        let ghost base = values@;
        assert(g[row as int] == lines[row as int]@);
        let mut col: usize = first_col;
        while col < first_col + 3
            invariant
                g == lines.deep_view(),
                rows_of_nine(g),
                row < lines.len(),
                col_index < 9,
                first_row <= row < first_row + 3,
                first_col == band(col_index as int),
                first_col <= col <= first_col + 3,
                want == block(g, row_index as int, col_index as int),
                first_row == band(row_index as int),
                g[row as int] == lines[row as int]@,
                3 * (row - first_row) + 3 <= want.len(),
                base =~= want.subrange(0, 3 * (row - first_row)),
                values@ =~= want.subrange(0, 3 * (row - first_row) + (col - first_col)),
            decreases first_col + 3 - col,
        {
            let ghost k = 3 * (row - first_row) + (col - first_col);
            assert(k / 3 == row - first_row && k % 3 == col - first_col);
            values.push(lines[row][col]);
            col += 1;
        }
        row += 1;
    }
    assert(values@ =~= want);
    values
}

/// The number of blank cells.
pub fn count_zero(lines: &Vec<Vec<i32>>) -> (zero_count: usize)
    requires
        partial_grid(lines.deep_view()),
    ensures
        zero_count == blank_count(lines.deep_view()),
{
    let ghost g = lines.deep_view();
    let mut zero_count: usize = 0;
    let mut i: usize = 0;
    while i < lines.len()
        invariant
            g == lines.deep_view(),
            partial_grid(g),
            i <= lines.len(),
            zero_count == blank_count(g.subrange(0, i as int)),
        decreases lines.len() - i,
    {
        let ghost done = g.subrange(0, i as int);
        assert(g.subrange(0, i + 1).drop_last() =~= done);
        assert(rows_of_nine(done));
        proof {
            lemma_blank_count_bound(done);
        }
        let row = &lines[i];
        assert(row@ == g[i as int]);
        let mut j: usize = 0;
        while j < row.len()
            invariant
                row.len() == 9,
                j <= row.len(),
                i < 9,
                zero_count == blank_count(done) + zeros(row@.subrange(0, j as int)),
                blank_count(done) <= 9 * i,
            decreases row.len() - j,
        {
            assert(row@.subrange(0, j + 1).drop_last() =~= row@.subrange(0, j as int));
            proof {
                lemma_zeros_bound(row@.subrange(0, j as int));
            }
            if row[j] == 0 {
                zero_count += 1;
            }
            j += 1;
        }
        assert(row@.subrange(0, j as int) =~= row@);
        assert(g.subrange(0, i + 1).last() == g[i as int]);
        i += 1;
    }
    assert(g.subrange(0, i as int) =~= g);
    zero_count
}

/// Whether some cell is blank.
pub fn contains_zero(lines: &Vec<Vec<i32>>) -> (zero_exists: bool)
    ensures
        zero_exists == has_blank(lines.deep_view()),
{
    let ghost g = lines.deep_view();
    let mut i: usize = 0;
    while i < lines.len()
        invariant
            g == lines.deep_view(),
            g.len() == lines.len(),
            i <= lines.len(),
            forall|r: int, c: int| 0 <= r < i && 0 <= c < g[r].len() ==> #[trigger] g[r][c] != 0,
        decreases lines.len() - i,
    {
        let row = &lines[i];
        assert(g.len() == lines.len());
        assert(row@ == g[i as int]);
        let mut j: usize = 0;
        while j < row.len()
            invariant
                row@ == g[i as int],
                g == lines.deep_view(),
                i < g.len(),
                j <= row.len(),
                forall|c: int| 0 <= c < j ==> row@[c] != 0,
            decreases row.len() - j,
        {
            if row[j] == 0 {
                assert(g[i as int][j as int] == 0);
                assert(has_blank(g));
                return true;
            }
            j += 1;
        }
        assert forall|c: int| 0 <= c < g[i as int].len() implies #[trigger] g[i as int][c] != 0 by {
            assert(row@[c] != 0);
        }
        i += 1;
    }
    false
}

/// Whether `v` occurs in `values`.
pub fn contains_value(values: &Vec<i32>, v: i32) -> (found: bool)
    ensures
        found == values@.contains(v),
{
    let mut i: usize = 0;
    while i < values.len()
        invariant
            i <= values.len(),
            forall|k: int| 0 <= k < i ==> values@[k] != v,
        decreases values.len() - i,
    {
        if values[i] == v {
            return true;
        }
        i += 1;
    }
    false
}

/// Sets cell `(r, c)` to `v`.
pub fn set_cell(lines: &mut Vec<Vec<i32>>, r: usize, c: usize, v: i32)
    requires
        r < old(lines).len(),
        c < old(lines)[r as int].len(),
    ensures
        final(lines).deep_view() == with_cell(old(lines).deep_view(), r as int, c as int, v),
{
    let mut row = lines[r].clone();
    assert(row@ =~= old(lines)[r as int]@);
    row.set(c, v);
    lines.set(r, row);
    let ghost want = with_cell(old(lines).deep_view(), r as int, c as int, v);
    assert forall|k: int| 0 <= k < lines.len() implies lines.deep_view()[k] == want[k] by {
        assert(lines.deep_view()[k] == lines[k]@);
        assert(old(lines).deep_view()[k] == old(lines)[k]@);
    }
    assert(lines.deep_view() =~= want);
}

} // verus!
