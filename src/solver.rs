//! The resolution step and the solve loop.

use vstd::prelude::*;
use crate::grid::{
    band, block, block_rows, cells_in_range, column, blank_count, contains_value, contains_zero, count_zero, has_blank, is_grid,
    lemma_blank_count_positive, lemma_blank_count_update, set_cell, with_cell,
};
use crate::candidates::{
    lemma_free_digits, used_by_peers, usable_digits, all_digits, candidates, fetch_usable_values, lemma_candidates_on_blanks, model, Candidate,
    CellCandidates,
};
use crate::validator::{peers, peers_distinct};
use crate::elimination::{
    block_peer, digit_entries, filter_anyhow_values, filter_reserved_values, lemma_pass_a_digits,
    lemma_pass_b_digits, lemma_pass_a_within, lemma_pass_b_within, pass_a, pass_b, selectable_values_in_block,
};

verus! {

/// The first entry at or after `i` with a single candidate.
pub open spec fn first_single(l: Seq<Candidate>, i: int) -> Option<int>
    decreases l.len() - i,
{
    if i >= l.len() {
        None
    } else if i >= 0 && l[i].values.len() == 1 {
        Some(i)
    } else if i >= 0 {
        first_single(l, i + 1)
    } else {
        None
    }
}

/// No other entry of `l[i]`'s row lists `v`.
pub open spec fn unique_in_row(l: Seq<Candidate>, i: int, v: i32) -> bool {
    forall|j: int|
        0 <= j < l.len() && l[j].row == l[i].row && l[j].col != l[i].col ==> !(
        #[trigger] l[j].values).contains(v)
}

/// No other entry of `l[i]`'s column lists `v`.
pub open spec fn unique_in_col(l: Seq<Candidate>, i: int, v: i32) -> bool {
    forall|j: int|
        0 <= j < l.len() && l[j].col == l[i].col && l[j].row != l[i].row ==> !(
        #[trigger] l[j].values).contains(v)
}

/// No other entry of `l[i]`'s block lists `v`.
pub open spec fn unique_in_block(l: Seq<Candidate>, i: int, v: i32) -> bool {
    forall|j: int|
        0 <= j < l.len() && block_peer(l, j, l[i].row, l[i].col) ==> !(
        #[trigger] l[j].values).contains(v)
}

/// The heuristic placement accepts `v` for entry `i`: its row, its column or
/// its block has no other entry listing `v`.
pub open spec fn forced(l: Seq<Candidate>, i: int, v: i32) -> bool {
    unique_in_row(l, i, v) || unique_in_col(l, i, v) || unique_in_block(l, i, v)
}

/// The first candidate of entry `i`, from position `p` on, that is forced.
pub open spec fn first_forced_value(l: Seq<Candidate>, i: int, p: int) -> Option<i32>
    decreases l[i].values.len() - p,
{
    if p < 0 || p >= l[i].values.len() {
        None
    } else if forced(l, i, l[i].values[p]) {
        Some(l[i].values[p])
    } else {
        first_forced_value(l, i, p + 1)
    }
}

/// The first entry at or after `i`, with its first forced candidate, that
/// has one.
pub open spec fn first_forced(l: Seq<Candidate>, i: int) -> Option<(int, i32)>
    decreases l.len() - i,
{
    if i < 0 || i >= l.len() {
        None
    } else {
        match first_forced_value(l, i, 0) {
            Some(v) => Some((i, v)),
            None => first_forced(l, i + 1),
        }
    }
}

/// The one placement of a resolution step: the first naked single, else the
/// first forced candidate, as an entry position and a digit.
pub open spec fn placement(l: Seq<Candidate>) -> Option<(int, i32)> {
    match first_single(l, 0) {
        Some(i) => Some((i, l[i].values[0])),
        None => first_forced(l, 0),
    }
}

/// The candidate list after both elimination passes.
pub open spec fn narrowed(g: Seq<Seq<i32>>) -> Seq<Candidate> {
    pass_b(pass_a(candidates(g)))
}

/// `g` after applying placement `p` of candidate list `l`.
pub open spec fn placed(g: Seq<Seq<i32>>, l: Seq<Candidate>, p: Option<(int, i32)>) -> Seq<Seq<i32>> {
    match p {
        Some((i, v)) => with_cell(g, l[i].row, l[i].col, v),
        None => g,
    }
}

/// One iteration of the solve loop: at most one blank cell filled.
pub open spec fn step(g: Seq<Seq<i32>>) -> Seq<Seq<i32>> {
    placed(g, narrowed(g), placement(narrowed(g)))
}

/// The solve loop run to its fixed point: iterate [`step`] while blanks
/// remain and the last iteration filled a cell.
pub open spec fn settle(g: Seq<Seq<i32>>) -> Seq<Seq<i32>>
    decreases blank_count(g),
{
    if blank_count(g) == 0 {
        g
    } else if blank_count(step(g)) < blank_count(g) {
        settle(step(g))
    } else {
        g
    }
}

proof fn lemma_first_single(l: Seq<Candidate>, i: int)
    requires
        0 <= i,
    ensures
        first_single(l, i) matches Some(j) ==> i <= j < l.len() && l[j].values.len() == 1,
    decreases l.len() - i,
{
    if i < l.len() && l[i].values.len() != 1 {
        lemma_first_single(l, i + 1);
    }
}

proof fn lemma_first_forced_value(l: Seq<Candidate>, i: int, p: int)
    requires
        0 <= p,
    ensures
        first_forced_value(l, i, p) matches Some(v) ==> l[i].values.contains(v),
    decreases l[i].values.len() - p,
{
    if p < l[i].values.len() && !forced(l, i, l[i].values[p]) {
        lemma_first_forced_value(l, i, p + 1);
    }
}

proof fn lemma_first_forced(l: Seq<Candidate>, i: int)
    requires
        0 <= i,
    ensures
        first_forced(l, i) matches Some((j, v)) ==> 0 <= j < l.len() && l[j].values.contains(v),
    decreases l.len() - i,
{
    if i < l.len() {
        lemma_first_forced_value(l, i, 0);
        lemma_first_forced(l, i + 1);
    }
}

/// A placement names an entry of the list and one of that entry's candidates.
pub proof fn lemma_placement(l: Seq<Candidate>)
    ensures
        placement(l) matches Some((i, v)) ==> 0 <= i < l.len() && l[i].values.contains(v),
{
    lemma_first_single(l, 0);
    lemma_first_forced(l, 0);
    if let Some(i) = first_single(l, 0) {
        assert(l[i].values.contains(l[i].values[0]));
    }
}

/// A step keeps the grid's shape and either changes nothing or fills exactly
/// one blank.
pub proof fn lemma_step(g: Seq<Seq<i32>>)
    requires
        is_grid(g),
    ensures
        is_grid(step(g)),
        blank_count(step(g)) <= blank_count(g),
        blank_count(step(g)) == blank_count(g) ==> step(g) == g,
        forall|r: int, c: int| 0 <= r < 9 && 0 <= c < 9 && g[r][c] != 0 ==> #[trigger] step(g)[r][c] == g[r][c],
{
    let c = candidates(g);
    let l = narrowed(g);
    lemma_candidates_on_blanks(g);
    lemma_placement(l);
    if let Some((i, v)) = placement(l) {
        assert(l[i] == Candidate { row: c[i].row, col: c[i].col, values: l[i].values });
        assert(0 <= c[i].row < 9 && 0 <= c[i].col < 9 && g[c[i].row][c[i].col] == 0);
        assert(digit_entries(c));
        lemma_pass_a_digits(c);
        lemma_pass_b_digits(pass_a(c));
        assert(all_digits(l[i].values));
        assert(v != 0);
        lemma_blank_count_update(g, c[i].row, c[i].col, v);
        let h = with_cell(g, c[i].row, c[i].col, v);
        assert forall|r: int| 0 <= r < h.len() implies (#[trigger] h[r]).len() == 9 by {
            assert(g[r].len() == 9);
        }
    }
}

/// Solving never turns a filled cell back into a blank: the blank count
/// after solving is at most the blank count before.
pub proof fn lemma_solve_never_unfills(g: Seq<Seq<i32>>)
    ensures
        blank_count(settle(g)) <= blank_count(g),
    decreases blank_count(g),
{
    if blank_count(g) != 0 && blank_count(step(g)) < blank_count(g) {
        lemma_solve_never_unfills(step(g));
    }
}

/// A digit that no peer of the blank `(r, c)` holds can go there without
/// breaking the grid's validity.
proof fn lemma_place_free_digit(g: Seq<Seq<i32>>, r: int, c: int, v: i32)
    requires
        is_grid(g),
        cells_in_range(g),
        peers_distinct(g),
        0 <= r < 9,
        0 <= c < 9,
        1 <= v <= 9,
        !used_by_peers(g, r, c, v),
    ensures
        cells_in_range(with_cell(g, r, c, v)),
        peers_distinct(with_cell(g, r, c, v)),
{
    let h = with_cell(g, r, c, v);
    assert(block_rows(g, r) == 3);
    assert forall|r2: int, c2: int| 0 <= r2 < 9 && 0 <= c2 < 9 && peers(r, c, r2, c2) implies g[r2][c2] != v by {
        if r2 == r {
            assert(g[r][c2] == g[r2][c2]);
        } else if c2 == c {
            assert(column(g, c)[r2] == g[r2][c2]);
        } else {
            let k = (r2 - band(r)) * 3 + (c2 - band(c));
            assert(k / 3 == r2 - band(r) && k % 3 == c2 - band(c));
            assert(block(g, r, c)[k] == g[r2][c2]);
        }
    }
    assert forall|a: int, b: int| 0 <= a < h.len() && 0 <= b < h[a].len() implies 0 <= #[trigger] h[a][b] <= 9 by {
        assert(g[a].len() == 9);
    }
    assert forall|r1: int, c1: int, r2: int, c2: int|
        0 <= r1 < h.len() && 0 <= c1 < 9 && 0 <= r2 < h.len() && 0 <= c2 < 9 && peers(r1, c1, r2, c2)
            && #[trigger] h[r1][c1] != 0 implies h[r1][c1] != #[trigger] h[r2][c2] by {
        if r1 == r && c1 == c {
            assert(g[r2][c2] != v);
        } else if r2 == r && c2 == c {
            assert(peers(r2, c2, r1, c1));
            assert(g[r1][c1] != v);
        } else {
            assert(h[r1][c1] == g[r1][c1] && h[r2][c2] == g[r2][c2]);
        }
    }
}

/// A step keeps a valid grid valid: digits stay in range and no two peers
/// hold the same digit.
pub proof fn lemma_step_keeps_valid(g: Seq<Seq<i32>>)
    requires
        is_grid(g),
        cells_in_range(g),
        peers_distinct(g),
    ensures
        cells_in_range(step(g)),
        peers_distinct(step(g)),
{
    let c = candidates(g);
    let l = narrowed(g);
    lemma_candidates_on_blanks(g);
    lemma_placement(l);
    if let Some((i, v)) = placement(l) {
        lemma_pass_a_within(c);
        lemma_pass_b_within(pass_a(c));
        assert(pass_a(c)[i].values.contains(v));
        assert(c[i].values.contains(v));
        let (r, col) = (c[i].row, c[i].col);
        assert(c[i].values == usable_digits(g, r, col));
        lemma_free_digits(g, r, col, 9);
        let k = choose|k: int| 0 <= k < c[i].values.len() && c[i].values[k] == v;
        assert(!used_by_peers(g, r, col, c[i].values[k]));
        assert(all_digits(c[i].values));
        lemma_place_free_digit(g, r, col, v);
    }
}

/// Solving keeps a valid grid valid: digits stay in range and no two peers
/// ever hold the same digit.
pub proof fn lemma_solve_keeps_valid(g: Seq<Seq<i32>>)
    requires
        is_grid(g),
        cells_in_range(g),
        peers_distinct(g),
    ensures
        is_grid(settle(g)),
        cells_in_range(settle(g)),
        peers_distinct(settle(g)),
    decreases blank_count(g),
{
    if blank_count(g) != 0 && blank_count(step(g)) < blank_count(g) {
        lemma_step(g);
        lemma_step_keeps_valid(g);
        lemma_solve_keeps_valid(step(g));
    }
}

/// Solving never changes a filled cell: each digit of the grid stays where
/// it was.
pub proof fn lemma_solve_keeps_digits(g: Seq<Seq<i32>>)
    requires
        is_grid(g),
    ensures
        is_grid(settle(g)),
        forall|r: int, c: int| 0 <= r < 9 && 0 <= c < 9 && g[r][c] != 0 ==> #[trigger] settle(g)[r][c] == g[r][c],
    decreases blank_count(g),
{
    if blank_count(g) != 0 && blank_count(step(g)) < blank_count(g) {
        lemma_step(g);
        lemma_solve_keeps_digits(step(g));
        assert forall|r: int, c: int| 0 <= r < 9 && 0 <= c < 9 && g[r][c] != 0 implies #[trigger] settle(g)[r][c] == g[r][c] by {
            assert(step(g)[r][c] == g[r][c]);
        }
    }
}

/// Solving is idempotent: solving an already solved or stalled grid
/// changes nothing.
pub proof fn lemma_solve_idempotent(g: Seq<Seq<i32>>)
    ensures
        settle(settle(g)) == settle(g),
    decreases blank_count(g),
{
    if blank_count(g) != 0 && blank_count(step(g)) < blank_count(g) {
        lemma_solve_idempotent(step(g));
    }
}

/// The first entry with exactly one candidate.
fn find_single(cells: &Vec<CellCandidates>) -> (found: Option<usize>)
    ensures
        match found {
            Some(i) => first_single(model(cells@), 0) == Some(i as int),
            None => first_single(model(cells@), 0) is None,
        },
{
    let ghost m = model(cells@);
    let mut i: usize = 0;
    while i < cells.len()
        invariant
            m == model(cells@),
            i <= cells.len(),
            first_single(m, 0) == first_single(m, i as int),
        decreases cells.len() - i,
    {
        if cells[i].values.len() == 1 {
            return Some(i);
        }
        i += 1;
    }
    None
}

/// Whether another entry of the block holding `(row_index, col_index)` lists `value`.
pub fn is_value_contained_in_block(cells: &Vec<CellCandidates>, row_index: usize, col_index: usize, value: i32) -> (is_contained: bool)
    ensures
        is_contained == exists|j: int| 0 <= j < cells.len() && block_peer(model(cells@), j, row_index as int, col_index as int)
            && (#[trigger] model(cells@)[j].values).contains(value),
{
    let ghost m = model(cells@);
    let others = selectable_values_in_block(cells, row_index, col_index);
    let mut k: usize = 0;
    while k < others.len()
        invariant
            m == model(cells@),
            k <= others.len(),
            forall|t: int| 0 <= t < others.len() ==> {
                &&& (#[trigger] others@[t]) < cells.len()
                &&& block_peer(m, others@[t] as int, row_index as int, col_index as int)
            },
            forall|t: int| 0 <= t < k ==> !(#[trigger] m[others@[t] as int].values).contains(value),
        decreases others.len() - k,
    {
        if contains_value(&cells[others[k]].values, value) {
            assert(m[others@[k as int] as int].values.contains(value));
            return true;
        }
        k += 1;
    }
    assert forall|j: int| 0 <= j < cells.len() && block_peer(m, j, row_index as int, col_index as int)
        implies !(#[trigger] m[j].values).contains(value) by {
        assert(others@.contains(j as usize));
        let t = choose|t: int| 0 <= t < others.len() && others@[t] == j as usize;
        assert(!m[others@[t] as int].values.contains(value));
    }
    false
}

/// Whether the heuristic placement accepts `value` for entry `i`.
fn is_forced(cells: &Vec<CellCandidates>, i: usize, value: i32) -> (r: bool)
    requires
        i < cells.len(),
    ensures
        r == forced(model(cells@), i as int, value),
{
    let ghost m = model(cells@);
    let x = &cells[i];
    let mut dup_in_row = false;
    let mut dup_in_col = false;
    let mut j: usize = 0;
    while j < cells.len()
        invariant
            m == model(cells@),
            i < cells.len(),
            x == cells@[i as int],
            j <= cells.len(),
            !dup_in_row == forall|t: int| 0 <= t < j && m[t].row == m[i as int].row && m[t].col != m[i as int].col
                ==> !(#[trigger] m[t].values).contains(value),
            !dup_in_col == forall|t: int| 0 <= t < j && m[t].col == m[i as int].col && m[t].row != m[i as int].row
                ==> !(#[trigger] m[t].values).contains(value),
        decreases cells.len() - j,
    {
        let y = &cells[j];
        assert(m[j as int].values == y.values@);
        if contains_value(&y.values, value) {
            if y.row_index == x.row_index && y.col_index != x.col_index {
                dup_in_row = true;
            }
            if y.col_index == x.col_index && y.row_index != x.row_index {
                dup_in_col = true;
            }
        }
        j += 1;
    }
    let dup_in_block = is_value_contained_in_block(cells, x.row_index, x.col_index, value);
    !dup_in_row || !dup_in_col || !dup_in_block
}

/// The first candidate of entry `i` that the heuristic placement accepts.
fn forced_value(cells: &Vec<CellCandidates>, i: usize) -> (found: Option<i32>)
    requires
        i < cells.len(),
    ensures
        found == first_forced_value(model(cells@), i as int, 0),
{
    let ghost m = model(cells@);
    let values = &cells[i].values;
    let mut p: usize = 0;
    while p < values.len()
        invariant
            m == model(cells@),
            i < cells.len(),
            values@ == m[i as int].values,
            p <= values.len(),
            first_forced_value(m, i as int, 0) == first_forced_value(m, i as int, p as int),
        decreases values.len() - p,
    {
        if is_forced(cells, i, values[p]) {
            return Some(values[p]);
        }
        p += 1;
    }
    None
}

/// The first entry, with its first accepted candidate, that the heuristic
/// placement fills.
fn find_forced(cells: &Vec<CellCandidates>) -> (found: Option<(usize, i32)>)
    ensures
        match found {
            Some((i, v)) => first_forced(model(cells@), 0) == Some((i as int, v)),
            None => first_forced(model(cells@), 0) is None,
        },
{
    let ghost m = model(cells@);
    let mut i: usize = 0;
    while i < cells.len()
        invariant
            m == model(cells@),
            i <= cells.len(),
            first_forced(m, 0) == first_forced(m, i as int),
        decreases cells.len() - i,
    {
        if let Some(v) = forced_value(cells, i) {
            return Some((i, v));
        }
        i += 1;
    }
    None
}

/// The resolution step: fills the first naked single or, failing that, the
/// first forced candidate; fills nothing if there is neither.
fn resolve(lines: &mut Vec<Vec<i32>>, cells: &Vec<CellCandidates>)
    requires
        is_grid(old(lines).deep_view()),
        forall|i: int| 0 <= i < cells.len() ==> 0 <= (#[trigger] cells@[i]).row_index < 9 && 0 <= cells@[i].col_index < 9,
    ensures
        final(lines).deep_view() == placed(old(lines).deep_view(), model(cells@), placement(model(cells@))),
{
    let ghost m = model(cells@);
    assert(old(lines).deep_view().len() == old(lines).len());
    match find_single(cells) {
        Some(i) => {
            proof { lemma_first_single(m, 0); }
            let x = &cells[i];
            assert(m[i as int] == x@);
            assert(old(lines).deep_view()[x.row_index as int] == old(lines)[x.row_index as int]@);
            set_cell(lines, x.row_index, x.col_index, x.values[0]);
        },
        None => {
            match find_forced(cells) {
                Some((i, v)) => {
                    proof { lemma_first_forced(m, 0); }
                    let x = &cells[i];
                    assert(old(lines).deep_view()[x.row_index as int] == old(lines)[x.row_index as int]@);
                    set_cell(lines, x.row_index, x.col_index, v);
                },
                None => {},
            }
        },
    }
}

/// Runs the solve loop to its fixed point: the grid is fully solved or the
/// last iteration filled nothing.
pub fn solve_problem(problem_lines: &Vec<Vec<i32>>) -> (lines: Vec<Vec<i32>>)
    requires
        is_grid(problem_lines.deep_view()),
    ensures
        lines.deep_view() == settle(problem_lines.deep_view()),
{
    let ghost g = problem_lines.deep_view();
    let mut lines: Vec<Vec<i32>> = problem_lines.clone();
    assert(lines.deep_view() =~= g) by {
        assert forall|k: int| 0 <= k < lines.len() implies lines.deep_view()[k] == g[k] by {
            assert(lines@[k]@ =~= problem_lines@[k]@);
        }
    }
    let mut zero_count: usize = count_zero(&lines);
    let mut prev_zero_count: usize = 0;
    while zero_count > 0 && zero_count != prev_zero_count
        invariant
            is_grid(lines.deep_view()),
            zero_count == blank_count(lines.deep_view()),
            settle(lines.deep_view()) == settle(g),
            zero_count > 0 && zero_count == prev_zero_count ==> settle(lines.deep_view()) == lines.deep_view(),
            prev_zero_count == 0 || zero_count <= prev_zero_count,
        decreases zero_count + if zero_count == prev_zero_count { 0int } else { 1int },
    {
        prev_zero_count = zero_count;
        let ghost before = lines.deep_view();
        let cells = fetch_usable_values(&lines);
        proof {
            lemma_candidates_on_blanks(before);
        }
        let cells = filter_anyhow_values(&cells);
        let cells = filter_reserved_values(&cells);
        assert(model(cells@) == narrowed(before));
        assert forall|i: int| 0 <= i < cells.len() implies 0 <= (#[trigger] cells@[i]).row_index < 9 && 0 <= cells@[i].col_index < 9 by {
            assert(model(cells@)[i] == cells@[i]@);
            assert(candidates(before)[i].row == narrowed(before)[i].row);
        }
        resolve(&mut lines, &cells);
        proof {
            lemma_step(before);
        }
        zero_count = count_zero(&lines);
    }
    proof {
        lemma_blank_count_positive(lines.deep_view());
    }
    lines
}

/// Whether the solve loop fills every blank of the grid.
pub fn is_solvable(problem_lines: &Vec<Vec<i32>>) -> (solvable: bool)
    requires
        is_grid(problem_lines.deep_view()),
    ensures
        solvable == !has_blank(settle(problem_lines.deep_view())),
{
    let lines = solve_problem(problem_lines);
    !contains_zero(&lines)
}

} // verus!
