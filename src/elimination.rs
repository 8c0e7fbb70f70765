//! The elimination pipeline: two passes that narrow the candidate sets
//! beyond plain peer exclusion, each a pure transform of the candidate list.

use vstd::prelude::*;
use crate::grid::{contains_value, same_block};
use crate::candidates::{all_digits, Candidate, CellCandidates, model};

verus! {

/// Entries `x` and `y` name the same cell.
pub open spec fn same_cell(x: Candidate, y: Candidate) -> bool {
    x.row == y.row && x.col == y.col
}

/// Entries `x` and `y` lie in one 3x3 block.
pub open spec fn in_block(x: Candidate, y: Candidate) -> bool {
    same_block(x.row, x.col, y.row, y.col)
}

/// Entry `l[j]` is another cell of the block holding `(r, c)`.
pub open spec fn block_peer(l: Seq<Candidate>, j: int, r: int, c: int) -> bool {
    same_block(l[j].row, l[j].col, r, c) && !(l[j].row == r && l[j].col == c)
}

/// Each entry lists digits only.
pub open spec fn digit_entries(l: Seq<Candidate>) -> bool {
    forall|i: int| 0 <= i < l.len() ==> all_digits(#[trigger] l[i].values)
}

/// Within the block of `x`, every other entry that lists `v` lies in `x`'s row.
pub open spec fn locked_to_row(l: Seq<Candidate>, x: Candidate, v: i32) -> bool {
    forall|j: int|
        0 <= j < l.len() && block_peer(l, j, x.row, x.col) && (#[trigger] l[j].values).contains(v)
            ==> l[j].row == x.row
}

/// Within the block of `x`, every other entry that lists `v` lies in `x`'s column.
pub open spec fn locked_to_col(l: Seq<Candidate>, x: Candidate, v: i32) -> bool {
    forall|j: int|
        0 <= j < l.len() && block_peer(l, j, x.row, x.col) && (#[trigger] l[j].values).contains(v)
            ==> l[j].col == x.col
}

/// The locked-candidate pass drops `v` from `y`: some entry `x` outside `y`'s
/// block lists `v`, `v` is locked to `x`'s row (or column) inside `x`'s block,
/// and `y` shares that row (or column).
pub open spec fn pointed_out(l: Seq<Candidate>, y: Candidate, v: i32) -> bool {
    exists|i: int|
        0 <= i < l.len() && (#[trigger] l[i].values).contains(v) && !in_block(y, l[i]) && ((
        y.row == l[i].row && locked_to_row(l, l[i], v)) || (y.col == l[i].col && locked_to_col(
            l,
            l[i],
            v,
        )))
}

/// The values of `s`, in order, that the locked-candidate pass keeps for `y`.
pub open spec fn kept_after_pointing(l: Seq<Candidate>, y: Candidate, s: Seq<i32>) -> Seq<i32>
    decreases s.len(),
{
    if s.len() == 0 {
        s
    } else if pointed_out(l, y, s.last()) {
        kept_after_pointing(l, y, s.drop_last())
    } else {
        kept_after_pointing(l, y, s.drop_last()).push(s.last())
    }
}

/// The locked-candidate (pointing) pass.
pub open spec fn pass_a(l: Seq<Candidate>) -> Seq<Candidate> {
    Seq::new(
        l.len(),
        |k: int|
            Candidate {
                row: l[k].row,
                col: l[k].col,
                values: kept_after_pointing(l, l[k], l[k].values),
            },
    )
}

/// Every value of `s` occurs in `t`.
pub open spec fn subset_of(s: Seq<i32>, t: Seq<i32>) -> bool {
    forall|k: int| 0 <= k < s.len() ==> t.contains(#[trigger] s[k])
}

/// Among `l[0..n]`, the other entries of `l[i]`'s block whose candidate sets
/// lie within that of `l[i]`.
pub open spec fn covered_count(l: Seq<Candidate>, i: int, n: int) -> nat
    decreases n,
{
    if n <= 0 {
        0
    } else {
        covered_count(l, i, n - 1) + if block_peer(l, n - 1, l[i].row, l[i].col) && subset_of(
            l[n - 1].values,
            l[i].values,
        ) {
            1nat
        } else {
            0nat
        }
    }
}

/// As many other entries of `l[i]`'s block lie within its candidate set as
/// that set has digits.
pub open spec fn claims_block(l: Seq<Candidate>, i: int) -> bool {
    l[i].values.len() == covered_count(l, i, l.len() as int)
}

/// The confinement pass drops `v` from `z`: some other entry `x` of `z`'s
/// block claims its digits, lists `v`, and `z`'s set does not lie within `x`'s.
pub open spec fn reserved_elsewhere(l: Seq<Candidate>, z: Candidate, v: i32) -> bool {
    exists|i: int|
        0 <= i < l.len() && claims_block(l, i) && in_block(z, l[i]) && !same_cell(z, l[i])
            && !subset_of(z.values, l[i].values) && (#[trigger] l[i].values).contains(v)
}

/// The values of `s`, in order, that the confinement pass keeps for `z`.
pub open spec fn kept_after_reserving(l: Seq<Candidate>, z: Candidate, s: Seq<i32>) -> Seq<i32>
    decreases s.len(),
{
    if s.len() == 0 {
        s
    } else if reserved_elsewhere(l, z, s.last()) {
        kept_after_reserving(l, z, s.drop_last())
    } else {
        kept_after_reserving(l, z, s.drop_last()).push(s.last())
    }
}

/// The exact-cover confinement pass.
pub open spec fn pass_b(l: Seq<Candidate>) -> Seq<Candidate> {
    Seq::new(
        l.len(),
        |k: int|
            Candidate {
                row: l[k].row,
                col: l[k].col,
                values: kept_after_reserving(l, l[k], l[k].values),
            },
    )
}

/// Whether `(row_index1, col_index1)` and `(row_index2, col_index2)` lie in
/// one 3x3 block.
pub fn is_in_same_block(row_index1: usize, col_index1: usize, row_index2: usize, col_index2: usize) -> (r: bool)
    ensures
        r == same_block(row_index1 as int, col_index1 as int, row_index2 as int, col_index2 as int),
{
    row_index1 / 3 == row_index2 / 3 && col_index1 / 3 == col_index2 / 3
}

/// The positions, ascending, of the entries other than `(row_index, col_index)`
/// that lie in its block.
pub fn selectable_values_in_block(cells: &Vec<CellCandidates>, row_index: usize, col_index: usize) -> (others: Vec<usize>)
    ensures
        forall|k: int| 0 <= k < others.len() ==> {
            &&& (#[trigger] others@[k]) < cells.len()
            &&& block_peer(model(cells@), others@[k] as int, row_index as int, col_index as int)
        },
        forall|j: int| 0 <= j < cells.len() && #[trigger] block_peer(model(cells@), j, row_index as int, col_index as int)
            ==> others@.contains(j as usize),
        forall|a: int, b: int| 0 <= a < b < others.len() ==> others@[a] < others@[b],
{
    let ghost m = model(cells@);
    let mut others: Vec<usize> = Vec::new();
    let mut j: usize = 0;
    while j < cells.len()
        invariant
            m == model(cells@),
            j <= cells.len(),
            forall|k: int| 0 <= k < others.len() ==> {
                &&& (#[trigger] others@[k]) < j
                &&& block_peer(m, others@[k] as int, row_index as int, col_index as int)
            },
            forall|i: int| 0 <= i < j && #[trigger] block_peer(m, i, row_index as int, col_index as int)
                ==> others@.contains(i as usize),
            forall|a: int, b: int| 0 <= a < b < others.len() ==> others@[a] < others@[b],
        decreases cells.len() - j,
    {
        let x = &cells[j];
        let ghost before = others@;
        if is_in_same_block(x.row_index, x.col_index, row_index, col_index)
            && !(x.row_index == row_index && x.col_index == col_index) {
            others.push(j);
            assert(others@[others.len() - 1] == j);
        }
        assert forall|i: int| 0 <= i <= j && #[trigger] block_peer(m, i, row_index as int, col_index as int)
            implies others@.contains(i as usize) by {
            if i < j {
                let t = choose|t: int| 0 <= t < before.len() && before[t] == i as usize;
                assert(others@[t] == i as usize);
            } else {
                assert(others@[others.len() - 1] == j);
            }
        }
        j += 1;
    }
    others
}

/// For each `v` in `0..10`, whether `v` is locked to the row (`by_row`) or to
/// the column of entry `i` within its block.
fn locked_digits(cells: &Vec<CellCandidates>, i: usize, by_row: bool) -> (locked: Vec<bool>)
    requires
        i < cells.len(),
    ensures
        locked.len() == 10,
        forall|v: int| 0 <= v < 10 ==> #[trigger] locked@[v] == if by_row {
            locked_to_row(model(cells@), model(cells@)[i as int], v as i32)
        } else {
            locked_to_col(model(cells@), model(cells@)[i as int], v as i32)
        },
{
    let ghost m = model(cells@);
    let x = &cells[i];
    let peers = selectable_values_in_block(cells, x.row_index, x.col_index);
    let mut locked: Vec<bool> = Vec::new();
    let mut v: i32 = 0;
    while v < 10
        invariant
            m == model(cells@),
            i < cells.len(),
            x == cells@[i as int],
            0 <= v <= 10,
            locked.len() == v,
            forall|k: int| 0 <= k < peers.len() ==> {
                &&& (#[trigger] peers@[k]) < cells.len()
                &&& block_peer(m, peers@[k] as int, x.row_index as int, x.col_index as int)
            },
            forall|j: int| 0 <= j < cells.len() && #[trigger] block_peer(m, j, x.row_index as int, x.col_index as int)
                ==> peers@.contains(j as usize),
            forall|w: int| 0 <= w < v ==> #[trigger] locked@[w] == if by_row {
                locked_to_row(m, m[i as int], w as i32)
            } else {
                locked_to_col(m, m[i as int], w as i32)
            },
        decreases 10 - v,
    {
        let mut ok = true;
        let mut k: usize = 0;
        while k < peers.len()
            invariant
                m == model(cells@),
                i < cells.len(),
                x == cells@[i as int],
                k <= peers.len(),
                forall|t: int| 0 <= t < peers.len() ==> (#[trigger] peers@[t]) < cells.len(),
                ok == forall|t: int| 0 <= t < k ==> !(m[#[trigger] peers@[t] as int].values.contains(v)
                    && (if by_row { m[peers@[t] as int].row != x.row_index } else { m[peers@[t] as int].col != x.col_index })),
            decreases peers.len() - k,
        {
            let y = &cells[peers[k]];
            let off_line = if by_row { y.row_index != x.row_index } else { y.col_index != x.col_index };
            if off_line && contains_value(&y.values, v) {
                ok = false;
            }
            k += 1;
        }
        proof {
            if by_row {
                if ok {
                    assert forall|j: int| 0 <= j < m.len() && block_peer(m, j, m[i as int].row, m[i as int].col)
                        && (#[trigger] m[j].values).contains(v) implies m[j].row == m[i as int].row by {
                        assert(peers@.contains(j as usize));
                        let t = choose|t: int| 0 <= t < peers.len() && peers@[t] == j as usize;
                        assert(m[peers@[t] as int].values.contains(v));
                    }
                } else {
                    let t = choose|t: int| 0 <= t < k && (m[#[trigger] peers@[t] as int].values.contains(v)
                        && m[peers@[t] as int].row != x.row_index);
                    assert(m[peers@[t] as int].values.contains(v));
                }
            } else {
                if ok {
                    assert forall|j: int| 0 <= j < m.len() && block_peer(m, j, m[i as int].row, m[i as int].col)
                        && (#[trigger] m[j].values).contains(v) implies m[j].col == m[i as int].col by {
                        assert(peers@.contains(j as usize));
                        let t = choose|t: int| 0 <= t < peers.len() && peers@[t] == j as usize;
                        assert(m[peers@[t] as int].values.contains(v));
                    }
                } else {
                    let t = choose|t: int| 0 <= t < k && (m[#[trigger] peers@[t] as int].values.contains(v)
                        && m[peers@[t] as int].col != x.col_index);
                    assert(m[peers@[t] as int].values.contains(v));
                }
            }
        }
        locked.push(ok);
        v += 1;
    }
    locked
}

pub proof fn lemma_kept_after_pointing_digits(l: Seq<Candidate>, y: Candidate, s: Seq<i32>)
    requires
        all_digits(s),
    ensures
        all_digits(kept_after_pointing(l, y, s)),
    decreases s.len(),
{
    if s.len() > 0 {
        lemma_kept_after_pointing_digits(l, y, s.drop_last());
    }
}

/// The locked-candidate pass leaves digits only.
pub proof fn lemma_pass_a_digits(l: Seq<Candidate>)
    requires
        digit_entries(l),
    ensures
        digit_entries(pass_a(l)),
{
    assert forall|k: int| 0 <= k < pass_a(l).len() implies all_digits(#[trigger] pass_a(l)[k].values) by {
        lemma_kept_after_pointing_digits(l, l[k], l[k].values);
    }
}

/// Whether the locked-candidate pass drops `v` from entry `k`, given the
/// row and column lock tables of every entry.
fn is_pointed_out(
    cells: &Vec<CellCandidates>,
    row_locks: &Vec<Vec<bool>>,
    col_locks: &Vec<Vec<bool>>,
    k: usize,
    v: i32,
) -> (dropped: bool)
    requires
        k < cells.len(),
        1 <= v <= 9,
        row_locks.len() == cells.len(),
        col_locks.len() == cells.len(),
        forall|i: int| 0 <= i < cells.len() ==> (#[trigger] row_locks@[i])@.len() == 10,
        forall|i: int| 0 <= i < cells.len() ==> (#[trigger] col_locks@[i])@.len() == 10,
        forall|i: int, w: int| 0 <= i < cells.len() && 0 <= w < 10 ==> #[trigger] row_locks@[i]@[w]
            == locked_to_row(model(cells@), model(cells@)[i], w as i32),
        forall|i: int, w: int| 0 <= i < cells.len() && 0 <= w < 10 ==> #[trigger] col_locks@[i]@[w]
            == locked_to_col(model(cells@), model(cells@)[i], w as i32),
    ensures
        dropped == pointed_out(model(cells@), model(cells@)[k as int], v),
{
    let ghost m = model(cells@);
    let y = &cells[k];
    let mut i: usize = 0;
    while i < cells.len()
        invariant
            m == model(cells@),
            k < cells.len(),
            y == cells@[k as int],
            1 <= v <= 9,
            i <= cells.len(),
            row_locks.len() == cells.len(),
            col_locks.len() == cells.len(),
            forall|i: int| 0 <= i < cells.len() ==> (#[trigger] row_locks@[i])@.len() == 10,
            forall|i: int| 0 <= i < cells.len() ==> (#[trigger] col_locks@[i])@.len() == 10,
            forall|i: int, w: int| 0 <= i < cells.len() && 0 <= w < 10 ==> #[trigger] row_locks@[i]@[w]
                == locked_to_row(m, m[i], w as i32),
            forall|i: int, w: int| 0 <= i < cells.len() && 0 <= w < 10 ==> #[trigger] col_locks@[i]@[w]
                == locked_to_col(m, m[i], w as i32),
            forall|t: int| 0 <= t < i ==> !((#[trigger] m[t].values).contains(v) && !in_block(m[k as int], m[t]) && ((
                m[k as int].row == m[t].row && locked_to_row(m, m[t], v)) || (m[k as int].col == m[t].col && locked_to_col(m, m[t], v)))),
        decreases cells.len() - i,
    {
        let x = &cells[i];
        let in_line = (y.row_index == x.row_index && row_locks[i][v as usize])
            || (y.col_index == x.col_index && col_locks[i][v as usize]);
        if in_line && !is_in_same_block(y.row_index, y.col_index, x.row_index, x.col_index)
            && contains_value(&x.values, v) {
            assert(m[i as int].values.contains(v));
            return true;
        }
        i += 1;
    }
    false
}

/// The locked-candidate (pointing) pass: where, inside a block, every entry
/// that lists a digit lies in one row (or column), that digit is dropped from
/// the entries of that row (or column) outside the block.
pub fn filter_anyhow_values(cells: &Vec<CellCandidates>) -> (filtered: Vec<CellCandidates>)
    requires
        digit_entries(model(cells@)),
    ensures
        model(filtered@) == pass_a(model(cells@)),
        digit_entries(model(filtered@)),
{
    let ghost m = model(cells@);
    let n = cells.len();
    let mut row_locks: Vec<Vec<bool>> = Vec::new();
    let mut col_locks: Vec<Vec<bool>> = Vec::new();
    let mut i: usize = 0;
    while i < n
        invariant
            m == model(cells@),
            n == cells.len(),
            i <= n,
            row_locks.len() == i,
            col_locks.len() == i,
            forall|i: int| 0 <= i < row_locks.len() ==> (#[trigger] row_locks@[i])@.len() == 10,
            forall|i: int| 0 <= i < col_locks.len() ==> (#[trigger] col_locks@[i])@.len() == 10,
            forall|t: int, w: int| 0 <= t < i && 0 <= w < 10 ==> #[trigger] row_locks@[t]@[w]
                == locked_to_row(m, m[t], w as i32),
            forall|t: int, w: int| 0 <= t < i && 0 <= w < 10 ==> #[trigger] col_locks@[t]@[w]
                == locked_to_col(m, m[t], w as i32),
        decreases n - i,
    {
        row_locks.push(locked_digits(cells, i, true));
        col_locks.push(locked_digits(cells, i, false));
        i += 1;
    }
    let mut filtered: Vec<CellCandidates> = Vec::new();
    let mut k: usize = 0;
    while k < n
        invariant
            m == model(cells@),
            digit_entries(m),
            n == cells.len(),
            k <= n,
            row_locks.len() == n,
            col_locks.len() == n,
            forall|i: int| 0 <= i < row_locks.len() ==> (#[trigger] row_locks@[i])@.len() == 10,
            forall|i: int| 0 <= i < col_locks.len() ==> (#[trigger] col_locks@[i])@.len() == 10,
            forall|t: int, w: int| 0 <= t < n && 0 <= w < 10 ==> #[trigger] row_locks@[t]@[w]
                == locked_to_row(m, m[t], w as i32),
            forall|t: int, w: int| 0 <= t < n && 0 <= w < 10 ==> #[trigger] col_locks@[t]@[w]
                == locked_to_col(m, m[t], w as i32),
            model(filtered@) =~= pass_a(m).subrange(0, k as int),
        decreases n - k,
    {
        let y = &cells[k];
        assert(all_digits(m[k as int].values));
        let mut values: Vec<i32> = Vec::new();
        let mut p: usize = 0;
        while p < y.values.len()
            invariant
                m == model(cells@),
                n == cells.len(),
                k < n,
                y == cells@[k as int],
                all_digits(y.values@),
                p <= y.values.len(),
                row_locks.len() == n,
                col_locks.len() == n,
                forall|i: int| 0 <= i < row_locks.len() ==> (#[trigger] row_locks@[i])@.len() == 10,
                forall|i: int| 0 <= i < col_locks.len() ==> (#[trigger] col_locks@[i])@.len() == 10,
                forall|t: int, w: int| 0 <= t < n && 0 <= w < 10 ==> #[trigger] row_locks@[t]@[w]
                    == locked_to_row(m, m[t], w as i32),
                forall|t: int, w: int| 0 <= t < n && 0 <= w < 10 ==> #[trigger] col_locks@[t]@[w]
                    == locked_to_col(m, m[t], w as i32),
                values@ == kept_after_pointing(m, m[k as int], y.values@.subrange(0, p as int)),
            decreases y.values.len() - p,
        {
            let v = y.values[p];
            assert(1 <= y.values@[p as int] <= 9);
            assert(y.values@.subrange(0, p + 1).drop_last() =~= y.values@.subrange(0, p as int));
            if !is_pointed_out(cells, &row_locks, &col_locks, k, v) {
                values.push(v);
            }
            p += 1;
        }
        assert(y.values@.subrange(0, p as int) =~= y.values@);
        let ghost prev = model(filtered@);
        filtered.push(CellCandidates { row_index: y.row_index, col_index: y.col_index, values });
        assert(filtered@.last()@ == pass_a(m)[k as int]);
        assert(model(filtered@) =~= prev.push(filtered@.last()@));
        k += 1;
    }
    assert(model(filtered@) =~= pass_a(m));
    proof {
        lemma_pass_a_digits(m);
    }
    filtered
}

/// Whether every value of `s` occurs in `t`.
fn is_subset(s: &Vec<i32>, t: &Vec<i32>) -> (r: bool)
    ensures
        r == subset_of(s@, t@),
{
    let mut k: usize = 0;
    while k < s.len()
        invariant
            k <= s.len(),
            forall|j: int| 0 <= j < k ==> t@.contains(#[trigger] s@[j]),
        decreases s.len() - k,
    {
        if !contains_value(t, s[k]) {
            return false;
        }
        k += 1;
    }
    true
}

/// Whether entry `i` claims its digits within its block.
fn claims_digits(cells: &Vec<CellCandidates>, i: usize) -> (r: bool)
    requires
        i < cells.len(),
    ensures
        r == claims_block(model(cells@), i as int),
{
    let ghost m = model(cells@);
    let x = &cells[i];
    let mut count: usize = 0;
    let mut j: usize = 0;
    while j < cells.len()
        invariant
            m == model(cells@),
            i < cells.len(),
            x == cells@[i as int],
            j <= cells.len(),
            count <= j,
            count == covered_count(m, i as int, j as int),
        decreases cells.len() - j,
    {
        let y = &cells[j];
        if is_in_same_block(y.row_index, y.col_index, x.row_index, x.col_index)
            && !(y.row_index == x.row_index && y.col_index == x.col_index)
            && is_subset(&y.values, &x.values) {
            count += 1;
        }
        j += 1;
    }
    x.values.len() == count
}

/// Whether the confinement pass drops `v` from entry `k`, given which
/// entries claim their digits.
fn is_reserved_elsewhere(cells: &Vec<CellCandidates>, claims: &Vec<bool>, k: usize, v: i32) -> (dropped: bool)
    requires
        k < cells.len(),
        claims.len() == cells.len(),
        forall|i: int| 0 <= i < cells.len() ==> #[trigger] claims@[i] == claims_block(model(cells@), i),
    ensures
        dropped == reserved_elsewhere(model(cells@), model(cells@)[k as int], v),
{
    let ghost m = model(cells@);
    let z = &cells[k];
    let mut i: usize = 0;
    while i < cells.len()
        invariant
            m == model(cells@),
            k < cells.len(),
            z == cells@[k as int],
            i <= cells.len(),
            claims.len() == cells.len(),
            forall|i: int| 0 <= i < cells.len() ==> #[trigger] claims@[i] == claims_block(m, i),
            forall|t: int| 0 <= t < i ==> !(claims_block(m, t) && in_block(m[k as int], m[t]) && !same_cell(m[k as int], m[t])
                && !subset_of(m[k as int].values, m[t].values) && (#[trigger] m[t].values).contains(v)),
        decreases cells.len() - i,
    {
        let x = &cells[i];
        if claims[i] && is_in_same_block(z.row_index, z.col_index, x.row_index, x.col_index)
            && !(z.row_index == x.row_index && z.col_index == x.col_index)
            && contains_value(&x.values, v) && !is_subset(&z.values, &x.values) {
            assert(m[i as int].values.contains(v));
            return true;
        }
        i += 1;
    }
    false
}

pub proof fn lemma_kept_after_reserving_digits(l: Seq<Candidate>, z: Candidate, s: Seq<i32>)
    requires
        all_digits(s),
    ensures
        all_digits(kept_after_reserving(l, z, s)),
    decreases s.len(),
{
    if s.len() > 0 {
        lemma_kept_after_reserving_digits(l, z, s.drop_last());
    }
}

/// The confinement pass leaves digits only.
pub proof fn lemma_pass_b_digits(l: Seq<Candidate>)
    requires
        digit_entries(l),
    ensures
        digit_entries(pass_b(l)),
{
    assert forall|k: int| 0 <= k < pass_b(l).len() implies all_digits(#[trigger] pass_b(l)[k].values) by {
        lemma_kept_after_reserving_digits(l, l[k], l[k].values);
    }
}

/// The exact-cover confinement pass: where an entry has `n` candidates and
/// exactly `n` other entries of its block have candidate sets within them,
/// those digits are dropped from the block's remaining entries.
pub fn filter_reserved_values(cells: &Vec<CellCandidates>) -> (filtered: Vec<CellCandidates>)
    requires
        digit_entries(model(cells@)),
    ensures
        model(filtered@) == pass_b(model(cells@)),
        digit_entries(model(filtered@)),
{
    let ghost m = model(cells@);
    let n = cells.len();
    let mut claims: Vec<bool> = Vec::new();
    let mut i: usize = 0;
    while i < n
        invariant
            m == model(cells@),
            n == cells.len(),
            i <= n,
            claims.len() == i,
            forall|t: int| 0 <= t < i ==> #[trigger] claims@[t] == claims_block(m, t),
        decreases n - i,
    {
        claims.push(claims_digits(cells, i));
        i += 1;
    }
    let mut filtered: Vec<CellCandidates> = Vec::new();
    let mut k: usize = 0;
    while k < n
        invariant
            m == model(cells@),
            n == cells.len(),
            k <= n,
            claims.len() == n,
            forall|t: int| 0 <= t < n ==> #[trigger] claims@[t] == claims_block(m, t),
            model(filtered@) =~= pass_b(m).subrange(0, k as int),
        decreases n - k,
    {
        let z = &cells[k];
        let mut values: Vec<i32> = Vec::new();
        let mut p: usize = 0;
        while p < z.values.len()
            invariant
                m == model(cells@),
                n == cells.len(),
                k < n,
                z == cells@[k as int],
                p <= z.values.len(),
                claims.len() == n,
                forall|t: int| 0 <= t < n ==> #[trigger] claims@[t] == claims_block(m, t),
                values@ == kept_after_reserving(m, m[k as int], z.values@.subrange(0, p as int)),
            decreases z.values.len() - p,
        {
            let v = z.values[p];
            assert(z.values@.subrange(0, p + 1).drop_last() =~= z.values@.subrange(0, p as int));
            if !is_reserved_elsewhere(cells, &claims, k, v) {
                values.push(v);
            }
            p += 1;
        }
        assert(z.values@.subrange(0, p as int) =~= z.values@);
        let ghost prev = model(filtered@);
        filtered.push(CellCandidates { row_index: z.row_index, col_index: z.col_index, values });
        assert(filtered@.last()@ == pass_b(m)[k as int]);
        assert(model(filtered@) =~= prev.push(filtered@.last()@));
        k += 1;
    }
    assert(model(filtered@) =~= pass_b(m));
    proof {
        lemma_pass_b_digits(m);
    }
    filtered
}

/// The locked-candidate pass only drops values: what it keeps was there before.
pub proof fn lemma_kept_after_pointing_within(l: Seq<Candidate>, y: Candidate, s: Seq<i32>)
    ensures
        forall|x: i32| kept_after_pointing(l, y, s).contains(x) ==> s.contains(x),
    decreases s.len(),
{
    if s.len() > 0 {
        let t = s.drop_last();
        lemma_kept_after_pointing_within(l, y, t);
        assert forall|x: i32| kept_after_pointing(l, y, s).contains(x) implies s.contains(x) by {
            let k = kept_after_pointing(l, y, s);
            let kt = kept_after_pointing(l, y, t);
            if pointed_out(l, y, s.last()) {
                assert(k == kt);
            } else {
                assert(k == kt.push(s.last()));
            }
            let i = choose|i: int| 0 <= i < k.len() && k[i] == x;
            if i < kt.len() {
                assert(kt[i] == x);
                assert(kt.contains(x));
                assert(t.contains(x));
                let j = choose|j: int| 0 <= j < t.len() && t[j] == x;
                assert(t[j] == s[j]);
            } else {
                assert(s[s.len() - 1] == x);
            }
        }
    }
}

/// Each entry after the locked-candidate pass lists only values it listed before.
pub proof fn lemma_pass_a_within(l: Seq<Candidate>)
    ensures
        forall|k: int, x: i32| 0 <= k < l.len() && #[trigger] pass_a(l)[k].values.contains(x) ==> l[k].values.contains(x),
{
    assert forall|k: int, x: i32| 0 <= k < l.len() && #[trigger] pass_a(l)[k].values.contains(x) implies l[k].values.contains(x) by {
        lemma_kept_after_pointing_within(l, l[k], l[k].values);
    }
}

/// The confinement pass only drops values: what it keeps was there before.
pub proof fn lemma_kept_after_reserving_within(l: Seq<Candidate>, y: Candidate, s: Seq<i32>)
    ensures
        forall|x: i32| kept_after_reserving(l, y, s).contains(x) ==> s.contains(x),
    decreases s.len(),
{
    if s.len() > 0 {
        let t = s.drop_last();
        lemma_kept_after_reserving_within(l, y, t);
        assert forall|x: i32| kept_after_reserving(l, y, s).contains(x) implies s.contains(x) by {
            let k = kept_after_reserving(l, y, s);
            let kt = kept_after_reserving(l, y, t);
            if reserved_elsewhere(l, y, s.last()) {
                assert(k == kt);
            } else {
                assert(k == kt.push(s.last()));
            }
            let i = choose|i: int| 0 <= i < k.len() && k[i] == x;
            if i < kt.len() {
                assert(kt[i] == x);
                assert(kt.contains(x));
                assert(t.contains(x));
                let j = choose|j: int| 0 <= j < t.len() && t[j] == x;
                assert(t[j] == s[j]);
            } else {
                assert(s[s.len() - 1] == x);
            }
        }
    }
}

/// Each entry after the confinement pass lists only values it listed before.
pub proof fn lemma_pass_b_within(l: Seq<Candidate>)
    ensures
        forall|k: int, x: i32| 0 <= k < l.len() && #[trigger] pass_b(l)[k].values.contains(x) ==> l[k].values.contains(x),
{
    assert forall|k: int, x: i32| 0 <= k < l.len() && #[trigger] pass_b(l)[k].values.contains(x) implies l[k].values.contains(x) by {
        lemma_kept_after_reserving_within(l, l[k], l[k].values);
    }
}

} // verus!
