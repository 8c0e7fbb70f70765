//! The puzzle-masking generator: blanks cells of a complete grid while the
//! solver can still fill them back in.

use vstd::prelude::*;
use rand::rngs::StdRng;
use crate::grid::{
    blank_count, has_blank, is_grid, lemma_blank_count_update, lemma_zeros_positive, rows_of_nine, set_cell, zeros,
};
use crate::random::{lemma_permutation_contains, lemma_permutation_no_duplicates, shuffle};
use crate::solver::{is_solvable, settle};
use crate::validator::filled;

verus! {

/// The pattern seen through the mask: a cell keeps its value where the mask
/// holds 1 and is blank elsewhere.
pub open spec fn fitted(p: Seq<Seq<i32>>, t: Seq<Seq<i32>>) -> Seq<Seq<i32>> {
    Seq::new(9, |r: int| Seq::new(9, |c: int| if t[r][c] == 1 { p[r][c] } else { 0 }))
}

/// The grid of nine rows of nine `v`.
pub open spec fn uniform(v: i32) -> Seq<Seq<i32>> {
    Seq::new(9, |r: int| Seq::new(9, |c: int| v))
}

/// Every cell of the mask is 0 or 1.
pub open spec fn is_mask(t: Seq<Seq<i32>>) -> bool {
    is_grid(t) && forall|r: int, c: int| 0 <= r < 9 && 0 <= c < 9 ==> (#[trigger] t[r][c] == 0 || t[r][c] == 1)
}

/// The number of cells of a row that hold 1.
pub open spec fn ones(s: Seq<i32>) -> nat
    decreases s.len(),
{
    if s.len() == 0 {
        0
    } else {
        ones(s.drop_last()) + if s.last() == 1 {
            1nat
        } else {
            0nat
        }
    }
}

/// The number of revealed cells of a mask.
pub open spec fn revealed_count(t: Seq<Seq<i32>>) -> nat
    decreases t.len(),
{
    if t.len() == 0 {
        0
    } else {
        revealed_count(t.drop_last()) + ones(t.last())
    }
}

/// `q` is `p` with some cells blanked.
pub open spec fn masking_of(q: Seq<Seq<i32>>, p: Seq<Seq<i32>>) -> bool {
    is_grid(q) && forall|r: int, c: int| 0 <= r < 9 && 0 <= c < 9 ==> (#[trigger] q[r][c] == p[r][c] || q[r][c] == 0)
}

/// A mask of ones keeps the pattern as it is.
pub proof fn lemma_fit_all_ones(p: Seq<Seq<i32>>)
    requires
        is_grid(p),
    ensures
        fitted(p, uniform(1)) == p,
{
    assert forall|r: int| 0 <= r < 9 implies #[trigger] fitted(p, uniform(1))[r] == p[r] by {
        assert(fitted(p, uniform(1))[r] =~= p[r]);
    }
    assert(fitted(p, uniform(1)) =~= p);
}

/// A mask of zeros blanks every cell.
pub proof fn lemma_fit_all_zeros(p: Seq<Seq<i32>>)
    ensures
        fitted(p, uniform(0)) == uniform(0),
{
    assert forall|r: int| 0 <= r < 9 implies #[trigger] fitted(p, uniform(0))[r] == uniform(0)[r] by {
        assert(fitted(p, uniform(0))[r] =~= uniform(0)[r]);
    }
    assert(fitted(p, uniform(0)) =~= uniform(0));
}

/// Rows blank in the same places have the same blank count.
proof fn lemma_zeros_same_pattern(a: Seq<i32>, b: Seq<i32>)
    requires
        a.len() == b.len(),
        forall|c: int| 0 <= c < a.len() ==> (#[trigger] a[c] == 0) == (b[c] == 0),
    ensures
        zeros(a) == zeros(b),
    decreases a.len(),
{
    if a.len() > 0 {
        lemma_zeros_same_pattern(a.drop_last(), b.drop_last());
    }
}

/// Grids blank in the same places have the same blank count.
proof fn lemma_blank_count_same_pattern(a: Seq<Seq<i32>>, b: Seq<Seq<i32>>)
    requires
        a.len() == b.len(),
        forall|r: int| 0 <= r < a.len() ==> (#[trigger] a[r]).len() == b[r].len(),
        forall|r: int, c: int| 0 <= r < a.len() && 0 <= c < a[r].len() ==> (#[trigger] a[r][c] == 0) == (b[r][c] == 0),
    ensures
        blank_count(a) == blank_count(b),
    decreases a.len(),
{
    if a.len() > 0 {
        let r = a.len() - 1;
        assert forall|c: int| 0 <= c < a[r].len() implies (#[trigger] a[r][c] == 0) == (b[r][c] == 0) by {}
        lemma_zeros_same_pattern(a[r], b[r]);
        lemma_blank_count_same_pattern(a.drop_last(), b.drop_last());
    }
}

/// Through a 0/1 mask, a filled pattern is blank exactly where the mask is.
pub proof fn lemma_fitted_blanks(p: Seq<Seq<i32>>, t: Seq<Seq<i32>>)
    requires
        is_grid(p),
        filled(p),
        is_mask(t),
    ensures
        blank_count(fitted(p, t)) == blank_count(t),
        masking_of(fitted(p, t), p),
{
    let f = fitted(p, t);
    assert forall|r: int, c: int| 0 <= r < f.len() && 0 <= c < f[r].len() implies (#[trigger] f[r][c] == 0) == (t[r][c] == 0) by {
        assert(1 <= p[r][c]);
        assert(t[r][c] == 0 || t[r][c] == 1);
    }
    lemma_blank_count_same_pattern(f, t);
}

/// The pattern seen through the mask: each cell keeps the pattern's value
/// where the mask holds 1 and is blank elsewhere.
pub fn fit_template(pattern_lines: &Vec<Vec<i32>>, template_lines: &Vec<Vec<i32>>) -> (fit_lines: Vec<Vec<i32>>)
    requires
        is_grid(pattern_lines.deep_view()),
        is_grid(template_lines.deep_view()),
    ensures
        fit_lines.deep_view() == fitted(pattern_lines.deep_view(), template_lines.deep_view()),
{
    let ghost p = pattern_lines.deep_view();
    let ghost t = template_lines.deep_view();
    let ghost want = fitted(p, t);
    let mut fit_lines: Vec<Vec<i32>> = Vec::new();
    let mut r: usize = 0;
    while r < 9
        invariant
            p == pattern_lines.deep_view(),
            t == template_lines.deep_view(),
            want == fitted(p, t),
            is_grid(p),
            is_grid(t),
            r <= 9,
            fit_lines.len() == r,
            forall|i: int| 0 <= i < r ==> (#[trigger] fit_lines@[i])@ == want[i],
        decreases 9 - r,
    {
        let pattern_row = &pattern_lines[r];
        let template_row = &template_lines[r];
        assert(pattern_row@ == p[r as int] && template_row@ == t[r as int]);
        let mut fit_row: Vec<i32> = Vec::new();
        let mut c: usize = 0;
        while c < 9
            invariant
                r < 9,
                c <= 9,
                pattern_row@ == p[r as int],
                template_row@ == t[r as int],
                is_grid(p),
                is_grid(t),
                want == fitted(p, t),
                fit_row@ =~= want[r as int].subrange(0, c as int),
            decreases 9 - c,
        {
            fit_row.push(if template_row[c] == 1 { pattern_row[c] } else { 0 });
            c += 1;
        }
        assert(fit_row@ =~= want[r as int]);
        fit_lines.push(fit_row);
        r += 1;
    }
    assert(fit_lines.deep_view() =~= want) by {
        assert forall|i: int| 0 <= i < 9 implies fit_lines.deep_view()[i] == want[i] by {
            assert(fit_lines.deep_view()[i] == fit_lines@[i]@);
        }
    }
    fit_lines
}

/// A row of ones has as many ones as cells.
proof fn lemma_ones_of_ones(s: Seq<i32>)
    requires
        forall|c: int| 0 <= c < s.len() ==> #[trigger] s[c] == 1,
    ensures
        ones(s) == s.len(),
    decreases s.len(),
{
    if s.len() > 0 {
        lemma_ones_of_ones(s.drop_last());
    }
}

/// The all-ones mask reveals all 81 cells and has no blank.
proof fn lemma_full_mask(t: Seq<Seq<i32>>)
    requires
        rows_of_nine(t),
        forall|r: int, c: int| 0 <= r < t.len() && 0 <= c < 9 ==> #[trigger] t[r][c] == 1,
    ensures
        revealed_count(t) == 9 * t.len(),
        blank_count(t) == 0,
    decreases t.len(),
{
    if t.len() > 0 {
        let u = t.drop_last();
        assert forall|r: int, c: int| 0 <= r < u.len() && 0 <= c < 9 implies #[trigger] u[r][c] == 1 by {
            assert(u[r] == t[r]);
        }
        lemma_full_mask(u);
        let last = t[t.len() - 1];
        assert forall|c: int| 0 <= c < last.len() implies #[trigger] last[c] == 1 by {}
        lemma_ones_of_ones(last);
        lemma_zeros_positive(last);
        if zeros(last) > 0 {
            let c = choose|c: int| 0 <= c < last.len() && last[c] == 0;
            assert(last[c] == 1);
        }
    }
}

/// A copy of the grid.
fn copy_grid(lines: &Vec<Vec<i32>>) -> (copy: Vec<Vec<i32>>)
    ensures
        copy.deep_view() == lines.deep_view(),
{
    let copy = lines.clone();
    assert(copy.deep_view() =~= lines.deep_view()) by {
        assert forall|k: int| 0 <= k < copy.len() implies copy.deep_view()[k] == lines.deep_view()[k] by {
            assert(copy@[k]@ =~= lines@[k]@);
        }
    }
    copy
}

/// The cells of the mask that hold 1, in row-major order.
fn revealed_cells(template_lines: &Vec<Vec<i32>>) -> (cells: Vec<(usize, usize)>)
    requires
        is_grid(template_lines.deep_view()),
    ensures
        cells.len() == revealed_count(template_lines.deep_view()),
        cells@.no_duplicates(),
        forall|q: int| 0 <= q < cells.len() ==> {
            let (r, c) = #[trigger] cells@[q];
            r < 9 && c < 9 && template_lines.deep_view()[r as int][c as int] == 1
        },
{
    let ghost t = template_lines.deep_view();
    let mut cells: Vec<(usize, usize)> = Vec::new();
    let mut r: usize = 0;
    while r < 9
        invariant
            t == template_lines.deep_view(),
            is_grid(t),
            r <= 9,
            cells.len() == revealed_count(t.subrange(0, r as int)),
            cells@.no_duplicates(),
            forall|q: int| 0 <= q < cells.len() ==> {
                let (a, b) = #[trigger] cells@[q];
                a < r && b < 9 && t[a as int][b as int] == 1
            },
        decreases 9 - r,
    {
        let row = &template_lines[r];
        assert(row@ == t[r as int]);
        let ghost base = cells.len();
        let mut c: usize = 0;
        while c < 9
            invariant
                t == template_lines.deep_view(),
                is_grid(t),
                r < 9,
                c <= 9,
                row@ == t[r as int],
                base == revealed_count(t.subrange(0, r as int)),
                cells.len() == base + ones(row@.subrange(0, c as int)),
                cells@.no_duplicates(),
                forall|q: int| 0 <= q < cells.len() ==> {
                    let (a, b) = #[trigger] cells@[q];
                    (a < r || (a == r && b < c)) && b < 9 && t[a as int][b as int] == 1
                },
            decreases 9 - c,
        {
            assert(row@.subrange(0, c + 1).drop_last() =~= row@.subrange(0, c as int));
            if row[c] == 1 {
                let ghost before = cells@;
                cells.push((r, c));
                assert forall|i: int, j: int| 0 <= i < cells.len() && 0 <= j < cells.len() && i != j
                    implies cells@[i] != cells@[j] by {
                    if i < before.len() && j < before.len() {
                        assert(before[i] != before[j]);
                    } else if i < before.len() {
                        let (a, b) = before[i];
                        assert(a < r || (a == r && b < c));
                    } else if j < before.len() {
                        let (a, b) = before[j];
                        assert(a < r || (a == r && b < c));
                    }
                }
                assert forall|q: int| 0 <= q < cells.len() implies {
                    let (a, b) = #[trigger] cells@[q];
                    (a < r || (a == r && b < c + 1)) && b < 9 && t[a as int][b as int] == 1
                } by {
                    if q < before.len() {
                        assert(cells@[q] == before[q]);
                    }
                }
            }
            c += 1;
        }
        assert(row@.subrange(0, 9) =~= row@);
        assert(t.subrange(0, r + 1).drop_last() =~= t.subrange(0, r as int));
        assert(t.subrange(0, r + 1).last() == t[r as int]);
        r += 1;
    }
    assert(t.subrange(0, 9) =~= t);
    cells
}

/// Blanks `number_of_blanks` cells of the mask chosen at random among those
/// that hold 1, or all of them if there are fewer.
pub fn add_blank_to_template(template_lines: &Vec<Vec<i32>>, number_of_blanks: usize, rng: &mut StdRng) -> (updated_lines: Vec<Vec<i32>>)
    requires
        is_grid(template_lines.deep_view()),
    ensures
        is_grid(updated_lines.deep_view()),
        forall|r: int, c: int| 0 <= r < 9 && 0 <= c < 9 ==> {
            let (u, t) = (updated_lines.deep_view()[r][c], template_lines.deep_view()[r][c]);
            #[trigger] updated_lines.deep_view()[r][c] == t || (t == 1 && u == 0)
        },
        blank_count(updated_lines.deep_view()) == blank_count(template_lines.deep_view()) + if number_of_blanks
            < revealed_count(template_lines.deep_view()) {
            number_of_blanks as int
        } else {
            revealed_count(template_lines.deep_view()) as int
        },
{
    let ghost t = template_lines.deep_view();
    let mut cells = revealed_cells(template_lines);
    let ghost listed = cells@;
    shuffle(&mut cells, rng);
    proof {
        lemma_permutation_contains(listed, cells@);
        lemma_permutation_no_duplicates(listed, cells@);
    }
    let take = if number_of_blanks < cells.len() { number_of_blanks } else { cells.len() };
    let mut updated_lines = copy_grid(template_lines);
    let mut q: usize = 0;
    while q < take
        invariant
            t == template_lines.deep_view(),
            is_grid(t),
            take <= cells.len(),
            q <= take,
            cells@.no_duplicates(),
            forall|v: (usize, usize)| listed.contains(v) <==> cells@.contains(v),
            forall|k: int| 0 <= k < listed.len() ==> {
                let (r, c) = #[trigger] listed[k];
                r < 9 && c < 9 && t[r as int][c as int] == 1
            },
            is_grid(updated_lines.deep_view()),
            forall|r: int, c: int| 0 <= r < 9 && 0 <= c < 9 ==> {
                let (u, tv) = (updated_lines.deep_view()[r][c], t[r][c]);
                #[trigger] updated_lines.deep_view()[r][c] == tv || (tv == 1 && u == 0)
            },
            forall|r: int, c: int| 0 <= r < 9 && 0 <= c < 9 && !cells@.subrange(0, q as int).contains((r as usize, c as usize))
                ==> #[trigger] updated_lines.deep_view()[r][c] == t[r][c],
            blank_count(updated_lines.deep_view()) == blank_count(t) + q,
        decreases take - q,
    {
        let (r, c) = cells[q];
        assert(listed.contains((r, c))) by {
            assert(cells@.contains(cells@[q as int]));
        }
        let ghost k = choose|k: int| 0 <= k < listed.len() && listed[k] == (r, c);
        assert(r < 9 && c < 9 && t[r as int][c as int] == 1);
        assert(!cells@.subrange(0, q as int).contains((r, c))) by {
            if cells@.subrange(0, q as int).contains((r, c)) {
                let j = choose|j: int| 0 <= j < q && cells@.subrange(0, q as int)[j] == (r, c);
                assert(cells@[j] == cells@[q as int]);
            }
        }
        let ghost before = updated_lines.deep_view();
        assert(before[r as int][c as int] == 1);
        proof {
            lemma_blank_count_update(before, r as int, c as int, 0);
        }
        assert(updated_lines.deep_view().len() == updated_lines.len());
        set_cell(&mut updated_lines, r, c, 0);
        let ghost after = updated_lines.deep_view();
        assert(cells@.subrange(0, q + 1) =~= cells@.subrange(0, q as int).push((r, c)));
        assert forall|a: int, b: int| 0 <= a < 9 && 0 <= b < 9 implies {
            let (u, tv) = (after[a][b], t[a][b]);
            #[trigger] after[a][b] == tv || (tv == 1 && u == 0)
        } by {
            if !(a == r && b == c) {
                assert(after[a][b] == before[a][b]);
            }
        }
        assert forall|a: int, b: int| 0 <= a < 9 && 0 <= b < 9 && !cells@.subrange(0, q + 1).contains((a as usize, b as usize))
            implies #[trigger] after[a][b] == t[a][b] by {
            if a == r && b == c {
                assert(cells@.subrange(0, q + 1)[q as int] == (a as usize, b as usize));
            } else {
                assert(after[a][b] == before[a][b]);
                if cells@.subrange(0, q as int).contains((a as usize, b as usize)) {
                    let j = choose|j: int| 0 <= j < q && cells@.subrange(0, q as int)[j] == (a as usize, b as usize);
                    assert(cells@.subrange(0, q + 1)[j] == (a as usize, b as usize));
                }
            }
        }
        assert forall|i: int| 0 <= i < after.len() implies (#[trigger] after[i]).len() == 9 by {
            assert(before[i].len() == 9);
        }
        q += 1;
    }
    updated_lines
}

/// The mask that reveals every cell.
fn full_template() -> (template_lines: Vec<Vec<i32>>)
    ensures
        template_lines.deep_view() == uniform(1),
{
    let mut template_lines: Vec<Vec<i32>> = Vec::new();
    let mut r: usize = 0;
    while r < 9
        invariant
            r <= 9,
            template_lines.len() == r,
            forall|i: int| 0 <= i < r ==> (#[trigger] template_lines@[i])@ == uniform(1)[i],
        decreases 9 - r,
    {
        let mut row: Vec<i32> = Vec::new();
        let mut c: usize = 0;
        while c < 9
            invariant
                r < 9,
                c <= 9,
                row@ =~= uniform(1)[r as int].subrange(0, c as int),
            decreases 9 - c,
        {
            row.push(1);
            c += 1;
        }
        assert(row@ =~= uniform(1)[r as int]);
        template_lines.push(row);
        r += 1;
    }
    assert(template_lines.deep_view() =~= uniform(1)) by {
        assert forall|i: int| 0 <= i < 9 implies template_lines.deep_view()[i] == uniform(1)[i] by {
            assert(template_lines.deep_view()[i] == template_lines@[i]@);
        }
    }
    template_lines
}

/// A puzzle from a complete grid: five random cells blanked first, then two
/// more at a time while the solver still fills every blank; the last puzzle
/// that it could fill comes back (the first one, with five blanks, if none).
/// At most 81 rounds are run.
pub fn generate_problem(pattern_lines: &Vec<Vec<i32>>, rng: &mut StdRng) -> (problem_lines: Vec<Vec<i32>>)
    requires
        is_grid(pattern_lines.deep_view()),
        filled(pattern_lines.deep_view()),
    ensures
        masking_of(problem_lines.deep_view(), pattern_lines.deep_view()),
        blank_count(problem_lines.deep_view()) >= 5,
        blank_count(problem_lines.deep_view()) == 5 || !has_blank(settle(problem_lines.deep_view())),
{
    let ghost p = pattern_lines.deep_view();
    let template_lines = full_template();
    proof {
        lemma_full_mask(uniform(1));
    }
    let mut hint_lines = add_blank_to_template(&template_lines, 5, rng);
    let mut prev_fit_lines = fit_template(pattern_lines, &hint_lines);
    proof {
        lemma_fitted_blanks(p, hint_lines.deep_view());
    }
    let mut is_solved = true;
    let mut rounds: usize = 0;
    while is_solved && rounds < 81
        invariant
            p == pattern_lines.deep_view(),
            is_grid(p),
            filled(p),
            is_mask(hint_lines.deep_view()),
            blank_count(hint_lines.deep_view()) >= 5,
            prev_fit_lines.deep_view() == fitted(p, hint_lines.deep_view()),
            masking_of(prev_fit_lines.deep_view(), p),
            blank_count(prev_fit_lines.deep_view()) == blank_count(hint_lines.deep_view()),
            blank_count(prev_fit_lines.deep_view()) == 5 || !has_blank(settle(prev_fit_lines.deep_view())),
        decreases 81 - rounds,
    {
        let next_lines = add_blank_to_template(&hint_lines, 2, rng);
        let fit_lines = fit_template(pattern_lines, &next_lines);
        is_solved = is_solvable(&fit_lines);
        if is_solved {
            proof {
                lemma_fitted_blanks(p, next_lines.deep_view());
            }
            hint_lines = next_lines;
            prev_fit_lines = fit_lines;
        }
        rounds += 1;
    }
    prev_fit_lines
}

} // verus!
