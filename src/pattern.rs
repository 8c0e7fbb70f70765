//! The pattern generator: a complete grid built row by row from random
//! choices, restarting when a row cannot be completed.

use vstd::prelude::*;
use rand::rngs::StdRng;
use crate::grid::{
    band, blank_count, block, block_rows, block_values, cells_in_range, col_values, column,
    contains_value, has_blank, is_grid, partial_grid, same_block,
};
use crate::validator::{lemma_valid_filled_grid_is_solved, peers, peers_distinct, solved};
use crate::random::{lemma_permutation_contains, lemma_permutation_no_duplicates, shuffle};

verus! {

/// Digit `v` may stand in column `c` of the row appended below `g`: neither
/// that column nor that cell's block holds it.
pub open spec fn allowed(g: Seq<Seq<i32>>, c: int, v: i32) -> bool {
    1 <= v <= 9 && !column(g, c).contains(v) && !block(g, g.len() as int, c).contains(v)
}

/// Every value of `s` is allowed in column `c` below `g`.
pub open spec fn all_allowed(g: Seq<Seq<i32>>, c: int, s: Seq<i32>) -> bool {
    forall|k: int| 0 <= k < s.len() ==> allowed(g, c, #[trigger] s[k])
}

/// Strictly increasing.
pub open spec fn ascending(s: Seq<i32>) -> bool {
    forall|i: int, j: int| 0 <= i < j < s.len() ==> s[i] < s[j]
}

/// The remaining-digit lists of the nine columns below `g`.
pub open spec fn lists_ok(g: Seq<Seq<i32>>, lists: Seq<Seq<i32>>) -> bool {
    lists.len() == 9 && forall|c: int|
        0 <= c < 9 ==> all_allowed(g, c, #[trigger] lists[c]) && ascending(lists[c])
}

/// `line` may be appended below `g`: each digit in it is allowed in its
/// column and no digit repeats.
pub open spec fn fits_below(g: Seq<Seq<i32>>, line: Seq<i32>) -> bool {
    &&& line.len() == 9
    &&& forall|c: int| 0 <= c < 9 && #[trigger] line[c] != 0 ==> allowed(g, c, line[c])
    &&& forall|c1: int, c2: int|
        0 <= c1 < 9 && 0 <= c2 < 9 && c1 != c2 && #[trigger] line[c1] != 0 ==> line[c1]
            != #[trigger] line[c2]
}

/// An ascending list of digits has at most `n` entries when all are at most `n`.
proof fn lemma_ascending_len(s: Seq<i32>, n: int)
    requires
        0 <= n,
        ascending(s),
        forall|k: int| 0 <= k < s.len() ==> 1 <= #[trigger] s[k] <= n,
    ensures
        s.len() <= n,
    decreases s.len(),
{
    if s.len() > 0 {
        let t = s.drop_last();
        assert(1 <= s[s.len() - 1] <= n);
        assert forall|k: int| 0 <= k < t.len() implies 1 <= #[trigger] t[k] <= s.last() - 1 by {
            assert(s[k] < s[s.len() - 1]);
        }
        assert(ascending(t));
        lemma_ascending_len(t, s.last() - 1);
        assert(t.len() == s.len() - 1);
    }
}

/// A digit allowed in column `c` differs from every peer of that cell in `g`.
proof fn lemma_allowed_differs(g: Seq<Seq<i32>>, c: int, v: i32, r2: int, c2: int)
    requires
        partial_grid(g),
        g.len() < 9,
        0 <= c < 9,
        0 <= r2 < g.len(),
        0 <= c2 < 9,
        allowed(g, c, v),
        c == c2 || same_block(g.len() as int, c, r2, c2),
    ensures
        g[r2][c2] != v,
{
    let n = g.len() as int;
    if c == c2 {
        assert(column(g, c)[r2] == g[r2][c2]);
    } else {
        let k = (r2 - band(n)) * 3 + (c2 - band(c));
        assert(block_rows(g, n) == n - band(n));
        assert(k / 3 == r2 - band(n) && k % 3 == c2 - band(c));
        assert(block(g, n, c)[k] == g[r2][c2]);
    }
}

/// Appending a fitting row keeps a partial grid valid.
pub proof fn lemma_append_row(g: Seq<Seq<i32>>, line: Seq<i32>)
    requires
        partial_grid(g),
        g.len() < 9,
        cells_in_range(g),
        peers_distinct(g),
        fits_below(g, line),
    ensures
        partial_grid(g.push(line)),
        cells_in_range(g.push(line)),
        peers_distinct(g.push(line)),
{
    let h = g.push(line);
    let n = g.len() as int;
    assert forall|r: int| 0 <= r < h.len() implies (#[trigger] h[r]).len() == 9 by {
        if r < n {
            assert(h[r] == g[r]);
        }
    }
    assert forall|r: int, c: int| 0 <= r < h.len() && 0 <= c < h[r].len() implies 0 <= #[trigger] h[r][c] <= 9 by {
        if r < n {
            assert(h[r] == g[r]);
        } else if line[c] != 0 {
            assert(allowed(g, c, line[c]));
        }
    }
    assert forall|r1: int, c1: int, r2: int, c2: int|
        0 <= r1 < h.len() && 0 <= c1 < 9 && 0 <= r2 < h.len() && 0 <= c2 < 9 && peers(r1, c1, r2, c2)
            && #[trigger] h[r1][c1] != 0 implies h[r1][c1] != #[trigger] h[r2][c2] by {
        if r1 < n && r2 < n {
            assert(h[r1] == g[r1] && h[r2] == g[r2]);
            assert(g[r1][c1] != 0);
        } else if r1 == n && r2 < n {
            assert(h[r2] == g[r2]);
            lemma_allowed_differs(g, c1, line[c1], r2, c2);
        } else if r1 < n && r2 == n {
            assert(h[r1] == g[r1]);
            if line[c2] != 0 {
                lemma_allowed_differs(g, c2, line[c2], r1, c1);
            }
        } else {
            assert(line[c1] != line[c2]);
        }
    }
}

/// The digits `1..=9`, ascending, that neither column `col_index` nor the
/// block of `(row_index, col_index)` of `lines` holds.
fn remaining_values(lines: &Vec<Vec<i32>>, row_index: usize, col_index: usize) -> (values: Vec<i32>)
    requires
        partial_grid(lines.deep_view()),
        row_index == lines.len(),
        row_index < 9,
        col_index < 9,
    ensures
        all_allowed(lines.deep_view(), col_index as int, values@),
        ascending(values@),
        forall|v: i32| 1 <= v <= 9 && allowed(lines.deep_view(), col_index as int, v) ==> values@.contains(v),
{
    let ghost g = lines.deep_view();
    let col = col_values(lines, col_index);
    let blk = block_values(lines, row_index, col_index);
    let mut values: Vec<i32> = Vec::new();
    let mut d: i32 = 1;
    while d <= 9
        invariant
            1 <= d <= 10,
            g.len() == row_index,
            col@ == column(g, col_index as int),
            blk@ == block(g, row_index as int, col_index as int),
            all_allowed(g, col_index as int, values@),
            ascending(values@),
            forall|k: int| 0 <= k < values.len() ==> values@[k] < d,
            forall|v: i32| 1 <= v < d && allowed(g, col_index as int, v) ==> values@.contains(v),
        decreases 10 - d,
    {
        let ghost before = values@;
        if !contains_value(&col, d) && !contains_value(&blk, d) {
            values.push(d);
            assert(values@[values.len() - 1] == d);
        }
        assert forall|v: i32| 1 <= v < d + 1 && allowed(g, col_index as int, v) implies values@.contains(v) by {
            if v < d {
                let q = choose|q: int| 0 <= q < before.len() && before[q] == v;
                assert(values@[q] == v);
            } else {
                assert(values@[values.len() - 1] == d);
            }
        }
        d += 1;
    }
    values
}

/// The values of `values` other than `v`, in order.
fn without_value(values: &Vec<i32>, v: i32) -> (kept: Vec<i32>)
    ensures
        forall|x: i32| kept@.contains(x) <==> values@.contains(x) && x != v,
        ascending(values@) ==> ascending(kept@),
{
    let mut kept: Vec<i32> = Vec::new();
    let mut p: usize = 0;
    while p < values.len()
        invariant
            p <= values.len(),
            forall|t: int| 0 <= t < kept.len() ==> exists|q: int| 0 <= q < p && values@[q] == #[trigger] kept@[t],
            forall|t: int| 0 <= t < kept.len() ==> #[trigger] kept@[t] != v,
            forall|q: int| 0 <= q < p && #[trigger] values@[q] != v ==> kept@.contains(values@[q]),
            ascending(values@) ==> ascending(kept@),
        decreases values.len() - p,
    {
        let ghost before = kept@;
        if values[p] != v {
            kept.push(values[p]);
            assert(kept@ =~= before.push(values@[p as int]));
            assert forall|t: int| 0 <= t < kept.len() implies exists|q: int| 0 <= q < p + 1 && values@[q] == #[trigger] kept@[t] by {
                if t < before.len() {
                    let q = choose|q: int| 0 <= q < p && values@[q] == before[t];
                    assert(values@[q] == kept@[t]);
                } else {
                    assert(values@[p as int] == kept@[t]);
                }
            }
            assert forall|q: int| 0 <= q < p + 1 && #[trigger] values@[q] != v implies kept@.contains(values@[q]) by {
                if q < p {
                    let t = choose|t: int| 0 <= t < before.len() && before[t] == values@[q];
                    assert(kept@[t] == values@[q]);
                } else {
                    assert(kept@[kept.len() - 1] == values@[q]);
                }
            }
            proof {
                if ascending(values@) {
                    assert forall|i: int, j: int| 0 <= i < j < kept.len() implies kept@[i] < kept@[j] by {
                        if j == kept.len() - 1 {
                            let q = choose|q: int| 0 <= q < p && values@[q] == before[i];
                            assert(values@[q] < values@[p as int]);
                        } else {
                            assert(before[i] < before[j]);
                        }
                    }
                }
            }
        }
        p += 1;
    }
    assert forall|x: i32| kept@.contains(x) <==> values@.contains(x) && x != v by {
        if kept@.contains(x) {
            let t = choose|t: int| 0 <= t < kept.len() && kept@[t] == x;
            let q = choose|q: int| 0 <= q < p && values@[q] == kept@[t];
            assert(values@[q] == x);
        }
        if values@.contains(x) && x != v {
            let q = choose|q: int| 0 <= q < values.len() && values@[q] == x;
            assert(kept@.contains(values@[q]));
        }
    }
    kept
}

/// Column `x` comes before column `y`: its list is shorter, or as long and
/// `x` is the smaller column.
pub open spec fn shorter_first(lists: Seq<Seq<i32>>, x: usize, y: usize) -> bool {
    lists[x as int].len() < lists[y as int].len() || (lists[x as int].len() == lists[y as int].len() && x < y)
}

/// The columns whose lists are not empty, by ascending list length, ties
/// broken by column.
fn columns_by_candidate_count(lists: &Vec<Vec<i32>>) -> (order: Vec<usize>)
    requires
        lists.len() == 9,
        forall|c: int| 0 <= c < 9 ==> (#[trigger] lists@[c])@.len() <= 9,
    ensures
        forall|t: int| 0 <= t < order.len() ==> (#[trigger] order@[t]) < 9 && lists@[order@[t] as int]@.len() >= 1,
        forall|c: int| 0 <= c < 9 && (#[trigger] lists@[c])@.len() >= 1 ==> order@.contains(c as usize),
        forall|a: int, b: int| 0 <= a < b < order.len() ==> shorter_first(lists.deep_view(), #[trigger] order@[a], #[trigger] order@[b]),
{
    let mut order: Vec<usize> = Vec::new();
    let mut k: usize = 1;
    while k <= 9
        invariant
            lists.len() == 9,
            1 <= k <= 10,
            forall|c: int| 0 <= c < 9 ==> (#[trigger] lists@[c])@.len() <= 9,
            forall|t: int| 0 <= t < order.len() ==> (#[trigger] order@[t]) < 9 && 1 <= lists@[order@[t] as int]@.len() < k,
            forall|c: int| 0 <= c < 9 && 1 <= (#[trigger] lists@[c])@.len() < k ==> order@.contains(c as usize),
            forall|a: int, b: int| 0 <= a < b < order.len() ==> shorter_first(lists.deep_view(), #[trigger] order@[a], #[trigger] order@[b]),
        decreases 10 - k,
    {
        let mut c: usize = 0;
        while c < 9
            invariant
                lists.len() == 9,
                1 <= k <= 9,
                c <= 9,
                forall|t: int| 0 <= t < order.len() ==> (#[trigger] order@[t]) < 9 && 1 <= lists@[order@[t] as int]@.len() <= k
                    && (lists@[order@[t] as int]@.len() == k ==> order@[t] < c),
                forall|d: int| 0 <= d < 9 && 1 <= (#[trigger] lists@[d])@.len() < k ==> order@.contains(d as usize),
                forall|d: int| 0 <= d < c && (#[trigger] lists@[d])@.len() == k ==> order@.contains(d as usize),
                forall|a: int, b: int| 0 <= a < b < order.len() ==> shorter_first(lists.deep_view(), #[trigger] order@[a], #[trigger] order@[b]),
            decreases 9 - c,
        {
            if lists[c].len() == k {
                let ghost before = order@;
                order.push(c);
                assert forall|d: int| 0 <= d < 9 && 1 <= (#[trigger] lists@[d])@.len() < k implies order@.contains(d as usize) by {
                    let t = choose|t: int| 0 <= t < before.len() && before[t] == d as usize;
                    assert(order@[t] == d as usize);
                }
                assert forall|d: int| 0 <= d <= c && (#[trigger] lists@[d])@.len() == k implies order@.contains(d as usize) by {
                    if d < c {
                        let t = choose|t: int| 0 <= t < before.len() && before[t] == d as usize;
                        assert(order@[t] == d as usize);
                    } else {
                        assert(order@[order.len() - 1] == d as usize);
                    }
                }
            }
            c += 1;
        }
        k += 1;
    }
    proof {
        assert forall|c: int| 0 <= c < 9 && (#[trigger] lists@[c])@.len() >= 1 implies order@.contains(c as usize) by {
            assert(lists@[c]@.len() <= 9);
        }
    }
    order
}

/// The first value of `s`, from position `p` on, that `line` does not hold.
pub open spec fn first_absent(line: Seq<i32>, s: Seq<i32>, p: int) -> Option<i32>
    decreases s.len() - p,
{
    if p < 0 || p >= s.len() {
        None
    } else if !line.contains(s[p]) {
        Some(s[p])
    } else {
        first_absent(line, s, p + 1)
    }
}

/// The row after the first `k` turns of a sweep: at turn `t`, column
/// `order[t]` takes the first value of `shuffled[t]` that the row does not
/// hold yet, and stays as it was if there is none.
pub open spec fn swept(line: Seq<i32>, order: Seq<usize>, shuffled: Seq<Seq<i32>>, k: int) -> Seq<i32>
    decreases k,
{
    if k <= 0 {
        line
    } else {
        let l = swept(line, order, shuffled, k - 1);
        match first_absent(l, shuffled[k - 1], 0) {
            Some(v) => l.update(order[k - 1] as int, v),
            None => l,
        }
    }
}

/// The digits placed in the first `k` turns of a sweep, in order.
pub open spec fn swept_digits(line: Seq<i32>, order: Seq<usize>, shuffled: Seq<Seq<i32>>, k: int) -> Seq<i32>
    decreases k,
{
    if k <= 0 {
        seq![]
    } else {
        let d = swept_digits(line, order, shuffled, k - 1);
        match first_absent(swept(line, order, shuffled, k - 1), shuffled[k - 1], 0) {
            Some(v) => d.push(v),
            None => d,
        }
    }
}

/// Some digit is allowed in some column below `g`.
pub open spec fn some_allowed(g: Seq<Seq<i32>>) -> bool {
    exists|c: int, v: i32| 0 <= c < 9 && allowed(g, c, v)
}

proof fn lemma_first_absent(line: Seq<i32>, s: Seq<i32>, p: int)
    requires
        0 <= p,
    ensures
        first_absent(line, s, p) matches Some(v) ==> s.contains(v) && !line.contains(v),
    decreases s.len() - p,
{
    if p < s.len() && line.contains(s[p]) {
        lemma_first_absent(line, s, p + 1);
    }
}

/// Each turn's list holds only digits allowed in its column.
pub open spec fn turns_allowed(g: Seq<Seq<i32>>, order: Seq<usize>, shuffled: Seq<Seq<i32>>) -> bool {
    &&& order.len() == shuffled.len()
    &&& forall|t: int| 0 <= t < order.len() ==> (#[trigger] order[t]) < 9
    &&& forall|t: int, x: i32| 0 <= t < shuffled.len() && #[trigger] shuffled[t].contains(x) ==> allowed(g, order[t] as int, x)
}

/// A sweep of allowed digits keeps a fitting row fitting, and a column
/// that holds a digit holds one after later turns too.
proof fn lemma_swept(g: Seq<Seq<i32>>, line: Seq<i32>, order: Seq<usize>, shuffled: Seq<Seq<i32>>, j: int, k: int)
    requires
        fits_below(g, line),
        turns_allowed(g, order, shuffled),
        0 <= j <= k <= order.len(),
    ensures
        fits_below(g, swept(line, order, shuffled, k)),
        forall|c: int| 0 <= c < 9 && swept(line, order, shuffled, j)[c] != 0 ==> #[trigger] swept(line, order, shuffled, k)[c] != 0,
    decreases k,
{
    if k > 0 {
        let j1 = if j < k { j } else { k - 1 };
        lemma_swept(g, line, order, shuffled, j1, k - 1);
        let l = swept(line, order, shuffled, k - 1);
        let s = shuffled[k - 1];
        lemma_first_absent(l, s, 0);
        if let Some(v) = first_absent(l, s, 0) {
            let col = order[k - 1] as int;
            assert(allowed(g, col, v));
            let u = l.update(col, v);
            assert forall|c1: int, c2: int|
                0 <= c1 < 9 && 0 <= c2 < 9 && c1 != c2 && #[trigger] u[c1] != 0 implies u[c1] != #[trigger] u[c2] by {
                if c1 == col {
                    assert(l[c2] == u[c2]);
                } else if c2 == col {
                    assert(l[c1] == u[c1]);
                    assert(l.contains(l[c1]));
                } else {
                    assert(l[c1] == u[c1] && l[c2] == u[c2]);
                }
            }
            assert forall|c: int| 0 <= c < 9 && l[c] != 0 implies #[trigger] u[c] != 0 by {}
        }
    }
}

/// The first value of `values` that `line` does not hold.
fn first_absent_value(line: &Vec<i32>, values: &Vec<i32>) -> (found: Option<i32>)
    ensures
        found == first_absent(line@, values@, 0),
{
    let mut p: usize = 0;
    while p < values.len()
        invariant
            p <= values.len(),
            first_absent(line@, values@, 0) == first_absent(line@, values@, p as int),
        decreases values.len() - p,
    {
        if !contains_value(line, values[p]) {
            return Some(values[p]);
        }
        p += 1;
    }
    None
}

/// Drops `v` from each list.
fn remove_everywhere(remaining: &mut Vec<Vec<i32>>, v: i32)
    ensures
        final(remaining).len() == old(remaining).len(),
        forall|d: int, x: i32| 0 <= d < old(remaining).len() ==> (#[trigger] final(remaining)@[d]@.contains(x)
            <==> old(remaining)@[d]@.contains(x) && x != v),
        forall|d: int| 0 <= d < old(remaining).len() && ascending(old(remaining)@[d]@) ==> ascending(#[trigger] final(remaining)@[d]@),
{
    let mut d: usize = 0;
    while d < remaining.len()
        invariant
            remaining.len() == old(remaining).len(),
            d <= remaining.len(),
            forall|e: int, x: i32| 0 <= e < d ==> (#[trigger] remaining@[e]@.contains(x)
                <==> old(remaining)@[e]@.contains(x) && x != v),
            forall|e: int| 0 <= e < d && ascending(old(remaining)@[e]@) ==> ascending(#[trigger] remaining@[e]@),
            forall|e: int| d <= e < remaining.len() ==> #[trigger] remaining@[e] == old(remaining)@[e],
        decreases remaining.len() - d,
    {
        let kept = without_value(&remaining[d], v);
        remaining.set(d, kept);
        d += 1;
    }
}

/// One sweep over a row: each column of `order` in turn takes the first
/// digit of its shuffled list (`shuffled[t]` for `order[t]`) that the row
/// does not hold yet, and that digit leaves every list of `remaining`; a
/// column with no such digit stays as it was.
fn sweep(line: &mut Vec<i32>, remaining: &mut Vec<Vec<i32>>, order: &Vec<usize>, shuffled: &Vec<Vec<i32>>)
    requires
        old(line).len() == 9,
        old(remaining).len() == 9,
        shuffled.len() == order.len(),
        forall|t: int| 0 <= t < order.len() ==> (#[trigger] order@[t]) < 9,
    ensures
        final(line)@ == swept(old(line)@, order@, shuffled.deep_view(), order.len() as int),
        final(remaining).len() == 9,
        forall|d: int, x: i32| 0 <= d < 9 ==> (#[trigger] final(remaining)@[d]@.contains(x)
            <==> old(remaining)@[d]@.contains(x) && !swept_digits(old(line)@, order@, shuffled.deep_view(), order.len() as int).contains(x)),
        forall|d: int| 0 <= d < 9 && ascending(old(remaining)@[d]@) ==> ascending(#[trigger] final(remaining)@[d]@),
{
    let ghost line0 = line@;
    let ghost lists0 = remaining@;
    let ghost sh = shuffled.deep_view();
    let mut t: usize = 0;
    while t < order.len()
        invariant
            sh == shuffled.deep_view(),
            shuffled.len() == order.len(),
            forall|t: int| 0 <= t < order.len() ==> (#[trigger] order@[t]) < 9,
            t <= order.len(),
            line.len() == 9,
            remaining.len() == 9,
            lists0.len() == 9,
            line@ == swept(line0, order@, sh, t as int),
            forall|d: int, x: i32| 0 <= d < 9 ==> (#[trigger] remaining@[d]@.contains(x)
                <==> lists0[d]@.contains(x) && !swept_digits(line0, order@, sh, t as int).contains(x)),
            forall|d: int| 0 <= d < 9 && ascending(lists0[d]@) ==> ascending(#[trigger] remaining@[d]@),
        decreases order.len() - t,
    {
        let col = order[t];
        assert(shuffled@[t as int]@ == sh[t as int]);
        let ghost digits = swept_digits(line0, order@, sh, t as int);
        match first_absent_value(line, &shuffled[t]) {
            Some(v) => {
                line.set(col, v);
                let ghost before = remaining@;
                remove_everywhere(remaining, v);
                assert forall|d: int, x: i32| 0 <= d < 9 implies (#[trigger] remaining@[d]@.contains(x)
                    <==> lists0[d]@.contains(x) && !digits.push(v).contains(x)) by {
                    assert(before[d]@.contains(x) <==> lists0[d]@.contains(x) && !digits.contains(x));
                    if digits.push(v).contains(x) && x != v {
                        let q = choose|q: int| 0 <= q < digits.push(v).len() && digits.push(v)[q] == x;
                        assert(digits[q] == x);
                    }
                    if digits.contains(x) {
                        let q = choose|q: int| 0 <= q < digits.len() && digits[q] == x;
                        assert(digits.push(v)[q] == x);
                    }
                    if x == v {
                        assert(digits.push(v)[digits.len() as int] == x);
                    }
                }
            },
            None => {},
        }
        t += 1;
    }
}

/// Builds the row below `lines` in sweeps, at most a hundred, until no cell
/// of it is blank. Each sweep shuffles the remaining digits of the columns
/// that have any, fewest first, and hands them to [`sweep`]. A column may
/// stay blank, but where some digit is allowed somewhere the row holds one.
fn generate_line(lines: &Vec<Vec<i32>>, rng: &mut StdRng) -> (line: Vec<i32>)
    requires
        partial_grid(lines.deep_view()),
        1 <= lines.len() <= 8,
    ensures
        fits_below(lines.deep_view(), line@),
        some_allowed(lines.deep_view()) ==> exists|c: int| 0 <= c < 9 && line@[c] != 0,
{
    let ghost g = lines.deep_view();
    let row_index = lines.len();
    let mut remaining: Vec<Vec<i32>> = Vec::new();
    let mut c: usize = 0;
    while c < 9
        invariant
            g == lines.deep_view(),
            partial_grid(g),
            row_index == lines.len(),
            row_index < 9,
            c <= 9,
            remaining.len() == c,
            forall|d: int| 0 <= d < c ==> all_allowed(g, d, #[trigger] remaining@[d]@) && ascending(remaining@[d]@),
            forall|d: int, v: i32| 0 <= d < c && 1 <= v <= 9 && allowed(g, d, v) ==> #[trigger] remaining@[d]@.contains(v),
        decreases 9 - c,
    {
        remaining.push(remaining_values(lines, row_index, c));
        c += 1;
    }
    let mut line: Vec<i32> = vec![0, 0, 0, 0, 0, 0, 0, 0, 0];
    let mut loop_count: usize = 0;
    let max_loop_count: usize = 100;
    while contains_value(&line, 0) && loop_count < max_loop_count
        invariant
            g == lines.deep_view(),
            partial_grid(g),
            row_index == g.len(),
            row_index < 9,
            remaining.len() == 9,
            max_loop_count == 100,
            forall|d: int| 0 <= d < 9 ==> all_allowed(g, d, #[trigger] remaining@[d]@) && ascending(remaining@[d]@),
            fits_below(g, line@),
            loop_count == 0 ==> forall|d: int| 0 <= d < 9 ==> #[trigger] line@[d] == 0,
            loop_count == 0 ==> forall|d: int, v: i32| 0 <= d < 9 && 1 <= v <= 9 && allowed(g, d, v) ==> #[trigger] remaining@[d]@.contains(v),
            loop_count > 0 && some_allowed(g) ==> exists|d: int| 0 <= d < 9 && line@[d] != 0,
        decreases max_loop_count - loop_count,
    {
        let snapshot = remaining.clone();
        assert forall|d: int| 0 <= d < 9 implies (#[trigger] snapshot@[d])@ == remaining@[d]@ by {
            assert(snapshot@[d]@ =~= remaining@[d]@);
        }
        assert forall|d: int| 0 <= d < 9 implies (#[trigger] snapshot@[d])@.len() <= 9 by {
            let s = snapshot@[d]@;
            assert forall|k: int| 0 <= k < s.len() implies 1 <= #[trigger] s[k] <= 9 by {
                assert(allowed(g, d, s[k]));
            }
            lemma_ascending_len(s, 9);
        }
        let order = columns_by_candidate_count(&snapshot);
        let mut shuffled: Vec<Vec<i32>> = Vec::new();
        let mut t: usize = 0;
        while t < order.len()
            invariant
                snapshot.len() == 9,
                forall|d: int| 0 <= d < 9 ==> all_allowed(g, d, #[trigger] snapshot@[d]@),
                forall|s: int| 0 <= s < order.len() ==> (#[trigger] order@[s]) < 9 && snapshot@[order@[s] as int]@.len() >= 1,
                t <= order.len(),
                shuffled.len() == t,
                forall|s: int, x: i32| 0 <= s < t ==> (#[trigger] shuffled@[s]@.contains(x) <==> snapshot@[order@[s] as int]@.contains(x)),
                forall|s: int| 0 <= s < t ==> (#[trigger] shuffled@[s]@).len() == snapshot@[order@[s] as int]@.len(),
            decreases order.len() - t,
        {
            let mut values = snapshot[order[t]].clone();
            assert(values@ =~= snapshot@[order@[t as int] as int]@);
            let ghost unshuffled = values@;
            shuffle(&mut values, rng);
            proof {
                lemma_permutation_contains(unshuffled, values@);
            }
            shuffled.push(values);
            t += 1;
        }
        let ghost sh = shuffled.deep_view();
        let ghost line_before = line@;
        assert forall|s: int| 0 <= s < shuffled.len() implies #[trigger] sh[s] == shuffled@[s]@ by {}
        assert(turns_allowed(g, order@, sh)) by {
            assert forall|s: int, x: i32| 0 <= s < sh.len() && #[trigger] sh[s].contains(x) implies allowed(g, order@[s] as int, x) by {
                assert(sh[s] == shuffled@[s]@);
                let q = choose|q: int| 0 <= q < snapshot@[order@[s] as int]@.len() && snapshot@[order@[s] as int]@[q] == x;
                assert(allowed(g, order@[s] as int, snapshot@[order@[s] as int]@[q]));
            }
        }
        let ghost lists_before = remaining@;
        sweep(&mut line, &mut remaining, &order, &shuffled);
        proof {
            lemma_swept(g, line_before, order@, sh, 0, order.len() as int);
            assert forall|d: int| 0 <= d < 9 implies all_allowed(g, d, #[trigger] remaining@[d]@) && ascending(remaining@[d]@) by {
                assert forall|k: int| 0 <= k < remaining@[d]@.len() implies allowed(g, d, #[trigger] remaining@[d]@[k]) by {
                    assert(remaining@[d]@.contains(remaining@[d]@[k]));
                    let old_list = lists_before[d]@;
                    assert(old_list.contains(remaining@[d]@[k]));
                    let q = choose|q: int| 0 <= q < old_list.len() && old_list[q] == remaining@[d]@[k];
                    assert(allowed(g, d, old_list[q]));
                }
            }
            if some_allowed(g) {
                if loop_count == 0 {
                    let (c0, v0) = choose|c0: int, v0: i32| 0 <= c0 < 9 && allowed(g, c0, v0);
                    assert(snapshot@[c0]@.contains(v0));
                    assert(snapshot@[c0]@.len() >= 1);
                    assert(order@.contains(c0 as usize));
                    assert(order.len() >= 1);
                    let s0 = sh[0];
                    assert(s0.len() >= 1);
                    assert(s0.contains(s0[0]));
                    assert(allowed(g, order@[0] as int, s0[0]));
                    assert(!line_before.contains(s0[0])) by {
                        if line_before.contains(s0[0]) {
                            let q = choose|q: int| 0 <= q < line_before.len() && line_before[q] == s0[0];
                            assert(line_before[q] == 0);
                        }
                    }
                    assert(swept(line_before, order@, sh, 0) == line_before);
                    assert(swept(line_before, order@, sh, 1)[order@[0] as int] != 0);
                    lemma_swept(g, line_before, order@, sh, 1, order.len() as int);
                    assert(line@[order@[0] as int] != 0);
                } else {
                    let d = choose|d: int| 0 <= d < 9 && line_before[d] != 0;
                    assert(swept(line_before, order@, sh, 0) == line_before);
                    assert(line@[d] != 0);
                }
            }
        }
        loop_count += 1;
    }
    proof {
        if loop_count == 0 || !line@.contains(0) {
            if line@[0] == 0 {
                assert(line@.contains(line@[0]));
            }
        }
    }
    line
}

/// The first row holds each digit `1..=9` once.
pub open spec fn first_row_shuffled(g: Seq<Seq<i32>>) -> bool {
    g[0].to_multiset() == seq![1i32, 2, 3, 4, 5, 6, 7, 8, 9].to_multiset()
}

/// An attempt abandoned at row `k`: the rows above it have no blank, row `k`
/// has one, and every row below it is blank throughout.
pub open spec fn abandoned_at(g: Seq<Seq<i32>>, k: int) -> bool {
    &&& 1 <= k < 9
    &&& forall|r: int| 0 <= r < k ==> !(#[trigger] g[r]).contains(0)
    &&& g[k].contains(0)
    &&& forall|r: int, c: int| k < r < 9 && 0 <= c < 9 ==> #[trigger] g[r][c] == 0
}

/// What a construction attempt returns, whatever the shuffles gave.
pub open spec fn built_pattern(g: Seq<Seq<i32>>) -> bool {
    &&& is_grid(g)
    &&& cells_in_range(g)
    &&& peers_distinct(g)
    &&& first_row_shuffled(g)
    &&& has_blank(g) ==> exists|k: int| abandoned_at(g, k)
}

/// A grid has a blank exactly when one of its rows holds 0.
proof fn lemma_blank_row(g: Seq<Seq<i32>>)
    ensures
        has_blank(g) <==> exists|r: int| 0 <= r < g.len() && (#[trigger] g[r]).contains(0),
{
    if has_blank(g) {
        let (r, c) = choose|r: int, c: int| 0 <= r < g.len() && 0 <= c < g[r].len() && #[trigger] g[r][c] == 0;
        assert(g[r].contains(0));
    }
    if exists|r: int| 0 <= r < g.len() && (#[trigger] g[r]).contains(0) {
        let r = choose|r: int| 0 <= r < g.len() && (#[trigger] g[r]).contains(0);
        let c = choose|c: int| 0 <= c < g[r].len() && g[r][c] == 0;
        assert(g[r][c] == 0);
    }
}

/// One construction attempt: a shuffled first row, then generated rows
/// until one keeps a blank; the rows below that one are left blank. Says
/// whether the grid came out complete.
fn attempt_pattern(rng: &mut StdRng) -> (result: (Vec<Vec<i32>>, bool))
    ensures
        built_pattern(result.0.deep_view()),
        result.1 == !has_blank(result.0.deep_view()),
{
    let mut lines: Vec<Vec<i32>> = Vec::new();
    let mut line1: Vec<i32> = vec![1, 2, 3, 4, 5, 6, 7, 8, 9];
    let ghost digits = line1@;
    assert(digits =~= seq![1i32, 2, 3, 4, 5, 6, 7, 8, 9]);
    assert(digits.no_duplicates());
    shuffle(&mut line1, rng);
    let ghost first = line1@;
    proof {
        lemma_permutation_contains(digits, first);
        lemma_permutation_no_duplicates(digits, first);
        assert forall|c: int| 0 <= c < 9 implies 1 <= #[trigger] first[c] <= 9 by {
            assert(digits.contains(first[c]));
        }
        if first.contains(0) {
            assert(digits.contains(0));
        }
    }
    lines.push(line1);
    assert(lines.deep_view().len() == 1 && lines.deep_view()[0] == lines@[0]@);
    assert(lines.deep_view() =~= seq![first]);
    let mut contains_zero = false;
    let mut i: usize = 1;
    while i <= 8
        invariant_except_break
            lines.len() == i,
            forall|r: int| 0 <= r < i ==> !(#[trigger] lines.deep_view()[r]).contains(0),
            !contains_zero,
        invariant
            1 <= i <= 9,
            1 <= lines.len() <= 9,
            partial_grid(lines.deep_view()),
            cells_in_range(lines.deep_view()),
            peers_distinct(lines.deep_view()),
            lines.deep_view()[0] == first,
        ensures
            1 <= lines.len() <= 9,
            partial_grid(lines.deep_view()),
            cells_in_range(lines.deep_view()),
            peers_distinct(lines.deep_view()),
            lines.deep_view()[0] == first,
            forall|r: int| 0 <= r < lines.len() - 1 ==> !(#[trigger] lines.deep_view()[r]).contains(0),
            contains_zero ==> lines.deep_view()[lines.len() - 1].contains(0),
            !contains_zero ==> lines.len() == 9 && forall|r: int| 0 <= r < 9 ==> !(#[trigger] lines.deep_view()[r]).contains(0),
        decreases 9 - i,
    {
        let line = generate_line(&lines, rng);
        let ghost before = lines.deep_view();
        proof {
            lemma_append_row(before, line@);
        }
        contains_zero = contains_value(&line, 0);
        let ghost new_row = line@;
        lines.push(line);
        assert(lines.deep_view() =~= before.push(new_row)) by {
            assert forall|k: int| 0 <= k < lines.len() implies lines.deep_view()[k] == before.push(new_row)[k] by {
                assert(lines.deep_view()[k] == lines@[k]@);
            }
        }
        assert(forall|r: int| 0 <= r < i ==> lines.deep_view()[r] == before[r]);
        if contains_zero {
            break;
        }
        i += 1;
    }
    let ghost k = lines.len() - 1;
    proof {
        if contains_zero {
            assert(k >= 1) by {
                if k == 0 {
                    assert(lines.deep_view()[0].contains(0));
                }
            }
        }
    }
    while lines.len() < 9
        invariant
            1 <= lines.len() <= 9,
            partial_grid(lines.deep_view()),
            cells_in_range(lines.deep_view()),
            peers_distinct(lines.deep_view()),
            lines.deep_view()[0] == first,
            k < lines.len(),
            forall|r: int| 0 <= r < k ==> !(#[trigger] lines.deep_view()[r]).contains(0),
            contains_zero ==> 1 <= k && lines.deep_view()[k].contains(0),
            forall|r: int, c: int| k < r < lines.len() && 0 <= c < 9 ==> #[trigger] lines.deep_view()[r][c] == 0,
            !contains_zero ==> lines.len() == 9 && forall|r: int| 0 <= r < 9 ==> !(#[trigger] lines.deep_view()[r]).contains(0),
        decreases 9 - lines.len(),
    {
        let blank_row: Vec<i32> = vec![0, 0, 0, 0, 0, 0, 0, 0, 0];
        let ghost before = lines.deep_view();
        let ghost new_row = blank_row@;
        assert(forall|c: int| 0 <= c < 9 ==> #[trigger] new_row[c] == 0);
        proof {
            lemma_append_row(before, new_row);
        }
        lines.push(blank_row);
        assert(lines.deep_view() =~= before.push(new_row)) by {
            assert forall|j: int| 0 <= j < lines.len() implies lines.deep_view()[j] == before.push(new_row)[j] by {
                assert(lines.deep_view()[j] == lines@[j]@);
            }
        }
        assert(forall|r: int| 0 <= r < before.len() ==> lines.deep_view()[r] == before[r]);
    }
    let ghost g = lines.deep_view();
    proof {
        lemma_blank_row(g);
        if contains_zero {
            assert(abandoned_at(g, k));
            assert(g[k].contains(0));
        } else {
            assert(!has_blank(g));
        }
    }
    (lines, !contains_zero)
}

/// Builds a complete grid: construction attempts, at most a thousand,
/// until one comes out complete. On exhaustion the last attempt comes back,
/// with blanks from the row where it was abandoned on.
pub fn generate_pattern(rng: &mut StdRng) -> (lines: Vec<Vec<i32>>)
    ensures
        is_grid(lines.deep_view()),
        cells_in_range(lines.deep_view()),
        peers_distinct(lines.deep_view()),
        first_row_shuffled(lines.deep_view()),
        has_blank(lines.deep_view()) ==> exists|k: int| abandoned_at(lines.deep_view(), k),
{
    let (mut lines, mut are_numbers_fulfilled) = attempt_pattern(rng);
    let mut try_count: usize = 1;
    let max_try_count: usize = 1000;
    while !are_numbers_fulfilled && try_count < max_try_count
        invariant
            built_pattern(lines.deep_view()),
            try_count <= max_try_count,
        decreases max_try_count - try_count,
    {
        let (next, complete) = attempt_pattern(rng);
        lines = next;
        are_numbers_fulfilled = complete;
        try_count += 1;
    }
    lines
}

/// A generated grid that reports no blank is solved: whatever
/// [`generate_pattern`] returns, if its blank count is zero, it passes the
/// validator.
pub proof fn lemma_complete_pattern_is_solved(g: Seq<Seq<i32>>)
    requires
        is_grid(g),
        cells_in_range(g),
        peers_distinct(g),
        blank_count(g) == 0,
    ensures
        solved(g),
{
    lemma_valid_filled_grid_is_solved(g);
}

} // verus!
