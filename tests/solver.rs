use number_place::candidates::{fetch_usable_values, CellCandidates};
use number_place::elimination::{
    filter_anyhow_values, filter_reserved_values, is_in_same_block, selectable_values_in_block,
};
use number_place::grid::{block_values, col_values, contains_zero, count_zero};
use number_place::solver::{is_solvable, is_value_contained_in_block, solve_problem};
use number_place::validator::check_solved;

fn classic() -> Vec<Vec<i32>> {
    vec![
        vec![5, 3, 4, 6, 7, 8, 9, 1, 2],
        vec![6, 7, 2, 1, 9, 5, 3, 4, 8],
        vec![1, 9, 8, 3, 4, 2, 5, 6, 7],
        vec![8, 5, 9, 7, 6, 1, 4, 2, 3],
        vec![4, 2, 6, 8, 5, 3, 7, 9, 1],
        vec![7, 1, 3, 9, 2, 4, 8, 5, 6],
        vec![9, 6, 1, 5, 3, 7, 2, 8, 4],
        vec![2, 8, 7, 4, 1, 9, 6, 3, 5],
        vec![3, 4, 5, 2, 8, 6, 1, 7, 9],
    ]
}

fn shifted() -> Vec<Vec<i32>> {
    let shifts = [0, 3, 6, 1, 4, 7, 2, 5, 8];
    shifts
        .iter()
        .map(|s| (0..9).map(|c| ((c + s) % 9 + 1) as i32).collect())
        .collect()
}

fn cand(row_index: usize, col_index: usize, values: Vec<i32>) -> CellCandidates {
    CellCandidates { row_index, col_index, values }
}

fn values_at(cells: &[CellCandidates], row: usize, col: usize) -> Vec<i32> {
    cells
        .iter()
        .find(|x| x.row_index == row && x.col_index == col)
        .map(|x| x.values.clone())
        .unwrap()
}

#[test]
fn classic_grid_is_solved() {
    let g = classic();
    assert!(check_solved(&g));
    assert_eq!(count_zero(&g), 0);
}

#[test]
fn complete_valid_grids_are_solved() {
    let g = shifted();
    assert!(check_solved(&g));
    assert_eq!(count_zero(&g), 0);
}

#[test]
fn single_blank_is_restored_in_one_iteration() {
    let mut g = classic();
    g[0][0] = 0;
    let cells = fetch_usable_values(&g);
    assert_eq!(cells.len(), 1);
    assert_eq!((cells[0].row_index, cells[0].col_index), (0, 0));
    assert_eq!(cells[0].values, vec![5]);
    let solved = solve_problem(&g);
    assert_eq!(solved[0][0], 5);
    assert_eq!(solved, classic());
}

#[test]
fn blank_grid_stalls_at_once() {
    let g = vec![vec![0; 9]; 9];
    let solved = solve_problem(&g);
    assert_eq!(count_zero(&solved), 81);
    assert_eq!(solved, g);
    assert!(!is_solvable(&g));
}

#[test]
fn solving_never_adds_blanks() {
    let mut g = classic();
    for (r, c) in [(0, 0), (1, 4), (2, 8), (4, 4), (6, 1), (8, 8), (3, 3), (5, 7)] {
        g[r][c] = 0;
    }
    let before = count_zero(&g);
    let solved = solve_problem(&g);
    assert!(count_zero(&solved) <= before);
    assert_eq!(solved, classic());
    let mut sparse = vec![vec![0; 9]; 9];
    sparse[0] = classic()[0].clone();
    let stalled = solve_problem(&sparse);
    assert!(count_zero(&stalled) <= count_zero(&sparse));
    for r in 0..9 {
        for c in 0..9 {
            if sparse[r][c] != 0 {
                assert_eq!(stalled[r][c], sparse[r][c]);
            }
        }
    }
}

#[test]
fn solving_twice_changes_nothing() {
    let mut g = classic();
    for r in 0..9 {
        g[r][(r * 2) % 9] = 0;
        g[r][(r * 5 + 1) % 9] = 0;
    }
    let once = solve_problem(&g);
    assert_eq!(solve_problem(&once), once);
    let mut sparse = vec![vec![0; 9]; 9];
    sparse[4] = classic()[4].clone();
    let stalled = solve_problem(&sparse);
    assert_eq!(solve_problem(&stalled), stalled);
}

fn peers_distinct(g: &Vec<Vec<i32>>) -> bool {
    for r1 in 0..9 {
        for c1 in 0..9 {
            for r2 in 0..9 {
                for c2 in 0..9 {
                    let peer = (r1, c1) != (r2, c2) && (r1 == r2 || c1 == c2 || (r1 / 3 == r2 / 3 && c1 / 3 == c2 / 3));
                    if peer && g[r1][c1] != 0 && g[r1][c1] == g[r2][c2] {
                        return false;
                    }
                }
            }
        }
    }
    true
}

#[test]
fn solving_keeps_grids_valid() {
    let mut sparse = vec![vec![0; 9]; 9];
    sparse[0] = classic()[0].clone();
    sparse[4][4] = 5;
    sparse[8] = vec![0, 0, 0, 2, 8, 6, 0, 0, 0];
    assert!(peers_distinct(&sparse));
    let solved = solve_problem(&sparse);
    assert!(peers_distinct(&solved));
    assert!(solved.iter().all(|row| row.iter().all(|v| (0..=9).contains(v))));
    let mut g = classic();
    for r in 0..9 {
        g[r][(r * 4) % 9] = 0;
    }
    assert!(peers_distinct(&solve_problem(&g)));
}

#[test]
fn solvable_puzzle_is_reported_solvable() {
    let mut g = classic();
    g[0][0] = 0;
    g[8][8] = 0;
    assert!(is_solvable(&g));
    assert!(contains_zero(&g));
    assert!(!contains_zero(&solve_problem(&g)));
}

#[test]
fn check_solved_rejects_blanks_and_repeats() {
    let mut blank = classic();
    blank[4][4] = 0;
    assert!(!check_solved(&blank));

    let mut row_repeat = classic();
    row_repeat[0][1] = 5;
    assert!(!check_solved(&row_repeat));

    let mut swapped_rows = classic();
    swapped_rows.swap(0, 3);
    assert!(!check_solved(&swapped_rows));

    let rows_only: Vec<Vec<i32>> = (0..9).map(|_| (1..=9).collect()).collect();
    assert!(!check_solved(&rows_only));
}

#[test]
fn column_and_block_values() {
    let g = classic();
    assert_eq!(col_values(&g, 0), vec![5, 6, 1, 8, 4, 7, 9, 2, 3]);
    assert_eq!(block_values(&g, 4, 7), vec![4, 2, 3, 7, 9, 1, 8, 5, 6]);
    let partial = vec![classic()[0].clone(), classic()[1].clone()];
    assert_eq!(block_values(&partial, 2, 0), vec![5, 3, 4, 6, 7, 2]);
    assert_eq!(block_values(&partial, 3, 0), Vec::<i32>::new());
    assert_eq!(col_values(&partial, 8), vec![2, 8]);
}

#[test]
fn blank_counting() {
    let mut g = classic();
    assert_eq!(count_zero(&g), 0);
    assert!(!contains_zero(&g));
    g[8][8] = 0;
    g[0][3] = 0;
    assert_eq!(count_zero(&g), 2);
    assert!(contains_zero(&g));
    assert_eq!(count_zero(&vec![vec![0; 9]; 9]), 81);
}

#[test]
fn candidates_exclude_peer_digits() {
    let mut g = vec![vec![0; 9]; 9];
    g[0] = vec![0, 0, 0, 1, 2, 0, 0, 0, 0];
    g[5][0] = 3;
    g[1][1] = 4;
    let cells = fetch_usable_values(&g);
    assert_eq!(cells.len(), 81 - 4);
    assert_eq!((cells[0].row_index, cells[0].col_index), (0, 0));
    assert_eq!(values_at(&cells, 0, 0), vec![5, 6, 7, 8, 9]);
    assert_eq!(values_at(&cells, 8, 8), vec![1, 2, 3, 4, 5, 6, 7, 8, 9]);
    assert_eq!(values_at(&cells, 2, 2), vec![1, 2, 3, 5, 6, 7, 8, 9]);
}

#[test]
fn block_membership() {
    assert!(is_in_same_block(0, 0, 2, 2));
    assert!(is_in_same_block(4, 7, 3, 6));
    assert!(!is_in_same_block(2, 2, 3, 2));
    assert!(!is_in_same_block(0, 5, 0, 6));
    let cells = vec![cand(0, 0, vec![1]), cand(1, 1, vec![2]), cand(3, 3, vec![3]), cand(2, 2, vec![4])];
    assert_eq!(selectable_values_in_block(&cells, 0, 0), vec![1, 3]);
    assert_eq!(selectable_values_in_block(&cells, 4, 4), vec![2]);
    assert!(is_value_contained_in_block(&cells, 0, 0, 4));
    assert!(!is_value_contained_in_block(&cells, 0, 0, 1));
    assert!(!is_value_contained_in_block(&cells, 0, 0, 3));
}

#[test]
fn pointing_removes_digit_along_row() {
    // In the top-left block only row 0 lists 7, so 7 leaves the rest of row 0.
    let cells = vec![
        cand(0, 0, vec![7, 8]),
        cand(0, 1, vec![7, 9]),
        cand(1, 0, vec![8, 9]),
        cand(0, 5, vec![3, 7]),
        cand(1, 4, vec![7, 3]),
        cand(4, 5, vec![7, 1]),
    ];
    let out = filter_anyhow_values(&cells);
    assert_eq!(out.len(), cells.len());
    assert_eq!(values_at(&out, 0, 0), vec![7, 8]);
    assert_eq!(values_at(&out, 0, 1), vec![7, 9]);
    assert_eq!(values_at(&out, 1, 0), vec![8, 9]);
    assert_eq!(values_at(&out, 0, 5), vec![3]);
    assert_eq!(values_at(&out, 1, 4), vec![7, 3]);
    assert_eq!(values_at(&out, 4, 5), vec![7, 1]);
}

#[test]
fn pointing_removes_digit_along_column() {
    // In the top-left block only column 0 lists 4, so 4 leaves the rest of column 0.
    let cells = vec![
        cand(0, 0, vec![4, 6]),
        cand(1, 0, vec![4]),
        cand(1, 1, vec![6, 2]),
        cand(4, 1, vec![4, 5]),
        cand(5, 0, vec![4, 5]),
        cand(5, 1, vec![5, 8]),
    ];
    let out = filter_anyhow_values(&cells);
    assert_eq!(values_at(&out, 5, 0), vec![5]);
    assert_eq!(values_at(&out, 4, 1), vec![4, 5]);
    assert_eq!(values_at(&out, 0, 0), vec![4, 6]);
    assert_eq!(values_at(&out, 1, 1), vec![6, 2]);
}

#[test]
fn confinement_removes_claimed_digits_in_block() {
    // (0,0) lists {5}; the one other entry within it, (0,1) with {}, makes
    // one cell for one digit, so 5 leaves the rest of the block.
    let cells = vec![
        cand(0, 0, vec![5]),
        cand(0, 1, vec![]),
        cand(1, 1, vec![5, 6]),
        cand(2, 2, vec![2, 5]),
        cand(0, 4, vec![5, 8]),
    ];
    let out = filter_reserved_values(&cells);
    assert_eq!(values_at(&out, 0, 0), vec![5]);
    assert_eq!(values_at(&out, 1, 1), vec![6]);
    assert_eq!(values_at(&out, 2, 2), vec![2]);
    assert_eq!(values_at(&out, 0, 4), vec![5, 8]);
}

#[test]
fn confinement_keeps_sets_without_claims() {
    let cells = vec![cand(0, 0, vec![1, 2]), cand(0, 1, vec![1, 2]), cand(1, 1, vec![1, 2, 3])];
    let out = filter_reserved_values(&cells);
    assert_eq!(values_at(&out, 0, 0), vec![1, 2]);
    assert_eq!(values_at(&out, 0, 1), vec![1, 2]);
    assert_eq!(values_at(&out, 1, 1), vec![1, 2, 3]);
}
