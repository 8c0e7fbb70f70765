use number_place::grid::count_zero;
use number_place::masking::{add_blank_to_template, fit_template, generate_problem};
use number_place::pattern::generate_pattern;
use number_place::solver::is_solvable;
use number_place::validator::check_solved;
use rand::rngs::StdRng;
use rand::SeedableRng;

fn classic() -> Vec<Vec<i32>> {
    vec![
        vec![5, 3, 4, 6, 7, 8, 9, 1, 2],
        vec![6, 7, 2, 1, 9, 5, 3, 4, 8],
        vec![1, 9, 8, 3, 4, 2, 5, 6, 7],
        vec![8, 5, 9, 7, 6, 1, 4, 2, 3],
        vec![4, 2, 6, 8, 5, 3, 7, 9, 1],
        vec![7, 1, 3, 9, 2, 4, 8, 5, 6],
        vec![9, 6, 1, 5, 3, 7, 2, 8, 4],
        vec![2, 8, 7, 4, 1, 9, 6, 3, 5],
        vec![3, 4, 5, 2, 8, 6, 1, 7, 9],
    ]
}

#[test]
fn fit_template_keeps_masked_cells() {
    let p = classic();
    assert_eq!(fit_template(&p, &vec![vec![1; 9]; 9]), p);
    assert_eq!(fit_template(&p, &vec![vec![0; 9]; 9]), vec![vec![0; 9]; 9]);
    let mut mask = vec![vec![1; 9]; 9];
    mask[0][0] = 0;
    mask[3][7] = 0;
    mask[8][2] = 2;
    let fit = fit_template(&p, &mask);
    assert_eq!(fit[0][0], 0);
    assert_eq!(fit[3][7], 0);
    assert_eq!(fit[8][2], 0);
    assert_eq!(fit[0][1], 3);
    assert_eq!(count_zero(&fit), 3);
}

#[test]
fn complete_patterns_are_solved() {
    for seed in 0..5u64 {
        let mut rng = StdRng::seed_from_u64(seed);
        let g = generate_pattern(&mut rng);
        assert_eq!(g.len(), 9);
        assert!(g.iter().all(|row| row.len() == 9));
        if count_zero(&g) == 0 {
            assert!(check_solved(&g));
        }
    }
}

#[test]
fn pattern_first_rows_are_shuffled() {
    let identity: Vec<i32> = (1..=9).collect();
    let mut differs = false;
    for seed in 0..5u64 {
        let mut rng = StdRng::seed_from_u64(seed);
        let g = generate_pattern(&mut rng);
        let mut first = g[0].clone();
        if first != identity {
            differs = true;
        }
        first.sort();
        assert_eq!(first, identity);
    }
    assert!(differs);
}

#[test]
fn pattern_generation_is_reproducible_from_a_seed() {
    let a = generate_pattern(&mut StdRng::seed_from_u64(42));
    let b = generate_pattern(&mut StdRng::seed_from_u64(42));
    assert_eq!(a, b);
}

#[test]
fn blanks_are_added_to_revealed_cells() {
    let mut rng = StdRng::seed_from_u64(7);
    let full = vec![vec![1; 9]; 9];
    let five = add_blank_to_template(&full, 5, &mut rng);
    assert_eq!(count_zero(&five), 5);
    let seven = add_blank_to_template(&five, 2, &mut rng);
    assert_eq!(count_zero(&seven), 7);
    for r in 0..9 {
        for c in 0..9 {
            if five[r][c] == 0 {
                assert_eq!(seven[r][c], 0);
            }
        }
    }
    let all = add_blank_to_template(&seven, 100, &mut rng);
    assert_eq!(all, vec![vec![0; 9]; 9]);
}

#[test]
fn masked_puzzle_comes_from_the_pattern() {
    let p = classic();
    let mut rng = StdRng::seed_from_u64(3);
    let q = generate_problem(&p, &mut rng);
    let blanks = count_zero(&q);
    assert!(blanks >= 5);
    for r in 0..9 {
        for c in 0..9 {
            assert!(q[r][c] == p[r][c] || q[r][c] == 0);
        }
    }
    if blanks > 5 {
        assert!(is_solvable(&q));
    }
}
