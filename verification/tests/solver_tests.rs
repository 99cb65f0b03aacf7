use mayo::field::{add, mul};
use mayo::solver::sample_solution;

fn residual(aug: &Vec<Vec<u8>>, x: &Vec<u8>) -> Vec<u8> {
    let n = x.len();
    aug.iter()
        .map(|row| {
            let mut acc = row[n];
            for c in 0..n {
                acc = add(acc, mul(row[c], x[c]));
            }
            acc
        })
        .collect()
}

#[test]
fn solves_a_square_system_exactly() {
    // x0 = 5, 2 * x1 = 1 -> x1 = 9
    let aug = vec![vec![1u8, 0, 5], vec![0, 2, 1]];
    assert_eq!(sample_solution(aug, 2, &vec![0, 0]), Some(vec![5u8, 9]));
}

#[test]
fn square_system_does_not_depend_on_the_start() {
    let aug = vec![vec![3u8, 7, 1], vec![5, 2, 9]];
    let a = sample_solution(aug.clone(), 2, &vec![0, 0]).unwrap();
    let b = sample_solution(aug.clone(), 2, &vec![11, 4]).unwrap();
    assert_eq!(a, b);
    assert_eq!(residual(&aug, &a), vec![0u8, 0]);
}

#[test]
fn needs_a_row_below_when_the_pivot_is_zero() {
    let aug = vec![vec![0u8, 1, 7], vec![1, 0, 3]];
    assert_eq!(sample_solution(aug, 2, &vec![0, 0]), Some(vec![3u8, 7]));
}

#[test]
fn free_unknowns_keep_their_start() {
    // x0 + x2 = 1, x1 + x2 = 2; x2 is free
    let aug = vec![vec![1u8, 0, 1, 1], vec![0, 1, 1, 2]];
    assert_eq!(sample_solution(aug.clone(), 3, &vec![0, 0, 0]), Some(vec![1u8, 2, 0]));
    assert_eq!(sample_solution(aug, 3, &vec![9, 9, 4]), Some(vec![5u8, 6, 4]));
}

#[test]
fn rank_deficient_system_has_no_answer() {
    let aug = vec![vec![1u8, 2, 3], vec![2, 4, 6]];
    // second row is 2 times the first
    assert_eq!(mul(2, 1), 2);
    assert_eq!(mul(2, 2), 4);
    assert_eq!(sample_solution(aug, 2, &vec![0, 0]), None);
}

#[test]
fn zero_row_has_no_answer_even_if_consistent() {
    let aug = vec![vec![1u8, 0, 3], vec![0, 0, 0]];
    assert_eq!(sample_solution(aug, 2, &vec![0, 0]), None);
}

#[test]
fn more_rows_than_unknowns_has_no_answer() {
    let aug = vec![vec![1u8, 1], vec![2, 2]];
    assert_eq!(sample_solution(aug, 1, &vec![0]), None);
}

#[test]
fn no_equations_gives_the_start() {
    let aug: Vec<Vec<u8>> = Vec::new();
    assert_eq!(sample_solution(aug, 3, &vec![1, 2, 3]), Some(vec![1u8, 2, 3]));
}

#[test]
fn larger_system_is_solved() {
    let rows = 6usize;
    let cols = 9usize;
    let mut state = 12345u32;
    let mut aug = Vec::new();
    for _ in 0..rows {
        let mut row = Vec::new();
        for _ in 0..cols + 1 {
            state = state.wrapping_mul(1664525).wrapping_add(1013904223);
            row.push(((state >> 24) & 15) as u8);
        }
        aug.push(row);
    }
    let start = vec![1u8, 2, 3, 4, 5, 6, 7, 8, 9];
    if let Some(x) = sample_solution(aug.clone(), cols, &start) {
        assert_eq!(x.len(), cols);
        assert_eq!(residual(&aug, &x), vec![0u8; rows]);
    } else {
        panic!("a random 6 x 9 system over GF(16) is expected to have full rank");
    }
}
