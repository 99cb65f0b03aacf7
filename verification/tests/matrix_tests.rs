use mayo::matrix_arithmetics::{
    column_dot, dot_product, element_wise_addition, element_wise_negation,
    element_wise_subtraction, matrix_multiply, matrix_vector, matrix_width, pad_matrix, transpose,
    upper, vector_add, vector_matrix, zero_vector,
};

#[test]
fn multiply_small_matrices() {
    let a = vec![vec![1u8, 2], vec![3, 0]];
    let b = vec![vec![2u8, 1, 0], vec![8, 3, 1]];
    // row 0: [1*2 + 2*8, 1*1 + 2*3, 2*1] = [2 + 3, 1 + 6, 2] = [1, 7, 2]
    // row 1: [3*2, 3*1, 0] = [6, 3, 0]
    assert_eq!(matrix_multiply(&a, &b), vec![vec![1u8, 7, 2], vec![6, 3, 0]]);
}

#[test]
fn multiply_by_identity() {
    let id = vec![vec![1u8, 0, 0], vec![0, 1, 0], vec![0, 0, 1]];
    let m = vec![vec![5u8, 9, 14], vec![1, 0, 7], vec![15, 2, 3]];
    assert_eq!(matrix_multiply(&id, &m), m);
    assert_eq!(matrix_multiply(&m, &id), m);
}

#[test]
fn multiply_with_no_rows_in_second_factor() {
    let a: Vec<Vec<u8>> = vec![vec![], vec![]];
    let b: Vec<Vec<u8>> = vec![];
    let empty: Vec<u8> = vec![];
    assert_eq!(matrix_multiply(&a, &b), vec![empty.clone(), empty]);
}

#[test]
fn transpose_rectangular() {
    let m = vec![vec![1u8, 2, 3], vec![4, 5, 6]];
    assert_eq!(transpose(&m), vec![vec![1u8, 4], vec![2, 5], vec![3, 6]]);
    assert_eq!(transpose(&transpose(&m)), m);
}

#[test]
fn negation_is_the_matrix_itself() {
    let m = vec![vec![1u8, 2], vec![15, 0]];
    assert_eq!(element_wise_negation(&m), m);
}

#[test]
fn subtraction_is_entrywise_xor() {
    let a = vec![vec![1u8, 2], vec![15, 0]];
    let b = vec![vec![1u8, 4], vec![5, 9]];
    assert_eq!(element_wise_subtraction(&a, &b), vec![vec![0u8, 6], vec![10, 9]]);
    assert_eq!(element_wise_addition(&a, &b), vec![vec![0u8, 6], vec![10, 9]]);
    assert_eq!(element_wise_subtraction(&a, &a), vec![vec![0u8, 0], vec![0, 0]]);
}

#[test]
fn upper_folds_lower_triangle() {
    let m = vec![vec![1u8, 2, 3], vec![4, 5, 6], vec![7, 8, 9]];
    assert_eq!(upper(&m, 3), vec![vec![1u8, 6, 4], vec![0, 5, 14], vec![0, 0, 9]]);
}

#[test]
fn upper_of_upper_is_unchanged() {
    let m = vec![vec![1u8, 6, 4], vec![0, 5, 14], vec![0, 0, 9]];
    assert_eq!(upper(&m, 3), m);
}

#[test]
fn pad_fills_with_zeros() {
    let m = vec![vec![1u8, 2], vec![3, 4]];
    assert_eq!(
        pad_matrix(&m, 3, 4),
        vec![vec![1u8, 2, 0, 0], vec![3, 4, 0, 0], vec![0, 0, 0, 0]]
    );
    assert_eq!(pad_matrix(&m, 2, 2), m);
}

#[test]
fn vector_operations() {
    assert_eq!(zero_vector(3), vec![0u8, 0, 0]);
    assert_eq!(vector_add(&vec![1, 2, 3], &vec![3, 2, 1]), vec![2u8, 0, 2]);
    // 2*3 + 4*5 = 6 + 7 (x^2 * (x^2 + 1) = x^4 + x^2 = x^2 + x + 1)
    assert_eq!(dot_product(&vec![2, 4], &vec![3, 5]), 1);
    let m = vec![vec![1u8, 2], vec![3, 4]];
    assert_eq!(matrix_width(&m), 2);
    assert_eq!(matrix_width(&Vec::new()), 0);
    // [2, 1] * m = [2*1 + 3, 2*2 + 4] = [1, 0]
    assert_eq!(vector_matrix(&vec![2, 1], &m), vec![1u8, 0]);
    assert_eq!(column_dot(&vec![2, 1], &m, 0), 1);
    // m * [2, 1]^T = [2 + 2, 6 + 4] = [0, 2]
    assert_eq!(matrix_vector(&m, &vec![2, 1]), vec![0u8, 2]);
}
