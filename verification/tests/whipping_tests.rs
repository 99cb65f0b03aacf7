use mayo::bytes::{concat_bytes, copy_vector};
use mayo::codec::decode_vec;
use mayo::constants::mayo1;
use mayo::forms::{all_products, batch_products, whip_forms};
use mayo::matrix_arithmetics::{dot_product, vector_add, vector_matrix};
use mayo::primitives::{aes_ctr, keystream, shake256, xof};
use mayo::target::{derive_target, hash_message};
use mayo::verify::vectors_equal;
use mayo::whipping::{shift_matrix, shift_matrix_pow, times_z, times_z_pow};

#[test]
fn times_z_moves_coefficients_up_and_reduces() {
    // no overflow: the top coefficient is zero
    assert_eq!(times_z(&vec![1, 2, 3, 0], &[3, 1]), vec![0u8, 1, 2, 3]);
    // z^4 = 3 + z: the top coefficient 1 comes back as 3 + z
    assert_eq!(times_z(&vec![0, 0, 0, 1], &[3, 1]), vec![3u8, 1, 0, 0]);
    // top coefficient 2: 2 * 3 = 6 and 2 * 1 = 2 are added in
    assert_eq!(times_z(&vec![5, 0, 7, 2], &[3, 1]), vec![6u8, 7, 0, 7]);
    let empty: Vec<u8> = Vec::new();
    assert_eq!(times_z(&empty, &[3, 1]), empty);
}

#[test]
fn times_z_with_empty_tail_drops_the_top() {
    assert_eq!(times_z(&vec![1, 2, 3], &[]), vec![0u8, 1, 2]);
}

#[test]
fn times_z_pow_repeats_times_z() {
    let u = vec![5u8, 0, 7, 2];
    let f = [3u8, 1];
    assert_eq!(times_z_pow(&u, &f, 0), u);
    assert_eq!(times_z_pow(&u, &f, 1), times_z(&u, &f));
    assert_eq!(times_z_pow(&u, &f, 3), times_z(&times_z(&times_z(&u, &f), &f), &f));
    assert_eq!(times_z_pow(&vec![1, 0, 0, 0], &f, 4), vec![3u8, 1, 0, 0]);
}

#[test]
fn shift_matrix_acts_on_every_column() {
    let n = vec![vec![1u8, 5], vec![2, 0], vec![3, 7], vec![0, 2]];
    let f = [3u8, 1];
    let shifted = shift_matrix(&n, &f, 2);
    assert_eq!(shifted, vec![vec![0u8, 6], vec![1, 7], vec![2, 0], vec![3, 7]]);
    assert_eq!(shift_matrix_pow(&n, &f, 2, 0), n);
    assert_eq!(shift_matrix_pow(&n, &f, 2, 2), shift_matrix(&shifted, &f, 2));
}

#[test]
fn products_are_row_vector_times_each_matrix() {
    let batch = vec![
        vec![vec![1u8, 2], vec![3, 4]],
        vec![vec![0u8, 1], vec![1, 0]],
        vec![vec![5u8, 5], vec![5, 5]],
    ];
    let x = vec![2u8, 1];
    let w = batch_products(&batch, &x, 2);
    assert_eq!(w.len(), 3);
    for a in 0..3 {
        assert_eq!(w[a], vector_matrix(&x, &batch[a]));
    }
    assert_eq!(w[0], vec![1u8, 0]);
    assert_eq!(w[1], vec![1u8, 2]);
    let xs = vec![vec![2u8, 1], vec![0, 3]];
    let all = all_products(&batch, &xs, 2, 2);
    assert_eq!(all.len(), 2);
    assert_eq!(all[0], w);
    assert_eq!(all[1], batch_products(&batch, &xs[1], 2));
}

#[test]
fn one_block_is_the_form_itself() {
    let batch = vec![vec![vec![1u8, 2], vec![3, 4]], vec![vec![0u8, 1], vec![1, 0]]];
    let xs = vec![vec![2u8, 1]];
    let ys = vec![vec![7u8, 9]];
    let expected: Vec<u8> =
        batch.iter().map(|m| dot_product(&vector_matrix(&xs[0], m), &ys[0])).collect();
    assert_eq!(whip_forms(&batch, &xs, &ys, &[1], 2, 2), expected);
    // [1, 0] . [7, 9] = 7 and [1, 2] . [7, 9] = 7 + 2 * 9 = 7 + 1 = 6
    assert_eq!(expected, vec![7u8, 6]);
}

#[test]
fn two_blocks_are_combined_in_the_order_of_the_pairs() {
    let batch = vec![
        vec![vec![1u8, 2], vec![3, 4]],
        vec![vec![0u8, 1], vec![1, 0]],
        vec![vec![9u8, 0], vec![0, 6]],
    ];
    let xs = vec![vec![2u8, 1], vec![4, 11]];
    let f = [2u8, 1];
    let form = |x: &Vec<u8>, y: &Vec<u8>| -> Vec<u8> {
        batch.iter().map(|m| dot_product(&vector_matrix(x, m), y)).collect()
    };
    // the pairs in order: (0, 1), (0, 0), (1, 1)
    let first = vector_add(&form(&xs[0], &xs[1]), &form(&xs[1], &xs[0]));
    let second = times_z_pow(&form(&xs[0], &xs[0]), &f, 1);
    let third = times_z_pow(&form(&xs[1], &xs[1]), &f, 2);
    let expected = vector_add(&vector_add(&first, &second), &third);
    assert_eq!(whip_forms(&batch, &xs, &xs, &f, 2, 2), expected);
}

#[test]
fn no_block_gives_zero() {
    let batch = vec![vec![vec![1u8]], vec![vec![2u8]]];
    let none: Vec<Vec<u8>> = Vec::new();
    assert_eq!(whip_forms(&batch, &none, &none, &[1], 1, 1), vec![0u8, 0]);
}

#[test]
fn target_is_decoded_from_the_hash_of_digest_and_salt() {
    let p = mayo1();
    let digest = hash_message(&p, b"test");
    assert_eq!(digest, shake256(b"test", 32));
    let salt = [9u8; 24];
    let mut input = digest.clone();
    input.extend_from_slice(&salt);
    let expected = decode_vec(&shake256(&input, 32), 64).unwrap();
    assert_eq!(derive_target(&p, &digest, &salt), expected);
    assert_ne!(derive_target(&p, &digest, &[8u8; 24]), expected);
}

#[test]
fn xof_and_keystream_are_the_primitives() {
    assert_eq!(xof(b"abc", 40), shake256(b"abc", 40));
    assert_eq!(keystream(&[3u8; 16], 40), aes_ctr(&[3u8; 16], &40));
}

#[test]
fn byte_helpers() {
    assert_eq!(concat_bytes(vec![1, 2], &[3, 4, 5]), vec![1u8, 2, 3, 4, 5]);
    assert_eq!(concat_bytes(Vec::new(), &[]), Vec::<u8>::new());
    assert_eq!(copy_vector(&vec![7, 8]), vec![7u8, 8]);
    assert!(vectors_equal(&vec![1, 2], &vec![1, 2]));
    assert!(!vectors_equal(&vec![1, 2], &vec![1, 3]));
    assert!(!vectors_equal(&vec![1, 2], &vec![1, 2, 0]));
}
