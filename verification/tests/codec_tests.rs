use mayo::codec::{
    decode_bitsliced_matrices, decode_bitsliced_vector, decode_o, decode_vec,
    encode_bitsliced_matrices, encode_bitsliced_vector, encode_vec, encoded_len,
};
use mayo::error::MayoError;

fn sample_vector(len: usize, seed: u32) -> Vec<u8> {
    let mut state = seed;
    let mut v = Vec::new();
    for _ in 0..len {
        state = state.wrapping_mul(1664525).wrapping_add(1013904223);
        v.push(((state >> 24) & 15) as u8);
    }
    v
}

fn sample_batch(m: usize, rows: usize, cols: usize, triangular: bool, seed: u32) -> Vec<Vec<Vec<u8>>> {
    let mut batch = Vec::new();
    for a in 0..m {
        let mut matrix = Vec::new();
        for i in 0..rows {
            let mut row = sample_vector(cols, seed + (a * rows + i) as u32);
            if triangular {
                for j in 0..cols {
                    if j < i {
                        row[j] = 0;
                    }
                }
            }
            matrix.push(row);
        }
        batch.push(matrix);
    }
    batch
}

#[test]
fn bitsliced_vector_exact_bytes() {
    assert_eq!(encode_bitsliced_vector(&vec![1, 0, 0, 0, 0, 0, 0, 0]), vec![0x80u8, 0, 0, 0]);
    assert_eq!(encode_bitsliced_vector(&vec![0, 0, 0, 0, 0, 0, 0, 15]), vec![1u8, 1, 1, 1]);
    assert_eq!(encode_bitsliced_vector(&vec![2, 0, 0, 0, 0, 0, 0, 8]), vec![0u8, 0x80, 0, 1]);
    let empty: Vec<u8> = Vec::new();
    assert_eq!(encode_bitsliced_vector(&empty), empty);
}

#[test]
fn bitsliced_vector_planes_are_apart() {
    let mut v = vec![0u8; 16];
    v[0] = 1;
    v[8] = 2;
    // two bytes per plane: plane 0 = [0x80, 0], plane 1 = [0, 0x80]
    assert_eq!(encode_bitsliced_vector(&v), vec![0x80u8, 0, 0, 0x80, 0, 0, 0, 0]);
}

#[test]
fn bitsliced_vector_decodes_exact_values() {
    assert_eq!(
        decode_bitsliced_vector(&[0x80, 0, 0, 0], 8),
        Ok(vec![1u8, 0, 0, 0, 0, 0, 0, 0])
    );
    assert_eq!(
        decode_bitsliced_vector(&[1, 1, 1, 1], 8),
        Ok(vec![0u8, 0, 0, 0, 0, 0, 0, 15])
    );
    assert_eq!(
        decode_bitsliced_vector(&[0xff, 0, 0xff, 0], 8),
        Ok(vec![5u8, 5, 5, 5, 5, 5, 5, 5])
    );
}

#[test]
fn bitsliced_vector_round_trip() {
    for len in [0usize, 8, 16, 64] {
        let v = sample_vector(len, 7 + len as u32);
        let bytes = encode_bitsliced_vector(&v);
        assert_eq!(bytes.len(), len / 2);
        assert_eq!(decode_bitsliced_vector(&bytes, len), Ok(v));
    }
}

#[test]
fn bitsliced_vector_rejects_short_input() {
    assert_eq!(decode_bitsliced_vector(&[0, 0, 0], 8), Err(MayoError::InvalidLength));
    assert_eq!(decode_bitsliced_vector(&[], 8), Err(MayoError::InvalidLength));
}

#[test]
fn bitsliced_vector_rejects_length_not_multiple_of_eight() {
    assert_eq!(decode_bitsliced_vector(&[0; 16], 12), Err(MayoError::InvalidLength));
}

#[test]
fn bitsliced_vector_ignores_trailing_bytes() {
    assert_eq!(
        decode_bitsliced_vector(&[0x80, 0, 0, 0, 0xff, 0xff], 8),
        Ok(vec![1u8, 0, 0, 0, 0, 0, 0, 0])
    );
}

#[test]
fn encoded_len_counts_written_positions() {
    assert_eq!(encoded_len(64, 58, 58, true), Some(54752));
    assert_eq!(encoded_len(64, 58, 8, false), Some(14848));
    assert_eq!(encoded_len(64, 8, 8, true), Some(1152));
    assert_eq!(encoded_len(8, 2, 3, false), Some(24));
    assert_eq!(encoded_len(8, 2, 3, true), Some(20));
    assert_eq!(encoded_len(8, 3, 2, true), Some(12));
    assert_eq!(encoded_len(8, 0, 5, false), Some(0));
}

#[test]
fn matrices_are_written_position_by_position() {
    // eight 1 x 2 matrices; the first holds [1, 2], the others zeros
    let mut batch = vec![vec![vec![0u8, 0]]; 8];
    batch[0][0][0] = 1;
    batch[0][0][1] = 2;
    assert_eq!(
        encode_bitsliced_matrices(batch, 8, 1, 2, false),
        vec![0x80u8, 0, 0, 0, 0, 0x80, 0, 0]
    );
}

#[test]
fn triangular_encoding_skips_lower_positions() {
    let mut batch = vec![vec![vec![0u8, 0], vec![0, 0]]; 8];
    batch[7][0][0] = 1;
    batch[7][0][1] = 2;
    batch[7][1][0] = 4;
    batch[7][1][1] = 8;
    let full = encode_bitsliced_matrices(batch.clone(), 8, 2, 2, false);
    assert_eq!(full, vec![1u8, 0, 0, 0, 0, 1, 0, 0, 0, 0, 1, 0, 0, 0, 0, 1]);
    let tri = encode_bitsliced_matrices(batch, 8, 2, 2, true);
    assert_eq!(tri, vec![1u8, 0, 0, 0, 0, 1, 0, 0, 0, 0, 0, 1]);
}

#[test]
fn matrices_round_trip_full() {
    for (m, rows, cols) in [(8usize, 1usize, 1usize), (8, 3, 2), (16, 2, 5), (64, 4, 4)] {
        let batch = sample_batch(m, rows, cols, false, 11);
        let bytes = encode_bitsliced_matrices(batch.clone(), m, rows, cols, false);
        assert_eq!(Some(bytes.len()), encoded_len(m, rows, cols, false));
        assert_eq!(decode_bitsliced_matrices(&bytes, m, rows, cols, false), Ok(batch));
    }
}

#[test]
fn matrices_round_trip_triangular() {
    for (m, n) in [(8usize, 1usize), (8, 3), (16, 5), (64, 8)] {
        let batch = sample_batch(m, n, n, true, 23);
        let bytes = encode_bitsliced_matrices(batch.clone(), m, n, n, true);
        assert_eq!(Some(bytes.len()), encoded_len(m, n, n, true));
        assert_eq!(decode_bitsliced_matrices(&bytes, m, n, n, true), Ok(batch));
    }
}

#[test]
fn triangular_decoding_leaves_lower_positions_zero() {
    let bytes = vec![0xffu8; 12];
    let batch = decode_bitsliced_matrices(&bytes, 8, 2, 2, true).unwrap();
    for a in 0..8 {
        assert_eq!(batch[a], vec![vec![15u8, 15], vec![0, 15]]);
    }
}

#[test]
fn matrices_reject_short_input() {
    let batch = sample_batch(8, 3, 3, false, 5);
    let bytes = encode_bitsliced_matrices(batch, 8, 3, 3, false);
    assert_eq!(bytes.len(), 36);
    assert_eq!(
        decode_bitsliced_matrices(&bytes[..35], 8, 3, 3, false),
        Err(MayoError::InvalidLength)
    );
    assert_eq!(decode_bitsliced_matrices(&[], 8, 1, 1, false), Err(MayoError::InvalidLength));
}

#[test]
fn matrices_reject_count_not_multiple_of_eight() {
    assert_eq!(
        decode_bitsliced_matrices(&[0u8; 64], 4, 1, 1, false),
        Err(MayoError::InvalidLength)
    );
}

#[test]
fn empty_batch_shape_decodes_from_nothing() {
    let batch = decode_bitsliced_matrices(&[], 8, 0, 3, false).unwrap();
    assert_eq!(batch.len(), 8);
    for a in 0..8 {
        assert!(batch[a].is_empty());
    }
}

#[test]
fn nibble_vector_exact_bytes() {
    assert_eq!(encode_vec(&vec![1, 2, 3]), vec![0x21u8, 0x03]);
    assert_eq!(encode_vec(&vec![15, 0, 0, 15]), vec![0x0fu8, 0xf0]);
    assert_eq!(decode_vec(&[0x21, 0x03], 3), Ok(vec![1u8, 2, 3]));
    assert_eq!(decode_vec(&[0x21, 0x43], 4), Ok(vec![1u8, 2, 3, 4]));
}

#[test]
fn nibble_vector_round_trip() {
    for len in [0usize, 1, 2, 7, 58, 594] {
        let v = sample_vector(len, 3 + len as u32);
        let bytes = encode_vec(&v);
        assert_eq!(bytes.len(), (len + 1) / 2);
        assert_eq!(decode_vec(&bytes, len), Ok(v));
    }
}

#[test]
fn nibble_vector_rejects_short_input() {
    assert_eq!(decode_vec(&[0x21], 3), Err(MayoError::InvalidLength));
    assert_eq!(decode_vec(&[], 1), Err(MayoError::InvalidLength));
    assert_eq!(decode_vec(&[], 0), Ok(Vec::new()));
}

#[test]
fn oil_matrix_is_row_major() {
    assert_eq!(decode_o(&[0x21, 0x43], 2, 2), Ok(vec![vec![1u8, 2], vec![3, 4]]));
    assert_eq!(
        decode_o(&[0x21, 0x43, 0x65], 2, 3),
        Ok(vec![vec![1u8, 2, 3], vec![4, 5, 6]])
    );
    assert_eq!(decode_o(&[0x21, 0x43, 0x65], 3, 1), Ok(vec![vec![1u8], vec![2], vec![3]]));
}

#[test]
fn oil_matrix_rejects_short_input() {
    assert_eq!(decode_o(&[0x21], 2, 2), Err(MayoError::InvalidLength));
    assert_eq!(decode_o(&[0x21, 0x43], 3, 2), Err(MayoError::InvalidLength));
}

#[test]
fn oil_matrix_of_odd_size_reads_a_half_byte() {
    assert_eq!(decode_o(&[0x21, 0xf3], 1, 3), Ok(vec![vec![1u8, 2, 3]]));
}
