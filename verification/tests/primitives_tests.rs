use mayo::primitives::{aes_ctr, random_bytes, shake256};

#[test]
fn shake256_of_empty_input() {
    let expected: [u8; 32] = [
        0x46, 0xb9, 0xdd, 0x2b, 0x0b, 0xa8, 0x8d, 0x13, 0x23, 0x3b, 0x3f, 0xeb, 0x74, 0x3e, 0xeb,
        0x24, 0x3f, 0xcd, 0x52, 0xea, 0x62, 0xb8, 0x1b, 0x82, 0xb5, 0x0c, 0x27, 0x64, 0x6e, 0xd5,
        0x76, 0x2f,
    ];
    assert_eq!(shake256(&[], 32), expected.to_vec());
}

#[test]
fn shake256_output_has_requested_length_and_stable_prefix() {
    let short = shake256(b"seed", 10);
    let long = shake256(b"seed", 300);
    assert_eq!(short.len(), 10);
    assert_eq!(long.len(), 300);
    assert_eq!(&long[..10], &short[..]);
    assert_eq!(shake256(b"seed", 0).len(), 0);
}

#[test]
fn shake256_depends_on_input() {
    assert_ne!(shake256(b"a", 16), shake256(b"b", 16));
    assert_ne!(shake256(b"abcdefghijklmnop", 16), b"abcdefghijklmnop".to_vec());
}

#[test]
fn aes_ctr_first_block_of_zero_key() {
    let expected: [u8; 16] = [
        0x66, 0xe9, 0x4b, 0xd4, 0xef, 0x8a, 0x2c, 0x3b, 0x88, 0x4c, 0xfa, 0x59, 0xca, 0x34, 0x2b,
        0x2e,
    ];
    assert_eq!(aes_ctr(&[0u8; 16], &16), expected.to_vec());
}

#[test]
fn aes_ctr_output_has_requested_length_and_stable_prefix() {
    let key = [7u8; 16];
    let short = aes_ctr(&key, &5);
    let long = aes_ctr(&key, &100);
    assert_eq!(short.len(), 5);
    assert_eq!(long.len(), 100);
    assert_eq!(&long[..5], &short[..]);
    assert_eq!(aes_ctr(&key, &0).len(), 0);
}

#[test]
fn aes_ctr_depends_on_key() {
    assert_ne!(aes_ctr(&[1u8; 16], &16), aes_ctr(&[2u8; 16], &16));
    assert_ne!(aes_ctr(&[1u8; 16], &16), vec![1u8; 16]);
}

#[test]
fn random_bytes_have_requested_length() {
    assert_eq!(random_bytes(0).len(), 0);
    assert_eq!(random_bytes(24).len(), 24);
    assert_ne!(random_bytes(32), random_bytes(32));
}
