use mayo::codec::{decode_bitsliced_matrices, decode_o};
use mayo::constants::{mayo1, MayoParams};
use mayo::error::MayoError;
use mayo::keys::{mayo_expand_pk, mayo_expand_sk, mayo_keypair, mayo_keypair_from_seed};
use mayo::matrix_arithmetics::{
    element_wise_addition, matrix_multiply, transpose, upper,
};
use mayo::sign::{mayo_sign, sign_with_salt, MAX_SIGN_ATTEMPTS};
use mayo::verify::mayo_verify;

#[test]
fn parameter_accessors() {
    let p = mayo1();
    assert_eq!(p.param_v(), 58);
    assert_eq!(p.param_a_cols(), 73);
    assert_eq!(p.m, 64);
    assert_eq!(p.n, 66);
    assert_eq!(p.o, 8);
    assert_eq!(p.k, 9);
    assert_eq!(p.q, 16);
    assert_eq!(p.cpk_bytes, p.pk_seed_bytes + p.P3_bytes);
    assert_eq!(p.esk_bytes, p.sk_seed_bytes + p.O_bytes + p.P1_bytes + p.L_bytes);
    assert_eq!(p.epk_bytes, p.P1_bytes + p.P2_bytes + p.P3_bytes);
    assert_eq!(p.sig_bytes, (p.n * p.k + 1) / 2 + p.salt_bytes);
}

#[test]
fn concrete_scenario() {
    let p = mayo1();
    let seed = [0u8; 24];
    let (csk, cpk) = mayo_keypair_from_seed(&p, &seed).unwrap();
    assert_eq!(csk, seed.to_vec());
    assert_eq!(cpk.len(), 16 + 1152);
    assert_eq!(cpk.len(), 1168);
    let esk = mayo_expand_sk(&p, &csk).unwrap();
    assert_eq!(esk.len(), 69856);
    let epk = mayo_expand_pk(&p, &cpk).unwrap();
    assert_eq!(epk.len(), 70752);
    let sig = mayo_sign(&p, &esk, b"test").unwrap();
    assert_eq!(sig.len(), 321);
    assert_eq!(mayo_verify(&p, &epk, b"test", &sig), Ok(true));
    assert_eq!(mayo_verify(&p, &epk, b"Test", &sig), Ok(false));
}

#[test]
fn key_generation_is_determined_by_the_seed() {
    let p = mayo1();
    let seed = [42u8; 24];
    let first = mayo_keypair_from_seed(&p, &seed).unwrap();
    let second = mayo_keypair_from_seed(&p, &seed).unwrap();
    assert_eq!(first, second);
    let other = mayo_keypair_from_seed(&p, &[43u8; 24]).unwrap();
    assert_ne!(first.1, other.1);
}

#[test]
fn fresh_key_pair_signs_and_verifies() {
    let p = mayo1();
    let (csk, cpk) = mayo_keypair(&p);
    assert_eq!(csk.len(), 24);
    assert_eq!(cpk.len(), 1168);
    assert_eq!(mayo_keypair_from_seed(&p, &csk).unwrap().1, cpk);
    let esk = mayo_expand_sk(&p, &csk).unwrap();
    let epk = mayo_expand_pk(&p, &cpk).unwrap();
    let sig = mayo_sign(&p, &esk, b"a message").unwrap();
    assert_eq!(mayo_verify(&p, &epk, b"a message", &sig), Ok(true));
}

#[test]
fn expansions_agree_on_the_public_map() {
    let p = mayo1();
    let v = p.param_v();
    let (csk, cpk) = mayo_keypair_from_seed(&p, &[9u8; 24]).unwrap();
    let esk = mayo_expand_sk(&p, &csk).unwrap();
    let epk = mayo_expand_pk(&p, &cpk).unwrap();
    // what the public key holds
    let p1_pk = decode_bitsliced_matrices(&epk[..p.P1_bytes], p.m, v, v, true).unwrap();
    let p2_pk =
        decode_bitsliced_matrices(&epk[p.P1_bytes..p.P1_bytes + p.P2_bytes], p.m, v, p.o, false)
            .unwrap();
    let p3_pk =
        decode_bitsliced_matrices(&epk[p.P1_bytes + p.P2_bytes..], p.m, p.o, p.o, true).unwrap();
    // what the secret key holds
    assert_eq!(&esk[..p.sk_seed_bytes], &csk[..]);
    let o_end = p.sk_seed_bytes + p.O_bytes;
    let oil = decode_o(&esk[p.sk_seed_bytes..o_end], v, p.o).unwrap();
    let p1_sk = decode_bitsliced_matrices(&esk[o_end..o_end + p.P1_bytes], p.m, v, v, true).unwrap();
    let l = decode_bitsliced_matrices(&esk[o_end + p.P1_bytes..], p.m, v, p.o, false).unwrap();
    assert_eq!(p1_pk, p1_sk);
    let oil_t = transpose(&oil);
    for e in 0..p.m {
        // P2 = L - (P1 + P1^T) O
        let sym = element_wise_addition(&p1_sk[e], &transpose(&p1_sk[e]));
        let p2 = element_wise_addition(&l[e], &matrix_multiply(&sym, &oil));
        assert_eq!(p2, p2_pk[e]);
        // P3 = Upper(-O^T P1 O - O^T P2)
        let a = matrix_multiply(&matrix_multiply(&oil_t, &p1_sk[e]), &oil);
        let b = matrix_multiply(&oil_t, &p2);
        assert_eq!(upper(&element_wise_addition(&a, &b), p.o), p3_pk[e]);
    }
}

#[test]
fn signing_under_a_fixed_salt_is_reproducible() {
    let p = mayo1();
    let (csk, cpk) = mayo_keypair_from_seed(&p, &[1u8; 24]).unwrap();
    let esk = mayo_expand_sk(&p, &csk).unwrap();
    let epk = mayo_expand_pk(&p, &cpk).unwrap();
    let salt = [5u8; 24];
    let a = sign_with_salt(&p, &esk, b"hello", &salt, MAX_SIGN_ATTEMPTS).unwrap();
    let b = sign_with_salt(&p, &esk, b"hello", &salt, MAX_SIGN_ATTEMPTS).unwrap();
    assert_eq!(a, b);
    assert_eq!(a.len(), 321);
    assert_eq!(&a[297..], &salt[..]);
    assert_eq!(mayo_verify(&p, &epk, b"hello", &a), Ok(true));
}

#[test]
fn flipped_bits_are_rejected() {
    let p = mayo1();
    let (csk, cpk) = mayo_keypair_from_seed(&p, &[2u8; 24]).unwrap();
    let esk = mayo_expand_sk(&p, &csk).unwrap();
    let epk = mayo_expand_pk(&p, &cpk).unwrap();
    let message = b"flip me".to_vec();
    let sig = sign_with_salt(&p, &esk, &message, &[8u8; 24], MAX_SIGN_ATTEMPTS).unwrap();
    assert_eq!(mayo_verify(&p, &epk, &message, &sig), Ok(true));
    for position in [0usize, 1, 100, 296, 297, 320] {
        for bit in [0u8, 3, 7] {
            let mut forged = sig.clone();
            forged[position] ^= 1 << bit;
            assert_eq!(mayo_verify(&p, &epk, &message, &forged), Ok(false));
        }
    }
    for position in 0..message.len() {
        let mut other = message.clone();
        other[position] ^= 1;
        assert_eq!(mayo_verify(&p, &epk, &other, &sig), Ok(false));
    }
}

#[test]
fn signature_of_another_key_is_rejected() {
    let p = mayo1();
    let (csk, _) = mayo_keypair_from_seed(&p, &[3u8; 24]).unwrap();
    let (_, other_cpk) = mayo_keypair_from_seed(&p, &[4u8; 24]).unwrap();
    let esk = mayo_expand_sk(&p, &csk).unwrap();
    let other_epk = mayo_expand_pk(&p, &other_cpk).unwrap();
    let sig = mayo_sign(&p, &esk, b"test").unwrap();
    assert_eq!(mayo_verify(&p, &other_epk, b"test", &sig), Ok(false));
}

#[test]
fn empty_budget_is_exhausted() {
    let p = mayo1();
    let (csk, _) = mayo_keypair_from_seed(&p, &[0u8; 24]).unwrap();
    let esk = mayo_expand_sk(&p, &csk).unwrap();
    assert_eq!(
        sign_with_salt(&p, &esk, b"test", &[0u8; 24], 0),
        Err(MayoError::SigningExhausted)
    );
}

#[test]
fn one_attempt_usually_suffices() {
    let p = mayo1();
    let (csk, cpk) = mayo_keypair_from_seed(&p, &[6u8; 24]).unwrap();
    let esk = mayo_expand_sk(&p, &csk).unwrap();
    let epk = mayo_expand_pk(&p, &cpk).unwrap();
    let with_one = sign_with_salt(&p, &esk, b"test", &[1u8; 24], 1);
    let with_all = sign_with_salt(&p, &esk, b"test", &[1u8; 24], MAX_SIGN_ATTEMPTS).unwrap();
    match with_one {
        Ok(sig) => assert_eq!(sig, with_all),
        Err(e) => assert_eq!(e, MayoError::SigningExhausted),
    }
    assert_eq!(mayo_verify(&p, &epk, b"test", &with_all), Ok(true));
}

#[test]
fn wrong_lengths_are_rejected() {
    let p = mayo1();
    assert_eq!(mayo_keypair_from_seed(&p, &[0u8; 23]), Err(MayoError::InvalidLength));
    assert_eq!(mayo_keypair_from_seed(&p, &[0u8; 25]), Err(MayoError::InvalidLength));
    assert_eq!(mayo_expand_sk(&p, &[0u8; 16]), Err(MayoError::InvalidLength));
    assert_eq!(mayo_expand_pk(&p, &[0u8; 1167]), Err(MayoError::InvalidLength));
    assert_eq!(mayo_sign(&p, &[0u8; 100], b"test"), Err(MayoError::InvalidLength));
    let (csk, cpk) = mayo_keypair_from_seed(&p, &[0u8; 24]).unwrap();
    let esk = mayo_expand_sk(&p, &csk).unwrap();
    let epk = mayo_expand_pk(&p, &cpk).unwrap();
    assert_eq!(
        sign_with_salt(&p, &esk, b"test", &[0u8; 23], MAX_SIGN_ATTEMPTS),
        Err(MayoError::InvalidLength)
    );
    let sig = mayo_sign(&p, &esk, b"test").unwrap();
    assert_eq!(mayo_verify(&p, &epk, b"test", &sig[..320]), Err(MayoError::InvalidLength));
    assert_eq!(mayo_verify(&p, &epk[..100], b"test", &sig), Err(MayoError::InvalidLength));
    assert_eq!(mayo_verify(&p, &cpk, b"test", &sig), Err(MayoError::InvalidLength));
}

#[test]
fn parameter_sets_are_values() {
    let p = mayo1();
    let copy: MayoParams = p;
    assert_eq!(copy.f_tail, p.f_tail);
    assert_eq!(copy.sig_bytes, 321);
}
