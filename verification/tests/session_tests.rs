use mayo::constants::{mayo1, MayoParams};
use mayo::error::MayoError;
use mayo::keys::{mayo_expand_pk, mayo_expand_sk, mayo_keypair_from_seed};
use mayo::sign::{sign_with_salt, SignState, SigningSession, MAX_SIGN_ATTEMPTS};
use mayo::verify::mayo_verify;

fn keys(p: &MayoParams, seed: u8) -> (Vec<u8>, Vec<u8>) {
    let (csk, cpk) = mayo_keypair_from_seed(p, &[seed; 24]).unwrap();
    (mayo_expand_sk(p, &csk).unwrap(), mayo_expand_pk(p, &cpk).unwrap())
}

#[test]
fn session_with_empty_budget_goes_to_exhaustion() {
    let p = mayo1();
    let (esk, _) = keys(&p, 10);
    let session = SigningSession::begin(&p, &esk, b"test", &[0u8; 24], 0).ok().unwrap();
    let state = session.start(&p);
    assert!(matches!(state, SignState::Sampling { attempt: 0 }));
    let next = session.step(&p, state);
    assert!(matches!(next, SignState::Exhausted));
    let last = session.step(&p, next);
    assert!(matches!(last, SignState::Exhausted));
    assert_eq!(session.run(&p), Err(MayoError::SigningExhausted));
}

#[test]
fn session_walks_from_sampling_to_success() {
    let p = mayo1();
    let (esk, epk) = keys(&p, 11);
    let salt = [3u8; 24];
    let session =
        SigningSession::begin(&p, &esk, b"walk", &salt, MAX_SIGN_ATTEMPTS).ok().unwrap();
    let mut state = session.start(&p);
    let mut expected_attempt = 0usize;
    let mut steps = 0usize;
    let signature = loop {
        steps += 1;
        assert!(steps <= 2 * MAX_SIGN_ATTEMPTS + 1);
        state = match state {
            SignState::Sampling { attempt } => {
                assert_eq!(attempt, expected_attempt);
                let next = session.step(&p, SignState::Sampling { attempt });
                match &next {
                    SignState::Solving { attempt: a, vinegar, start, system } => {
                        assert_eq!(*a, attempt);
                        assert_eq!(vinegar.len(), 9);
                        assert!(vinegar.iter().all(|v| v.len() == 58));
                        assert_eq!(start.len(), 72);
                        assert_eq!(system.len(), 64);
                        assert!(system.iter().all(|row| row.len() == 73));
                    }
                    _ => panic!("sampling within the budget must build a system"),
                }
                next
            }
            SignState::Solving { attempt, vinegar, start, system } => {
                let next = session.step(&p, SignState::Solving { attempt, vinegar, start, system });
                match &next {
                    SignState::Success { .. } => {}
                    SignState::Sampling { attempt: a } => {
                        assert_eq!(*a, attempt + 1);
                        expected_attempt = attempt + 1;
                    }
                    _ => panic!("solving leads to success or to the next attempt"),
                }
                next
            }
            SignState::Success { signature } => break signature,
            SignState::Exhausted => panic!("256 attempts are not expected to fail"),
        };
    };
    assert_eq!(signature.len(), 321);
    assert_eq!(mayo_verify(&p, &epk, b"walk", &signature), Ok(true));
    assert_eq!(
        sign_with_salt(&p, &esk, b"walk", &salt, MAX_SIGN_ATTEMPTS),
        Ok(signature.clone())
    );
    let again = session.step(&p, SignState::Success { signature: signature.clone() });
    match again {
        SignState::Success { signature: s } => assert_eq!(s, signature),
        _ => panic!("success is final"),
    }
}

#[test]
fn session_rejects_wrong_lengths() {
    let p = mayo1();
    let (esk, _) = keys(&p, 12);
    assert!(matches!(
        SigningSession::begin(&p, &esk[..100], b"test", &[0u8; 24], 1),
        Err(MayoError::InvalidLength)
    ));
    assert!(matches!(
        SigningSession::begin(&p, &esk, b"test", &[0u8; 25], 1),
        Err(MayoError::InvalidLength)
    ));
}

#[test]
fn first_parameter_set_is_valid() {
    assert!(mayo1().is_valid());
}

#[test]
fn inconsistent_parameter_sets_are_invalid() {
    let good = mayo1();
    let mut p = good;
    p.q = 17;
    assert!(!p.is_valid());
    let mut p = good;
    p.m = 60;
    assert!(!p.is_valid());
    let mut p = good;
    p.o = 66;
    assert!(!p.is_valid());
    let mut p = good;
    p.k = 0;
    assert!(!p.is_valid());
    let mut p = good;
    p.P1_bytes = 54753;
    assert!(!p.is_valid());
    let mut p = good;
    p.O_bytes = 231;
    assert!(!p.is_valid());
    let mut p = good;
    p.sig_bytes = 320;
    assert!(!p.is_valid());
    let mut p = good;
    p.pk_seed_bytes = 17;
    p.cpk_bytes = 1169;
    assert!(!p.is_valid());
    let mut p = good;
    p.f_tail = &[16];
    assert!(!p.is_valid());
    let mut p = good;
    p.esk_bytes = 69855;
    assert!(!p.is_valid());
}

#[test]
fn other_consistent_parameter_sets_are_valid() {
    // a small set: 8 equations in 5 variables, 2 of them oil, 3 blocks
    let p = MayoParams {
        m: 8,
        n: 5,
        o: 2,
        k: 3,
        q: 16,
        f_tail: &[1, 2],
        O_bytes: 3,
        v_bytes: 2,
        P1_bytes: 24,
        P2_bytes: 24,
        P3_bytes: 12,
        L_bytes: 24,
        csk_bytes: 24,
        esk_bytes: 24 + 3 + 24 + 24,
        cpk_bytes: 16 + 12,
        epk_bytes: 24 + 24 + 12,
        sig_bytes: 8 + 24,
        salt_bytes: 24,
        digest_bytes: 32,
        pk_seed_bytes: 16,
        sk_seed_bytes: 24,
    };
    assert!(p.is_valid());
    assert_eq!(p.param_v(), 3);
    assert_eq!(p.param_a_cols(), 7);
    let (csk, cpk) = mayo_keypair_from_seed(&p, &[7u8; 24]).unwrap();
    assert_eq!(cpk.len(), 28);
    let esk = mayo_expand_sk(&p, &csk).unwrap();
    let epk = mayo_expand_pk(&p, &cpk).unwrap();
    assert_eq!(esk.len(), 75);
    assert_eq!(epk.len(), 60);
    // with 8 equations and 6 oil unknowns no system has full row rank
    assert_eq!(
        sign_with_salt(&p, &esk, b"test", &[0u8; 24], MAX_SIGN_ATTEMPTS),
        Err(MayoError::SigningExhausted)
    );
}

#[test]
fn small_parameter_set_signs_and_verifies() {
    // 8 equations in 12 variables, 3 of them oil, 4 blocks: 12 oil unknowns
    let p = MayoParams {
        m: 8,
        n: 12,
        o: 3,
        k: 4,
        q: 16,
        f_tail: &[3, 0, 1],
        O_bytes: 14,
        v_bytes: 5,
        P1_bytes: 45 * 4,
        P2_bytes: 27 * 4,
        P3_bytes: 6 * 4,
        L_bytes: 27 * 4,
        csk_bytes: 24,
        esk_bytes: 24 + 14 + 180 + 108,
        cpk_bytes: 16 + 24,
        epk_bytes: 180 + 108 + 24,
        sig_bytes: 24 + 24,
        salt_bytes: 24,
        digest_bytes: 32,
        pk_seed_bytes: 16,
        sk_seed_bytes: 24,
    };
    assert!(p.is_valid());
    let (csk, cpk) = mayo_keypair_from_seed(&p, &[21u8; 24]).unwrap();
    let esk = mayo_expand_sk(&p, &csk).unwrap();
    let epk = mayo_expand_pk(&p, &cpk).unwrap();
    for salt_byte in 0u8..8 {
        let salt = [salt_byte; 24];
        let sig = sign_with_salt(&p, &esk, b"small", &salt, MAX_SIGN_ATTEMPTS).unwrap();
        assert_eq!(sig.len(), 48);
        assert_eq!(mayo_verify(&p, &epk, b"small", &sig), Ok(true));
        assert_eq!(mayo_verify(&p, &epk, b"Small", &sig), Ok(false));
    }
}
