use mayo::field::{add, inverse, mul, negate};

#[test]
fn add_is_xor() {
    assert_eq!(add(0, 0), 0);
    assert_eq!(add(5, 3), 6);
    assert_eq!(add(15, 15), 0);
    assert_eq!(add(9, 6), 15);
}

#[test]
fn mul_exact_values() {
    // x * x^3 = x^4 = x + 1
    assert_eq!(mul(2, 8), 3);
    // (x + 1)^2 = x^2 + 1
    assert_eq!(mul(3, 3), 5);
    // (x^3 + x^2 + x + 1)^2 = x^3 + x
    assert_eq!(mul(15, 15), 10);
    assert_eq!(mul(2, 9), 1);
    assert_eq!(mul(7, 0), 0);
    assert_eq!(mul(1, 13), 13);
}

#[test]
fn inverse_exact_values() {
    assert_eq!(inverse(1), 1);
    assert_eq!(inverse(2), 9);
    assert_eq!(inverse(9), 2);
    assert_eq!(inverse(3), 14);
}

#[test]
fn negate_is_identity() {
    for a in 0u8..16 {
        assert_eq!(negate(a), a);
        assert_eq!(add(a, negate(a)), 0);
    }
}

#[test]
fn addition_laws_hold_for_all_elements() {
    for a in 0u8..16 {
        assert_eq!(add(a, 0), a);
        for b in 0u8..16 {
            assert_eq!(add(a, b), add(b, a));
            assert!(add(a, b) < 16);
            for c in 0u8..16 {
                assert_eq!(add(add(a, b), c), add(a, add(b, c)));
            }
        }
    }
}

#[test]
fn multiplication_laws_hold_for_all_elements() {
    for a in 0u8..16 {
        assert_eq!(mul(a, 1), a);
        assert_eq!(mul(1, a), a);
        for b in 0u8..16 {
            assert_eq!(mul(a, b), mul(b, a));
            assert!(mul(a, b) < 16);
            for c in 0u8..16 {
                assert_eq!(mul(mul(a, b), c), mul(a, mul(b, c)));
                assert_eq!(mul(a, add(b, c)), add(mul(a, b), mul(a, c)));
            }
        }
    }
}

#[test]
fn every_nonzero_element_has_an_inverse() {
    for a in 1u8..16 {
        let r = inverse(a);
        assert!(r > 0 && r < 16);
        assert_eq!(mul(a, r), 1);
    }
}
