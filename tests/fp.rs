use sumcheck_protocol::fp::{FiniteField, Fp};

#[test]
fn test_add() {
    let a = Fp(120);
    let b = Fp(80);

    assert_eq!(a + b, Fp(200))
}

#[test]
fn test_add_max() {
    let a = Fp(u64::MAX);
    let b = Fp(u64::MAX);

    assert_eq!(a + b, Fp(8589934588))
}

#[test]
fn test_sub() {
    let a = Fp(120);
    let b = Fp(80);

    assert_eq!(b - a, Fp(Fp::MODULO - 40))
}

#[test]
fn test_sub_max() {
    let a = Fp(u64::MAX);
    let b = Fp(u64::MAX);

    assert_eq!(a - b, Fp(0))
}

#[test]
fn test_mul() {
    let a = Fp(120);
    let b = Fp(80);

    assert_eq!(a * b, Fp(120 * 80))
}

#[test]
fn test_mul_max() {
    let a = Fp(u64::MAX);
    let b = Fp(u64::MAX);

    assert_eq!(a * b, Fp(18446744056529682436))
}

#[test]
fn test_div() {
    let a = Fp(120);
    let b = Fp(4);

    assert_eq!(a / b, Fp(120 / 4))
}

#[test]
fn test_div_max() {
    let a = Fp(u64::MAX);
    let b = Fp(u64::MAX);

    assert_eq!(a / b, Fp(1))
}

#[test]
fn test_pow() {
    let a = Fp(2);
    let b = 10;

    assert_eq!(a.pow(b), Fp(1024))
}

#[test]
fn add_negation_is_zero() {
    for v in [0u64, 1, 2, 12345, Fp::MODULO - 1, u64::MAX] {
        let a = Fp(v);
        assert_eq!(a + a.neg(), Fp(0));
        assert_eq!(a + (-a), Fp(0));
    }
}

#[test]
fn negation_of_minus_one_round_trips() {
    let m1 = Fp(Fp::MODULO - 1);
    assert_eq!(m1.neg(), Fp(1));
    assert_eq!(m1.neg().neg(), m1);
    assert_eq!(Fp(0).neg(), Fp(0));
}

#[test]
fn inverse_times_element_is_one() {
    for v in [1u64, 2, 3, 7, 1 << 32, Fp::MODULO - 1, Fp::MODULO - 2, 987654321987] {
        let a = Fp(v);
        assert_eq!(a * a.inverse(), Fp(1));
    }
}

#[test]
fn inverse_of_zero_is_zero() {
    assert_eq!(Fp(0).inverse(), Fp(0));
    assert_eq!(Fp(Fp::MODULO).inverse(), Fp(0));
}

#[test]
fn inverse_of_two() {
    assert_eq!(Fp(2).inverse(), Fp((Fp::MODULO + 1) / 2));
}

#[test]
fn division_round_trips() {
    let a = Fp(123456789);
    for v in [1u64, 5, 1 << 40, Fp::MODULO - 1] {
        let b = Fp(v);
        assert_eq!((a / b) * b, a);
    }
}

#[test]
fn division_by_zero_is_zero() {
    assert_eq!(Fp(42) / Fp(0), Fp(0));
}

#[test]
fn batch_inverse_matches_single_inverses() {
    let a = vec![Fp(2), Fp(3), Fp(5), Fp(Fp::MODULO - 1), Fp(1 << 50)];
    let inv = Fp::multi_inv(&a);
    assert_eq!(inv.len(), a.len());
    for i in 0..a.len() {
        assert_eq!(inv[i], a[i].inverse());
    }
}

#[test]
fn batch_inverse_with_zero() {
    let a = vec![Fp(2), Fp(0), Fp(5)];
    let inv = Fp::multi_inv(&a);
    assert_eq!(inv, vec![Fp(0), Fp(1), Fp(0)]);
}

#[test]
fn batch_inverse_of_nothing() {
    assert_eq!(Fp::multi_inv(&vec![]), vec![]);
}

#[test]
fn from_reduces() {
    assert_eq!(Fp::from(u64::MAX), Fp(u64::MAX - Fp::MODULO));
    assert_eq!(Fp::from(7), Fp(7));
}

#[test]
fn zero_and_one() {
    assert_eq!(Fp::zero(), Fp(0));
    assert_eq!(Fp::one(), Fp(1));
}

#[test]
fn pow_reduces_and_handles_zero_exponent() {
    assert_eq!(Fp(5).pow(0), Fp(1));
    assert_eq!(Fp(2).pow(64), Fp(u64::MAX - Fp::MODULO + 1));
}

#[test]
fn remainder_and_shift() {
    assert_eq!(Fp(17) % Fp(5), Fp(2));
    assert_eq!(Fp(16) >> 2, Fp(4));
    let mut a = Fp(16);
    a >>= 3;
    assert_eq!(a, Fp(2));
    let mut b = Fp(10);
    b -= Fp(4);
    assert_eq!(b, Fp(6));
}

#[test]
fn sample_is_canonical() {
    for _ in 0..16 {
        assert!(Fp::sample().0 < Fp::MODULO);
    }
}
