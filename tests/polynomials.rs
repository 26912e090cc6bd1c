use sumcheck_protocol::fp::Fp;
use sumcheck_protocol::mpolynomial::MPolynomial;
use sumcheck_protocol::upolynomial::UPolynomial;

#[test]
fn mpolynomial_test_eval() {
    let coefficients = vec![Fp(3), Fp(5)];
    let powers = vec![2];
    let polynomial = MPolynomial::from(coefficients, powers);

    let x = vec![Fp(3)];
    assert_eq!(polynomial.eval(&x), Fp(3 * 3u64.pow(2) + 5))
}

#[test]
fn test_sum_over_hyper_cube() {
    let coefficients = vec![Fp(2), Fp(3), Fp(5), Fp(7)];
    let powers = vec![1, 1, 1];

    let polynomial = MPolynomial::from(coefficients, powers);

    assert_eq!(polynomial.sum_over_hyper_cube(None), Fp(96))
}

#[test]
fn test_sum_over_hyper_cube_with_args() {
    let coefficients = vec![Fp(2), Fp(3), Fp(5), Fp(7)];
    let powers = vec![1, 1, 1];

    let polynomial = MPolynomial::from(coefficients, powers);

    assert_eq!(polynomial.sum_over_hyper_cube(Some(vec![Fp(2)])), Fp(60))
}

#[test]
fn upolynomial_test_eval() {
    let coefficients = vec![Fp(8), Fp(3), Fp(5)];
    let polynomial = UPolynomial::from(coefficients);

    let x = vec![Fp(3), Fp(5)];
    assert_eq!(
        polynomial.eval(&x),
        Fp(8 * 3u64.pow(2) + 3 * 5u64.pow(1) + 5)
    )
}

#[test]
fn test_interpolate() {
    let points = vec![(Fp(0), Fp(44)), (Fp(1), Fp(52))];
    let polynomial = UPolynomial::interpolate(points);

    assert_eq!(polynomial.coefficients, vec![Fp(8), Fp(44)])
}

#[test]
fn mpolynomial_without_constant() {
    let polynomial = MPolynomial::from(vec![Fp(2), Fp(3)], vec![3, 2]);
    assert_eq!(polynomial.eval(&[Fp(2), Fp(5)]), Fp(2 * 8 + 3 * 25));
    assert_eq!(polynomial.number_of_vars(), 2);
    assert_eq!(polynomial.degree_ind(), 3);
}

#[test]
fn degree_ind_of_no_variables_is_zero() {
    let polynomial = MPolynomial::from(vec![Fp(4)], vec![]);
    assert_eq!(polynomial.degree_ind(), 0);
    assert_eq!(polynomial.sum_over_hyper_cube(None), Fp(4));
}

#[test]
fn fix_var_gives_line_through_partial_sums() {
    let polynomial = MPolynomial::from(vec![Fp(2), Fp(3), Fp(5), Fp(7)], vec![1, 1, 1]);
    let line = polynomial.fix_var_over_hyper_cube(None);
    // Sums with x_0 = 0: 44; with x_0 = 1: 52.
    assert_eq!(line.coefficients, vec![Fp(8), Fp(44)]);
    let line = polynomial.fix_var_over_hyper_cube(Some(&vec![Fp(2)]));
    assert_eq!(line.eval_at(Fp(0)) + line.eval_at(Fp(1)), Fp(60));
}

#[test]
fn roots_are_zeros_of_root_polynomial() {
    let xs = vec![Fp(1), Fp(2), Fp(3), Fp(18446744069414584320)];
    let root = UPolynomial::zero_at_given_x(&xs);
    assert_eq!(root.coefficients.len(), 5);
    assert_eq!(root.coefficients[0], Fp(1));
    for x in &xs {
        assert_eq!(root.eval_at(*x), Fp(0));
    }
    assert_ne!(root.eval_at(Fp(4)), Fp(0));
}

#[test]
fn root_polynomial_coefficients() {
    // (X - 1)(X - 2) = X^2 - 3X + 2
    let root = UPolynomial::zero_at_given_x(&vec![Fp(1), Fp(2)]);
    assert_eq!(root.coefficients, vec![Fp(1), Fp(18446744069414584321 - 3), Fp(2)]);
    assert_eq!(UPolynomial::zero_at_given_x(&vec![]).coefficients, vec![Fp(1)]);
}

#[test]
fn interpolation_round_trip() {
    let points = vec![(Fp(3), Fp(10)), (Fp(7), Fp(0)), (Fp(11), Fp(4)), (Fp(20), Fp(99))];
    let polynomial = UPolynomial::interpolate(points.clone());
    assert_eq!(polynomial.coefficients.len(), 4);
    assert!(polynomial.degree() < 4);
    for (x, y) in points {
        assert_eq!(polynomial.eval_at(x), y);
    }
}

#[test]
fn interpolation_of_one_point_is_constant() {
    let polynomial = UPolynomial::interpolate(vec![(Fp(5), Fp(9))]);
    assert_eq!(polynomial.coefficients, vec![Fp(9)]);
}

#[test]
fn interpolation_with_duplicate_x_is_empty() {
    let polynomial = UPolynomial::interpolate(vec![(Fp(1), Fp(2)), (Fp(1), Fp(3))]);
    assert!(polynomial.coefficients.is_empty());
}

#[test]
fn division_identity() {
    // (X^2 - 3X + 2) / (X - 1) = X - 2
    let dividend = UPolynomial::from(vec![Fp(1), Fp(18446744069414584321 - 3), Fp(2)]);
    let divisor = UPolynomial::from(vec![Fp(1), Fp(18446744069414584321 - 1)]);
    let quotient = dividend / divisor;
    assert_eq!(quotient.coefficients, vec![Fp(1), Fp(18446744069414584321 - 2)]);
}

#[test]
fn division_by_longer_is_empty() {
    let quotient = UPolynomial::from(vec![Fp(1)]) / UPolynomial::from(vec![Fp(1), Fp(2)]);
    assert!(quotient.coefficients.is_empty());
}

#[test]
fn upolynomial_degree() {
    assert_eq!(UPolynomial::from(vec![Fp(1), Fp(2), Fp(3)]).degree(), 2);
}
