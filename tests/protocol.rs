use sumcheck_protocol::fp::Fp;
use sumcheck_protocol::mpolynomial::MPolynomial;
use sumcheck_protocol::upolynomial::UPolynomial;
use sumcheck_protocol::{SumcheckProtocol, VerifyError};

fn statement() -> MPolynomial {
    MPolynomial::from(vec![Fp(2), Fp(3), Fp(5), Fp(7)], vec![1, 1, 1])
}

#[test]
fn test_sumcheck_protocol() {
    let coefficients = vec![Fp(2), Fp(3), Fp(5), Fp(7)];
    let powers = vec![1, 1, 1];

    let polynomial = MPolynomial::from(coefficients, powers);

    let mut protocol = SumcheckProtocol::new(polynomial);

    let step = protocol.prove();
    let _ = protocol.verify(step);

    let step = protocol.prove();
    let _ = protocol.verify(step);

    let step = protocol.prove();
    let _ = protocol.verify(step);

    assert!(protocol.is_verifier_accept())
}

#[test]
fn accepts_after_exactly_three_rounds() {
    let mut protocol = SumcheckProtocol::new(statement());
    for round in 0..3 {
        assert!(!protocol.is_verifier_accept());
        let step = protocol.prove();
        assert!(step.is_some());
        assert_eq!(protocol.verify(step), Ok(()), "round {}", round);
    }
    assert!(protocol.is_verifier_accept());
    assert!(protocol.prove().is_none());
    assert_eq!(protocol.verify(Some(UPolynomial::from(vec![Fp(1)]))), Ok(()));
    assert!(protocol.is_verifier_accept());
}

#[test]
fn deterministic_challenges_accept() {
    let mut protocol = SumcheckProtocol::new(statement());
    let challenges = [Fp(5), Fp(11), Fp(123456)];
    for c in challenges {
        let step = protocol.prove();
        assert_eq!(protocol.verify_with_challenge(step, c), Ok(()));
    }
    assert!(protocol.is_verifier_accept());
}

#[test]
fn tampered_constant_term_is_rejected() {
    let mut protocol = SumcheckProtocol::new(statement());
    let mut step = protocol.prove().unwrap();
    step.coefficients[1] = step.coefficients[1] + Fp(1);
    assert_eq!(protocol.verify(Some(step)), Err(VerifyError::SumMismatch));
    assert!(!protocol.is_verifier_accept());
    assert!(protocol.prove().is_none());
    let step = UPolynomial::from(vec![Fp(8), Fp(44)]);
    assert_eq!(protocol.verify(Some(step)), Err(VerifyError::Aborted));
    assert!(!protocol.is_verifier_accept());
}

#[test]
fn tampering_in_a_later_round_is_rejected() {
    let mut protocol = SumcheckProtocol::new(statement());
    let step = protocol.prove();
    assert_eq!(protocol.verify_with_challenge(step, Fp(9)), Ok(()));
    let mut step = protocol.prove().unwrap();
    step.coefficients[0] = step.coefficients[0] + Fp(2);
    assert_eq!(protocol.verify_with_challenge(Some(step), Fp(4)), Err(VerifyError::SumMismatch));
    assert!(!protocol.is_verifier_accept());
}

#[test]
fn wrong_final_round_is_rejected() {
    let mut protocol = SumcheckProtocol::new(statement());
    for c in [Fp(3), Fp(4)] {
        let step = protocol.prove();
        assert_eq!(protocol.verify_with_challenge(step, c), Ok(()));
    }
    // The honest last line is 5 X + k with k = 2*3 + 3*4 + 7 = 25; the line
    // 4 X + 25.5 has the same sum over {0, 1} but differs at other points.
    let honest = protocol.prove().unwrap();
    assert_eq!(honest.coefficients, vec![Fp(5), Fp(25)]);
    let half = Fp(1) / Fp(2);
    let forged = UPolynomial::from(vec![Fp(4), Fp(25) + half]);
    assert_eq!(protocol.verify_with_challenge(Some(forged), Fp(7)), Err(VerifyError::FinalMismatch));
    assert!(!protocol.is_verifier_accept());
}

#[test]
fn degree_above_bound_is_rejected() {
    let mut protocol = SumcheckProtocol::new(statement());
    let _ = protocol.prove();
    let step = UPolynomial::from(vec![Fp(0), Fp(8), Fp(44)]);
    assert_eq!(protocol.verify(Some(step)), Err(VerifyError::DegreeTooHigh));
    assert!(!protocol.is_verifier_accept());
}

#[test]
fn missing_polynomial_is_rejected() {
    let mut protocol = SumcheckProtocol::new(statement());
    assert_eq!(protocol.verify(None), Err(VerifyError::MissingPolynomial));
    assert!(!protocol.is_verifier_accept());
}

#[test]
fn empty_polynomial_is_rejected() {
    let mut protocol = SumcheckProtocol::new(statement());
    let _ = protocol.prove();
    assert_eq!(protocol.verify(Some(UPolynomial::from(vec![]))), Err(VerifyError::EmptyPolynomial));
}
