//! The sumcheck protocol over the Goldilocks prime field: a prover convinces
//! a verifier of the sum of a polynomial over the boolean hypercube, one
//! variable per round.

pub mod fp;
pub mod mpolynomial;
pub mod upolynomial;

use vstd::prelude::*;
use crate::fp::{canon, Fp};
use crate::mpolynomial::{lemma_cube_sum_splits, MPolynomial};
use crate::upolynomial::{peval, UPolynomial};

verus! {

/// Why the verifier rejected a round. Any rejection ends the session.
#[derive(Debug, Clone, Copy, PartialEq, Eq, Structural)]
pub enum VerifyError {
    /// No round polynomial was handed in.
    MissingPolynomial,
    /// An earlier round was rejected; the session is over.
    Aborted,
    /// The round polynomial has no coefficients.
    EmptyPolynomial,
    /// The round polynomial's degree exceeds the statement's individual degree.
    DegreeTooHigh,
    /// `p(0) + p(1)` differs from the claim carried over from the last round.
    SumMismatch,
    /// The last round polynomial disagrees with the statement polynomial at
    /// the challenge point.
    FinalMismatch,
}

/// One prover/verifier session over a statement polynomial.
pub struct SumcheckProtocol {
    polynomial: MPolynomial,
    interaction_completed: bool,
    aborted: bool,
    randomness: Vec<Fp>,
    statement: Fp,
    step: usize,
    previous_step: Option<UPolynomial>,
}

impl SumcheckProtocol {
    pub closed spec fn poly(&self) -> MPolynomial {
        self.polynomial
    }

    /// The verifier has accepted.
    pub closed spec fn completed(&self) -> bool {
        self.interaction_completed
    }

    /// A round was rejected.
    pub closed spec fn is_aborted(&self) -> bool {
        self.aborted
    }

    /// The challenges drawn so far, one per verified round.
    pub closed spec fn challenges(&self) -> Seq<Fp> {
        self.randomness@
    }

    /// The claimed sum over the whole hypercube, once computed.
    pub closed spec fn claimed_sum(&self) -> Fp {
        self.statement
    }

    /// The last round polynomial the verifier accepted, if any.
    pub closed spec fn previous(&self) -> Option<Seq<Fp>> {
        match self.previous_step {
            Some(p) => Some(p.coefficients@),
            None => None,
        }
    }

    /// The number of variables of the statement.
    pub open spec fn vars(&self) -> nat {
        self.poly().powers@.len()
    }

    /// What `p(0) + p(1)` must equal in the next round: the claimed sum in
    /// the first round, the previous round polynomial at the latest
    /// challenge afterwards.
    pub open spec fn round_claim(&self) -> int {
        match self.previous() {
            None => self.claimed_sum().0 as int,
            Some(p) => peval(p, self.challenges().last().0 as int),
        }
    }

    pub closed spec fn wf(&self) -> bool {
        &&& 1 <= self.polynomial.powers@.len() < 64
        &&& self.randomness@.len() <= self.polynomial.powers@.len()
        &&& !self.interaction_completed ==> self.randomness@.len() < self.polynomial.powers@.len()
        &&& self.step <= self.randomness@.len()
        &&& self.previous_step is None <==> self.randomness@.len() == 0
    }

    pub fn new(polynomial: MPolynomial) -> (r: Self)
        requires
            1 <= polynomial.powers@.len() < 64,
        ensures
            r.wf(),
            r.poly() == polynomial,
            !r.completed(),
            !r.is_aborted(),
            r.challenges() == Seq::<Fp>::empty(),
            r.claimed_sum() == Fp(0),
            r.previous() is None,
    {
        Self {
            polynomial,
            interaction_completed: false,
            aborted: false,
            randomness: Vec::new(),
            statement: Fp(0),
            step: 0,
            previous_step: None,
        }
    }

    /// The prover's next round polynomial, or `None` once the session is
    /// over. The first call also computes the claimed sum.
    pub fn prove(&mut self) -> (r: Option<UPolynomial>)
        requires
            old(self).wf(),
        ensures
            final(self).wf(),
            final(self).poly() == old(self).poly(),
            final(self).completed() == old(self).completed(),
            final(self).is_aborted() == old(self).is_aborted(),
            final(self).challenges() == old(self).challenges(),
            final(self).previous() == old(self).previous(),
            (old(self).completed() || old(self).is_aborted()) ==> r is None
                && final(self).claimed_sum() == old(self).claimed_sum(),
            !(old(self).completed() || old(self).is_aborted()) ==> r is Some
                && r->0.coefficients.len() == 2
                && peval(r->0.coefficients@, 0) == old(self).poly().cube_sum(old(self).challenges().push(Fp(0)))
                && peval(r->0.coefficients@, 1) == old(self).poly().cube_sum(old(self).challenges().push(Fp(1)))
                && final(self).claimed_sum().0 == (if old(self).claimed_sum().0 == 0 {
                    old(self).poly().cube_sum(Seq::<Fp>::empty())
                } else {
                    old(self).claimed_sum().0 as int
                }),
    {
        if self.step > self.polynomial.number_of_vars() || self.interaction_completed
            || self.aborted {
            return None;
        }

        if self.statement == Fp(0) {
            self.statement = self.polynomial.sum_over_hyper_cube(None);
        }

        Some(self.polynomial.fix_var_over_hyper_cube(Some(&self.randomness)))
    }

    /// Checks one round with a freshly drawn challenge.
    pub fn verify(&mut self, rec_polynomial: Option<UPolynomial>) -> (r: Result<(), VerifyError>)
        requires
            old(self).wf(),
        ensures
            final(self).wf(),
            exists|c: Fp| c.wf() && Self::round_outcome(*old(self), rec_polynomial, c, *final(self), r),
    {
        let challenge = Fp::sample();
        self.verify_with_challenge(rec_polynomial, challenge)
    }

    /// The result and the new state of one verified round with challenge `c`.
    pub open spec fn round_outcome(
        s: Self,
        rec: Option<UPolynomial>,
        c: Fp,
        t: Self,
        r: Result<(), VerifyError>,
    ) -> bool {
        let n = s.vars();
        let rejected = t.is_aborted() && !t.completed() && t.poly() == s.poly();
        if rec is None {
            r == Err::<(), VerifyError>(VerifyError::MissingPolynomial) && (s.completed() ==> t == s)
                && (!s.completed() ==> rejected)
        } else if s.is_aborted() {
            r == Err::<(), VerifyError>(VerifyError::Aborted) && t == s
        } else if s.completed() {
            r == Ok::<(), VerifyError>(()) && t == s
        } else {
            let p = rec->0.coefficients@;
            if p.len() == 0 {
                r == Err::<(), VerifyError>(VerifyError::EmptyPolynomial) && rejected
            } else if p.len() - 1 > crate::mpolynomial::max_power(s.poly().powers@) {
                r == Err::<(), VerifyError>(VerifyError::DegreeTooHigh) && rejected
            } else if canon(peval(p, 0) + peval(p, 1)) != s.round_claim() {
                r == Err::<(), VerifyError>(VerifyError::SumMismatch) && rejected
            } else if s.challenges().len() + 1 == n && s.poly().value_at(s.challenges().push(c))
                != peval(p, c.0 as int) {
                r == Err::<(), VerifyError>(VerifyError::FinalMismatch) && rejected
            } else {
                &&& r == Ok::<(), VerifyError>(())
                &&& t.poly() == s.poly()
                &&& t.challenges() == s.challenges().push(c)
                &&& t.claimed_sum() == s.claimed_sum()
                &&& t.previous() == Some(p)
                &&& !t.is_aborted()
                &&& t.completed() == (s.challenges().len() + 1 == n)
            }
        }
    }

    /// Checks one round polynomial against the running claim, using `challenge`
    /// as the verifier's random point for this round.
    pub fn verify_with_challenge(&mut self, rec_polynomial: Option<UPolynomial>, challenge: Fp) -> (r:
        Result<(), VerifyError>)
        requires
            old(self).wf(),
        ensures
            final(self).wf(),
            Self::round_outcome(*old(self), rec_polynomial, challenge, *final(self), r),
    {
        let p = match rec_polynomial {
            Some(p) => p,
            None => {
                if !self.interaction_completed {
                    self.aborted = true;
                }
                return Err(VerifyError::MissingPolynomial);
            },
        };
        if self.aborted {
            return Err(VerifyError::Aborted);
        }
        if self.interaction_completed {
            return Ok(());
        }
        if p.coefficients.len() == 0 {
            self.aborted = true;
            return Err(VerifyError::EmptyPolynomial);
        }
        if p.degree() > self.polynomial.degree_ind() {
            self.aborted = true;
            return Err(VerifyError::DegreeTooHigh);
        }

        let res1 = p.eval_at(Fp(0));
        let res2 = p.eval_at(Fp(1));

        let expected = match &self.previous_step {
            None => self.statement,
            Some(prev) => {
                let latest_randomness = self.randomness[self.randomness.len() - 1];
                prev.eval_at(latest_randomness)
            },
        };
        if res1 + res2 != expected {
            self.aborted = true;
            return Err(VerifyError::SumMismatch);
        }

        let n = self.polynomial.number_of_vars();
        if self.randomness.len() == n - 1 {
            let mut full = self.randomness.clone();
            full.push(challenge);
            let lhs = self.polynomial.eval(&full);
            let rhs = p.eval_at(challenge);
            if lhs != rhs {
                self.aborted = true;
                return Err(VerifyError::FinalMismatch);
            }
            self.randomness = full;
            self.previous_step = Some(p);
            self.interaction_completed = true;
            return Ok(());
        }

        self.step += 1;
        self.randomness.push(challenge);
        self.previous_step = Some(p);
        Ok(())
    }

    /// An honest first round passes the sum check: once `prove` has set the
    /// claimed sum, a round polynomial with the values `prove` promises at
    /// zero and one adds up to it.
    pub proof fn lemma_honest_first_round(s: Self, p: Seq<Fp>)
        requires
            s.wf(),
            s.previous() is None,
            s.claimed_sum().0 == s.poly().cube_sum(Seq::<Fp>::empty()),
            peval(p, 0) == s.poly().cube_sum(s.challenges().push(Fp(0))),
            peval(p, 1) == s.poly().cube_sum(s.challenges().push(Fp(1))),
        ensures
            canon(peval(p, 0) + peval(p, 1)) == s.round_claim(),
    {
        assert(s.challenges() =~= Seq::<Fp>::empty());
        lemma_cube_sum_splits(s.poly(), Seq::<Fp>::empty());
    }

    pub fn is_verifier_accept(&self) -> (r: bool)
        ensures
            r == self.completed(),
    {
        self.interaction_completed
    }
}

} // verus!
