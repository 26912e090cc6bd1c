//! The statement polynomial: one power term per variable, plus an optional
//! trailing constant.

use vstd::prelude::*;
use vstd::arithmetic::div_mod::*;
use vstd::arithmetic::power::*;
use crate::fp::{canon, invertible, modulus, Fp};
use crate::upolynomial::{distinct_xs, pairwise_invertible, peval, UPolynomial};

verus! {

/// Term `i` of the statement polynomial at `x`: `c_i * x_i^(p_i)` for a
/// variable, the bare coefficient past the last variable.
pub open spec fn mterm(c: Seq<Fp>, p: Seq<u32>, x: Seq<Fp>, i: int) -> int {
    if i < p.len() {
        canon(c[i].0 * pow(x[i].0 as int, p[i] as nat))
    } else {
        c[i].0 as int
    }
}

/// Sum of the first `k` terms of the statement polynomial at `x`.
pub open spec fn msum(c: Seq<Fp>, p: Seq<u32>, x: Seq<Fp>, k: nat) -> int
    decreases k,
{
    if k == 0 {
        0
    } else {
        canon(msum(c, p, x, (k - 1) as nat) + mterm(c, p, x, k - 1))
    }
}

/// The first `m` bits of `i`, least significant first, as field elements.
pub open spec fn bits(i: u64, m: nat) -> Seq<Fp> {
    Seq::new(m, |j: int| Fp((i >> (j as u64)) & 1))
}

/// The largest of the powers, zero when there are none.
pub open spec fn max_power(p: Seq<u32>) -> nat
    decreases p.len(),
{
    if p.len() == 0 {
        0
    } else {
        let m = max_power(p.drop_last());
        if p.last() as nat > m {
            p.last() as nat
        } else {
            m
        }
    }
}

pub struct MPolynomial {
    pub coefficients: Vec<Fp>,
    pub powers: Vec<u32>,
}

impl MPolynomial {
    /// The polynomial's value at a full assignment.
    pub open spec fn value_at(&self, x: Seq<Fp>) -> int {
        msum(self.coefficients@, self.powers@, x, self.coefficients@.len())
    }

    /// The sum of the first `count` values over the hypercube completions of
    /// `prefix`, completion `i` setting the free variables to the bits of `i`.
    pub open spec fn partial_cube_sum(&self, prefix: Seq<Fp>, count: nat) -> int
        decreases count,
    {
        if count == 0 {
            0
        } else {
            let free = (self.powers@.len() - prefix.len()) as nat;
            canon(
                self.partial_cube_sum(prefix, (count - 1) as nat)
                    + self.value_at(prefix + bits((count - 1) as u64, free)),
            )
        }
    }

    /// The sum of the polynomial over all boolean values of the variables
    /// after `prefix`.
    pub open spec fn cube_sum(&self, prefix: Seq<Fp>) -> int {
        let free = (self.powers@.len() - prefix.len()) as nat;
        self.partial_cube_sum(prefix, (1u64 << (free as u64)) as nat)
    }

    /// The assignment prefix an optional argument stands for.
    pub open spec fn prefix_of(provided_x: Option<&Vec<Fp>>) -> Seq<Fp> {
        match provided_x {
            Some(v) => v@,
            None => Seq::<Fp>::empty(),
        }
    }

    /// Assignment prefixes that the hypercube sums accept.
    pub open spec fn prefix_ok(&self, len: nat) -> bool {
        len <= self.powers@.len() && self.powers@.len() - len < 64
    }

    pub fn from(coefficients: Vec<Fp>, powers: Vec<u32>) -> (r: Self)
        ensures
            r.coefficients@ == coefficients@,
            r.powers@ == powers@,
    {
        Self { coefficients, powers }
    }

    /// Evaluates at a full assignment of the variables.
    pub fn eval(&self, x: &[Fp]) -> (r: Fp)
        requires
            x@.len() == self.powers@.len(),
        ensures
            r.0 as int == self.value_at(x@),
            r.wf(),
    {
        let mut result = Fp(0);
        let mut i: usize = 0;
        proof {
            lemma_small_mod(0, modulus() as nat);
        }
        while i < self.coefficients.len()
            invariant
                x@.len() == self.powers@.len(),
                i <= self.coefficients.len(),
                result.0 as int == msum(self.coefficients@, self.powers@, x@, i as nat),
                result.wf(),
            decreases self.coefficients.len() - i,
        {
            let term = self.coefficients[i];
            if i < self.powers.len() {
                let pw = x[i].pow(self.powers[i]);
                proof {
                    lemma_mul_mod_noop_right(term.0 as int, pow(x@[i as int].0 as int, self.powers@[i as int] as nat), modulus());
                    lemma_add_mod_noop(result.0 as int, term.0 as int * pw.0, modulus());
                    lemma_mod_twice(term.0 as int * pw.0, modulus());
                    lemma_add_mod_noop(result.0 as int, mterm(self.coefficients@, self.powers@, x@, i as int), modulus());
                }
                result = result + (term * pw);
            } else {
                result = result + term;
            }
            i += 1;
        }
        result
    }

    /// The individual degree: the largest power of any variable.
    pub fn degree_ind(&self) -> (r: usize)
        ensures
            r as nat == max_power(self.powers@),
    {
        let mut result: usize = 0;
        let mut i: usize = 0;
        proof {
            assert(self.powers@.take(0) =~= Seq::<u32>::empty());
        }
        while i < self.powers.len()
            invariant
                i <= self.powers.len(),
                result as nat == max_power(self.powers@.take(i as int)),
                result <= u32::MAX,
            decreases self.powers.len() - i,
        {
            proof {
                assert(self.powers@.take(i + 1).drop_last() =~= self.powers@.take(i as int));
            }
            if self.powers[i] > result as u32 {
                result = self.powers[i] as usize;
            }
            i += 1;
        }
        proof {
            assert(self.powers@.take(i as int) =~= self.powers@);
        }
        result
    }

    /// Sums the polynomial over every boolean completion of the given prefix
    /// of the variables (of no prefix when `None`).
    pub fn sum_over_hyper_cube(&self, provided_x: Option<Vec<Fp>>) -> (r: Fp)
        requires
            self.prefix_ok(
                match provided_x {
                    Some(v) => v@.len(),
                    None => 0,
                },
            ),
        ensures
            r.0 as int == self.cube_sum(
                match provided_x {
                    Some(v) => v@,
                    None => Seq::<Fp>::empty(),
                },
            ),
            r.wf(),
    {
        let vars_len = self.powers.len();
        let mut result = Fp(0);

        let initial_x: Vec<Fp> = match provided_x {
            Some(v) => v,
            None => Vec::new(),
        };
        let free = vars_len - initial_x.len();
        let count: u64 = 1u64 << (free as u64);
        let mut i: u64 = 0;
        proof {
            lemma_small_mod(0, modulus() as nat);
        }
        while i < count
            invariant
                vars_len == self.powers.len(),
                free == vars_len - initial_x.len(),
                free < 64,
                count == 1u64 << (free as u64),
                i <= count,
                result.0 as int == self.partial_cube_sum(initial_x@, i as nat),
                result.wf(),
            decreases count - i,
        {
            let mut x = initial_x.clone();
            let mut j: usize = 0;
            while j < free
                invariant
                    j <= free,
                    free < 64,
                    x@ == initial_x@ + bits(i, j as nat),
                decreases free - j,
            {
                x.push(Fp((i >> (j as u64)) & 1));
                proof {
                    assert(x@ =~= initial_x@ + bits(i, (j + 1) as nat));
                }
                j += 1;
            }
            let v = self.eval(&x);
            result = result + v;
            i += 1;
        }
        result
    }

    /// The prover's round message: the hypercube sums with the next variable
    /// fixed to zero and to one, interpolated into a line.
    pub fn fix_var_over_hyper_cube(&self, provided_x: Option<&Vec<Fp>>) -> (r: UPolynomial)
        requires
            self.prefix_ok(
                match provided_x {
                    Some(v) => v@.len() + 1,
                    None => 1,
                },
            ),
        ensures
            r.coefficients.len() == 2,
            peval(r.coefficients@, 0) == self.cube_sum(Self::prefix_of(provided_x).push(Fp(0))),
            peval(r.coefficients@, 1) == self.cube_sum(Self::prefix_of(provided_x).push(Fp(1))),
    {
        let mut initial_x: Vec<Fp> = Vec::new();
        if let Some(setup_x) = provided_x {
            initial_x = setup_x.clone();
        }

        let mut first_batch = initial_x.clone();
        let mut second_batch = initial_x.clone();

        first_batch.push(Fp(0));
        second_batch.push(Fp(1));

        let first_result = self.sum_over_hyper_cube(Some(first_batch));
        let second_result = self.sum_over_hyper_cube(Some(second_batch));

        let points = vec![(Fp(0), first_result), (Fp(1), second_result)];
        proof {
            assert(distinct_xs(points@));
            assert(first_batch@ == Self::prefix_of(provided_x).push(Fp(0)));
            assert(second_batch@ == Self::prefix_of(provided_x).push(Fp(1)));
            lemma_small_mod(1, modulus() as nat);
            assert(canon(1int * 1int) == 1);
            assert(canon(-1int * -1int) == 1);
            assert(invertible(1int - 0int));
            assert(invertible(0int - 1int));
            assert(pairwise_invertible(points@));
            lemma_small_mod(first_result.0 as nat, modulus() as nat);
            lemma_small_mod(second_result.0 as nat, modulus() as nat);
        }
        let ghost pts = points@;
        let r = UPolynomial::interpolate(points);
        proof {
            assert(peval(r.coefficients@, pts[0].0.0 as int) == canon(pts[0].1.0 as int));
            assert(peval(r.coefficients@, pts[1].0.0 as int) == canon(pts[1].1.0 as int));
        }
        r
    }

    pub fn number_of_vars(&self) -> (r: usize)
        ensures
            r == self.powers.len(),
    {
        self.powers.len()
    }
}


/// Bits of an even and an odd number in terms of the bits of its half.
proof fn lemma_bits_split(c: u64, m: nat)
    requires
        1 <= m < 64,
        c < (1u64 << ((m - 1) as u64)),
    ensures
        bits((2 * c) as u64, m) == seq![Fp(0)] + bits(c, (m - 1) as nat),
        bits((2 * c + 1) as u64, m) == seq![Fp(1)] + bits(c, (m - 1) as nat),
{
    let mm = (m - 1) as u64;
    assert(c < (1u64 << mm) && mm < 63 ==> c < 0x8000_0000_0000_0000u64) by (bit_vector);
    let e = (2 * c) as u64;
    let o = (2 * c + 1) as u64;
    assert(c < 0x8000_0000_0000_0000u64 ==> (e & 1) == 0 && (o & 1) == 1) by (bit_vector)
        requires
            e == 2 * c,
            o == 2 * c + 1,
    ;
    assert forall|j: u64| j < 63 implies ((e >> (j + 1)) & 1) == ((c >> j) & 1) && ((o >> (j + 1)) & 1) == ((c
        >> j) & 1) by {
        assert(c < 0x8000_0000_0000_0000u64 && j < 63 ==> ((e >> (j + 1)) & 1) == ((c >> j) & 1) && ((o >> (j
            + 1)) & 1) == ((c >> j) & 1)) by (bit_vector)
            requires
                e == 2 * c,
                o == 2 * c + 1,
        ;
    }
    assert(bits(e, m) =~= seq![Fp(0)] + bits(c, (m - 1) as nat)) by {
        assert((e >> 0u64) & 1 == e & 1) by (bit_vector);
        assert forall|j: int| 1 <= j < m implies bits(e, m)[j] == bits(c, (m - 1) as nat)[j - 1] by {
            assert(((j - 1) as u64) + 1 == j as u64);
        }
    }
    assert(bits(o, m) =~= seq![Fp(1)] + bits(c, (m - 1) as nat)) by {
        assert((o >> 0u64) & 1 == o & 1) by (bit_vector);
        assert forall|j: int| 1 <= j < m implies bits(o, m)[j] == bits(c, (m - 1) as nat)[j - 1] by {
            assert(((j - 1) as u64) + 1 == j as u64);
        }
    }
}

#[verifier::rlimit(40)]
proof fn lemma_partial_split(p: MPolynomial, prefix: Seq<Fp>, c: nat)
    requires
        prefix.len() < p.powers@.len(),
        p.powers@.len() - prefix.len() < 64,
        c <= (1u64 << ((p.powers@.len() - prefix.len() - 1) as u64)),
    ensures
        p.partial_cube_sum(prefix, 2 * c) == canon(
            p.partial_cube_sum(prefix.push(Fp(0)), c) + p.partial_cube_sum(prefix.push(Fp(1)), c),
        ),
    decreases c,
{
    let m = modulus();
    if c == 0 {
        lemma_small_mod(0, m as nat);
    } else {
        let c1 = (c - 1) as nat;
        lemma_partial_split(p, prefix, c1);
        let free = (p.powers@.len() - prefix.len()) as nat;
        lemma_bits_split(c1 as u64, free);
        let zero_pre = prefix.push(Fp(0));
        let one_pre = prefix.push(Fp(1));
        assert(prefix + bits((2 * c1) as u64, free) =~= zero_pre + bits(c1 as u64, (free - 1) as nat));
        assert(prefix + bits((2 * c1 + 1) as u64, free) =~= one_pre + bits(c1 as u64, (free - 1) as nat));
        let f0 = p.value_at(zero_pre + bits(c1 as u64, (free - 1) as nat));
        let f1 = p.value_at(one_pre + bits(c1 as u64, (free - 1) as nat));
        let s0 = p.partial_cube_sum(zero_pre, c1);
        let s1 = p.partial_cube_sum(one_pre, c1);
        let a = p.partial_cube_sum(prefix, 2 * c1);
        assert(2 * c - 1 == 2 * c1 + 1);
        assert(p.partial_cube_sum(prefix, 2 * c1 + 1) == canon(a + f0));
        assert(p.partial_cube_sum(prefix, 2 * c) == canon(canon(a + f0) + f1));
        assert(p.partial_cube_sum(zero_pre, c) == canon(s0 + f0));
        assert(p.partial_cube_sum(one_pre, c) == canon(s1 + f1));
        // both sides are (s0 + s1) + f0 + f1 reduced
        lemma_add_mod_noop(a + f0, f1, m);
        lemma_mod_twice(a + f0, m);
        lemma_add_mod_noop(canon(a + f0), f1, m);
        lemma_add_mod_noop(s0 + s1, f0, m);
        lemma_mod_twice(s0 + s1, m);
        lemma_add_mod_noop(s0 + f0, s1 + f1, m);
        lemma_mod_twice(s0 + f0, m);
        lemma_mod_twice(s1 + f1, m);
        lemma_add_mod_noop(s0 + s1 + f0, f1, m);
        lemma_mod_twice(s0 + s1 + f0, m);
        assert(canon(a + f0) == canon(s0 + s1 + f0));
        assert(canon(canon(a + f0) + f1) == canon(s0 + s1 + f0 + f1));
        assert(s0 + f0 + (s1 + f1) == s0 + s1 + f0 + f1);
    }
}

/// The hypercube sum after a prefix splits into the sums with the next
/// variable fixed to zero and to one; so an honest round polynomial `p`,
/// whose values at zero and one are those two sums, has
/// `p(0) + p(1)` equal to the sum it stands for.
pub proof fn lemma_cube_sum_splits(p: MPolynomial, prefix: Seq<Fp>)
    requires
        prefix.len() < p.powers@.len(),
        p.powers@.len() - prefix.len() < 64,
    ensures
        p.cube_sum(prefix) == canon(p.cube_sum(prefix.push(Fp(0))) + p.cube_sum(prefix.push(Fp(1)))),
{
    let free = (p.powers@.len() - prefix.len()) as u64;
    let half = 1u64 << ((free - 1) as u64);
    assert(1 <= free < 64 ==> (1u64 << free) == 2 * (1u64 << ((free - 1) as u64))) by (bit_vector);
    lemma_partial_split(p, prefix, half as nat);
    assert(prefix.push(Fp(0)).len() == prefix.len() + 1);
    assert(prefix.push(Fp(1)).len() == prefix.len() + 1);
}

} // verus!
