//! Arithmetic in the prime field of order `2^64 - 2^32 + 1`.

use vstd::prelude::*;
use vstd::arithmetic::div_mod::*;
use vstd::arithmetic::mul::*;
use vstd::arithmetic::power::*;

verus! {

/// The Goldilocks prime, `2^64 - 2^32 + 1`.
pub const MODULO: u64 = 18446744069414584321;

/// The order of the field as a mathematical integer.
pub open spec fn modulus() -> int {
    MODULO as int
}

/// Canonical representative of an integer in the field.
pub open spec fn canon(x: int) -> int {
    x % modulus()
}

/// Fields over a fixed modulus.
pub trait FiniteField {
    /// Goldilocks prime under u64 (dec: 18446744069414584321)
    const MODULO: u64 = 18446744069414584321;
}

/// A field element. The stored integer may exceed the modulus when built
/// directly; every operation reduces its result.
#[derive(Debug, Clone, Copy, PartialEq, Eq, Structural)]
pub struct Fp(pub u64);

impl FiniteField for Fp {}

impl Fp {
    /// The value of the element in the field, in `[0, MODULO)`.
    pub open spec fn val(self) -> int {
        canon(self.0 as int)
    }

    /// The stored integer is canonical.
    pub open spec fn wf(self) -> bool {
        self.0 < MODULO
    }

    pub fn zero() -> (r: Self)
        ensures
            r.0 == 0,
    {
        Fp(0)
    }

    pub fn one() -> (r: Self)
        ensures
            r.0 == 1,
    {
        Fp(1)
    }

    /// Reduces an unsigned integer into the field.
    pub fn from(value: u64) -> (r: Self)
        ensures
            r.0 as int == canon(value as int),
            r.wf(),
    {
        Fp(value % MODULO)
    }

    /// The additive inverse, canonically reduced; it cancels the element.
    pub fn neg(&self) -> (r: Self)
        ensures
            r.0 as int == canon(-(self.0 as int)),
            r.wf(),
            fp_add(*self, r).0 == 0,
    {
        let v = self.0 % MODULO;
        let r = Fp((MODULO - v) % MODULO);
        proof {
            lemma_sub_mod_noop(0, self.0 as int, modulus());
            lemma_small_mod(0, MODULO as nat);
            lemma_mod_self_0(modulus());
            lemma_add_mod_noop(self.0 as int, -(self.0 as int), modulus());
            lemma_mod_twice(self.0 as int, modulus());
            lemma_add_mod_noop(self.0 as int, r.0 as int, modulus());
        }
        r
    }
}

pub open spec fn fp_add(a: Fp, b: Fp) -> Fp {
    Fp(canon(a.0 as int + b.0 as int) as u64)
}

pub open spec fn fp_sub(a: Fp, b: Fp) -> Fp {
    Fp(canon(a.0 as int - b.0 as int) as u64)
}

pub open spec fn fp_mul(a: Fp, b: Fp) -> Fp {
    Fp(canon(a.0 as int * b.0 as int) as u64)
}

impl std::ops::Add for Fp {
    type Output = Self;

    fn add(self, rhs: Self) -> (r: Self)
        ensures
            r == fp_add(self, rhs),
    {
        Fp(((self.0 as u128 + rhs.0 as u128) % (MODULO as u128)) as u64)
    }
}

impl vstd::std_specs::ops::AddSpecImpl for Fp {
    open spec fn obeys_add_spec() -> bool {
        true
    }

    open spec fn add_req(self, rhs: Self) -> bool {
        true
    }

    open spec fn add_spec(self, rhs: Self) -> Self {
        fp_add(self, rhs)
    }
}


impl std::ops::Sub for Fp {
    type Output = Self;

    fn sub(self, rhs: Self) -> (r: Self)
        ensures
            r == fp_sub(self, rhs),
    {
        let b = rhs.0 % MODULO;
        proof {
            lemma_sub_mod_noop(self.0 as int + modulus(), rhs.0 as int, modulus());
            lemma_mod_self_0(modulus());
            lemma_mod_twice(rhs.0 as int, modulus());
            lemma_add_mod_noop(self.0 as int, modulus(), modulus());
            lemma_sub_mod_noop(self.0 as int, rhs.0 as int, modulus());
            lemma_sub_mod_noop(self.0 as int + modulus(), rhs.0 as int % modulus(), modulus());
        }
        Fp(((self.0 as u128 + MODULO as u128 - b as u128) % (MODULO as u128)) as u64)
    }
}

impl vstd::std_specs::ops::SubSpecImpl for Fp {
    open spec fn obeys_sub_spec() -> bool {
        true
    }

    open spec fn sub_req(self, rhs: Self) -> bool {
        true
    }

    open spec fn sub_spec(self, rhs: Self) -> Self {
        fp_sub(self, rhs)
    }
}

impl std::ops::SubAssign for Fp {
    fn sub_assign(&mut self, rhs: Self)
        ensures
            *final(self) == fp_sub(*old(self), rhs),
    {
        *self = *self - rhs;
    }
}

impl std::ops::Mul for Fp {
    type Output = Self;

    fn mul(self, rhs: Self) -> (r: Self)
        ensures
            r == fp_mul(self, rhs),
    {
        proof {
            lemma_mul_upper_bound(self.0 as int, u64::MAX as int, rhs.0 as int, u64::MAX as int);
        }
        Fp(((self.0 as u128 * rhs.0 as u128) % (MODULO as u128)) as u64)
    }
}

impl vstd::std_specs::ops::MulSpecImpl for Fp {
    open spec fn obeys_mul_spec() -> bool {
        true
    }

    open spec fn mul_req(self, rhs: Self) -> bool {
        true
    }

    open spec fn mul_spec(self, rhs: Self) -> Self {
        fp_mul(self, rhs)
    }
}

impl std::ops::Neg for Fp {
    type Output = Self;

    fn neg(self) -> (r: Self)
        ensures
            r == fp_neg(self),
    {
        Fp::neg(&self)
    }
}

pub open spec fn fp_neg(a: Fp) -> Fp {
    Fp(canon(-(a.0 as int)) as u64)
}

impl vstd::std_specs::ops::NegSpecImpl for Fp {
    open spec fn obeys_neg_spec() -> bool {
        true
    }

    open spec fn neg_req(self) -> bool {
        true
    }

    open spec fn neg_spec(self) -> Self {
        fp_neg(self)
    }
}

impl std::ops::Rem for Fp {
    type Output = Self;

    fn rem(self, rhs: Self) -> (r: Self)
        ensures
            r == fp_rem(self, rhs),
    {
        Fp((self.0 % rhs.0) % MODULO)
    }
}

/// Remainder of the stored integers, reduced into the field.
pub open spec fn fp_rem(a: Fp, b: Fp) -> Fp {
    Fp(canon(a.0 as int % b.0 as int) as u64)
}

impl vstd::std_specs::ops::RemSpecImpl for Fp {
    open spec fn obeys_rem_spec() -> bool {
        true
    }

    open spec fn rem_req(self, rhs: Self) -> bool {
        rhs.0 != 0
    }

    open spec fn rem_spec(self, rhs: Self) -> Self {
        fp_rem(self, rhs)
    }
}

impl std::ops::Shr<u64> for Fp {
    type Output = Self;

    fn shr(self, rhs: u64) -> (r: Self)
        ensures
            r.0 == self.0 >> rhs,
    {
        Fp(self.0 >> rhs)
    }
}

impl vstd::std_specs::ops::ShrSpecImpl<u64> for Fp {
    open spec fn obeys_shr_spec() -> bool {
        true
    }

    open spec fn shr_req(self, rhs: u64) -> bool {
        rhs < 64
    }

    open spec fn shr_spec(self, rhs: u64) -> Self {
        Fp(self.0 >> rhs)
    }
}

impl std::ops::ShrAssign<u64> for Fp {
    /// Shifts the stored integer right; a shift by 64 or more clears it.
    fn shr_assign(&mut self, rhs: u64)
        ensures
            rhs < 64 ==> final(self).0 == old(self).0 >> rhs,
            rhs >= 64 ==> final(self).0 == 0,
    {
        if rhs < 64 {
            self.0 = self.0 >> rhs;
        } else {
            self.0 = 0;
        }
    }
}

/// `r * b^e` reduced, after one step of square-and-multiply.
proof fn lemma_square_step(r: int, b: int, e: nat)
    ensures
        e % 2 == 1 ==> canon(canon(r * b) * pow(canon(b * b), e / 2)) == canon(r * pow(b, e)),
        e % 2 == 0 ==> canon(r * pow(canon(b * b), e / 2)) == canon(r * pow(b, e)),
{
    let m = modulus();
    let q = e / 2;
    let p = pow(canon(b * b), q);
    lemma_pow_mod_noop(b * b, q, m);
    lemma_pow_multiplies(b, 2, q);
    lemma_pow_adds(b, 1, 1);
    lemma_pow1(b);
    assert(pow(b * b, q) == pow(b, 2 * q));
    lemma_mul_mod_noop_right(r, p, m);
    lemma_mul_mod_noop_right(r, pow(b, 2 * q), m);
    if e % 2 == 1 {
        lemma_pow_adds(b, 1, 2 * q);
        assert(pow(b, e) == b * pow(b, 2 * q));
        lemma_mul_mod_noop_left(r * b, p, m);
        lemma_mul_mod_noop_right(r * b, p, m);
        lemma_mul_mod_noop_right(r * b, pow(b, 2 * q), m);
        lemma_mul_is_associative(r, b, pow(b, 2 * q));
    } else {
        assert(e == 2 * q);
    }
}

impl Fp {
    /// Raises the element to an unsigned power by square-and-multiply.
    pub fn pow(&self, p0: u32) -> (r: Self)
        ensures
            r.0 as int == canon(pow(self.0 as int, p0 as nat)),
    {
        let mut result = Fp(1);
        let mut base = *self;
        let mut p = p0;
        proof {
            lemma_pow0(self.0 as int);
            lemma_pow1(self.0 as int);
            lemma_small_mod(1, modulus() as nat);
        }
        while p > 0
            invariant
                result.0 < MODULO,
                canon(result.0 * pow(base.0 as int, p as nat)) == canon(pow(self.0 as int, p0 as nat)),
            decreases p,
        {
            proof {
                lemma_square_step(result.0 as int, base.0 as int, p as nat);
            }
            assert((p & 1 == 1) == (p % 2 == 1)) by (bit_vector);
            if p & 1 == 1 {
                result = result * base;
            }
            base = base * base;
            assert(p >> 1 == p / 2) by (bit_vector);
            p >>= 1;
        }
        proof {
            lemma_pow0(base.0 as int);
            lemma_small_mod(result.0 as nat, modulus() as nat);
        }
        result
    }
}


/// `d` divides `x`.
pub open spec fn divides(d: int, x: int) -> bool {
    x % d == 0
}

/// `x` has a multiplicative inverse modulo the field's order.
pub open spec fn invertible(x: int) -> bool {
    exists|i: int| canon(#[trigger] (i * x)) == 1
}

/// A common divisor of the modulus and an invertible element is one.
proof fn lemma_unit_divisor(a: int, d: int)
    requires
        invertible(a),
        0 < d,
        divides(d, a),
        divides(d, modulus()),
    ensures
        d == 1,
{
    let m = modulus();
    let i = choose|i: int| canon(#[trigger] (i * a)) == 1;
    lemma_fundamental_div_mod(i * a, m);
    lemma_fundamental_div_mod(a, d);
    lemma_fundamental_div_mod(m, d);
    let q = (i * a) / m;
    let a1 = a / d;
    let m1 = m / d;
    assert(i * a == m * q + 1);
    assert(a == d * a1);
    assert(m == d * m1);
    let k = i * a1 - q * m1;
    assert(d * k == 1) by (nonlinear_arith)
        requires
            i * a == m * q + 1,
            a == d * a1,
            m == d * m1,
            k == i * a1 - q * m1,
    ;
    assert(d == 1) by (nonlinear_arith)
        requires
            d * k == 1,
            0 < d,
    ;
}

/// Halving both sides of a congruence modulo the odd field order.
proof fn lemma_halve_congruence(x: int, y: int)
    requires
        canon(2 * x) == canon(2 * y),
    ensures
        canon(x) == canon(y),
{
    let m = modulus();
    let t = x - y;
    lemma_sub_mod_noop(2 * x, 2 * y, m);
    lemma_mod_self_0(m);
    lemma_small_mod(0, m as nat);
    assert(canon(2 * t) == 0);
    lemma_mul_mod_noop_right(2, t, m);
    let c = t % m;
    assert(0 <= c < m);
    assert((2 * c) % m == 0);
    if c != 0 {
        assert(m <= 2 * c < 2 * m);
        lemma_fundamental_div_mod(2 * c, m);
        assert(2 * c == m);
    }
    lemma_sub_mod_noop(x, y, m);
    assert(canon(canon(x) - canon(y)) == 0);
}

/// A common divisor of `u` and `v / 2` divides `v`.
proof fn lemma_divides_double(d: int, v: int)
    requires
        0 < d,
        v % 2 == 0,
        divides(d, v / 2),
    ensures
        divides(d, v),
{
    lemma_fundamental_div_mod(v / 2, d);
    let k = (v / 2) / d;
    assert(v == d * (2 * k)) by (nonlinear_arith)
        requires
            v / 2 == d * k + 0,
            v % 2 == 0,
            v == 2 * (v / 2) + v % 2,
    ;
    lemma_mod_multiples_basic(2 * k, d);
    lemma_mul_is_commutative(d, 2 * k);
}

/// A common divisor of `u` and `v - u` divides `v`.
proof fn lemma_divides_sum(d: int, u: int, v: int)
    requires
        0 < d,
        divides(d, u),
        divides(d, v - u),
    ensures
        divides(d, v),
{
    lemma_add_mod_noop(u, v - u, d);
    lemma_small_mod(0, d as nat);
}

/// The halved cofactor keeps its congruence with the halved remainder.
proof fn lemma_halve_cofactor(s: int, s2: int, v: int, a: int)
    requires
        canon(s * a) == canon(v),
        v % 2 == 0,
        2 * s2 == s || 2 * s2 == s + modulus(),
    ensures
        canon(s2 * a) == canon(v / 2),
{
    let m = modulus();
    lemma_mul_is_associative(2, s2, a);
    if 2 * s2 == s + m {
        lemma_mul_is_distributive_add_other_way(a, s, m);
        lemma_mod_multiples_vanish(a, s * a, m);
        lemma_mul_is_commutative(m, a);
    }
    assert(canon(2 * (s2 * a)) == canon(2 * (v / 2)));
    lemma_halve_congruence(s2 * a, v / 2);
}

/// The cofactor difference tracks the remainder difference.
proof fn lemma_sub_cofactor(s: int, r: int, s2: int, v: int, u: int, a: int)
    requires
        canon(s * a) == canon(v),
        canon(r * a) == canon(u),
        s2 == s - r || s2 == s - r + modulus(),
    ensures
        canon(s2 * a) == canon(v - u),
{
    let m = modulus();
    lemma_mul_is_distributive_sub_other_way(a, s, r);
    if s2 == s - r + m {
        lemma_mul_is_distributive_add_other_way(a, s - r, m);
        lemma_mod_multiples_vanish(a, (s - r) * a, m);
        lemma_mul_is_commutative(m, a);
    }
    lemma_sub_mod_noop(s * a, r * a, m);
    lemma_sub_mod_noop(v, u, m);
}

impl Fp {
    /// The multiplicative inverse by binary extended Euclid. Zero, and any
    /// element without an inverse, maps to zero.
    pub fn inverse(&self) -> (r: Self)
        ensures
            r.wf(),
            self.val() == 0 ==> r.0 == 0,
            invertible(self.0 as int) ==> canon(r.0 * self.0) == 1,
            !invertible(self.0 as int) ==> r.0 == 0,
    {
        let modulo = MODULO;
        let a = self.0 % modulo;
        let ghost ga = a as int;
        let ghost m = modulus();
        proof {
            lemma_mul_mod_noop_right(0, self.0 as int, m);
            lemma_small_mod(0, m as nat);
            assert forall|i: int| canon(#[trigger] (i * self.0)) == canon(i * ga) by {
                lemma_mul_mod_noop_right(i, self.0 as int, m);
            }
            assert forall|i: int| canon(#[trigger] (i * ga)) == canon(i * self.0) by {
                lemma_mul_mod_noop_right(i, self.0 as int, m);
            }
            assert(invertible(self.0 as int) == invertible(ga));
        }
        if a == 0 {
            return Fp(0);
        }

        let mut v: u64 = a;
        let mut u: u64 = modulo;
        let mut s: u64 = 1;
        let mut r: u64 = 0;
        proof {
            lemma_mod_self_0(m);
            lemma_small_mod(a as nat, m as nat);
            lemma_mul_basics(ga);
            assert forall|d: int| 0 < d && #[trigger] divides(d, u as int) && #[trigger] divides(d, v as int)
                implies divides(d, m) && divides(d, ga) by {}
        }

        while u != 1 && v != 1
            invariant
                0 < ga < m,
                modulus() == m,
                ga == canon(self.0 as int),
                u >= 1,
                v >= 1,
                r < modulo,
                s < modulo,
                modulo == MODULO,
                invertible(self.0 as int) == invertible(ga),
                canon(r * ga) == canon(u as int),
                canon(s * ga) == canon(v as int),
                forall|d: int| 0 < d && #[trigger] divides(d, u as int) && #[trigger] divides(d, v as int)
                    ==> divides(d, m) && divides(d, ga),
            decreases u + v,
        {
            let ghost total = u + v;
            while v & 1 == 0
                invariant
                    0 < ga < m,
                    modulus() == m,
                    u >= 1,
                    v >= 1,
                    s < modulo,
                    modulo == MODULO,
                    canon(s * ga) == canon(v as int),
                    u + v <= total,
                    forall|d: int| 0 < d && #[trigger] divides(d, u as int) && #[trigger] divides(d, v as int)
                        ==> divides(d, m) && divides(d, ga),
                decreases v,
            {
                assert((v & 1 == 0) == (v % 2 == 0)) by (bit_vector);
                assert(v >> 1 == v / 2) by (bit_vector);
                let ghost v0 = v;
                let ghost s0 = s;
                v >>= 1;
                if s % 2 == 0 {
                    s = s / 2;
                } else {
                    s = s / 2 + (modulo / 2 + 1);
                }
                proof {
                    lemma_halve_cofactor(s0 as int, s as int, v0 as int, ga);
                    assert forall|d: int| 0 < d && #[trigger] divides(d, u as int) && #[trigger] divides(d, v as int)
                        implies divides(d, m) && divides(d, ga) by {
                        lemma_divides_double(d, v0 as int);
                    }
                }
            }

            while u & 1 == 0
                invariant
                    0 < ga < m,
                    modulus() == m,
                    u >= 1,
                    v >= 1,
                    r < modulo,
                    modulo == MODULO,
                    canon(r * ga) == canon(u as int),
                    u + v <= total,
                    forall|d: int| 0 < d && #[trigger] divides(d, u as int) && #[trigger] divides(d, v as int)
                        ==> divides(d, m) && divides(d, ga),
                decreases u,
            {
                assert((u & 1 == 0) == (u % 2 == 0)) by (bit_vector);
                assert(u >> 1 == u / 2) by (bit_vector);
                let ghost u0 = u;
                let ghost r0 = r;
                u >>= 1;
                if r % 2 == 0 {
                    r = r / 2;
                } else {
                    r = r / 2 + (modulo / 2 + 1);
                }
                proof {
                    lemma_halve_cofactor(r0 as int, r as int, u0 as int, ga);
                    assert forall|d: int| 0 < d && #[trigger] divides(d, u as int) && #[trigger] divides(d, v as int)
                        implies divides(d, m) && divides(d, ga) by {
                        lemma_divides_double(d, u0 as int);
                    }
                }
            }

            if u == v {
                // Both remainders share the divisor `u`, so it is one unless
                // the element has no inverse.
                proof {
                    lemma_mod_self_0(u as int);
                    assert(divides(u as int, u as int) && divides(u as int, v as int));
                    if invertible(ga) {
                        lemma_unit_divisor(ga, u as int);
                    }
                }
                if u == 1 {
                    proof {
                        lemma_small_mod(1, m as nat);
                        lemma_mul_mod_noop_right(r as int, self.0 as int, m);
                        assert(canon(r * ga) == 1);
                    }
                    return Fp(r);
                }
                proof {
                    assert(!invertible(ga));
                }
                return Fp(0);
            }

            if v > u {
                let ghost v0 = v;
                let ghost s0 = s;
                v -= u;
                if s >= r {
                    s = s - r;
                } else {
                    s = s + (modulo - r);
                }
                proof {
                    lemma_sub_cofactor(s0 as int, r as int, s as int, v0 as int, u as int, ga);
                    assert forall|d: int| 0 < d && #[trigger] divides(d, u as int) && #[trigger] divides(d, v as int)
                        implies divides(d, m) && divides(d, ga) by {
                        lemma_divides_sum(d, u as int, v0 as int);
                    }
                }
            } else {
                let ghost u0 = u;
                let ghost r0 = r;
                u -= v;
                if r >= s {
                    r = r - s;
                } else {
                    r = r + (modulo - s);
                }
                proof {
                    lemma_sub_cofactor(r0 as int, s as int, r as int, u0 as int, v as int, ga);
                    assert forall|d: int| 0 < d && #[trigger] divides(d, u as int) && #[trigger] divides(d, v as int)
                        implies divides(d, m) && divides(d, ga) by {
                        lemma_divides_sum(d, v as int, u0 as int);
                    }
                }
            }
        }

        proof {
            lemma_small_mod(1, m as nat);
        }
        proof {
            lemma_mul_mod_noop_right(r as int, self.0 as int, m);
            lemma_mul_mod_noop_right(s as int, self.0 as int, m);
        }
        if u == 1 {
            proof {
                assert(canon(r * ga) == 1);
            }
            Fp(r)
        } else {
            proof {
                assert(canon(s * ga) == 1);
            }
            Fp(s)
        }
    }
}


impl std::ops::Div for Fp {
    type Output = Self;

    /// Multiplies by the inverse of the canonicalized divisor; dividing by an
    /// element without an inverse gives zero.
    fn div(self, rhs: Self) -> (r: Self)
        ensures
            r.wf(),
            invertible(rhs.0 as int) ==> canon(r.0 * rhs.0) == canon(self.0 as int),
            !invertible(rhs.0 as int) ==> r.0 == 0,
    {
        let a = Fp::from(self.0);
        let b = Fp::from(rhs.0);
        let ib = b.inverse();
        let r = a * ib;
        proof {
            let m = modulus();
            assert forall|i: int| canon(#[trigger] (i * b.0)) == canon(i * rhs.0) by {
                lemma_mul_mod_noop_right(i, rhs.0 as int, m);
            }
            assert forall|i: int| canon(#[trigger] (i * rhs.0)) == canon(i * b.0) by {
                lemma_mul_mod_noop_right(i, rhs.0 as int, m);
            }
            assert(invertible(rhs.0 as int) == invertible(b.0 as int));
            if invertible(rhs.0 as int) {
                lemma_mul_mod_noop_left(a.0 as int * ib.0, rhs.0 as int, m);
                lemma_mul_mod_noop_left(self.0 as int, ib.0 as int, m);
                lemma_mul_mod_noop_right(ib.0 as int, rhs.0 as int, m);
                lemma_mul_mod_noop_right(self.0 as int, ib.0 as int * b.0, m);
                lemma_mul_mod_noop_left(self.0 as int * ib.0, rhs.0 as int, m);
                lemma_mul_is_associative(self.0 as int, ib.0 as int, rhs.0 as int);
                lemma_mul_is_associative(self.0 as int, ib.0 as int, b.0 as int);
                lemma_mul_mod_noop_right(self.0 as int * ib.0, rhs.0 as int, m);
                lemma_mul_mod_noop_right(self.0 as int, ib.0 as int * rhs.0, m);
                lemma_small_mod(1, m as nat);
                lemma_mul_basics(self.0 as int);
            } else {
                lemma_mul_basics(a.0 as int);
                lemma_small_mod(0, m as nat);
            }
        }
        r
    }
}

impl vstd::std_specs::ops::DivSpecImpl for Fp {
    /// Division is described by the contract of `div` itself.
    open spec fn obeys_div_spec() -> bool {
        false
    }

    open spec fn div_req(self, rhs: Self) -> bool {
        true
    }

    open spec fn div_spec(self, rhs: Self) -> Self {
        self
    }
}

/// Product of the elements of a sequence, reduced into the field.
pub open spec fn prod(s: Seq<Fp>) -> int
    decreases s.len(),
{
    if s.len() == 0 {
        1
    } else {
        canon(prod(s.drop_last()) * s.last().0)
    }
}

/// What batch inversion places at one index, given the whole input.
pub open spec fn batch_inverse_at(a: Seq<Fp>, out: Fp, k: int) -> bool {
    &&& out.wf()
    &&& a[k].0 == 0 ==> out.0 == 1
    &&& a[k].0 != 0 && invertible(prod(a)) ==> canon(out.0 * a[k].0) == 1
    &&& a[k].0 != 0 && !invertible(prod(a)) ==> out.0 == 0
}

/// One step of the reverse sweep of batch inversion.
proof fn lemma_batch_step(p: int, x: int, inv: int)
    requires
        canon(inv * canon(p * x)) == 1,
    ensures
        canon(canon(p * inv) * x) == 1,
        canon(canon(inv * x) * p) == 1,
{
    let m = modulus();
    lemma_mul_mod_noop_right(inv, p * x, m);
    lemma_mul_mod_noop_left(p * inv, x, m);
    lemma_mul_mod_noop_left(inv * x, p, m);
    assert((p * inv) * x == inv * (p * x)) by (nonlinear_arith);
    assert((inv * x) * p == inv * (p * x)) by (nonlinear_arith);
}

impl Fp {
    /// Inverts every element with one inversion and a linear number of
    /// multiplications. A zero input gives one; when the product of all the
    /// inputs has no inverse, every nonzero input gives zero.
    pub fn multi_inv(a: &Vec<Fp>) -> (r: Vec<Fp>)
        requires
            a.len() < usize::MAX,
        ensures
            r.len() == a.len(),
            forall|k: int| 0 <= k < a.len() ==> batch_inverse_at(a@, #[trigger] r@[k], k),
    {
        let n = a.len();
        let mut partials: Vec<Fp> = Vec::new();
        partials.push(Fp::one());
        let mut i: usize = 0;
        while i < n
            invariant
                n == a.len(),
                i <= n,
                partials.len() == i + 1,
                forall|k: int| 0 <= k <= i ==> #[trigger] partials@[k].0 == prod(a@.take(k)),
            decreases n - i,
        {
            let next = partials[i] * a[i];
            proof {
                assert(a@.take(i + 1).drop_last() =~= a@.take(i as int));
            }
            partials.push(next);
            i += 1;
        }
        proof {
            assert(a@.take(n as int) =~= a@);
        }

        let mut inv = partials[n].inverse();
        let mut outputs: Vec<Fp> = vec![Fp::zero(); n];
        let ghost total = prod(a@);
        proof {
            lemma_mul_is_commutative(inv.0 as int, total);
        }
        let mut i: usize = n;
        while i > 0
            invariant
                n == a.len(),
                i <= n,
                outputs.len() == n,
                partials.len() == n + 1,
                total == prod(a@),
                inv.wf(),
                forall|k: int| 0 <= k <= n ==> #[trigger] partials@[k].0 == prod(a@.take(k)),
                invertible(total) ==> canon(inv.0 * prod(a@.take(i as int))) == 1,
                !invertible(total) ==> inv.0 == 0,
                forall|k: int| i <= k < n ==> batch_inverse_at(a@, #[trigger] outputs@[k], k),
            decreases i,
        {
            i -= 1;
            let ghost p = prod(a@.take(i as int));
            proof {
                assert(a@.take(i + 1).drop_last() =~= a@.take(i as int));
                assert(a@.take(i + 1).last() == a@[i as int]);
                if invertible(total) {
                    lemma_batch_step(p, a@[i as int].0 as int, inv.0 as int);
                }
                lemma_mul_basics(partials@[i as int].0 as int);
                lemma_mul_basics(a@[i as int].0 as int);
                lemma_small_mod(0, modulus() as nat);
                lemma_small_mod(1, modulus() as nat);
                if a@[i as int].0 == 0 {
                    lemma_mul_basics(inv.0 as int);
                    assert(prod(a@.take(i + 1)) == 0);
                    assert(canon(inv.0 * 0) == 0);
                }
            }
            let mut o = partials[i] * inv;
            if a[i] == Fp::zero() {
                o = Fp::one();
            }
            outputs.set(i, o);
            inv = inv * a[i];
        }
        outputs
    }
}

/// Negating twice gives back the element's canonical value; in particular
/// `MODULO - 1` and one are each other's negation.
pub proof fn lemma_neg_involutive(a: Fp)
    ensures
        fp_neg(fp_neg(a)).0 as int == a.val(),
        fp_neg(Fp((MODULO - 1) as u64)) == Fp(1),
{
    let m = modulus();
    let x = a.0 as int;
    lemma_sub_mod_noop(0, -x, m);
    lemma_sub_mod_noop(0, x, m);
    lemma_mod_twice(-x, m);
    lemma_small_mod(0, m as nat);
    lemma_sub_mod_noop(0, canon(-x), m);
    assert(0 - (0 - x) == x);
    lemma_small_mod(1, m as nat);
    lemma_fundamental_div_mod(-(m - 1), m);
    assert(canon(-(m - 1)) == 1) by {
        lemma_mod_multiples_vanish(-1, 1, m);
    }
}

/// An element has at most one canonical inverse.
proof fn lemma_inverse_unique(x: int, i: int, j: int)
    requires
        0 <= i < modulus(),
        0 <= j < modulus(),
        canon(i * x) == 1,
        canon(j * x) == 1,
    ensures
        i == j,
{
    let m = modulus();
    lemma_mul_mod_noop_right(i, j * x, m);
    lemma_mul_mod_noop_right(j, i * x, m);
    lemma_small_mod(i as nat, m as nat);
    lemma_small_mod(j as nat, m as nat);
    assert(i * (j * x) == j * (i * x)) by (nonlinear_arith);
}

/// A product of invertible elements is invertible.
pub proof fn lemma_prod_invertible(a: Seq<Fp>)
    requires
        forall|k: int| 0 <= k < a.len() ==> invertible(#[trigger] a[k].0 as int),
    ensures
        invertible(prod(a)),
    decreases a.len(),
{
    let m = modulus();
    if a.len() == 0 {
        lemma_small_mod(1, m as nat);
        assert(canon(1int * 1int) == 1);
    } else {
        let d = a.drop_last();
        let l = a.last().0 as int;
        assert forall|k: int| 0 <= k < d.len() implies invertible(#[trigger] d[k].0 as int) by {
            assert(d[k] == a[k]);
        }
        lemma_prod_invertible(d);
        assert(invertible(l)) by {
            assert(a[a.len() - 1].0 as int == l);
        }
        let p = prod(d);
        let i1 = choose|i: int| canon(#[trigger] (i * p)) == 1;
        let i2 = choose|i: int| canon(#[trigger] (i * l)) == 1;
        lemma_mul_mod_noop_right(i1 * i2, p * l, m);
        lemma_mul_mod_noop(i1 * p, i2 * l, m);
        assert((i1 * i2) * (p * l) == (i1 * p) * (i2 * l)) by (nonlinear_arith);
        lemma_small_mod(1, m as nat);
        assert(canon((i1 * i2) * prod(a)) == 1);
    }
}

/// Batch inversion of invertible elements agrees with inverting each element
/// alone: `out` is a result of `multi_inv` on `a`, `single` one of `inverse`
/// on `a[k]`.
pub proof fn lemma_batch_inverse_matches(a: Seq<Fp>, out: Seq<Fp>, single: Fp, k: int)
    requires
        forall|j: int| 0 <= j < a.len() ==> invertible(#[trigger] a[j].0 as int),
        0 <= k < a.len(),
        out.len() == a.len(),
        forall|j: int| 0 <= j < a.len() ==> batch_inverse_at(a, #[trigger] out[j], j),
        single.wf(),
        canon(single.0 * a[k].0) == 1,
    ensures
        out[k] == single,
{
    lemma_prod_invertible(a);
    assert(batch_inverse_at(a, out[k], k));
    assert(invertible(a[k].0 as int));
    if a[k].0 == 0 {
        let i = choose|i: int| canon(#[trigger] (i * a[k].0)) == 1;
        lemma_small_mod(0, modulus() as nat);
        assert(i * 0 == 0);
    }
    lemma_inverse_unique(a[k].0 as int, out[k].0 as int, single.0 as int);
}

/// Relies on rand::random: a uniformly drawn `u64`, of which nothing is promised.
#[verifier::external_body]
fn random_u64() -> (r: u64) {
    rand::random::<u64>()
}

impl Fp {
    /// A field element drawn at random.
    pub fn sample() -> (r: Self)
        ensures
            r.wf(),
    {
        Fp::from(random_u64())
    }
}

} // verus!
