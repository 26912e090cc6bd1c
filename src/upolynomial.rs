//! Dense univariate polynomials over the field, highest degree first.

use vstd::prelude::*;
use vstd::arithmetic::div_mod::*;
use vstd::arithmetic::power::*;
use crate::fp::{batch_inverse_at, canon, fp_mul, fp_neg, fp_sub, invertible, lemma_prod_invertible, modulus, prod, Fp};

verus! {

/// Horner evaluation at `x` of the coefficients `c`, highest degree first.
pub open spec fn peval(c: Seq<Fp>, x: int) -> int
    decreases c.len(),
{
    if c.len() == 0 {
        0
    } else {
        canon(peval(c.drop_last(), x) * x + c.last().0)
    }
}

/// Term `i` of an evaluation at an assignment: coefficient `i` times its own
/// variable raised to the degree of its position, or the bare constant.
pub open spec fn assign_term(c: Seq<Fp>, xs: Seq<Fp>, i: int) -> int {
    if i < xs.len() {
        canon(c[i].0 * pow(xs[i].0 as int, (c.len() - 1 - i) as nat))
    } else {
        c[i].0 as int
    }
}

/// Sum of the first `k` terms of an evaluation at an assignment.
pub open spec fn assign_sum(c: Seq<Fp>, xs: Seq<Fp>, k: nat) -> int
    decreases k,
{
    if k == 0 {
        0
    } else {
        canon(assign_sum(c, xs, (k - 1) as nat) + assign_term(c, xs, k - 1))
    }
}

#[derive(Debug, Clone)]
pub struct UPolynomial {
    pub coefficients: Vec<Fp>,
}

impl UPolynomial {
    pub fn from(coefficients: Vec<Fp>) -> (r: Self)
        ensures
            r.coefficients@ == coefficients@,
    {
        Self { coefficients }
    }

    /// Evaluates at an assignment with one entry per non-constant
    /// coefficient: `c_i * x_i^(degree - i)` summed, plus the constant term.
    pub fn eval(&self, x: &[Fp]) -> (r: Fp)
        requires
            self.coefficients.len() >= 1,
            self.coefficients.len() <= u32::MAX,
            x@.len() == self.coefficients.len() - 1,
        ensures
            r.0 as int == assign_sum(self.coefficients@, x@, self.coefficients@.len()),
    {
        let coefficients_len = self.coefficients.len();
        let mut result = Fp(0);
        let mut i: usize = 0;
        proof {
            lemma_small_mod(0, modulus() as nat);
        }
        while i < coefficients_len
            invariant
                coefficients_len == self.coefficients.len(),
                coefficients_len <= u32::MAX,
                x@.len() == coefficients_len - 1,
                i <= coefficients_len,
                result.0 as int == assign_sum(self.coefficients@, x@, i as nat),
            decreases coefficients_len - i,
        {
            let term = self.coefficients[i];
            if i < x.len() {
                let pw = x[i].pow(coefficients_len as u32 - 1 - i as u32);
                proof {
                    lemma_mul_mod_noop_right(term.0 as int, pow(x@[i as int].0 as int, (coefficients_len - 1 - i) as nat), modulus());
                    lemma_add_mod_noop(result.0 as int, term.0 as int * pw.0, modulus());
                    lemma_mod_twice(term.0 as int * pw.0, modulus());
                    lemma_add_mod_noop(result.0 as int, assign_term(self.coefficients@, x@, i as int), modulus());
                }
                result = result + (term * pw);
            } else {
                result = result + term;
            }
            i += 1;
        }
        result
    }

    /// Evaluates the polynomial at a single point by Horner's rule.
    pub fn eval_at(&self, t: Fp) -> (r: Fp)
        ensures
            r.0 as int == peval(self.coefficients@, t.0 as int),
            r.wf(),
    {
        let n = self.coefficients.len();
        let mut result = Fp(0);
        let mut i: usize = 0;
        proof {
            assert(self.coefficients@.take(0) =~= Seq::<Fp>::empty());
        }
        while i < n
            invariant
                n == self.coefficients.len(),
                i <= n,
                result.0 as int == peval(self.coefficients@.take(i as int), t.0 as int),
                result.wf(),
            decreases n - i,
        {
            proof {
                let c = self.coefficients@.take(i + 1);
                assert(c.drop_last() =~= self.coefficients@.take(i as int));
                lemma_add_mod_noop(result.0 as int * t.0, self.coefficients@[i as int].0 as int, modulus());
                lemma_mod_twice(result.0 as int * t.0, modulus());
                lemma_mod_twice(self.coefficients@[i as int].0 as int, modulus());
                lemma_add_mod_noop(result.0 as int * t.0, self.coefficients@[i as int].0 as int, modulus());
            }
            result = result * t + self.coefficients[i];
            proof {
                lemma_add_mod_noop(canon(result.0 as int), 0, modulus());
            }
            i += 1;
        }
        proof {
            assert(self.coefficients@.take(n as int) =~= self.coefficients@);
        }
        result
    }

    pub fn degree(&self) -> (r: usize)
        requires
            self.coefficients.len() >= 1,
        ensures
            r == self.coefficients.len() - 1,
    {
        self.coefficients.len() - 1
    }
}


/// Coefficient `j` of `c`, or zero past its end.
pub open spec fn coef_or_zero(c: Seq<Fp>, j: int) -> Fp {
    if 0 <= j < c.len() {
        c[j]
    } else {
        Fp(0)
    }
}

/// The product of `c` and the monic linear factor `X - x`.
pub open spec fn mul_linear(c: Seq<Fp>, x: Fp) -> Seq<Fp> {
    Seq::new(
        c.len() + 1,
        |j: int|
            if j == 0 {
                coef_or_zero(c, 0)
            } else {
                fp_sub(coef_or_zero(c, j), fp_mul(c[j - 1], x))
            },
    )
}

/// The monic polynomial whose roots are exactly `xs`.
pub open spec fn roots_poly(xs: Seq<Fp>) -> Seq<Fp>
    decreases xs.len(),
{
    if xs.len() == 0 {
        seq![Fp(1)]
    } else {
        mul_linear(roots_poly(xs.drop_last()), xs.last())
    }
}

proof fn lemma_canon_add(a: int, b: int)
    ensures
        canon(canon(a) + b) == canon(a + b),
        canon(a + canon(b)) == canon(a + b),
{
    let m = modulus();
    lemma_add_mod_noop(canon(a), b, m);
    lemma_add_mod_noop(a, b, m);
    lemma_add_mod_noop(a, canon(b), m);
    lemma_mod_twice(a, m);
    lemma_mod_twice(b, m);
}

proof fn lemma_canon_sub(a: int, b: int)
    ensures
        canon(a - canon(b)) == canon(a - b),
{
    let m = modulus();
    lemma_sub_mod_noop(a, canon(b), m);
    lemma_sub_mod_noop(a, b, m);
    lemma_mod_twice(b, m);
}

proof fn lemma_canon_mul(a: int, b: int)
    ensures
        canon(canon(a) * b) == canon(a * b),
        canon(a * canon(b)) == canon(a * b),
{
    let m = modulus();
    lemma_mul_mod_noop_left(a, b, m);
    lemma_mul_mod_noop_right(a, b, m);
}

/// Raising the last coefficient by `l` raises the value by `l`.
proof fn lemma_peval_last_shift(s: Seq<Fp>, s2: Seq<Fp>, l: int, t: int)
    requires
        s.len() == s2.len(),
        s.len() >= 1,
        s.drop_last() == s2.drop_last(),
        canon(s2.last().0 as int) == canon(s.last().0 + l),
    ensures
        peval(s2, t) == canon(peval(s, t) + l),
{
    let pt = peval(s.drop_last(), t) * t;
    lemma_canon_add(pt + s.last().0, l);
    lemma_canon_add(pt, s.last().0 + l);
    lemma_canon_add(pt, s2.last().0 as int);
    assert(pt + s.last().0 + l == pt + (s.last().0 + l));
}

/// Multiplying by `X - x` multiplies the value at `t` by `t - x`.
pub proof fn lemma_peval_mul_linear(c: Seq<Fp>, x: Fp, t: int)
    ensures
        peval(mul_linear(c, x), t) == canon(peval(c, t) * (t - x.0)),
    decreases c.len(),
{
    let d = mul_linear(c, x);
    let m = modulus();
    if c.len() == 0 {
        assert(d.drop_last().len() == 0);
        lemma_small_mod(0, m as nat);
        assert(peval(d.drop_last(), t) == 0);
    } else {
        let c1 = c.drop_last();
        let l = c.last().0 as int;
        let len = c.len();
        let e = mul_linear(c1, x);
        lemma_peval_mul_linear(c1, x, t);
        let dd = d.drop_last();
        assert(dd.drop_last() =~= e.drop_last()) by {
            assert forall|j: int| 0 <= j < len - 1 implies dd.drop_last()[j] == e.drop_last()[j] by {
                assert(coef_or_zero(c, j) == coef_or_zero(c1, j));
                if j > 0 {
                    assert(c[j - 1] == c1[j - 1]);
                }
            }
        }
        if len == 1 {
            lemma_small_mod(0, m as nat);
            assert(canon(dd.last().0 as int) == canon(e.last().0 + l));
        } else {
            let y = canon(c[len - 2].0 * x.0);
            assert(c1[len - 2] == c[len - 2]);
            assert(dd.last().0 == canon(l - y));
            assert(e.last().0 == canon(0 - y));
            lemma_canon_add(0 - y, l);
            lemma_mod_twice(l - y, m);
            assert(canon(dd.last().0 as int) == canon(e.last().0 + l));
        }
        lemma_peval_last_shift(e, dd, l, t);
        let a = peval(c1, t);
        let u = a * (t - x.0) + l;
        // peval(dd) == canon(u)
        lemma_canon_add(a * (t - x.0), l);
        let v = canon(l * x.0);
        assert(d.last().0 == canon(0 - v));
        lemma_canon_add(canon(u) * t, 0 - v);
        lemma_canon_mul(u, t);
        lemma_canon_add(u * t, 0 - v);
        lemma_canon_sub(u * t, l * x.0);
        lemma_mod_twice(0 - v, m);
        assert(peval(d, t) == canon(canon(u) * t + d.last().0));
        assert(canon(canon(u) * t + canon(0 - v)) == canon(canon(u) * t + (0 - v)));
        assert(canon(canon(u) * t + (0 - v)) == canon(canon(canon(u) * t) + (0 - v)));
        assert(canon(u) * t + (0 - v) == canon(u) * t - v);
        assert(u * t + (0 - v) == u * t - v);
        lemma_canon_mul(a * t + l, t - x.0);
        assert(u * t - l * x.0 == (a * t + l) * (t - x.0)) by (nonlinear_arith)
            requires
                u == a * (t - x.0) + l,
        ;
    }
}

/// Every supplied root is a zero of the root polynomial.
pub proof fn lemma_roots_are_zeros(xs: Seq<Fp>, k: int)
    requires
        0 <= k < xs.len(),
    ensures
        peval(roots_poly(xs), xs[k].0 as int) == 0,
    decreases xs.len(),
{
    let t = xs[k].0 as int;
    let d = xs.drop_last();
    lemma_peval_mul_linear(roots_poly(d), xs.last(), t);
    lemma_small_mod(0, modulus() as nat);
    assert(roots_poly(xs) == mul_linear(roots_poly(d), xs.last()));
    let p = peval(roots_poly(d), t);
    if k == xs.len() - 1 {
        assert(xs[k] == xs.last());
        assert(t - xs.last().0 == 0);
        vstd::arithmetic::mul::lemma_mul_basics(p);
    } else {
        assert(d[k] == xs[k]);
        lemma_roots_are_zeros(d, k);
        assert(p * (t - xs.last().0) == 0);
    }
}

impl UPolynomial {
    /// The monic polynomial `(X - x_0)(X - x_1)...` with the given roots.
    pub fn zero_at_given_x(xs: &Vec<Fp>) -> (r: Self)
        requires
            xs.len() < usize::MAX,
        ensures
            r.coefficients@ == roots_poly(xs@),
            r.coefficients.len() == xs.len() + 1,
    {
        let mut root: Vec<Fp> = Vec::new();
        root.push(Fp::one());
        let mut i: usize = 0;
        proof {
            assert(xs@.take(0) =~= Seq::<Fp>::empty());
            assert(root@ =~= roots_poly(xs@.take(0)));
        }
        while i < xs.len()
            invariant
                i <= xs.len(),
                xs.len() < usize::MAX,
                root@ == roots_poly(xs@.take(i as int)),
                root.len() == i + 1,
            decreases xs.len() - i,
        {
            let x = xs[i];
            let ghost old_root = root@;
            root.push(Fp::zero());
            let mut j: usize = root.len() - 1;
            while j > 0
                invariant
                    root.len() == old_root.len() + 1,
                    j < root.len(),
                    forall|k: int| 0 <= k <= j ==> #[trigger] root@[k] == coef_or_zero(old_root, k),
                    forall|k: int| j < k < root.len() ==> #[trigger] root@[k] == mul_linear(old_root, x)[k],
                decreases j,
            {
                let next = root[j] - root[j - 1] * x;
                root.set(j, next);
                j -= 1;
            }
            proof {
                assert(root@ =~= mul_linear(old_root, x));
                let t = xs@.take(i + 1);
                assert(t.drop_last() =~= xs@.take(i as int));
            }
            i += 1;
        }
        proof {
            assert(xs@.take(i as int) =~= xs@);
        }
        UPolynomial::from(root)
    }
}


/// `b` placed at position `k` of a sequence of length `len`, zeros elsewhere.
pub open spec fn placed(b: Seq<Fp>, k: int, len: nat) -> Seq<Fp> {
    Seq::new(len, |j: int| if k <= j < k + b.len() { b[j - k] } else { Fp(0) })
}

proof fn lemma_eqm_add(a: int, b: int, c: int, d: int)
    requires
        canon(a) == canon(b),
        canon(c) == canon(d),
    ensures
        canon(a + c) == canon(b + d),
        canon(a - c) == canon(b - d),
{
    let m = modulus();
    lemma_add_mod_noop(a, c, m);
    lemma_add_mod_noop(b, d, m);
    lemma_sub_mod_noop(a, c, m);
    lemma_sub_mod_noop(b, d, m);
}

proof fn lemma_eqm_mul(a: int, b: int, c: int)
    requires
        canon(a) == canon(b),
    ensures
        canon(a * c) == canon(b * c),
        canon(c * a) == canon(c * b),
{
    let m = modulus();
    lemma_mul_mod_noop_left(a, c, m);
    lemma_mul_mod_noop_left(b, c, m);
    lemma_mul_mod_noop_right(c, a, m);
    lemma_mul_mod_noop_right(c, b, m);
}

proof fn lemma_eqm_canon(a: int)
    ensures
        canon(canon(a)) == canon(a),
{
    lemma_mod_twice(a, modulus());
}

/// The value of `b` placed at `k` is the value of `b` times `t` to the
/// number of positions after it.
proof fn lemma_peval_placed(b: Seq<Fp>, k: int, len: nat, t: int)
    requires
        0 <= k,
        k + b.len() <= len,
    ensures
        peval(placed(b, k, len), t) == canon(peval(b, t) * pow(t, (len - k - b.len()) as nat)),
    decreases len,
{
    let p = placed(b, k, len);
    let m = modulus();
    lemma_pow0(t);
    lemma_small_mod(0, m as nat);
    if len == 0 {
        assert(b.len() == 0);
        assert(peval(b, t) * pow(t, 0) == 0);
    } else if len > k + b.len() {
        assert(p.drop_last() =~= placed(b, k, (len - 1) as nat));
        lemma_peval_placed(b, k, (len - 1) as nat, t);
        let e = (len - 1 - k - b.len()) as nat;
        let x = peval(b, t) * pow(t, e);
        lemma_canon_mul(x, t);
        lemma_pow_adds(t, 1, e);
        lemma_pow1(t);
        assert(pow(t, e + 1) == t * pow(t, e));
        assert(x * t == peval(b, t) * pow(t, e + 1)) by (nonlinear_arith)
            requires
                x == peval(b, t) * pow(t, e),
                pow(t, e + 1) == t * pow(t, e),
        ;
        assert(len - k - b.len() == e + 1);
        assert(p.last().0 == 0);
        assert(peval(p, t) == canon(canon(x) * t + 0));
    } else if b.len() == 0 {
        assert(p.drop_last() =~= placed(b, k - 1, (len - 1) as nat));
        lemma_peval_placed(b, k - 1, (len - 1) as nat, t);
        assert(peval(b, t) == 0);
        assert(peval(b, t) * pow(t, 0) == 0);
        assert(peval(p.drop_last(), t) == 0);
        assert(p.last().0 == 0);
        assert(peval(p, t) == canon(0 * t + 0));
    } else {
        let b1 = b.drop_last();
        assert(p.drop_last() =~= placed(b1, k, (len - 1) as nat));
        lemma_peval_placed(b1, k, (len - 1) as nat, t);
        assert(peval(b1, t) * pow(t, 0) == peval(b1, t));
        assert(peval(b, t) * pow(t, 0) == peval(b, t));
        assert(p.last() == b.last());
        lemma_canon_add(canon(peval(b1, t)) * t, b.last().0 as int);
        lemma_canon_mul(peval(b1, t), t);
        lemma_canon_add(peval(b1, t) * t, b.last().0 as int);
        assert(peval(p, t) == canon(canon(peval(b1, t)) * t + b.last().0));
        assert(canon(canon(peval(b1, t)) * t + b.last().0) == canon(canon(canon(peval(b1, t)) * t) + b.last().0));
        assert(peval(p, t) == peval(b, t));
        lemma_eqm_canon(peval(b1, t) * t + b.last().0);
    }
}

/// Subtracting `q` times `s` entrywise subtracts `q` times its value.
proof fn lemma_peval_sub_scaled(a: Seq<Fp>, x: Seq<Fp>, s: Seq<Fp>, q: int, t: int)
    requires
        a.len() == x.len(),
        a.len() == s.len(),
        forall|j: int| 0 <= j < a.len() ==> canon(#[trigger] x[j].0 as int) == canon(a[j].0 - q * s[j].0),
    ensures
        peval(x, t) == canon(peval(a, t) - q * peval(s, t)),
    decreases a.len(),
{
    if a.len() == 0 {
        lemma_small_mod(0, modulus() as nat);
        assert(canon(0 - q * 0) == 0);
    } else {
        let n = a.len() - 1;
        lemma_peval_sub_scaled(a.drop_last(), x.drop_last(), s.drop_last(), q, t);
        let pa = peval(a.drop_last(), t);
        let ps = peval(s.drop_last(), t);
        let px = peval(x.drop_last(), t);
        assert(canon(x[n].0 as int) == canon(a[n].0 - q * s[n].0));
        // px == canon(pa - q ps)
        lemma_eqm_canon(pa - q * ps);
        lemma_eqm_mul(px, pa - q * ps, t);
        lemma_eqm_add(px * t, (pa - q * ps) * t, x[n].0 as int, a[n].0 - q * s[n].0);
        assert((pa - q * ps) * t + (a[n].0 - q * s[n].0) == (pa * t + a[n].0) - q * (ps * t + s[n].0))
            by (nonlinear_arith);
        lemma_eqm_canon(pa * t + a[n].0);
        lemma_eqm_canon(ps * t + s[n].0);
        lemma_eqm_mul(canon(ps * t + s[n].0), ps * t + s[n].0, q);
        lemma_eqm_add(
            canon(pa * t + a[n].0),
            pa * t + a[n].0,
            q * canon(ps * t + s[n].0),
            q * (ps * t + s[n].0),
        );
        lemma_eqm_canon(px * t + x[n].0);
    }
}

/// A sequence of zeros evaluates to zero.
proof fn lemma_peval_zeros(s: Seq<Fp>, t: int)
    requires
        forall|j: int| 0 <= j < s.len() ==> canon(#[trigger] s[j].0 as int) == 0,
    ensures
        peval(s, t) == 0,
    decreases s.len(),
{
    if s.len() > 0 {
        lemma_peval_zeros(s.drop_last(), t);
        assert(canon(s[s.len() - 1].0 as int) == 0);
        lemma_canon_add(0, s.last().0 as int);
    }
}

/// Coefficient `j` of the sum of `b` placed at each position `k`, scaled
/// by `q_k`, in a sequence of length `len`: the product `q * b` entrywise.
pub open spec fn lin_comb(q: Seq<Fp>, b: Seq<Fp>, len: nat, j: int) -> int
    decreases q.len(),
{
    if q.len() == 0 {
        0
    } else {
        lin_comb(q.drop_last(), b, len, j) + q.last().0 * placed(b, q.len() - 1, len)[j].0
    }
}

/// `q` and `rem` are a quotient and remainder of `a` by `b`: as functions,
/// `a = q * b + rem`, and when the leading coefficient of `b` is invertible
/// the remainder's first `q.len()` coefficients vanish.
pub open spec fn is_division(a: Seq<Fp>, b: Seq<Fp>, q: Seq<Fp>, rem: Seq<Fp>) -> bool {
    &&& rem.len() == a.len()
    &&& forall|j: int| 0 <= j < a.len() ==> canon(#[trigger] a[j].0 as int) == canon(lin_comb(q, b, a.len(), j) + rem[j].0)
    &&& invertible(b[0].0 as int) ==> forall|j: int| 0 <= j < q.len() ==> canon(#[trigger] rem[j].0 as int) == 0
    &&& forall|t: int| #[trigger] peval(a, t) == canon(peval(q, t) * peval(b, t) + peval(rem, t))
}

/// One step of long division keeps `a = q * b * t^e + rest`.
proof fn lemma_div_step(av: int, q: int, quot: int, b: int, p: int, t: int, a: int, a2: int, q2: int)
    requires
        av == canon(q * b * (t * p) + a),
        q2 == canon(q * t + quot),
        a2 == canon(a - quot * canon(b * p)),
    ensures
        av == canon(q2 * b * p + a2),
{
    lemma_eqm_canon(q * t + quot);
    lemma_eqm_mul(q2, q * t + quot, b * p);
    lemma_eqm_canon(b * p);
    lemma_eqm_mul(canon(b * p), b * p, quot);
    lemma_eqm_add(a, a, quot * canon(b * p), quot * (b * p));
    lemma_eqm_canon(a - quot * canon(b * p));
    lemma_eqm_add(q2 * (b * p), (q * t + quot) * (b * p), a2, a - quot * (b * p));
    assert(q2 * b * p == q2 * (b * p)) by (nonlinear_arith);
    assert((q * t + quot) * (b * p) + (a - quot * (b * p)) == q * b * (t * p) + a) by (nonlinear_arith);
}

/// The value at `t` of the divisor `X - x`, written `[1, -x]`.
proof fn lemma_peval_linear_factor(x: Fp, t: int)
    ensures
        peval(seq![Fp(1), fp_neg(x)], t) == canon(t - x.0),
{
    let f = seq![Fp(1), fp_neg(x)];
    assert(f.drop_last() =~= seq![Fp(1)]);
    assert(seq![Fp(1)].drop_last() =~= Seq::<Fp>::empty());
    lemma_small_mod(1, modulus() as nat);
    let one = seq![Fp(1)];
    assert(one.last() == Fp(1));
    assert(peval(one.drop_last(), t) == 0);
    assert(one.last() == Fp(1));
    assert(peval(one.drop_last(), t) == 0);
    assert(peval(one, t) == canon(0 * t + 1));
    assert(0 * t + 1 == 1);
    assert(peval(one, t) == 1);
    assert(f.last() == fp_neg(x));
    lemma_canon_add(t, -(x.0 as int));
}

/// Coefficient `j` of `q` as an integer, zero outside its range.
pub open spec fn ext(q: Seq<Fp>, j: int) -> int {
    if 0 <= j < q.len() {
        q[j].0 as int
    } else {
        0
    }
}

/// Entries of the product by `X - x`.
proof fn lemma_mul_linear_entry(q: Seq<Fp>, x: Fp, j: int)
    requires
        0 <= j <= q.len(),
    ensures
        canon(mul_linear(q, x)[j].0 as int) == canon(ext(q, j) - x.0 * ext(q, j - 1)),
{
    lemma_small_mod(0, modulus() as nat);
    if j == 0 {
        assert(x.0 * 0 == 0);
    } else {
        lemma_canon_sub(ext(q, j), q[j - 1].0 * x.0);
        lemma_eqm_canon(ext(q, j) - q[j - 1].0 * x.0);
        assert(q[j - 1].0 * x.0 == x.0 * ext(q, j - 1)) by (nonlinear_arith)
            requires
                ext(q, j - 1) == q[j - 1].0,
        ;
    }
}

/// Placing `X - x` scaled by each `q_k` gives the product by `X - x`.
proof fn lemma_lin_comb_linear(q: Seq<Fp>, x: Fp, len: nat, j: int)
    requires
        q.len() + 1 <= len,
        0 <= j < len,
    ensures
        canon(lin_comb(q, seq![Fp(1), fp_neg(x)], len, j)) == canon(ext(q, j) - x.0 * ext(q, j - 1)),
    decreases q.len(),
{
    let b = seq![Fp(1), fp_neg(x)];
    lemma_small_mod(0, modulus() as nat);
    if q.len() == 0 {
        assert(x.0 * 0 == 0);
    } else {
        let q1 = q.drop_last();
        let n = q.len() as int;
        let v = q.last().0 as int;
        lemma_lin_comb_linear(q1, x, len, j);
        let pl = placed(b, n - 1, len);
        let l1 = lin_comb(q1, b, len, j);
        assert(lin_comb(q, b, len, j) == l1 + v * pl[j].0);
        let base = ext(q1, j) - x.0 * ext(q1, j - 1);
        if j == n - 1 {
            assert(pl[j] == Fp(1));
            assert(ext(q, j) == ext(q1, j) + v);
            assert(ext(q, j - 1) == ext(q1, j - 1));
            lemma_eqm_add(l1, base, v * 1, v);
        } else if j == n {
            assert(pl[j] == fp_neg(x));
            assert(ext(q, j) == ext(q1, j));
            assert(ext(q, j - 1) == ext(q1, j - 1) + v);
            lemma_eqm_canon(-(x.0 as int));
            lemma_eqm_mul(canon(-(x.0 as int)), -(x.0 as int), v);
            lemma_eqm_add(l1, base, v * canon(-(x.0 as int)), v * -(x.0 as int));
            assert(base + v * -(x.0 as int) == ext(q, j) - x.0 * ext(q, j - 1)) by (nonlinear_arith)
                requires
                    base == ext(q1, j) - x.0 * ext(q1, j - 1),
                    ext(q, j) == ext(q1, j),
                    ext(q, j - 1) == ext(q1, j - 1) + v,
            ;
        } else {
            assert(pl[j] == Fp(0));
            assert(ext(q, j) == ext(q1, j));
            assert(ext(q, j - 1) == ext(q1, j - 1));
            assert(v * 0 == 0);
        }
    }
}

/// Two sequences agree entrywise in the field.
pub open spec fn congruent(a: Seq<Fp>, b: Seq<Fp>) -> bool {
    &&& a.len() == b.len()
    &&& forall|j: int| 0 <= j < a.len() ==> canon(#[trigger] a[j].0 as int) == canon(b[j].0 as int)
}

/// Entries of the product by `X - x`, also just outside its range.
proof fn lemma_ext_mul_linear(c: Seq<Fp>, x: Fp, j: int)
    requires
        -1 <= j <= c.len() + 1,
    ensures
        canon(ext(mul_linear(c, x), j)) == canon(ext(c, j) - x.0 * ext(c, j - 1)),
{
    if 0 <= j <= c.len() {
        lemma_mul_linear_entry(c, x, j);
    } else {
        assert(x.0 * 0 == 0);
    }
}

proof fn lemma_mul_linear_congruent(c: Seq<Fp>, d: Seq<Fp>, x: Fp)
    requires
        congruent(c, d),
    ensures
        congruent(mul_linear(c, x), mul_linear(d, x)),
{
    assert forall|j: int| 0 <= j < c.len() + 1 implies canon(#[trigger] mul_linear(c, x)[j].0 as int) == canon(
        mul_linear(d, x)[j].0 as int,
    ) by {
        lemma_mul_linear_entry(c, x, j);
        lemma_mul_linear_entry(d, x, j);
        assert(canon(ext(c, j)) == canon(ext(d, j)));
        assert(canon(ext(c, j - 1)) == canon(ext(d, j - 1)));
        lemma_eqm_mul(ext(c, j - 1), ext(d, j - 1), x.0 as int);
        lemma_eqm_add(ext(c, j), ext(d, j), x.0 * ext(c, j - 1), x.0 * ext(d, j - 1));
    }
}

proof fn lemma_mul_linear_commute(c: Seq<Fp>, a: Fp, b: Fp)
    ensures
        congruent(mul_linear(mul_linear(c, a), b), mul_linear(mul_linear(c, b), a)),
{
    let ab = mul_linear(mul_linear(c, a), b);
    let ba = mul_linear(mul_linear(c, b), a);
    assert forall|j: int| 0 <= j < c.len() + 2 implies canon(#[trigger] ab[j].0 as int) == canon(ba[j].0 as int) by {
        let ca = mul_linear(c, a);
        let cb = mul_linear(c, b);
        lemma_mul_linear_entry(ca, b, j);
        lemma_mul_linear_entry(cb, a, j);
        lemma_ext_mul_linear(c, a, j);
        lemma_ext_mul_linear(c, a, j - 1);
        lemma_ext_mul_linear(c, b, j);
        lemma_ext_mul_linear(c, b, j - 1);
        let c0 = ext(c, j);
        let c1 = ext(c, j - 1);
        let c2 = ext(c, j - 2);
        let av = a.0 as int;
        let bv = b.0 as int;
        lemma_eqm_mul(ext(ca, j - 1), c1 - av * c2, bv);
        lemma_eqm_add(ext(ca, j), c0 - av * c1, bv * ext(ca, j - 1), bv * (c1 - av * c2));
        lemma_eqm_mul(ext(cb, j - 1), c1 - bv * c2, av);
        lemma_eqm_add(ext(cb, j), c0 - bv * c1, av * ext(cb, j - 1), av * (c1 - bv * c2));
        assert((c0 - av * c1) - bv * (c1 - av * c2) == (c0 - bv * c1) - av * (c1 - bv * c2)) by (nonlinear_arith);
    }
}

/// The factor `X - x` cancels entrywise.
proof fn lemma_mul_linear_cancel(q: Seq<Fp>, r: Seq<Fp>, x: Fp, j: int)
    requires
        q.len() == r.len(),
        congruent(mul_linear(q, x), mul_linear(r, x)),
        -1 <= j < q.len(),
    ensures
        canon(ext(q, j)) == canon(ext(r, j)),
    decreases j + 1,
{
    if j >= 0 {
        lemma_mul_linear_cancel(q, r, x, j - 1);
        lemma_mul_linear_entry(q, x, j);
        lemma_mul_linear_entry(r, x, j);
        assert(canon(mul_linear(q, x)[j].0 as int) == canon(mul_linear(r, x)[j].0 as int));
        lemma_eqm_mul(ext(q, j - 1), ext(r, j - 1), x.0 as int);
        lemma_eqm_add(ext(q, j) - x.0 * ext(q, j - 1), ext(r, j) - x.0 * ext(r, j - 1), x.0 * ext(q, j - 1), x.0 * ext(r, j - 1));
    }
}

proof fn lemma_roots_poly_len(xs: Seq<Fp>)
    ensures
        roots_poly(xs).len() == xs.len() + 1,
    decreases xs.len(),
{
    if xs.len() > 0 {
        lemma_roots_poly_len(xs.drop_last());
    }
}

/// Any one root's factor can be taken out of the root polynomial last.
proof fn lemma_roots_poly_remove(xs: Seq<Fp>, i: int)
    requires
        0 <= i < xs.len(),
    ensures
        congruent(roots_poly(xs), mul_linear(roots_poly(xs.remove(i)), xs[i])),
    decreases xs.len(),
{
    let n = xs.len() as int;
    let d = xs.drop_last();
    lemma_roots_poly_len(xs);
    if i == n - 1 {
        assert(xs.remove(i) =~= d);
    } else {
        lemma_roots_poly_remove(d, i);
        let r = roots_poly(d.remove(i));
        lemma_mul_linear_congruent(roots_poly(d), mul_linear(r, xs[i]), xs.last());
        lemma_mul_linear_commute(r, xs[i], xs.last());
        let rm = xs.remove(i);
        assert(rm.drop_last() =~= d.remove(i));
        assert(rm.last() == xs.last());
        assert(d[i] == xs[i]);
    }
}

/// Entrywise agreement gives the same value.
proof fn lemma_peval_congruent(a: Seq<Fp>, b: Seq<Fp>, t: int)
    requires
        congruent(a, b),
    ensures
        peval(a, t) == peval(b, t),
{
    assert forall|j: int| 0 <= j < a.len() implies canon(#[trigger] b[j].0 as int) == canon(a[j].0 - 0 * a[j].0) by {}
    lemma_peval_sub_scaled(a, b, a, 0, t);
    if a.len() == 0 {
        lemma_small_mod(0, modulus() as nat);
    } else {
        lemma_eqm_canon(peval(a.drop_last(), t) * t + a.last().0);
    }
}

/// The product of invertible factors is invertible, reduced or not.
proof fn lemma_invertible_mul(p: int, d: int)
    requires
        invertible(p),
        invertible(d),
    ensures
        invertible(canon(p * d)),
{
    let i1 = choose|i: int| canon(#[trigger] (i * p)) == 1;
    let i2 = choose|i: int| canon(#[trigger] (i * d)) == 1;
    lemma_canon_mul(i1 * i2, p * d);
    lemma_eqm_mul(i1 * p, 1, i2 * d);
    lemma_eqm_mul(i2 * d, 1, 1);
    assert((i1 * i2) * (p * d) == (i1 * p) * (i2 * d)) by (nonlinear_arith);
    lemma_small_mod(1, modulus() as nat);
    assert(canon((i1 * i2) * canon(p * d)) == 1);
}

/// The root polynomial is invertible at a point that differs invertibly
/// from every root.
proof fn lemma_roots_value_invertible(ys: Seq<Fp>, t: int)
    requires
        forall|j: int| 0 <= j < ys.len() ==> invertible(t - #[trigger] ys[j].0),
    ensures
        invertible(peval(roots_poly(ys), t)),
    decreases ys.len(),
{
    lemma_small_mod(1, modulus() as nat);
    lemma_small_mod(0, modulus() as nat);
    if ys.len() == 0 {
        let one = seq![Fp(1)];
        assert(one.last() == Fp(1));
        assert(peval(one.drop_last(), t) == 0);
        assert(peval(one, t) == canon(0 * t + 1));
        assert(canon(1int * 1int) == 1);
    } else {
        let d = ys.drop_last();
        assert forall|j: int| 0 <= j < d.len() implies invertible(t - #[trigger] d[j].0) by {
            assert(d[j] == ys[j]);
        }
        lemma_roots_value_invertible(d, t);
        lemma_peval_mul_linear(roots_poly(d), ys.last(), t);
        assert(invertible(t - ys[ys.len() - 1].0));
        lemma_invertible_mul(peval(roots_poly(d), t), t - ys.last().0);
    }
}

/// Points whose abscissas differ pairwise by invertible amounts.
pub open spec fn pairwise_invertible(points: Seq<(Fp, Fp)>) -> bool {
    forall|a: int, b: int| 0 <= a < points.len() && 0 <= b < points.len() && a != b ==> invertible(
        #[trigger] points[a].0.0 - #[trigger] points[b].0.0,
    )
}

/// The accumulated Lagrange sum at an abscissa picks out that point's value.
proof fn lemma_lagrange_at(nums: Seq<UPolynomial>, ys: Seq<Fp>, den: Seq<Fp>, invs: Seq<Fp>, k: int, i: nat, t: int)
    requires
        0 <= k < nums.len(),
        i <= nums.len(),
        ys.len() == nums.len(),
        invs.len() == nums.len(),
        den.len() == nums.len(),
        forall|a: int| 0 <= a < nums.len() && a != k ==> peval(#[trigger] nums[a].coefficients@, t) == 0,
        peval(nums[k].coefficients@, t) == den[k].0,
        canon(invs[k].0 * den[k].0) == 1,
    ensures
        lagrange_partial(nums, ys, invs, i, t) == if i > k {
            canon(ys[k].0 as int)
        } else {
            0
        },
    decreases i,
{
    lemma_small_mod(0, modulus() as nat);
    if i > 0 {
        let i1 = (i - 1) as nat;
        lemma_lagrange_at(nums, ys, den, invs, k, i1, t);
        let prev = lagrange_partial(nums, ys, invs, i1, t);
        let sc = lagrange_scale(ys, invs, i1 as int);
        if i1 as int != k {
            assert(peval(nums[i1 as int].coefficients@, t) == 0);
            assert(sc * 0 == 0);
            lemma_eqm_canon(ys[k].0 as int);
        } else {
            lemma_point_value(ys[k].0 as int, invs[k].0 as int, den[k].0 as int, sc);
            lemma_canon_add(0, sc * den[k].0);
            assert(0 + sc * den[k].0 == sc * den[k].0);
        }
    }
}

/// Division identity for a root: when `x` is a root of `a`, the quotient of
/// `a` by `X - x`, multiplied back by `X - x`, gives `a` again.
pub proof fn lemma_division_by_root(a: Seq<Fp>, x: Fp, q: Seq<Fp>, rem: Seq<Fp>)
    requires
        a.len() >= 2,
        q.len() == a.len() - 1,
        peval(a, x.0 as int) == 0,
        is_division(a, seq![Fp(1), fp_neg(x)], q, rem),
    ensures
        forall|t: int| #[trigger] peval(mul_linear(q, x), t) == peval(a, t),
        forall|j: int| 0 <= j < a.len() ==> canon(#[trigger] a[j].0 as int) == canon(mul_linear(q, x)[j].0 as int),
{
    let b = seq![Fp(1), fp_neg(x)];
    let m = modulus();
    lemma_small_mod(1, m as nat);
    assert(canon(1int * 1) == 1);
    assert(invertible(b[0].0 as int));
    let r = rem.last().0 as int;
    assert forall|t: int| #[trigger] peval(rem, t) == canon(r) by {
        assert forall|j: int| 0 <= j < rem.drop_last().len() implies canon(#[trigger] rem.drop_last()[j].0 as int) == 0 by {
            assert(rem.drop_last()[j] == rem[j]);
        }
        lemma_peval_zeros(rem.drop_last(), t);
        lemma_small_mod(0, m as nat);
    }
    let x0 = x.0 as int;
    lemma_peval_linear_factor(x, x0);
    lemma_small_mod(0, m as nat);
    assert(peval(a, x0) == canon(peval(q, x0) * peval(b, x0) + peval(rem, x0)));
    assert(peval(q, x0) * 0 == 0);
    lemma_eqm_canon(r);
    assert(canon(r) == 0);
    assert forall|t: int| #[trigger] peval(mul_linear(q, x), t) == peval(a, t) by {
        lemma_peval_mul_linear(q, x, t);
        lemma_peval_linear_factor(x, t);
        assert(peval(a, t) == canon(peval(q, t) * peval(b, t) + peval(rem, t)));
        lemma_canon_mul(peval(q, t), t - x0);
        lemma_canon_add(peval(q, t) * canon(t - x0), 0);
    }
    assert forall|j: int| 0 <= j < a.len() implies canon(#[trigger] a[j].0 as int) == canon(
        mul_linear(q, x)[j].0 as int,
    ) by {
        lemma_lin_comb_linear(q, x, a.len(), j);
        lemma_mul_linear_entry(q, x, j);
        let l = lin_comb(q, b, a.len(), j);
        if j < q.len() {
            assert(canon(rem[j].0 as int) == 0);
        } else {
            assert(rem[j] == rem.last());
        }
        lemma_eqm_canon(rem[j].0 as int);
        lemma_eqm_add(l, l, rem[j].0 as int, 0);
    }
}

impl std::ops::Div for UPolynomial {
    type Output = Self;

    /// Long division; the remainder is dropped, so the result is the exact
    /// quotient when the divisor divides the dividend. A dividend shorter
    /// than the divisor gives the empty polynomial.
    fn div(self, rhs: Self) -> (r: Self)
        ensures
            self.coefficients.len() < rhs.coefficients.len() ==> r.coefficients.len() == 0,
            self.coefficients.len() >= rhs.coefficients.len() ==> r.coefficients.len()
                == self.coefficients.len() - rhs.coefficients.len() + 1 && exists|rem: Seq<Fp>|
                is_division(self.coefficients@, rhs.coefficients@, r.coefficients@, rem),
    {
        let mut a_copy = self.coefficients.clone();
        let la = a_copy.len();
        let lb = rhs.coefficients.len();
        if la < lb {
            return UPolynomial::from(Vec::new());
        }
        let ghost a = self.coefficients@;
        let ghost b = rhs.coefficients@;
        let mut output: Vec<Fp> = Vec::new();
        let steps = la - lb + 1;
        let mut k: usize = 0;
        proof {
            assert forall|t: int| #[trigger] peval(a, t) == canon(
                peval(output@, t) * peval(b, t) * pow(t, (steps - k) as nat) + peval(a_copy@, t),
            ) by {
                lemma_small_mod(0, modulus() as nat);
                assert(peval(output@, t) == 0);
                assert(0 * peval(b, t) * pow(t, (steps - k) as nat) == 0) by (nonlinear_arith);
                if a.len() > 0 {
                    lemma_eqm_canon(peval(a.drop_last(), t) * t + a.last().0);
                }
            }
        }
        while k < steps
            invariant
                lb >= 1,
                la >= lb,
                steps == la - lb + 1,
                la == a.len(),
                a == self.coefficients@,
                b == rhs.coefficients@,
                a_copy.len() == la,
                lb == b.len(),
                k <= steps,
                output.len() == k,
                forall|t: int| #[trigger] peval(a, t) == canon(
                    peval(output@, t) * peval(b, t) * pow(t, (steps - k) as nat) + peval(a_copy@, t),
                ),
                invertible(b[0].0 as int) ==> forall|j: int| 0 <= j < k ==> canon(#[trigger] a_copy@[j].0 as int) == 0,
                forall|j: int| 0 <= j < la ==> canon(a[j].0 as int) == canon(
                    lin_comb(output@, b, la as nat, j) + (#[trigger] a_copy@[j]).0,
                ),
            decreases steps - k,
        {
            let quot = a_copy[k] / rhs.coefficients[0];
            let ghost olda = a_copy@;
            let ghost oldq = output@;
            output.push(quot);
            let mut i: usize = 0;
            while i < lb
                invariant
                    a_copy.len() == la,
                    lb == rhs.coefficients.len(),
                    b == rhs.coefficients@,
                    olda.len() == la,
                    k + lb <= la,
                    i <= lb,
                    forall|j: int| 0 <= j < k || k + i <= j < la ==> #[trigger] a_copy@[j] == olda[j],
                    forall|j: int| k <= j < k + i ==> canon(#[trigger] a_copy@[j].0 as int) == canon(
                        olda[j].0 - quot.0 * b[j - k].0,
                    ),
                decreases lb - i,
            {
                let next = a_copy[k + i] - rhs.coefficients[i] * quot;
                proof {
                    let x = olda[k + i].0 as int;
                    let y = b[i as int].0 as int;
                    lemma_canon_sub(x, y * quot.0);
                    assert(y * quot.0 == quot.0 * y) by (nonlinear_arith);
                    lemma_eqm_canon(x - quot.0 * y);
                }
                a_copy.set(k + i, next);
                i += 1;
            }
            proof {
                let pl = placed(b, k as int, la as nat);
                assert forall|j: int| 0 <= j < la implies canon(#[trigger] a_copy@[j].0 as int) == canon(
                    olda[j].0 - quot.0 * pl[j].0,
                ) by {
                    if !(k <= j < k + lb) {
                        assert(pl[j].0 == 0);
                        assert(quot.0 * pl[j].0 == 0) by (nonlinear_arith)
                            requires pl[j].0 == 0;
                    }
                }
                assert forall|t: int| #[trigger] peval(a, t) == canon(
                    peval(output@, t) * peval(b, t) * pow(t, (steps - (k + 1)) as nat) + peval(a_copy@, t),
                ) by {
                    lemma_peval_sub_scaled(olda, a_copy@, pl, quot.0 as int, t);
                    lemma_peval_placed(b, k as int, la as nat, t);
                    let e = (steps - (k + 1)) as nat;
                    assert(la - k - lb == e);
                    lemma_pow_adds(t, 1, e);
                    lemma_pow1(t);
                    assert(output@.drop_last() =~= oldq);
                    lemma_div_step(
                        peval(a, t),
                        peval(oldq, t),
                        quot.0 as int,
                        peval(b, t),
                        pow(t, e),
                        t,
                        peval(olda, t),
                        peval(a_copy@, t),
                        peval(output@, t),
                    );
                }
                assert forall|j: int| 0 <= j < la implies canon(a[j].0 as int) == canon(
                    lin_comb(output@, b, la as nat, j) + (#[trigger] a_copy@[j]).0,
                ) by {
                    assert(output@.drop_last() =~= oldq);
                    let l0 = lin_comb(oldq, b, la as nat, j);
                    assert(canon(a[j].0 as int) == canon(l0 + olda[j].0));
                    assert(lin_comb(output@, b, la as nat, j) == l0 + quot.0 * pl[j].0);
                    lemma_eqm_add(l0 + quot.0 * pl[j].0, l0 + quot.0 * pl[j].0, a_copy@[j].0 as int, olda[j].0 - quot.0 * pl[j].0);
                    assert(l0 + quot.0 * pl[j].0 + (olda[j].0 - quot.0 * pl[j].0) == l0 + olda[j].0);
                }
                if invertible(b[0].0 as int) {
                    assert(canon(quot.0 * b[0].0) == canon(olda[k as int].0 as int));
                    assert(canon(a_copy@[k as int].0 as int) == canon(olda[k as int].0 - quot.0 * b[0].0));
                    lemma_eqm_add(olda[k as int].0 as int, olda[k as int].0 as int, quot.0 * b[0].0, olda[k as int].0 as int);
                    lemma_small_mod(0, modulus() as nat);
                }
            }
            k += 1;
        }
        proof {
            assert forall|t: int| #[trigger] peval(a, t) == canon(
                peval(output@, t) * peval(b, t) + peval(a_copy@, t),
            ) by {
                lemma_pow0(t);
                assert(peval(output@, t) * peval(b, t) * pow(t, 0) == peval(output@, t) * peval(b, t));
            }
            assert(is_division(a, b, output@, a_copy@));
        }
        UPolynomial::from(output)
    }
}

impl vstd::std_specs::ops::DivSpecImpl for UPolynomial {
    /// Division is described by the contract of `div` itself.
    open spec fn obeys_div_spec() -> bool {
        false
    }

    open spec fn div_req(self, rhs: Self) -> bool {
        rhs.coefficients.len() >= 1
    }

    open spec fn div_spec(self, rhs: Self) -> Self {
        self
    }
}

/// The factor interpolation gives point `i`: its value over its
/// denominator, or nothing for a zero value.
pub open spec fn lagrange_scale(ys: Seq<Fp>, invs: Seq<Fp>, i: int) -> int {
    if ys[i].0 == 0 {
        0
    } else {
        canon(ys[i].0 * invs[i].0)
    }
}

/// Value at `t` of the first `i` numerators, each times its factor, summed.
pub open spec fn lagrange_partial(nums: Seq<UPolynomial>, ys: Seq<Fp>, invs: Seq<Fp>, i: nat, t: int) -> int
    decreases i,
{
    if i == 0 {
        0
    } else {
        canon(
            lagrange_partial(nums, ys, invs, (i - 1) as nat, t) + lagrange_scale(ys, invs, i - 1) * peval(
                nums[i - 1].coefficients@,
                t,
            ),
        )
    }
}

/// Cancelling an invertible factor.
proof fn lemma_cancel(a: int, b: int, d: int)
    requires
        canon(a * d) == canon(b * d),
        invertible(d),
    ensures
        canon(a) == canon(b),
{
    let i = choose|i: int| canon(#[trigger] (i * d)) == 1;
    lemma_eqm_mul(a * d, b * d, i);
    lemma_eqm_mul(i * d, 1, a);
    lemma_eqm_mul(i * d, 1, b);
    assert(i * (a * d) == a * (i * d)) by (nonlinear_arith);
    assert(i * (b * d) == b * (i * d)) by (nonlinear_arith);
}

/// A point's factor times its denominator gives back its value.
proof fn lemma_point_value(y: int, inv: int, den: int, s: int)
    requires
        canon(inv * den) == 1,
        y == 0 ==> s == 0,
        y != 0 ==> s == canon(y * inv),
    ensures
        canon(s * den) == canon(y),
{
    lemma_small_mod(0, modulus() as nat);
    if y != 0 {
        lemma_eqm_canon(y * inv);
        lemma_eqm_mul(canon(y * inv), y * inv, den);
        lemma_eqm_mul(inv * den, 1, y);
        assert((y * inv) * den == y * (inv * den)) by (nonlinear_arith);
    } else {
        assert(s * den == 0);
    }
}

/// Lagrange interpolation passes through every point, given the facts its
/// construction establishes.
proof fn lemma_interpolation_round_trip(
    points: Seq<(Fp, Fp)>,
    xs: Seq<Fp>,
    ys: Seq<Fp>,
    nums: Seq<UPolynomial>,
    den: Seq<Fp>,
    invs: Seq<Fp>,
    res: Seq<Fp>,
)
    requires
        pairwise_invertible(points),
        xs.len() == points.len(),
        ys.len() == points.len(),
        nums.len() == points.len(),
        den.len() == points.len(),
        invs.len() == points.len(),
        forall|k: int| 0 <= k < points.len() ==> #[trigger] xs[k] == points[k].0,
        forall|k: int| 0 <= k < points.len() ==> #[trigger] ys[k] == points[k].1,
        forall|k: int, t: int| 0 <= k < points.len() ==> canon(
            #[trigger] peval(nums[k].coefficients@, t) * (t - xs[k].0),
        ) == peval(roots_poly(xs), t),
        forall|k: int| 0 <= k < points.len() ==> congruent(
            (#[trigger] nums[k]).coefficients@,
            roots_poly(xs.remove(k)),
        ),
        forall|k: int| 0 <= k < points.len() ==> (#[trigger] den[k]).0 == peval(nums[k].coefficients@, xs[k].0 as int),
        forall|k: int| 0 <= k < points.len() ==> batch_inverse_at(den, #[trigger] invs[k], k),
        forall|t: int| #[trigger] peval(res, t) == lagrange_partial(nums, ys, invs, points.len(), t),
    ensures
        forall|k: int| 0 <= k < points.len() ==> #[trigger] peval(res, points[k].0.0 as int) == canon(points[k].1.0 as int),
{
    let n = points.len() as int;
    lemma_small_mod(0, modulus() as nat);
    assert forall|i: int| 0 <= i < n implies invertible(#[trigger] den[i].0 as int) by {
        let rm = xs.remove(i);
        let xi = xs[i].0 as int;
        assert forall|j: int| 0 <= j < rm.len() implies invertible(xi - #[trigger] rm[j].0) by {
            if j < i {
                assert(rm[j] == xs[j]);
                assert(invertible(points[i].0.0 - points[j].0.0));
            } else {
                assert(rm[j] == xs[j + 1]);
                assert(invertible(points[i].0.0 - points[j + 1].0.0));
            }
        }
        lemma_roots_value_invertible(rm, xi);
        lemma_peval_congruent(nums[i].coefficients@, roots_poly(rm), xi);
    }
    lemma_prod_invertible(den);
    assert forall|k: int| 0 <= k < n implies #[trigger] peval(res, points[k].0.0 as int) == canon(
        points[k].1.0 as int,
    ) by {
        let xk = xs[k].0 as int;
        assert forall|a: int| 0 <= a < n && a != k implies peval(#[trigger] nums[a].coefficients@, xk) == 0 by {
            lemma_roots_are_zeros(xs, k);
            assert(canon(peval(nums[a].coefficients@, xk) * (xk - xs[a].0)) == 0);
            assert(invertible(points[k].0.0 - points[a].0.0));
            assert(0 * (xk - xs[a].0) == 0);
            lemma_cancel(peval(nums[a].coefficients@, xk), 0, xk - xs[a].0);
            let c = nums[a].coefficients@;
            if c.len() > 0 {
                lemma_eqm_canon(peval(c.drop_last(), xk) * xk + c.last().0);
            }
        }
        assert(invertible(den[k].0 as int));
        if den[k].0 == 0 {
            let w = choose|w: int| canon(#[trigger] (w * den[k].0)) == 1;
            assert(w * 0 == 0);
        }
        assert(batch_inverse_at(den, invs[k], k));
        lemma_lagrange_at(nums, ys, den, invs, k, n as nat, xk);
    }
}

/// A quotient of the root polynomial by one root's factor: times that
/// factor it gives the root polynomial back, and it agrees entrywise with
/// the root polynomial of the other roots.
proof fn lemma_numerator(xs: Seq<Fp>, i: int, q: Seq<Fp>)
    requires
        0 <= i < xs.len(),
        q.len() == xs.len(),
        exists|rem: Seq<Fp>| is_division(roots_poly(xs), seq![Fp(1), fp_neg(xs[i])], q, rem),
    ensures
        forall|t: int| canon(#[trigger] peval(q, t) * (t - xs[i].0)) == peval(roots_poly(xs), t),
        congruent(q, roots_poly(xs.remove(i))),
{
    let x = xs[i];
    let rp = roots_poly(xs);
    lemma_roots_poly_len(xs);
    let rem = choose|rem: Seq<Fp>| is_division(rp, seq![Fp(1), fp_neg(x)], q, rem);
    lemma_roots_are_zeros(xs, i);
    lemma_division_by_root(rp, x, q, rem);
    assert forall|t: int| canon(#[trigger] peval(q, t) * (t - x.0)) == peval(rp, t) by {
        lemma_peval_mul_linear(q, x, t);
    }
    let ri = roots_poly(xs.remove(i));
    lemma_roots_poly_remove(xs, i);
    lemma_roots_poly_len(xs.remove(i));
    assert forall|j: int| 0 <= j < q.len() + 1 implies canon(#[trigger] mul_linear(q, x)[j].0 as int) == canon(
        mul_linear(ri, x)[j].0 as int,
    ) by {
        assert(canon(rp[j].0 as int) == canon(mul_linear(q, x)[j].0 as int));
        assert(canon(rp[j].0 as int) == canon(mul_linear(ri, x)[j].0 as int));
    }
    assert(congruent(mul_linear(q, x), mul_linear(ri, x)));
    assert forall|j: int| 0 <= j < q.len() implies canon(#[trigger] q[j].0 as int) == canon(ri[j].0 as int) by {
        lemma_mul_linear_cancel(q, ri, x, j);
    }
}

/// No two of the points share an abscissa.
pub open spec fn distinct_xs(points: Seq<(Fp, Fp)>) -> bool {
    forall|i: int, j: int| 0 <= i < j < points.len() ==> points[i].0 != points[j].0
}

impl UPolynomial {
    /// Lagrange interpolation through the given points, with the
    /// denominators inverted in one batch. Points with a zero value are
    /// skipped. Repeated abscissas give the empty polynomial. Where the
    /// abscissas differ pairwise by invertible amounts, the result has one
    /// coefficient per point and passes through every point.
    pub fn interpolate(points: Vec<(Fp, Fp)>) -> (r: Self)
        requires
            points.len() < usize::MAX,
        ensures
            !distinct_xs(points@) ==> r.coefficients.len() == 0,
            distinct_xs(points@) ==> r.coefficients.len() == points.len(),
            pairwise_invertible(points@) ==> forall|k: int| 0 <= k < points.len() ==> #[trigger] peval(
                r.coefficients@,
                points@[k].0.0 as int,
            ) == canon(points@[k].1.0 as int),
    {
        let n = points.len();
        let mut xs: Vec<Fp> = Vec::new();
        let mut ys: Vec<Fp> = Vec::new();
        let mut i: usize = 0;
        while i < n
            invariant
                n == points.len(),
                i <= n,
                xs.len() == i,
                ys.len() == i,
                forall|k: int| 0 <= k < i ==> #[trigger] xs@[k] == points@[k].0,
                forall|k: int| 0 <= k < i ==> #[trigger] ys@[k] == points@[k].1,
            decreases n - i,
        {
            let (x, y) = points[i];
            xs.push(x);
            ys.push(y);
            i += 1;
        }

        let mut i: usize = 0;
        while i < n
            invariant
                n == points.len(),
                xs.len() == n,
                i <= n,
                forall|k: int| 0 <= k < n ==> #[trigger] xs@[k] == points@[k].0,
                forall|a: int, b: int| 0 <= a < i && a < b < n ==> points@[a].0 != points@[b].0,
            decreases n - i,
        {
            let mut j: usize = i + 1;
            while j < n
                invariant
                    n == points.len(),
                    xs.len() == n,
                    i < j <= n,
                    forall|k: int| 0 <= k < n ==> #[trigger] xs@[k] == points@[k].0,
                    forall|b: int| i < b < j ==> points@[i as int].0 != #[trigger] points@[b].0,
                decreases n - j,
            {
                if xs[i] == xs[j] {
                    proof {
                        assert forall|c: int| canon(#[trigger] (c * 0int)) != 1 by {
                            lemma_small_mod(0, modulus() as nat);
                        }
                        assert(!invertible(0int));
                        assert(points@[j as int].0.0 - points@[i as int].0.0 == 0);
                    }
                    return UPolynomial::from(Vec::new());
                }
                j += 1;
            }
            i += 1;
        }

        let root = UPolynomial::zero_at_given_x(&xs);
        let ghost rp = root.coefficients@;

        let mut numerators: Vec<UPolynomial> = Vec::new();
        let mut i: usize = 0;
        while i < n
            invariant
                n == xs.len(),
                n == points.len(),
                n < usize::MAX,
                i <= n,
                rp == root.coefficients@,
                rp == roots_poly(xs@),
                root.coefficients.len() == n + 1,
                numerators.len() == i,
                forall|k: int| 0 <= k < i ==> (#[trigger] numerators@[k]).coefficients.len() == n,
                forall|k: int, t: int| 0 <= k < i ==> canon(
                    #[trigger] peval(numerators@[k].coefficients@, t) * (t - xs@[k].0),
                ) == peval(rp, t),
                forall|k: int| 0 <= k < i ==> congruent(
                    (#[trigger] numerators@[k]).coefficients@,
                    roots_poly(xs@.remove(k)),
                ),
            decreases n - i,
        {
            let factor = UPolynomial::from(vec![Fp::one(), Fp::neg(&xs[i])]);
            let q = UPolynomial::from(root.coefficients.clone()) / factor;
            proof {
                let x = xs@[i as int];
                assert(factor.coefficients@ =~= seq![Fp(1), fp_neg(x)]);
                lemma_numerator(xs@, i as int, q.coefficients@);
            }
            numerators.push(q);
            i += 1;
        }

        let mut denominator: Vec<Fp> = Vec::new();
        let mut i: usize = 0;
        while i < n
            invariant
                n == xs.len(),
                i <= n,
                numerators.len() == n,
                denominator.len() == i,
                forall|k: int| 0 <= k < i ==> (#[trigger] denominator@[k]).0 == peval(
                    numerators@[k].coefficients@,
                    xs@[k].0 as int,
                ),
            decreases n - i,
        {
            denominator.push(numerators[i].eval_at(xs[i]));
            i += 1;
        }

        let inv_denominators = Fp::multi_inv(&denominator);

        let mut b: Vec<Fp> = Vec::new();
        let mut j: usize = 0;
        while j < n
            invariant
                j <= n,
                b.len() == j,
                forall|k: int| 0 <= k < j ==> #[trigger] b@[k] == Fp(0),
            decreases n - j,
        {
            b.push(Fp::zero());
            j += 1;
        }
        proof {
            assert forall|t: int| #[trigger] peval(b@, t) == lagrange_partial(
                numerators@,
                ys@,
                inv_denominators@,
                0,
                t,
            ) by {
                lemma_small_mod(0, modulus() as nat);
                lemma_peval_zeros(b@, t);
            }
        }
        let mut i: usize = 0;
        while i < n
            invariant
                n == xs.len(),
                n == ys.len(),
                i <= n,
                numerators.len() == n,
                inv_denominators.len() == n,
                b.len() == n,
                forall|k: int| 0 <= k < n ==> (#[trigger] numerators@[k]).coefficients.len() == n,
                forall|t: int| #[trigger] peval(b@, t) == lagrange_partial(
                    numerators@,
                    ys@,
                    inv_denominators@,
                    i as nat,
                    t,
                ),
            decreases n - i,
        {
            let ghost oldb = b@;
            let ghost num = numerators@[i as int].coefficients@;
            if ys[i] != Fp::zero() {
                let y_slice = ys[i] * inv_denominators[i];
                let mut j: usize = 0;
                while j < n
                    invariant
                        n == numerators@[i as int].coefficients.len(),
                        num == numerators@[i as int].coefficients@,
                        i < numerators.len(),
                        b.len() == n,
                        oldb.len() == n,
                        j <= n,
                        forall|k: int| j <= k < n ==> #[trigger] b@[k] == oldb[k],
                        forall|k: int| 0 <= k < j ==> canon(#[trigger] b@[k].0 as int) == canon(
                            oldb[k].0 - (-(y_slice.0 as int)) * num[k].0,
                        ),
                    decreases n - j,
                {
                    let next = b[j] + numerators[i].coefficients[j] * y_slice;
                    proof {
                        let bj = oldb[j as int].0 as int;
                        let nj = num[j as int].0 as int;
                        lemma_canon_add(bj, nj * y_slice.0);
                        lemma_eqm_canon(bj + canon(nj * y_slice.0));
                        assert(bj - (-(y_slice.0 as int)) * nj == bj + nj * y_slice.0) by (nonlinear_arith);
                    }
                    b.set(j, next);
                    j += 1;
                }
                proof {
                    assert forall|t: int| #[trigger] peval(b@, t) == lagrange_partial(
                        numerators@,
                        ys@,
                        inv_denominators@,
                        (i + 1) as nat,
                        t,
                    ) by {
                        lemma_peval_sub_scaled(oldb, b@, num, -(y_slice.0 as int), t);
                        assert(peval(oldb, t) - (-(y_slice.0 as int)) * peval(num, t) == peval(oldb, t)
                            + y_slice.0 * peval(num, t)) by (nonlinear_arith);
                    }
                }
            } else {
                proof {
                    assert forall|t: int| #[trigger] peval(b@, t) == lagrange_partial(
                        numerators@,
                        ys@,
                        inv_denominators@,
                        (i + 1) as nat,
                        t,
                    ) by {
                        let pp = lagrange_partial(numerators@, ys@, inv_denominators@, i as nat, t);
                        assert(0 * peval(num, t) == 0);
                        lemma_eqm_canon(peval(oldb, t));
                        if oldb.len() == 0 {
                            lemma_small_mod(0, modulus() as nat);
                        } else {
                            lemma_eqm_canon(peval(oldb.drop_last(), t) * t + oldb.last().0);
                        }
                        assert(pp + 0 == pp);
                    }
                }
            }
            i += 1;
        }

        proof {
            if pairwise_invertible(points@) {
                assert forall|k: int| 0 <= k < n implies batch_inverse_at(
                    denominator@,
                    #[trigger] inv_denominators@[k],
                    k,
                ) by {}
                lemma_interpolation_round_trip(
                    points@,
                    xs@,
                    ys@,
                    numerators@,
                    denominator@,
                    inv_denominators@,
                    b@,
                );
            }
        }

        UPolynomial::from(b)
    }
}

} // verus!
