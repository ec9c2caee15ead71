//! Dense univariate polynomials over the field: Horner evaluation,
//! coefficient-wise addition with degree promotion, convolution
//! multiplication, and Lagrange interpolation, the form every sum-check
//! round message takes.

use vstd::prelude::*;
use crate::field::{Fq, P, fadd, fsub, fmul};
use crate::error::Error;
use crate::mle::{table_view, table_ok};

verus! {

/// Horner evaluation of a coefficient sequence at `x`, constant term first.
pub open spec fn poly_eval(c: Seq<int>, x: int) -> int
    decreases c.len(),
{
    if c.len() == 0 {
        0
    } else {
        fadd(c[0], fmul(x, poly_eval(c.drop_first(), x)))
    }
}

/// The entry of a coefficient sequence, zero beyond its end.
pub open spec fn coef_at(c: Seq<int>, i: int) -> int {
    if 0 <= i < c.len() {
        c[i]
    } else {
        0
    }
}

/// Coefficient-wise field addition, the shorter sequence padded with zeros.
pub open spec fn poly_add_spec(a: Seq<int>, b: Seq<int>) -> Seq<int> {
    Seq::new(
        if a.len() >= b.len() {
            a.len()
        } else {
            b.len()
        },
        |i: int| fadd(coef_at(a, i), coef_at(b, i)),
    )
}

/// Every coefficient multiplied by one field value.
pub open spec fn poly_scale_spec(c: Seq<int>, s: int) -> Seq<int> {
    Seq::new(c.len(), |i: int| fmul(c[i], s))
}

/// Product of two coefficient sequences, written as the first argument's
/// constant term scaling the second plus the rest shifted one degree up.
pub open spec fn poly_mul_spec(a: Seq<int>, b: Seq<int>) -> Seq<int>
    decreases a.len(),
{
    if a.len() == 0 {
        Seq::empty()
    } else {
        poly_add_spec(poly_scale_spec(b, a[0]), seq![0int] + poly_mul_spec(a.drop_first(), b))
    }
}

/// Whether all values of a sequence are pairwise different.
pub open spec fn distinct_vals(s: Seq<int>) -> bool {
    forall|i: int, j: int| 0 <= i < j < s.len() ==> s[i] != s[j]
}

/// Evaluating a coefficient-wise sum evaluates each summand.
#[verifier::rlimit(100)]
#[verifier::spinoff_prover]
pub proof fn lemma_poly_eval_add(a: Seq<int>, b: Seq<int>, x: int)
    ensures
        poly_eval(poly_add_spec(a, b), x) == fadd(poly_eval(a, x), poly_eval(b, x)),
    decreases a.len() + b.len(),
{
    let p = P as int;
    let s = poly_add_spec(a, b);
    if a.len() == 0 && b.len() == 0 {
        vstd::arithmetic::div_mod::lemma_small_mod(0nat, P as nat);
    } else {
        let a1 = a.drop_first();
        let b1 = b.drop_first();
        let ra = if a.len() == 0 { a } else { a1 };
        let rb = if b.len() == 0 { b } else { b1 };
        assert(s.drop_first() =~= poly_add_spec(ra, rb));
        lemma_poly_eval_add(ra, rb, x);
        let ea = poly_eval(ra, x);
        let eb = poly_eval(rb, x);
        let a0 = coef_at(a, 0);
        let b0 = coef_at(b, 0);
        if a.len() == 0 {
            assert(poly_eval(a, x) == 0);
            assert(ea == 0);
        }
        if b.len() == 0 {
            assert(poly_eval(b, x) == 0);
            assert(eb == 0);
        }
        // both sides reduce to (a0 + b0 + x * (ea + eb)) % P
        assert(poly_eval(s, x) == fadd(fadd(a0, b0), fmul(x, fadd(ea, eb))));
        vstd::arithmetic::div_mod::lemma_mul_mod_noop_right(x, ea + eb, p);
        assert(fmul(x, fadd(ea, eb)) == (x * (ea + eb)) % p);
        vstd::arithmetic::div_mod::lemma_add_mod_noop(a0 + b0, x * (ea + eb), p);
        assert(poly_eval(s, x) == (a0 + b0 + x * (ea + eb)) % p) by {
            assert(((a0 + b0) % p + (x * (ea + eb)) % p) % p == ((a0 + b0) + x * (ea + eb)) % p);
        };
        assert(x * (ea + eb) == x * ea + x * eb) by (nonlinear_arith);
        // the right-hand side
        let la = poly_eval(a, x);
        let lb = poly_eval(b, x);
        if a.len() > 0 {
            vstd::arithmetic::div_mod::lemma_mul_mod_noop_right(x, ea, p);
            vstd::arithmetic::div_mod::lemma_add_mod_noop(a0, x * ea, p);
            vstd::arithmetic::div_mod::lemma_small_mod(
                (poly_eval(a1, x) % p) as nat,
                P as nat,
            );
            assert(la == (a0 + x * ea) % p) by {
                assert((a0 % p + (x * ea) % p) % p == (a0 + x * ea) % p);
                vstd::arithmetic::div_mod::lemma_mod_twice(a0, p);
            };
        } else {
            vstd::arithmetic::div_mod::lemma_small_mod(0nat, P as nat);
            assert(la == (a0 + x * ea) % p);
        }
        if b.len() > 0 {
            vstd::arithmetic::div_mod::lemma_mul_mod_noop_right(x, eb, p);
            vstd::arithmetic::div_mod::lemma_add_mod_noop(b0, x * eb, p);
            assert(lb == (b0 + x * eb) % p) by {
                assert((b0 % p + (x * eb) % p) % p == (b0 + x * eb) % p);
                vstd::arithmetic::div_mod::lemma_mod_twice(b0, p);
            };
        } else {
            vstd::arithmetic::div_mod::lemma_small_mod(0nat, P as nat);
            assert(lb == (b0 + x * eb) % p);
        }
        vstd::arithmetic::div_mod::lemma_add_mod_noop(a0 + x * ea, b0 + x * eb, p);
        assert(fadd(la, lb) == ((a0 + x * ea) + (b0 + x * eb)) % p);
    }
}

/// Evaluating a scaled polynomial scales the evaluation.
pub proof fn lemma_poly_eval_scale(c: Seq<int>, s: int, x: int)
    ensures
        poly_eval(poly_scale_spec(c, s), x) == fmul(poly_eval(c, x), s),
    decreases c.len(),
{
    let p = P as int;
    if c.len() == 0 {
        assert(0 * s == 0) by (nonlinear_arith);
        vstd::arithmetic::div_mod::lemma_small_mod(0nat, P as nat);
    } else {
        let c1 = c.drop_first();
        assert(poly_scale_spec(c, s).drop_first() =~= poly_scale_spec(c1, s));
        lemma_poly_eval_scale(c1, s, x);
        let e1 = poly_eval(c1, x);
        let c0 = c[0];
        // left side: ((c0*s)%p + (x*((e1*s)%p))%p)%p == (c0*s + x*(e1*s)) % p
        vstd::arithmetic::div_mod::lemma_mul_mod_noop_right(x, e1 * s, p);
        vstd::arithmetic::div_mod::lemma_add_mod_noop(c0 * s, x * (e1 * s), p);
        assert(poly_eval(poly_scale_spec(c, s), x) == (c0 * s + x * (e1 * s)) % p) by {
            assert(((c0 * s) % p + (x * (e1 * s)) % p) % p == ((c0 * s) + x * (e1 * s)) % p);
        };
        // right side: (((c0 + x*e1)%p)*s)%p == ((c0 + x*e1)*s)%p
        vstd::arithmetic::div_mod::lemma_mul_mod_noop_right(x, e1, p);
        vstd::arithmetic::div_mod::lemma_add_mod_noop(c0, x * e1, p);
        assert(poly_eval(c, x) == (c0 + x * e1) % p) by {
            assert((c0 % p + (x * e1) % p) % p == (c0 + x * e1) % p);
            vstd::arithmetic::div_mod::lemma_mod_twice(c0, p);
        };
        vstd::arithmetic::div_mod::lemma_mul_mod_noop_left(c0 + x * e1, s, p);
        assert((c0 + x * e1) * s == c0 * s + x * (e1 * s)) by (nonlinear_arith);
    }
}

/// Evaluating a product of polynomials multiplies the evaluations.
#[verifier::rlimit(100)]
#[verifier::spinoff_prover]
pub proof fn lemma_poly_eval_mul(a: Seq<int>, b: Seq<int>, x: int)
    ensures
        poly_eval(poly_mul_spec(a, b), x) == fmul(poly_eval(a, x), poly_eval(b, x)),
    decreases a.len(),
{
    let p = P as int;
    if a.len() == 0 {
        assert(0 * poly_eval(b, x) == 0) by (nonlinear_arith);
        vstd::arithmetic::div_mod::lemma_small_mod(0nat, P as nat);
    } else {
        let a1 = a.drop_first();
        lemma_poly_eval_mul(a1, b, x);
        let em = poly_eval(poly_mul_spec(a1, b), x);
        let shifted = seq![0int] + poly_mul_spec(a1, b);
        assert(shifted.drop_first() =~= poly_mul_spec(a1, b));
        assert(shifted[0] == 0);
        // eval(shifted) == fmul(x, em)
        assert(poly_eval(shifted, x) == fadd(0, fmul(x, em)));
        vstd::arithmetic::div_mod::lemma_mod_twice(x * em, p);
        assert(fadd(0, fmul(x, em)) == fmul(x, em));
        lemma_poly_eval_add(poly_scale_spec(b, a[0]), shifted, x);
        lemma_poly_eval_scale(b, a[0], x);
        let eb = poly_eval(b, x);
        let ea1 = poly_eval(a1, x);
        // left side == (eb*a0 + x*(ea1*eb)) % p
        assert(poly_eval(poly_mul_spec(a, b), x) == fadd(fmul(eb, a[0]), fmul(x, em)));
        assert(em == fmul(ea1, eb));
        vstd::arithmetic::div_mod::lemma_mul_mod_noop_right(x, ea1 * eb, p);
        vstd::arithmetic::div_mod::lemma_add_mod_noop(eb * a[0], x * (ea1 * eb), p);
        assert(poly_eval(poly_mul_spec(a, b), x) == (eb * a[0] + x * (ea1 * eb)) % p) by {
            assert(((eb * a[0]) % p + (x * (ea1 * eb)) % p) % p == (eb * a[0] + x * (ea1 * eb))
                % p);
        };
        // right side == ((a0 + x*ea1) * eb) % p, the same number
        vstd::arithmetic::div_mod::lemma_mul_mod_noop_right(x, ea1, p);
        vstd::arithmetic::div_mod::lemma_add_mod_noop(a[0], x * ea1, p);
        assert(poly_eval(a, x) == (a[0] + x * ea1) % p) by {
            assert((a[0] % p + (x * ea1) % p) % p == (a[0] + x * ea1) % p);
            vstd::arithmetic::div_mod::lemma_mod_twice(a[0], p);
        };
        vstd::arithmetic::div_mod::lemma_mul_mod_noop_left(a[0] + x * ea1, eb, p);
        assert((a[0] + x * ea1) * eb == eb * a[0] + x * (ea1 * eb)) by (nonlinear_arith);
    }
}

/// A dense univariate polynomial, constant coefficient first.
#[derive(Debug, Clone, PartialEq)]
pub struct Univariatepoly {
    pub coef: Vec<Fq>,
}

impl Univariatepoly {
    /// The integer coefficient sequence this polynomial stands for.
    pub open spec fn coefs(self) -> Seq<int> {
        table_view(self.coef@)
    }

    pub fn new(coef: Vec<Fq>) -> (r: Self)
        ensures
            r.coef@ == coef@,
    {
        Univariatepoly { coef }
    }

    /// The degree bound read off the coefficient count.
    pub fn degree(&self) -> (r: usize)
        requires
            self.coef@.len() >= 1,
        ensures
            r == self.coef@.len() - 1,
    {
        self.coef.len() - 1
    }

    /// Horner evaluation at `x`; an empty coefficient list evaluates to
    /// zero.
    #[verifier::rlimit(100)]
    #[verifier::spinoff_prover]
    pub fn evaluate(&self, x: Fq) -> (r: Fq)
        ensures
            r.as_int() == poly_eval(self.coefs(), x.as_int()),
    {
        let mut acc = Fq::zero();
        let mut i = self.coef.len();
        while i > 0
            invariant
                i <= self.coef@.len(),
                acc.as_int() == poly_eval(self.coefs().skip(i as int), x.as_int()),
            decreases i,
        {
            i = i - 1;
            let c = self.coef[i];
            acc = acc.mul(x).add(c);
            proof {
                let cs = self.coefs();
                assert(cs.skip(i as int).drop_first() =~= cs.skip(i as int + 1));
                assert(cs.skip(i as int)[0] == cs[i as int]);
            }
        }
        proof {
            assert(self.coefs().skip(0) =~= self.coefs());
        }
        acc
    }

    /// Coefficient-wise sum, the longer argument setting the length.
    pub fn add(&self, rhs: &Univariatepoly) -> (r: Univariatepoly)
        ensures
            r.coefs() == poly_add_spec(self.coefs(), rhs.coefs()),
            r.coef@.len() == if self.coef@.len() >= rhs.coef@.len() {
                self.coef@.len()
            } else {
                rhs.coef@.len()
            },
    {
        let alen = self.coef.len();
        let blen = rhs.coef.len();
        let n = if alen >= blen {
            alen
        } else {
            blen
        };
        let mut out: Vec<Fq> = Vec::new();
        let mut i: usize = 0;
        while i < n
            invariant
                i <= n,
                alen == self.coef@.len(),
                blen == rhs.coef@.len(),
                n == if alen >= blen {
                    alen
                } else {
                    blen
                },
                out@.len() == i,
                forall|k: int|
                    0 <= k < i ==> #[trigger] out@[k].as_int() == fadd(
                        coef_at(self.coefs(), k),
                        coef_at(rhs.coefs(), k),
                    ),
            decreases n - i,
        {
            let a = if i < alen {
                self.coef[i]
            } else {
                Fq::zero()
            };
            let b = if i < blen {
                rhs.coef[i]
            } else {
                Fq::zero()
            };
            out.push(a.add(b));
            i += 1;
        }
        let r = Univariatepoly { coef: out };
        proof {
            assert(r.coefs() =~= poly_add_spec(self.coefs(), rhs.coefs()));
        }
        r
    }

    /// Every coefficient multiplied by `scalar`.
    pub fn scalar_mul(&self, scalar: Fq) -> (r: Univariatepoly)
        ensures
            r.coefs() == poly_scale_spec(self.coefs(), scalar.as_int()),
            r.coef@.len() == self.coef@.len(),
    {
        let mut out: Vec<Fq> = Vec::new();
        let mut i: usize = 0;
        while i < self.coef.len()
            invariant
                i <= self.coef@.len(),
                out@.len() == i,
                forall|k: int|
                    0 <= k < i ==> #[trigger] out@[k].as_int() == fmul(
                        self.coefs()[k],
                        scalar.as_int(),
                    ),
            decreases self.coef@.len() - i,
        {
            let c = self.coef[i];
            out.push(c.mul(scalar));
            i += 1;
        }
        let r = Univariatepoly { coef: out };
        proof {
            assert(r.coefs() =~= poly_scale_spec(self.coefs(), scalar.as_int()));
        }
        r
    }

    /// Full convolution product.
    pub fn mul(&self, rhs: &Univariatepoly) -> (r: Univariatepoly)
        requires
            self.coef@.len() >= 1,
            rhs.coef@.len() >= 1,
        ensures
            r.coefs() == poly_mul_spec(self.coefs(), rhs.coefs()),
            r.coef@.len() == self.coef@.len() + rhs.coef@.len() - 1,
    {
        let alen = self.coef.len();
        let mut acc = Univariatepoly { coef: Vec::new() };
        proof {
            assert(acc.coefs() =~= Seq::<int>::empty());
            assert(self.coefs().skip(alen as int) =~= Seq::<int>::empty());
        }
        let mut i = alen;
        while i > 0
            invariant
                i <= alen,
                alen == self.coef@.len(),
                rhs.coef@.len() >= 1,
                acc.coefs() == poly_mul_spec(self.coefs().skip(i as int), rhs.coefs()),
                i < alen ==> acc.coef@.len() == alen - i + rhs.coef@.len() - 1,
                i == alen ==> acc.coef@.len() == 0,
            decreases i,
        {
            i = i - 1;
            let ai = self.coef[i];
            let scaled = rhs.scalar_mul(ai);
            let mut shifted: Vec<Fq> = Vec::new();
            shifted.push(Fq::zero());
            let mut j: usize = 0;
            while j < acc.coef.len()
                invariant
                    j <= acc.coef@.len(),
                    shifted@.len() == j + 1,
                    shifted@[0].as_int() == 0,
                    forall|k: int|
                        1 <= k < j + 1 ==> #[trigger] shifted@[k] == acc.coef@[k - 1],
                decreases acc.coef@.len() - j,
            {
                let c = acc.coef[j];
                shifted.push(c);
                j += 1;
            }
            let shifted_poly = Univariatepoly { coef: shifted };
            proof {
                assert(shifted_poly.coefs() =~= seq![0int] + acc.coefs());
            }
            let next = scaled.add(&shifted_poly);
            proof {
                let cs = self.coefs();
                assert(cs.skip(i as int).drop_first() =~= cs.skip(i as int + 1));
                assert(cs.skip(i as int)[0] == cs[i as int]);
                assert(next.coefs() == poly_mul_spec(cs.skip(i as int), rhs.coefs()));
            }
            acc = next;
        }
        proof {
            assert(self.coefs().skip(0) =~= self.coefs());
        }
        acc
    }

    /// The Lagrange basis polynomial for `x` against the sample set: the
    /// product of `(X - x_j)` over the set values different from `x`,
    /// scaled by the product of those factors' inverses at `x`.  It takes
    /// the value 1 at `x` and 0 at every other value of the set.  Every
    /// factor is a nonzero difference, so with the modulus checked prime
    /// each inverse exists and the construction always succeeds.
    pub fn basis(x: &Fq, interpolating_set: &Vec<Fq>) -> (r: Result<Univariatepoly, Error>)
        ensures
            r is Ok <==> crate::field::is_prime(P as nat),
            r matches Err(e) ==> e == Error::NonInvertible,
            r matches Ok(b) ==> {
                &&& b.coef@.len() >= 1
                &&& b.coef@.len() <= interpolating_set@.len() + 1
                &&& (exists|t: int|
                    0 <= t < interpolating_set@.len() && (
                    #[trigger] interpolating_set@[t]).as_int() == x.as_int())
                    ==> b.coef@.len() <= interpolating_set@.len()
                &&& poly_eval(b.coefs(), x.as_int()) == 1
                &&& forall|t: int|
                    0 <= t < interpolating_set@.len()
                        && (#[trigger] interpolating_set@[t]).as_int() != x.as_int() ==> poly_eval(
                        b.coefs(),
                        interpolating_set@[t].as_int(),
                    ) == 0
            },
    {
        if !crate::field::modulus_is_prime() {
            return Err(Error::NonInvertible);
        }
        let one = Fq::one();
        let mut numerator = Univariatepoly { coef: vec![one] };
        let mut ip = one;
        proof {
            assert(numerator.coefs() =~= seq![1int]);
            assert(seq![1int].drop_first() =~= Seq::<int>::empty());
            assert(poly_eval(Seq::<int>::empty(), x.as_int()) == 0);
            assert(x.as_int() * 0 == 0) by (nonlinear_arith);
            vstd::arithmetic::div_mod::lemma_small_mod(0nat, P as nat);
            vstd::arithmetic::div_mod::lemma_small_mod(1nat, P as nat);
            assert(poly_eval(numerator.coefs(), x.as_int()) == 1);
            assert(fmul(1, 1) == 1);
        }
        let mut j: usize = 0;
        while j < interpolating_set.len()
            invariant
                j <= interpolating_set@.len(),
                crate::field::is_prime(P as nat),
                numerator.coef@.len() >= 1,
                numerator.coef@.len() <= j + 1,
                (exists|t: int|
                    0 <= t < j && (#[trigger] interpolating_set@[t]).as_int() == x.as_int())
                    ==> numerator.coef@.len() <= j,
                fmul(poly_eval(numerator.coefs(), x.as_int()), ip.as_int()) == 1,
                forall|t: int|
                    0 <= t < j && (#[trigger] interpolating_set@[t]).as_int() != x.as_int()
                        ==> poly_eval(
                        numerator.coefs(),
                        interpolating_set@[t].as_int(),
                    ) == 0,
            decreases interpolating_set@.len() - j,
        {
            let xj = interpolating_set[j];
            if !(xj == *x) {
                let factor = x.sub(xj);
                let xiu = x.as_u64();
                let xju = xj.as_u64();
                proof {
                    Fq::lemma_eq(xj, *x);
                    let xi = x.as_int();
                    let xjv = xj.as_int();
                    if xi > xjv {
                        vstd::arithmetic::div_mod::lemma_small_mod((xi - xjv) as nat, P as nat);
                    } else {
                        vstd::arithmetic::div_mod::lemma_mod_add_multiples_vanish(
                            xi - xjv,
                            P as int,
                        );
                        vstd::arithmetic::div_mod::lemma_small_mod(
                            (xi - xjv + P) as nat,
                            P as nat,
                        );
                    }
                    assert(1 <= factor.as_int() < P);
                    crate::field::lemma_prime_gcd(factor.as_int() as nat);
                }
                let finv = match factor.inverse() {
                    Some(v) => v,
                    None => {
                        proof {
                            assert(false);
                        }
                        return Err(Error::NonInvertible);
                    },
                };
                let lin_poly = Univariatepoly { coef: vec![Fq::zero().sub(xj), Fq::one()] };
                proof {
                    lemma_eval_linear(xj.as_int());
                    assert(lin_poly.coefs() =~= linear_coefs(xj.as_int()));
                }
                let next = numerator.mul(&lin_poly);
                proof {
                    // the running value-inverse pairing stays balanced
                    lemma_poly_eval_mul(numerator.coefs(), lin_poly.coefs(), x.as_int());
                    assert(poly_eval(lin_poly.coefs(), x.as_int()) == factor.as_int());
                    crate::field::lemma_fmul_shuffle(
                        poly_eval(numerator.coefs(), x.as_int()),
                        factor.as_int(),
                        ip.as_int(),
                        finv.as_int(),
                    );
                    vstd::arithmetic::div_mod::lemma_small_mod(1nat, P as nat);
                    assert forall|t: int|
                        0 <= t < j + 1 && (#[trigger] interpolating_set@[t]).as_int()
                            != x.as_int() implies poly_eval(
                        next.coefs(),
                        interpolating_set@[t].as_int(),
                    ) == 0 by {
                        let xt = interpolating_set@[t].as_int();
                        lemma_poly_eval_mul(numerator.coefs(), lin_poly.coefs(), xt);
                        if t < j {
                            assert(0 * poly_eval(lin_poly.coefs(), xt) == 0) by (nonlinear_arith);
                            vstd::arithmetic::div_mod::lemma_small_mod(0nat, P as nat);
                        } else {
                            Fq::lemma_eq(interpolating_set@[t], xj);
                            assert(poly_eval(lin_poly.coefs(), xt) == fsub(xt, xj.as_int()));
                            vstd::arithmetic::div_mod::lemma_small_mod(0nat, P as nat);
                            assert(fsub(xt, xj.as_int()) == 0);
                            assert(poly_eval(numerator.coefs(), xt) * 0 == 0) by (nonlinear_arith);
                        }
                    }
                }
                numerator = next;
                ip = ip.mul(finv);
            } else {
                proof {
                    Fq::lemma_eq(xj, *x);
                }
            }
            j += 1;
        }
        let scaled = numerator.scalar_mul(ip);
        proof {
            lemma_poly_eval_scale(numerator.coefs(), ip.as_int(), x.as_int());
            assert(poly_eval(scaled.coefs(), x.as_int()) == 1);
            assert forall|t: int|
                0 <= t < interpolating_set@.len() && (#[trigger] interpolating_set@[t]).as_int()
                    != x.as_int() implies poly_eval(
                scaled.coefs(),
                interpolating_set@[t].as_int(),
            ) == 0 by {
                let xt = interpolating_set@[t].as_int();
                lemma_poly_eval_scale(numerator.coefs(), ip.as_int(), xt);
                assert(0 * ip.as_int() == 0) by (nonlinear_arith);
                vstd::arithmetic::div_mod::lemma_small_mod(0nat, P as nat);
            }
        }
        Ok(scaled)
    }

    /// Lagrange interpolation: the polynomial of degree below the sample
    /// count that passes through every `(xs[i], ys[i])`.  It succeeds
    /// exactly when the shape is right and the modulus checks prime, and
    /// with pairwise distinct sample points, evaluating the result at
    /// `xs[i]` returns `ys[i]` for every `i`.
    pub fn interpolate(xs: Vec<Fq>, ys: Vec<Fq>) -> (r: Result<Univariatepoly, Error>)
        requires
            table_ok(table_view(ys@)),
        ensures
            r is Ok <==> xs@.len() == ys@.len() && xs@.len() >= 1 && crate::field::is_prime(
                P as nat,
            ),
            r == Err::<Univariatepoly, Error>(Error::LengthMismatch) <==> xs@.len() != ys@.len(),
            r == Err::<Univariatepoly, Error>(Error::InterpolationUnderspecified) <==> xs@.len()
                == ys@.len() && xs@.len() == 0,
            r == Err::<Univariatepoly, Error>(Error::NonInvertible) <==> xs@.len() == ys@.len()
                && xs@.len() >= 1 && !crate::field::is_prime(P as nat),
            r matches Ok(poly) ==> poly.coef@.len() <= xs@.len(),
            r matches Ok(poly) ==> distinct_vals(table_view(xs@)) ==> forall|i: int|
                0 <= i < xs@.len() ==> poly_eval(poly.coefs(), #[trigger] xs@[i].as_int())
                    == ys@[i].as_int(),
    {
        if xs.len() != ys.len() {
            return Err(Error::LengthMismatch);
        }
        if xs.len() == 0 {
            return Err(Error::InterpolationUnderspecified);
        }
        let k = xs.len();
        let mut acc = Univariatepoly { coef: vec![Fq::zero()] };
        proof {
            assert(acc.coefs() =~= seq![0int]);
            assert forall|t: int| 0 <= t < k implies poly_eval(
                acc.coefs(),
                #[trigger] xs@[t].as_int(),
            ) == 0 by {
                let xt = xs@[t].as_int();
                assert(seq![0int].drop_first() =~= Seq::<int>::empty());
                assert(poly_eval(Seq::<int>::empty(), xt) == 0);
                assert(xt * 0 == 0) by (nonlinear_arith);
                vstd::arithmetic::div_mod::lemma_small_mod(0nat, P as nat);
            }
        }
        let mut i: usize = 0;
        while i < k
            invariant
                i <= k,
                k >= 1,
                k == xs@.len(),
                k == ys@.len(),
                table_ok(table_view(ys@)),
                acc.coef@.len() >= 1,
                acc.coef@.len() <= k,
                i > 0 ==> crate::field::is_prime(P as nat),
                distinct_vals(table_view(xs@)) ==> forall|t: int|
                    0 <= t < k ==> poly_eval(acc.coefs(), #[trigger] xs@[t].as_int()) == (if t
                        < i {
                        ys@[t].as_int()
                    } else {
                        0int
                    }),
            decreases k - i,
        {
            let xi = xs[i];
            let yi = ys[i];
            let li = match Self::basis(&xi, &xs) {
                Ok(b) => b,
                Err(_) => {
                    return Err(Error::NonInvertible);
                },
            };
            proof {
                // the set holds the sample value itself, so the basis stays
                // one coefficient below the sample count
                assert(xs@[i as int].as_int() == xi.as_int());
                assert(li.coef@.len() <= xs@.len());
            }
            let term = li.scalar_mul(yi);
            let next = acc.add(&term);
            proof {
                if distinct_vals(table_view(xs@)) {
                    assert forall|t: int| 0 <= t < k implies poly_eval(
                        next.coefs(),
                        #[trigger] xs@[t].as_int(),
                    ) == (if t < i + 1 {
                        ys@[t].as_int()
                    } else {
                        0int
                    }) by {
                        let xt = xs@[t].as_int();
                        lemma_poly_eval_add(acc.coefs(), term.coefs(), xt);
                        lemma_poly_eval_scale(li.coefs(), yi.as_int(), xt);
                        assert(yi.as_int() == table_view(ys@)[i as int]);
                        if t == i {
                            // the basis takes value 1 here
                            assert(poly_eval(term.coefs(), xt) == fmul(1, yi.as_int()));
                            vstd::arithmetic::div_mod::lemma_small_mod(
                                yi.as_int() as nat,
                                P as nat,
                            );
                            assert(1 * yi.as_int() == yi.as_int()) by (nonlinear_arith);
                            assert(fmul(1, yi.as_int()) == yi.as_int());
                            assert(fadd(0, yi.as_int()) == yi.as_int());
                        } else {
                            // the basis vanishes here, since xs[t] != xs[i]
                            assert(table_view(xs@)[t] == xt);
                            assert(table_view(xs@)[i as int] == xi.as_int());
                            assert(xt != xi.as_int());
                            assert(poly_eval(li.coefs(), xt) == 0);
                            assert(0 * yi.as_int() == 0) by (nonlinear_arith);
                            vstd::arithmetic::div_mod::lemma_small_mod(0nat, P as nat);
                            assert(poly_eval(term.coefs(), xt) == 0);
                            if t < i {
                                assert(ys@[t].as_int() == table_view(ys@)[t]);
                                vstd::arithmetic::div_mod::lemma_small_mod(
                                    ys@[t].as_int() as nat,
                                    P as nat,
                                );
                            }
                        }
                    }
                }
            }
            acc = next;
            i += 1;
        }
        Ok(acc)
    }

    /// The polynomial sum of a list, zero for an empty list.
    pub fn sum(polys: Vec<Univariatepoly>) -> (r: Univariatepoly)
        ensures
            r.coefs() == poly_sum_spec(polys@.map_values(|q: Univariatepoly| q.coefs())),
    {
        let mut acc = Univariatepoly { coef: vec![Fq::zero()] };
        proof {
            assert(acc.coefs() =~= seq![0int]);
        }
        let mut i: usize = 0;
        let views = Ghost(polys@.map_values(|q: Univariatepoly| q.coefs()));
        while i < polys.len()
            invariant
                i <= polys@.len(),
                views@ == polys@.map_values(|q: Univariatepoly| q.coefs()),
                acc.coefs() == poly_sum_spec(views@.take(i as int)),
            decreases polys@.len() - i,
        {
            let next = acc.add(&polys[i]);
            proof {
                assert(views@.take(i as int + 1).drop_last() =~= views@.take(i as int));
                assert(views@.take(i as int + 1).last() == views@[i as int]);
            }
            acc = next;
            i += 1;
        }
        proof {
            assert(views@.take(polys@.len() as int) =~= views@);
        }
        acc
    }

    /// The polynomial product of a list of non-empty polynomials, one for
    /// an empty list.
    pub fn product(polys: Vec<Univariatepoly>) -> (r: Univariatepoly)
        requires
            forall|i: int| 0 <= i < polys@.len() ==> (#[trigger] polys@[i]).coef@.len() >= 1,
        ensures
            r.coefs() == poly_prod_spec(polys@.map_values(|q: Univariatepoly| q.coefs())),
            r.coef@.len() >= 1,
    {
        let mut acc = Univariatepoly { coef: vec![Fq::one()] };
        proof {
            assert(acc.coefs() =~= seq![1int]);
        }
        let mut i: usize = 0;
        let views = Ghost(polys@.map_values(|q: Univariatepoly| q.coefs()));
        while i < polys.len()
            invariant
                i <= polys@.len(),
                views@ == polys@.map_values(|q: Univariatepoly| q.coefs()),
                forall|k: int| 0 <= k < polys@.len() ==> (#[trigger] polys@[k]).coef@.len() >= 1,
                acc.coefs() == poly_prod_spec(views@.take(i as int)),
                acc.coef@.len() >= 1,
            decreases polys@.len() - i,
        {
            let next = acc.mul(&polys[i]);
            proof {
                assert(views@.take(i as int + 1).drop_last() =~= views@.take(i as int));
                assert(views@.take(i as int + 1).last() == views@[i as int]);
            }
            acc = next;
            i += 1;
        }
        proof {
            assert(views@.take(polys@.len() as int) =~= views@);
        }
        acc
    }
}

/// Left-to-right sum of a list of coefficient sequences, starting from the
/// zero polynomial.
pub open spec fn poly_sum_spec(l: Seq<Seq<int>>) -> Seq<int>
    decreases l.len(),
{
    if l.len() == 0 {
        seq![0int]
    } else {
        poly_add_spec(poly_sum_spec(l.drop_last()), l.last())
    }
}

/// Left-to-right product of a list of coefficient sequences, starting from
/// the unit polynomial.
pub open spec fn poly_prod_spec(l: Seq<Seq<int>>) -> Seq<int>
    decreases l.len(),
{
    if l.len() == 0 {
        seq![1int]
    } else {
        poly_mul_spec(poly_prod_spec(l.drop_last()), l.last())
    }
}

/// The linear polynomial `X - c` evaluates to the field difference.
proof fn lemma_eval_linear(c: int)
    ensures
        forall|x: int| poly_eval(#[trigger] linear_coefs(c), x) == fsub(x, c),
{
    let p = P as int;
    assert forall|x: int| poly_eval(#[trigger] linear_coefs(c), x) == fsub(x, c) by {
        let lc = linear_coefs(c);
        assert(lc.drop_first() =~= seq![1int]);
        assert(seq![1int].drop_first() =~= Seq::<int>::empty());
        assert(poly_eval(Seq::<int>::empty(), x) == 0);
        assert(seq![1int][0] == 1);
        assert(poly_eval(seq![1int], x) == fadd(1, fmul(x, 0)));
        assert(x * 0 == 0) by (nonlinear_arith);
        vstd::arithmetic::div_mod::lemma_small_mod(0nat, P as nat);
        vstd::arithmetic::div_mod::lemma_small_mod(1nat, P as nat);
        assert(poly_eval(seq![1int], x) == 1);
        assert(x * 1 == x) by (nonlinear_arith);
        // ((0-c)%p + x%p) % p == (x - c) % p
        vstd::arithmetic::div_mod::lemma_add_mod_noop(0 - c, x, p);
        vstd::arithmetic::div_mod::lemma_mod_twice(x, p);
        assert(poly_eval(lc, x) == fadd(fsub(0, c), fmul(x, 1)));
        assert(fadd(fsub(0, c), (x % p)) == ((0 - c) + x) % p) by {
            assert(((0 - c) % p + x % p) % p == ((0 - c) + x) % p);
            vstd::arithmetic::div_mod::lemma_mod_twice(0 - c, p);
        };
    }
}

/// The coefficients of `X - c` in the field.
pub open spec fn linear_coefs(c: int) -> Seq<int> {
    seq![fsub(0, c), 1int]
}

} // verus!
