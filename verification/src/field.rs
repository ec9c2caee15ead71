//! The prime field the whole protocol computes in: integers modulo the
//! Mersenne prime 2^31 - 1, small enough that every product fits in a `u64`.

use vstd::prelude::*;
use vstd::arithmetic::div_mod::{
    lemma_mod_add_multiples_vanish, lemma_mul_mod_noop_left, lemma_small_mod,
};

verus! {

/// The field modulus, the Mersenne prime 2^31 - 1.
pub const P: u64 = 2147483647;

/// Addition in the field, on the mathematical level.
pub open spec fn fadd(a: int, b: int) -> int {
    (a + b) % (P as int)
}

/// Subtraction in the field, on the mathematical level.
pub open spec fn fsub(a: int, b: int) -> int {
    (a - b) % (P as int)
}

/// Multiplication in the field, on the mathematical level.
pub open spec fn fmul(a: int, b: int) -> int {
    (a * b) % (P as int)
}

/// Euclidean greatest common divisor.
pub open spec fn gcd_spec(a: nat, b: nat) -> nat
    decreases b,
{
    if b == 0 {
        a
    } else {
        gcd_spec(b, a % b)
    }
}

/// One field element, held as its canonical representative below `P`.
#[derive(Clone, Copy, Debug, PartialEq, Eq, Structural)]
pub struct Fq {
    val: u64,
}

impl Fq {
    #[verifier::type_invariant]
    spec fn in_range(self) -> bool {
        self.val < P
    }

    /// The canonical integer representative of this element.
    pub closed spec fn as_int(self) -> int {
        self.val as int
    }

    /// Two elements are equal exactly when their representatives are.
    pub proof fn lemma_eq(a: Fq, b: Fq)
        ensures
            (a == b) <==> (a.as_int() == b.as_int()),
    {
    }

    pub fn from(v: u64) -> (r: Fq)
        ensures
            r.as_int() == v as int % (P as int),
    {
        Fq { val: v % P }
    }

    pub fn zero() -> (r: Fq)
        ensures
            r.as_int() == 0,
    {
        Fq { val: 0 }
    }

    pub fn one() -> (r: Fq)
        ensures
            r.as_int() == 1,
    {
        Fq { val: 1 }
    }

    pub fn as_u64(self) -> (r: u64)
        ensures
            r as int == self.as_int(),
            r < P,
    {
        proof {
            use_type_invariant(self);
        }
        self.val
    }

    pub fn add(self, rhs: Fq) -> (r: Fq)
        ensures
            r.as_int() == fadd(self.as_int(), rhs.as_int()),
    {
        proof {
            use_type_invariant(self);
            use_type_invariant(rhs);
        }
        Fq { val: (self.val + rhs.val) % P }
    }

    pub fn sub(self, rhs: Fq) -> (r: Fq)
        ensures
            r.as_int() == fsub(self.as_int(), rhs.as_int()),
    {
        proof {
            use_type_invariant(self);
            use_type_invariant(rhs);
            lemma_mod_add_multiples_vanish(self.val as int - rhs.val as int, P as int);
        }
        Fq { val: (self.val + P - rhs.val) % P }
    }

    pub fn mul(self, rhs: Fq) -> (r: Fq)
        ensures
            r.as_int() == fmul(self.as_int(), rhs.as_int()),
    {
        proof {
            use_type_invariant(self);
            use_type_invariant(rhs);
            assert((self.val as int) * (rhs.val as int) < (P as int) * (P as int)) by (nonlinear_arith)
                requires
                    self.val < P,
                    rhs.val < P,
            ;
        }
        Fq { val: (self.val * rhs.val) % P }
    }

    /// The multiplicative inverse, by the extended Euclidean algorithm with
    /// coefficients kept reduced modulo `P`.  The result is checked against
    /// the computed gcd: an element whose representative shares a factor with
    /// the modulus (for a prime modulus, only zero) has no inverse.
    pub fn inverse(self) -> (r: Option<Fq>)
        ensures
            (r is Some) <==> gcd_spec(self.as_int() as nat, P as nat) == 1,
            r matches Some(v) ==> fmul(self.as_int(), v.as_int()) == 1,
    {
        proof {
            use_type_invariant(self);
        }
        let a = self.val;
        let mut r0: u64 = a;
        let mut r1: u64 = P;
        let mut s0: u64 = 1;
        let mut s1: u64 = 0;
        while r1 != 0
            invariant
                r0 <= P,
                r1 <= P,
                s0 < P,
                s1 < P,
                a < P,
                ((a as int) * (s0 as int) - r0 as int) % (P as int) == 0,
                ((a as int) * (s1 as int) - r1 as int) % (P as int) == 0,
                gcd_spec(r0 as nat, r1 as nat) == gcd_spec(a as nat, P as nat),
            decreases r1,
        {
            let q = r0 / r1;
            let r2 = r0 % r1;
            proof {
                assert(((q % P) as int) * (s1 as int) < (P as int) * (P as int)) by (nonlinear_arith)
                    requires
                        q % P < P,
                        s1 < P,
                ;
            }
            let qs = ((q % P) * s1) % P;
            let s2 = (s0 + P - qs) % P;
            proof {
                lemma_step_congruence(a as int, s0 as int, s1 as int, r0 as int, r1 as int, q as int, qs as int, s2 as int);
                vstd::arithmetic::div_mod::lemma_fundamental_div_mod(r0 as int, r1 as int);
                assert(r2 as int == r0 as int - (q as int) * (r1 as int)) by {
                    vstd::arithmetic::mul::lemma_mul_is_commutative(r1 as int, q as int);
                };
                assert(gcd_spec(r0 as nat, r1 as nat) == gcd_spec(r1 as nat, r2 as nat));
            }
            r0 = r1;
            r1 = r2;
            s0 = s1;
            s1 = s2;
        }
        if r0 == 1 {
            proof {
                lemma_congruent_to_one(a as int, s0 as int);
            }
            Some(Fq { val: s0 })
        } else {
            None
        }
    }
}

/// The eight big-endian base-256 digits of a canonical representative.
#[verifier::opaque]
pub open spec fn be8(v: int) -> Seq<u8> {
    seq![
        (v / 0x100000000000000 % 256) as u8,
        (v / 0x1000000000000 % 256) as u8,
        (v / 0x10000000000 % 256) as u8,
        (v / 0x100000000 % 256) as u8,
        (v / 0x1000000 % 256) as u8,
        (v / 0x10000 % 256) as u8,
        (v / 0x100 % 256) as u8,
        (v % 256) as u8,
    ]
}

/// A big-endian byte string reduced modulo `P`, digit by digit.
pub open spec fn bytes_mod(s: Seq<u8>) -> int
    decreases s.len(),
{
    if s.len() == 0 {
        0
    } else {
        (bytes_mod(s.drop_last()) * 256 + s.last()) % (P as int)
    }
}

impl Fq {
    /// The fixed-width big-endian byte serialization of this element.
    pub fn to_bytes(self) -> (r: Vec<u8>)
        ensures
            r@ == be8(self.as_int()),
    {
        proof {
            use_type_invariant(self);
        }
        let v = self.val;
        let mut out: Vec<u8> = Vec::new();
        out.push((v / 0x100000000000000 % 256) as u8);
        out.push((v / 0x1000000000000 % 256) as u8);
        out.push((v / 0x10000000000 % 256) as u8);
        out.push((v / 0x100000000 % 256) as u8);
        out.push((v / 0x1000000 % 256) as u8);
        out.push((v / 0x10000 % 256) as u8);
        out.push((v / 0x100 % 256) as u8);
        out.push((v % 256) as u8);
        proof {
            reveal(be8);
            assert(out@ =~= be8(self.as_int()));
        }
        out
    }

    /// A byte string interpreted as a big-endian integer, reduced into the
    /// field.
    pub fn from_be_bytes(bytes: &Vec<u8>) -> (r: Fq)
        ensures
            r.as_int() == bytes_mod(bytes@),
    {
        let mut acc: u64 = 0;
        let mut i: usize = 0;
        while i < bytes.len()
            invariant
                i <= bytes@.len(),
                acc < P,
                acc as int == bytes_mod(bytes@.take(i as int)),
            decreases bytes@.len() - i,
        {
            let b = bytes[i];
            acc = (acc * 256 + b as u64) % P;
            proof {
                assert(bytes@.take(i as int + 1).drop_last() =~= bytes@.take(i as int));
                assert(bytes@.take(i as int + 1).last() == bytes@[i as int]);
            }
            i += 1;
        }
        proof {
            assert(bytes@.take(bytes@.len() as int) =~= bytes@);
        }
        Fq { val: acc }
    }
}

/// The linear-combination step of the extended Euclidean algorithm keeps the
/// Bezout congruence `a * s == r (mod P)` across one quotient step.
proof fn lemma_step_congruence(a: int, s0: int, s1: int, r0: int, r1: int, q: int, qs: int, s2: int)
    requires
        0 <= a,
        0 <= s0 < P,
        0 <= s1 < P,
        0 <= q,
        (a * s0 - r0) % (P as int) == 0,
        (a * s1 - r1) % (P as int) == 0,
        qs == (q % (P as int)) * s1 % (P as int),
        s2 == (s0 + P - qs) % (P as int),
    ensures
        (a * s2 - (r0 - q * r1)) % (P as int) == 0,
{
    let p = P as int;
    // qs is q * s1 reduced modulo P
    lemma_mul_mod_noop_left(q, s1, p);
    assert(qs == (q * s1) % p);
    // s2 is s0 - q * s1 reduced modulo P
    let t = s0 - q * s1;
    assert((s0 + p - qs) % p == t % p) by {
        lemma_mod_add_multiples_vanish(s0 - qs, p);
        assert((s0 + p - qs) % p == (s0 - qs) % p);
        vstd::arithmetic::div_mod::lemma_sub_mod_noop(s0, q * s1, p);
        lemma_small_mod(s0 as nat, P as nat);
        assert((s0 % p - (q * s1) % p) % p == (s0 - q * s1) % p);
        assert((s0 - qs) % p == (s0 % p - (q * s1) % p) % p) by {
            lemma_small_mod(s0 as nat, P as nat);
        };
    };
    assert(s2 == t % p);
    // a * s2 == a * t (mod P)
    vstd::arithmetic::div_mod::lemma_mul_mod_noop_right(a, t, p);
    assert((a * s2) % p == (a * t) % p) by {
        vstd::arithmetic::div_mod::lemma_mul_mod_noop_right(a, s2, p);
        lemma_small_mod(s2 as nat, P as nat);
    };
    // a * t - (r0 - q * r1) is a linear combination of the two hypotheses
    let d0 = a * s0 - r0;
    let d1 = a * s1 - r1;
    assert(a * (s0 - q * s1) - (r0 - q * r1) == (a * s0 - r0) - q * (a * s1 - r1))
        by (nonlinear_arith);
    assert(a * t - (r0 - q * r1) == d0 - q * d1);
    lemma_multiple_diff(d0, d1, q, p);
    assert((d0 - q * d1) % p == 0);
    // transfer back through the congruence of s2 and t
    assert((a * t - (r0 - q * r1)) % p == 0);
    lemma_shift_by_congruent_term(a * s2, a * t, r0 - q * r1, p);
}

/// If `x` and `y` are multiples of `p`, so is `x - q * y`.
proof fn lemma_multiple_diff(x: int, y: int, q: int, p: int)
    requires
        p > 0,
        x % p == 0,
        y % p == 0,
    ensures
        (x - q * y) % p == 0,
{
    let p = p;
    vstd::arithmetic::div_mod::lemma_fundamental_div_mod(x, p);
    vstd::arithmetic::div_mod::lemma_fundamental_div_mod(y, p);
    let xd = x / p;
    let yd = y / p;
    assert(x == p * xd);
    assert(y == p * yd);
    assert(x - q * y == p * (xd - q * yd)) by (nonlinear_arith)
        requires
            x == p * xd,
            y == p * yd,
    ;
    vstd::arithmetic::div_mod::lemma_mod_multiples_basic(xd - q * yd, p);
}

/// Two numbers congruent modulo `p` leave the same remainder after
/// subtracting a common term.
proof fn lemma_shift_by_congruent_term(x: int, y: int, c: int, p: int)
    requires
        p > 0,
        x % p == y % p,
        (y - c) % p == 0,
    ensures
        (x - c) % p == 0,
{
    vstd::arithmetic::div_mod::lemma_sub_mod_noop(x, c, p);
    vstd::arithmetic::div_mod::lemma_sub_mod_noop(y, c, p);
}

/// From the Bezout congruence with gcd one, the accumulated coefficient is
/// the inverse.
proof fn lemma_congruent_to_one(a: int, s0: int)
    requires
        0 <= a,
        0 <= s0,
        (a * s0 - 1) % (P as int) == 0,
    ensures
        (a * s0) % (P as int) == 1,
{
    let p = P as int;
    vstd::arithmetic::div_mod::lemma_sub_mod_noop(a * s0, 1, p);
    lemma_small_mod(1nat, P as nat);
    assert(((a * s0) % p - 1) % p == 0);
    let m = (a * s0) % p;
    assert(0 <= m < p);
    if m != 1 {
        if m == 0 {
            assert((m - 1) % p == (p - 1)) by {
                lemma_mod_add_multiples_vanish(-1, p);
                lemma_small_mod((p - 1) as nat, P as nat);
            };
        } else {
            lemma_small_mod((m - 1) as nat, P as nat);
        }
        assert(false);
    }
    lemma_small_mod(m as nat, P as nat);
}

/// Whether a number has no divisor besides one and itself.
pub open spec fn is_prime(n: nat) -> bool {
    n >= 2 && forall|d: nat| 2 <= d < n ==> #[trigger] (n % d) != 0
}

/// A proper divisor yields one no larger than the square root.
proof fn lemma_small_factor(n: nat, f: nat)
    requires
        2 <= f < n,
        n % f == 0,
    ensures
        exists|d: nat| 2 <= d && #[trigger] (d * d) <= n && n % d == 0,
{
    vstd::arithmetic::div_mod::lemma_fundamental_div_mod(n as int, f as int);
    let g = n / f;
    assert(n == f * g) by {
        assert(n as int == (f as int) * (n as int / f as int) + n as int % f as int);
    };
    assert(g >= 1) by (nonlinear_arith)
        requires
            n == f * g,
            n >= 2,
            f >= 2,
    ;
    assert(g != 1) by {
        if g == 1 {
            assert(n == f * 1);
            assert(f == n) by (nonlinear_arith)
                requires
                    n == f * 1,
            ;
        }
    };
    assert(n % g == 0) by {
        vstd::arithmetic::div_mod::lemma_mod_multiples_basic(f as int, g as int);
        assert((f as int) * (g as int) == n as int);
    };
    if f * f <= n {
        assert(2 <= f && f * f <= n && n % f == 0);
    } else {
        assert(g * g <= n) by (nonlinear_arith)
            requires
                n == f * g,
                f * f > n,
                f >= 2,
                g >= 2,
        ;
        assert(2 <= g && g * g <= n && n % g == 0);
    }
}

/// Whether the field modulus is prime, decided by trial division up to the
/// square root.  The check is what lets interpolation promise success: a
/// prime modulus makes every nonzero element invertible.
pub fn modulus_is_prime() -> (r: bool)
    ensures
        r <==> is_prime(P as nat),
{
    let mut d: u64 = 2;
    // 46340 is the last value whose square stays at or below the modulus
    while d <= 46340
        invariant
            2 <= d <= 46341,
            forall|e: nat| 2 <= e < d as nat ==> #[trigger] ((P as nat) % e) != 0,
        decreases 46341 - d,
    {
        if P % d == 0 {
            return false;
        }
        d += 1;
    }
    proof {
        assert forall|e: nat| 2 <= e < P as nat implies #[trigger] ((P as nat) % e) != 0 by {
            if (P as nat) % e == 0 {
                lemma_small_factor(P as nat, e);
                let d0 = choose|d0: nat| 2 <= d0 && #[trigger] (d0 * d0) <= P as nat && (
                P as nat) % d0 == 0;
                assert(d0 <= 46340) by (nonlinear_arith)
                    requires
                        d0 * d0 <= 2147483647nat,
                ;
                assert(false);
            }
        }
    }
    true
}

/// If a divisor splits two numbers it splits any quotient-step combination.
proof fn lemma_divisor_of_combination(x: nat, y: nat, q: nat, g: nat)
    requires
        g > 0,
        x % g == 0,
        y % g == 0,
    ensures
        ((q * x + y) as nat) % g == 0,
{
    vstd::arithmetic::div_mod::lemma_fundamental_div_mod(x as int, g as int);
    vstd::arithmetic::div_mod::lemma_fundamental_div_mod(y as int, g as int);
    let xd = x as int / g as int;
    let yd = y as int / g as int;
    assert(x as int == (g as int) * xd);
    assert(y as int == (g as int) * yd);
    assert((q as int) * (x as int) + y as int == (g as int) * ((q as int) * xd + yd))
        by (nonlinear_arith)
        requires
            x as int == (g as int) * xd,
            y as int == (g as int) * yd,
    ;
    vstd::arithmetic::div_mod::lemma_mod_multiples_basic((q as int) * xd + yd, g as int);
    assert(((q as int) * xd + yd) * (g as int) == (g as int) * ((q as int) * xd + yd))
        by (nonlinear_arith);
}

/// The gcd is positive and divides both arguments.
proof fn lemma_gcd_divides(a: nat, b: nat)
    requires
        a > 0,
    ensures
        gcd_spec(a, b) > 0,
        a % gcd_spec(a, b) == 0,
        b % gcd_spec(a, b) == 0,
    decreases b,
{
    if b == 0 {
        vstd::arithmetic::div_mod::lemma_mod_self_0(a as int);
    } else {
        lemma_gcd_divides(b, a % b);
        let g = gcd_spec(b, a % b);
        vstd::arithmetic::div_mod::lemma_fundamental_div_mod(a as int, b as int);
        lemma_divisor_of_combination(b, a % b, a / b, g);
        assert((a / b) * b + a % b == a) by {
            assert(a as int == (b as int) * (a as int / b as int) + a as int % b as int);
            assert((a as int / b as int) * (b as int) == (b as int) * (a as int / b as int))
                by (nonlinear_arith);
        };
    }
}

/// With a prime modulus, every nonzero canonical representative is coprime
/// to it.
pub proof fn lemma_prime_gcd(a: nat)
    requires
        is_prime(P as nat),
        1 <= a < P,
    ensures
        gcd_spec(a, P as nat) == 1,
{
    let g = gcd_spec(a, P as nat);
    lemma_gcd_divides(a, P as nat);
    assert(g <= a) by {
        if g > a {
            lemma_small_mod(a, g);
        }
    };
    if g >= 2 {
        assert((P as nat) % g != 0);
        assert(false);
    }
}

/// Four-way product shuffle under the modulus: pairing factors differently
/// leaves the product.
pub proof fn lemma_fmul_shuffle(a: int, b: int, c: int, d: int)
    ensures
        fmul(fmul(a, b), fmul(c, d)) == fmul(fmul(a, c), fmul(b, d)),
{
    let p = P as int;
    vstd::arithmetic::div_mod::lemma_mul_mod_noop(a * b, c * d, p);
    vstd::arithmetic::div_mod::lemma_mul_mod_noop(a * c, b * d, p);
    assert((a * b) * (c * d) == (a * c) * (b * d)) by (nonlinear_arith);
}

} // verus!
