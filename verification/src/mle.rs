//! Evaluation tables over the boolean hypercube: the representation of a
//! multilinear polynomial by its values on `{0,1}^n`, and the fold, full
//! evaluation and blow-up primitives every higher layer builds on.
//!
//! A table of length `2^n` stands for the unique multilinear polynomial in
//! `n` variables agreeing with it on the hypercube; entry `i` is the value at
//! the point written by the `n`-bit expansion of `i`, bit 0 most significant.

use vstd::prelude::*;
use crate::field::{Fq, P, fadd, fsub, fmul};
use crate::error::Error;
use vstd::arithmetic::power2::pow2;

verus! {

/// The integer view of a table of field elements.
pub open spec fn table_view(v: Seq<Fq>) -> Seq<int> {
    v.map_values(|x: Fq| x.as_int())
}

/// Every entry is a canonical field representative.
pub open spec fn table_ok(t: Seq<int>) -> bool {
    forall|i: int| 0 <= i < t.len() ==> 0 <= #[trigger] t[i] < P
}

/// One linear interpolation step `y0 + r * (y1 - y0)` in the field.
pub open spec fn lin(y0: int, y1: int, r: int) -> int {
    fadd(y0, fmul(r, fsub(y1, y0)))
}

/// Whether a length is a power of two, and which power it is.
pub open spec fn is_pow2_len(len: nat) -> bool {
    exists|n: nat| #[trigger] pow2(n) == len
}

/// The variable count of a power-of-two table length.
pub open spec fn num_vars(len: nat) -> nat {
    choose|n: nat| #[trigger] pow2(n) == len
}

/// The index, among the full set of hypercube points, reached from index `m`
/// of the folded table by re-inserting the folded variable's bit as zero;
/// that variable distinguishes this point from the one `stride` above it.
pub open spec fn fold_base(m: int, stride: int) -> int {
    (m / stride) * (2 * stride) + m % stride
}

/// Folding one variable of a table at the field value `r`: entry `m` of the
/// half-length result interpolates the two entries that agree everywhere but
/// in the folded variable, whose index significance is `stride`.
pub open spec fn fold_spec(t: Seq<int>, stride: int, r: int) -> Seq<int> {
    Seq::new(
        t.len() / 2,
        |m: int| lin(t[fold_base(m, stride)], t[fold_base(m, stride) + stride], r),
    )
}

/// Folding variable 0 (the most significant index bit) repeatedly, once per
/// coordinate of `pts`, front to back.
pub open spec fn fold0_chain(t: Seq<int>, pts: Seq<int>) -> Seq<int>
    decreases pts.len(),
{
    if pts.len() == 0 {
        t
    } else {
        fold0_chain(fold_spec(t, t.len() as int / 2, pts[0]), pts.drop_first())
    }
}

/// The multilinear extension of `t` evaluated at the point `pts`.
pub open spec fn mle_eval(t: Seq<int>, pts: Seq<int>) -> int {
    fold0_chain(t, pts)[0]
}

/// Powers of two are distinct.
pub proof fn lemma_pow2_injective(a: nat, b: nat)
    requires
        pow2(a) == pow2(b),
    ensures
        a == b,
{
    if a < b {
        vstd::arithmetic::power2::lemma_pow2_strictly_increases(a, b);
    } else if b < a {
        vstd::arithmetic::power2::lemma_pow2_strictly_increases(b, a);
    }
}

/// The two table positions a fold entry interpolates lie inside the table.
pub proof fn lemma_fold_base_bounds(m: int, stride: int, len: int)
    requires
        stride >= 1,
        len >= 0,
        len % (2 * stride) == 0,
        0 <= m < len / 2,
    ensures
        0 <= fold_base(m, stride),
        fold_base(m, stride) + stride < len,
        0 <= m % stride < stride,
        fold_base(m, stride) == 2 * stride * (m / stride) + m % stride,
{
    let q = m / stride;
    let rd = m % stride;
    vstd::arithmetic::div_mod::lemma_fundamental_div_mod(m, stride);
    vstd::arithmetic::div_mod::lemma_mod_bound(m, stride);
    vstd::arithmetic::div_mod::lemma_div_pos_is_pos(m, stride);
    let b = len / (2 * stride);
    vstd::arithmetic::div_mod::lemma_fundamental_div_mod(len, 2 * stride);
    assert(len == 2 * stride * b);
    assert(len / 2 == stride * b) by {
        assert(2 * stride * b == 2 * (stride * b)) by (nonlinear_arith);
        vstd::arithmetic::div_mod::lemma_div_multiples_vanish(stride * b, 2);
    };
    assert(m < stride * b);
    assert(q < b) by {
        vstd::arithmetic::div_mod::lemma_multiply_divide_lt(m, stride, b);
    };
    assert(fold_base(m, stride) == 2 * stride * q + rd) by {
        assert(q * (2 * stride) == 2 * stride * q) by (nonlinear_arith);
    };
    assert(2 * stride * q + rd + stride < 2 * stride * (q + 1)) by {
        vstd::arithmetic::mul::lemma_mul_is_distributive_add(2 * stride, q, 1);
    };
    assert(2 * stride * (q + 1) <= 2 * stride * b) by {
        vstd::arithmetic::mul::lemma_mul_left_inequality(2 * stride, q + 1, b);
    };
}

/// A power-of-two length table has a power-of-two half, and the divisibility
/// the fold needs for the variable at `v` of `n`.
pub(crate) proof fn lemma_stride_divides(n: nat, v: nat)
    requires
        v < n,
    ensures
        pow2(n) % (2 * pow2((n - 1 - v) as nat)) == 0,
        2 * pow2((n - 1 - v) as nat) <= pow2(n),
        pow2(n) / 2 == pow2((n - 1) as nat),
{
    let s = (n - 1 - v) as nat;
    vstd::arithmetic::power2::lemma_pow2_pos(v);
    vstd::arithmetic::power2::lemma_pow2_pos(s);
    vstd::arithmetic::power2::lemma_pow2_adds(s, 1);
    vstd::arithmetic::power2::lemma_pow2_adds((s + 1) as nat, v);
    assert(pow2(1) == 2) by { vstd::arithmetic::power2::lemma2_to64(); };
    assert(pow2((s + 1) as nat) == 2 * pow2(s));
    assert(pow2(n) == (2 * pow2(s)) * pow2(v));
    vstd::arithmetic::div_mod::lemma_mod_multiples_basic(pow2(v) as int, 2 * pow2(s) as int);
    assert((pow2(v) as int) * (2 * pow2(s) as int) == ((2 * pow2(s)) as int) * (pow2(v) as int))
        by (nonlinear_arith);
    assert(2 * pow2(s) <= pow2(n)) by {
        vstd::arithmetic::mul::lemma_mul_left_inequality((2 * pow2(s)) as int, 1, pow2(v) as int);
    };
    vstd::arithmetic::power2::lemma_pow2_adds((n - 1) as nat, 1);
    assert(pow2(n) == pow2((n - 1) as nat) * 2);
    vstd::arithmetic::div_mod::lemma_div_multiples_vanish(pow2((n - 1) as nat) as int, 2);
    assert((2 as int) * (pow2((n - 1) as nat) as int) == (pow2((n - 1) as nat) as int) * 2)
        by (nonlinear_arith);
}

/// Exact binary logarithm of a length, where one exists.
pub(crate) fn log2_exact(len: usize) -> (r: Option<usize>)
    ensures
        r matches Some(n) ==> pow2(n as nat) == len as nat && is_pow2_len(len as nat) && num_vars(
            len as nat,
        ) == n as nat && n <= 63,
        r is None ==> !is_pow2_len(len as nat),
{
    let mut n: usize = 0;
    let mut cur: usize = 1;
    proof {
        vstd::arithmetic::power2::lemma2_to64();
    }
    loop
        invariant
            n <= 63,
            cur as nat == pow2(n as nat),
            forall|m: nat| m < n as nat ==> #[trigger] pow2(m) < len as nat,
        ensures
            cur >= len,
        decreases 64 - n,
    {
        if cur >= len {
            break ;
        }
        if cur > usize::MAX / 2 {
            proof {
                vstd::arithmetic::power2::lemma_pow2_adds(n as nat, 1);
                assert(pow2(1) == 2) by { vstd::arithmetic::power2::lemma2_to64(); };
                assert forall|m: nat| #[trigger] pow2(m) != len as nat by {
                    if m > n as nat + 1 {
                        vstd::arithmetic::power2::lemma_pow2_strictly_increases(
                            (n + 1) as nat,
                            m,
                        );
                    }
                }
            }
            return None;
        }
        proof {
            vstd::arithmetic::power2::lemma2_to64();
            vstd::arithmetic::power2::lemma2_to64_rest();
            if n as nat >= 63 {
                assert(pow2(63) == 0x8000000000000000);
                assert(cur as nat >= pow2(63)) by {
                    if n as nat > 63 {
                        vstd::arithmetic::power2::lemma_pow2_strictly_increases(63, n as nat);
                    }
                };
                assert(false);
            }
            vstd::arithmetic::power2::lemma_pow2_adds(n as nat, 1);
            assert(pow2(1) == 2);
        }
        cur = cur * 2;
        n += 1;
    }
    if cur == len {
        proof {
            if num_vars(len as nat) != n as nat {
                lemma_pow2_injective(num_vars(len as nat), n as nat);
            }
        }
        Some(n)
    } else {
        proof {
            assert forall|m: nat| #[trigger] pow2(m) != len as nat by {
                if m < n as nat {
                } else if m > n as nat {
                    vstd::arithmetic::power2::lemma_pow2_strictly_increases(n as nat, m);
                }
            }
        }
        None
    }
}

/// `2^k`, for exponents whose power fits the platform.
pub(crate) fn pow2_exec(k: usize) -> (r: usize)
    requires
        pow2(k as nat) <= usize::MAX as nat,
    ensures
        r as nat == pow2(k as nat),
{
    let mut i: usize = 0;
    let mut c: usize = 1;
    proof {
        vstd::arithmetic::power2::lemma2_to64();
    }
    while i < k
        invariant
            i <= k,
            c as nat == pow2(i as nat),
            pow2(k as nat) <= usize::MAX as nat,
        decreases k - i,
    {
        proof {
            vstd::arithmetic::power2::lemma_pow2_adds(i as nat, 1);
            assert(pow2(1) == 2) by { vstd::arithmetic::power2::lemma2_to64(); };
            if i + 1 < k {
                vstd::arithmetic::power2::lemma_pow2_strictly_increases((i + 1) as nat, k as nat);
            }
        }
        c = c * 2;
        i += 1;
    }
    c
}

/// The shared fold kernel: halves the table by interpolating, at `r`, each
/// pair of entries that differ only in the variable of significance `stride`.
pub(crate) fn fold_core(evals: &Vec<Fq>, stride: usize, r: Fq) -> (out: Vec<Fq>)
    requires
        stride >= 1,
        evals@.len() as int % (2 * stride as int) == 0,
    ensures
        out@.len() == evals@.len() / 2,
        table_view(out@) == fold_spec(table_view(evals@), stride as int, r.as_int()),
{
    let len = evals.len();
    let half = len / 2;
    proof {
        assert(evals@.len() == len);
    }
    let mut out: Vec<Fq> = Vec::new();
    let mut m: usize = 0;
    while m < half
        invariant
            m <= half,
            half == evals@.len() / 2,
            evals@.len() <= usize::MAX,
            stride >= 1,
            evals@.len() as int % (2 * stride as int) == 0,
            out@.len() == m,
            forall|k: int|
                0 <= k < m ==> #[trigger] out@[k].as_int() == fold_spec(
                    table_view(evals@),
                    stride as int,
                    r.as_int(),
                )[k],
        decreases half - m,
    {
        proof {
            if (evals@.len() as int) < 2 * (stride as int) {
                vstd::arithmetic::div_mod::lemma_small_mod(evals@.len(), (2 * stride) as nat);
                assert(false);
            }
            lemma_fold_base_bounds(m as int, stride as int, evals@.len() as int);
            assert(fold_base(m as int, stride as int) == ((m as int) / (stride as int)) * (2
                * (stride as int)) + (m as int) % (stride as int));
            assert(((m as int) / (stride as int)) * (2 * (stride as int)) <= fold_base(
                m as int,
                stride as int,
            ));
        }
        let base = (m / stride) * (2 * stride) + m % stride;
        let y0 = evals[base];
        let y1 = evals[base + stride];
        out.push(y0.add(r.mul(y1.sub(y0))));
        m += 1;
    }
    proof {
        assert(table_view(out@) =~= fold_spec(table_view(evals@), stride as int, r.as_int()));
    }
    out
}

/// Partially evaluate the table's variable `var_index` at `var_eval_at`:
/// pair every hypercube point having that variable 0 with its partner having
/// it 1, and interpolate between the two values.  The result is the
/// evaluation table of the same polynomial with one variable fixed, valid
/// for any field element, not only 0 and 1.
pub fn interpolate_then_evaluate_at_once(evals: Vec<Fq>, var_index: usize, var_eval_at: Fq) -> (r:
    Result<Vec<Fq>, Error>)
    ensures
        r is Ok <==> is_pow2_len(evals@.len()) && (var_index as nat) < num_vars(evals@.len()),
        r == Err::<Vec<Fq>, Error>(Error::LengthMismatch) <==> !is_pow2_len(evals@.len()),
        r == Err::<Vec<Fq>, Error>(Error::InvalidVariableIndex) <==> is_pow2_len(evals@.len())
            && (var_index as nat) >= num_vars(evals@.len()),
        r matches Ok(out) ==> {
            &&& out@.len() == evals@.len() / 2
            &&& table_view(out@) == fold_spec(
                table_view(evals@),
                pow2((num_vars(evals@.len()) - 1 - var_index) as nat) as int,
                var_eval_at.as_int(),
            )
        },
{
    let n = match log2_exact(evals.len()) {
        Some(n) => n,
        None => {
            return Err(Error::LengthMismatch);
        },
    };
    if var_index >= n {
        return Err(Error::InvalidVariableIndex);
    }
    proof {
        lemma_stride_divides(n as nat, var_index as nat);
        if (n - 1 - var_index) as nat + 1 <= n as nat {
            // pow2 of the stride exponent fits: it divides the table length
        }
        assert(pow2(((n - var_index - 1)) as nat) <= pow2(n as nat)) by {
            if n - var_index - 1 < n {
                vstd::arithmetic::power2::lemma_pow2_strictly_increases(
                    (n - var_index - 1) as nat,
                    n as nat,
                );
            }
        };
    }
    let stride = pow2_exec(n - 1 - var_index);
    proof {
        vstd::arithmetic::power2::lemma_pow2_pos((n - 1 - var_index) as nat);
    }
    Ok(fold_core(&evals, stride, var_eval_at))
}

/// The same partial evaluation with the variable count stated by the caller:
/// it is rejected when it does not match the table's length, and the
/// variable index is rejected when it is out of range.
pub fn evaluate_interpolate(no_of_vars: u32, evals: Vec<Fq>, var_index: usize, var_eval_at: Fq) -> (r:
    Result<Vec<Fq>, Error>)
    ensures
        r is Ok <==> (var_index as nat) < no_of_vars as nat && evals@.len() == pow2(
            no_of_vars as nat,
        ),
        r == Err::<Vec<Fq>, Error>(Error::InvalidVariableIndex) <==> (var_index as nat)
            >= no_of_vars as nat,
        r matches Ok(out) ==> {
            &&& out@.len() == evals@.len() / 2
            &&& table_view(out@) == fold_spec(
                table_view(evals@),
                pow2((no_of_vars - 1 - var_index as u32) as nat) as int,
                var_eval_at.as_int(),
            )
        },
{
    if var_index >= no_of_vars as usize {
        return Err(Error::InvalidVariableIndex);
    }
    match log2_exact(evals.len()) {
        Some(n) => {
            if n == no_of_vars as usize {
                proof {
                    lemma_stride_divides(n as nat, var_index as nat);
                    assert(pow2((n - var_index - 1) as nat) <= pow2(n as nat)) by {
                        if n - var_index - 1 < n {
                            vstd::arithmetic::power2::lemma_pow2_strictly_increases(
                                (n - var_index - 1) as nat,
                                n as nat,
                            );
                        }
                    };
                }
                let stride = pow2_exec(n - 1 - var_index);
                proof {
                    vstd::arithmetic::power2::lemma_pow2_pos((n - 1 - var_index) as nat);
                }
                Ok(fold_core(&evals, stride, var_eval_at))
            } else {
                proof {
                    if evals@.len() == pow2(no_of_vars as nat) {
                        lemma_pow2_injective(n as nat, no_of_vars as nat);
                    }
                }
                Err(Error::LengthMismatch)
            }
        },
        None => Err(Error::LengthMismatch),
    }
}

/// Appending one more coordinate to a fold chain folds the chained result
/// once more at that coordinate.
pub proof fn lemma_fold0_chain_snoc(t: Seq<int>, pts: Seq<int>, r: int)
    ensures
        fold0_chain(t, pts.push(r)) == fold_spec(
            fold0_chain(t, pts),
            fold0_chain(t, pts).len() as int / 2,
            r,
        ),
    decreases pts.len(),
{
    let single = pts.push(r);
    if pts.len() == 0 {
        assert(single.drop_first() =~= Seq::<int>::empty());
        assert(single[0] == r);
        assert(fold0_chain(t, single) == fold0_chain(
            fold_spec(t, t.len() as int / 2, r),
            single.drop_first(),
        ));
        assert(fold0_chain(fold_spec(t, t.len() as int / 2, r), Seq::<int>::empty()) == fold_spec(
            t,
            t.len() as int / 2,
            r,
        ));
        assert(fold0_chain(t, pts) == t);
    } else {
        assert(single.drop_first() =~= pts.drop_first().push(r));
        assert(single[0] == pts[0]);
        let t1 = fold_spec(t, t.len() as int / 2, pts[0]);
        assert(fold0_chain(t, single) == fold0_chain(t1, single.drop_first()));
        lemma_fold0_chain_snoc(t1, pts.drop_first(), r);
        assert(fold0_chain(t, pts) == fold0_chain(t1, pts.drop_first()));
    }
}

/// Taking the view of a table prefix is taking the prefix of the view.
pub proof fn lemma_table_view_take(v: Seq<Fq>, k: int)
    requires
        0 <= k <= v.len(),
    ensures
        table_view(v.take(k)) == table_view(v).take(k),
{
    assert(table_view(v.take(k)) =~= table_view(v).take(k));
}

/// Fully evaluate the table at the first `no_of_evaluations` coordinates of
/// `eval_points`, folding variable 0 once per coordinate, and return entry 0
/// of what remains.  When the count equals the table's variable count this
/// is the multilinear extension evaluated at that point.
pub fn full_evaluate(no_of_evaluations: &usize, poly: Vec<Fq>, eval_points: &Vec<Fq>) -> (r:
    Result<Fq, Error>)
    ensures
        r is Ok <==> *no_of_evaluations <= eval_points@.len() && is_pow2_len(poly@.len())
            && *no_of_evaluations as nat <= num_vars(poly@.len()),
        r == Err::<Fq, Error>(Error::LengthMismatch) <==> *no_of_evaluations > eval_points@.len()
            || !is_pow2_len(poly@.len()),
        r == Err::<Fq, Error>(Error::InvalidVariableIndex) <==> *no_of_evaluations
            <= eval_points@.len() && is_pow2_len(poly@.len()) && *no_of_evaluations as nat
            > num_vars(poly@.len()),
        r matches Ok(v) ==> v.as_int() == mle_eval(
            table_view(poly@),
            table_view(eval_points@.take(*no_of_evaluations as int)),
        ),
{
    let k = *no_of_evaluations;
    if k > eval_points.len() {
        return Err(Error::LengthMismatch);
    }
    let n = match log2_exact(poly.len()) {
        Some(n) => n,
        None => {
            return Err(Error::LengthMismatch);
        },
    };
    if k > n {
        return Err(Error::InvalidVariableIndex);
    }
    let mut cur = poly;
    let ghost orig: Seq<int> = table_view(cur@);
    let mut i: usize = 0;
    while i < k
        invariant
            i <= k,
            k <= n,
            n <= 63,
            k <= eval_points@.len(),
            pow2(n as nat) <= usize::MAX as nat,
            cur@.len() == pow2((n - i) as nat),
            table_view(cur@) == fold0_chain(orig, table_view(eval_points@.take(i as int))),
        decreases k - i,
    {
        proof {
            vstd::arithmetic::power2::lemma_pow2_adds((n - i - 1) as nat, 1);
            assert(pow2(1) == 2) by { vstd::arithmetic::power2::lemma2_to64(); };
            vstd::arithmetic::power2::lemma_pow2_pos((n - i - 1) as nat);
            vstd::arithmetic::div_mod::lemma_mod_self_0(cur@.len() as int);
        }
        let stride = cur.len() / 2;
        let rpt = eval_points[i];
        let next = fold_core(&cur, stride, rpt);
        proof {
            let pts_i = table_view(eval_points@.take(i as int));
            let pts_i1 = table_view(eval_points@.take(i as int + 1));
            assert(eval_points@.take(i as int + 1) =~= eval_points@.take(i as int).push(
                eval_points@[i as int],
            ));
            assert(pts_i1 =~= pts_i.push(rpt.as_int()));
            lemma_fold0_chain_snoc(orig, pts_i, rpt.as_int());
        }
        cur = next;
        i += 1;
    }
    proof {
        vstd::arithmetic::power2::lemma_pow2_pos((n - k) as nat);
    }
    Ok(cur[0])
}

/// The dropped-variable source index of a blown-up table's entry `j`: the
/// new variable's bit, of significance `stride`, is removed.
pub open spec fn blow_base(j: int, stride: int) -> int {
    (j / (2 * stride)) * stride + j % stride
}

/// Injecting a table into a space with one more variable, of significance
/// `stride`: each value is duplicated across the two positions that differ
/// only in the new variable's bit, so the result does not depend on it.
pub open spec fn blow_spec(t: Seq<int>, stride: int) -> Seq<int> {
    Seq::new(t.len() * 2, |j: int| t[blow_base(j, stride)])
}

/// The source index of every blown-up entry lies inside the source table.
pub proof fn lemma_blow_base_bounds(j: int, stride: int, len: int)
    requires
        stride >= 1,
        len >= 1,
        len % stride == 0,
        0 <= j < 2 * len,
    ensures
        0 <= blow_base(j, stride) < len,
{
    let q = j / (2 * stride);
    let rd = j % stride;
    vstd::arithmetic::div_mod::lemma_mod_bound(j, stride);
    vstd::arithmetic::div_mod::lemma_div_pos_is_pos(j, 2 * stride);
    let b = len / stride;
    vstd::arithmetic::div_mod::lemma_fundamental_div_mod(len, stride);
    assert(len == stride * b);
    assert(j < (2 * stride) * b) by {
        assert(2 * (stride * b) == (2 * stride) * b) by (nonlinear_arith);
    };
    assert(q < b) by {
        vstd::arithmetic::div_mod::lemma_multiply_divide_lt(j, 2 * stride, b);
    };
    assert(q * stride + rd + 1 <= stride * (q + 1)) by {
        vstd::arithmetic::mul::lemma_mul_is_distributive_add(stride, q, 1);
        assert(q * stride == stride * q) by (nonlinear_arith);
    };
    assert(stride * (q + 1) <= stride * b) by {
        vstd::arithmetic::mul::lemma_mul_left_inequality(stride, q + 1, b);
    };
    assert(q * stride >= 0) by {
        vstd::arithmetic::mul::lemma_mul_nonnegative(q, stride);
    };
}

/// Inject `table`, indexed by `total_vars - 1` variables, into the
/// `total_vars`-variable space by duplicating each value across the two
/// positions that differ only in the bit of the new variable at
/// `new_var_index`; the result is independent of that bit.
pub fn blow_up(table: Vec<Fq>, new_var_index: u32, total_vars: u32) -> (r: Result<Vec<Fq>, Error>)
    requires
        table@.len() <= usize::MAX as nat / 2,
    ensures
        r is Ok <==> total_vars as nat >= 1 && table@.len() == pow2((total_vars - 1) as nat) && (
        new_var_index as nat) < total_vars as nat,
        r == Err::<Vec<Fq>, Error>(Error::LengthMismatch) <==> !(total_vars as nat >= 1
            && table@.len() == pow2((total_vars - 1) as nat)),
        r == Err::<Vec<Fq>, Error>(Error::InvalidVariableIndex) <==> total_vars as nat >= 1
            && table@.len() == pow2((total_vars - 1) as nat) && (new_var_index as nat)
            >= total_vars as nat,
        r matches Ok(out) ==> {
            &&& out@.len() == 2 * table@.len()
            &&& table_view(out@) == blow_spec(
                table_view(table@),
                pow2((total_vars - 1 - new_var_index) as nat) as int,
            )
        },
{
    let n = match log2_exact(table.len()) {
        Some(n) => n,
        None => {
            return Err(Error::LengthMismatch);
        },
    };
    if total_vars == 0 || n != (total_vars - 1) as usize {
        proof {
            if total_vars as nat >= 1 && table@.len() == pow2((total_vars - 1) as nat) {
                lemma_pow2_injective(n as nat, (total_vars - 1) as nat);
            }
        }
        return Err(Error::LengthMismatch);
    }
    if new_var_index >= total_vars {
        return Err(Error::InvalidVariableIndex);
    }
    let v = (new_var_index) as usize;
    proof {
        if n - v < n {
            vstd::arithmetic::power2::lemma_pow2_strictly_increases((n - v) as nat, n as nat);
        }
        vstd::arithmetic::power2::lemma_pow2_pos((n - v) as nat);
    }
    let stride = pow2_exec(n - v);
    proof {
        if v == 0 {
            vstd::arithmetic::div_mod::lemma_mod_self_0(stride as int);
        } else {
            vstd::arithmetic::power2::lemma_pow2_adds((n - v) as nat, v as nat);
            vstd::arithmetic::div_mod::lemma_mod_multiples_basic(
                pow2(v as nat) as int,
                stride as int,
            );
            assert((pow2(v as nat) as int) * (stride as int) == (stride as int) * (pow2(
                v as nat,
            ) as int)) by (nonlinear_arith);
        }
    }
    let len = table.len();
    let mut out: Vec<Fq> = Vec::new();
    let mut j: usize = 0;
    while j < 2 * len
        invariant
            j <= 2 * len,
            len == table@.len(),
            len <= usize::MAX / 2,
            stride >= 1,
            len >= 1,
            (len as int) % (stride as int) == 0,
            out@.len() == j,
            forall|p: int|
                0 <= p < j ==> #[trigger] out@[p].as_int() == table_view(table@)[blow_base(
                    p,
                    stride as int,
                )],
        decreases 2 * len - j,
    {
        proof {
            lemma_blow_base_bounds(j as int, stride as int, len as int);
            if (len as int) < 2 * (stride as int) {
                if (len as int) < stride as int {
                    vstd::arithmetic::div_mod::lemma_small_mod(len as nat, stride as nat);
                    assert(false);
                }
            }
        }
        let idx = (j / (2 * stride)) * stride + j % stride;
        let y = table[idx];
        out.push(y);
        j += 1;
    }
    proof {
        assert(table_view(out@) =~= blow_spec(
            table_view(table@),
            pow2((total_vars - 1 - new_var_index) as nat) as int,
        ));
    }
    Ok(out)
}

/// A fold's entries are canonical field representatives.
pub proof fn lemma_fold_spec_ok(t: Seq<int>, stride: int, r: int)
    ensures
        table_ok(fold_spec(t, stride, r)),
{
    assert forall|m: int| 0 <= m < fold_spec(t, stride, r).len() implies 0 <= #[trigger] fold_spec(
        t,
        stride,
        r,
    )[m] < P by {
        vstd::arithmetic::div_mod::lemma_mod_bound(
            t[fold_base(m, stride)] + (r * fsub(t[fold_base(m, stride) + stride], t[fold_base(
                m,
                stride,
            )])) % (P as int),
            P as int,
        );
    }
}

/// Folding at 0 keeps exactly the entries whose folded variable is 0, and
/// folding at 1 exactly those whose folded variable is 1: the boundary
/// behaviour of the interpolation formula.
pub proof fn lemma_fold_boundary(t: Seq<int>, stride: int, m: int)
    requires
        table_ok(t),
        stride >= 1,
        t.len() as int % (2 * stride) == 0,
        0 <= m < t.len() as int / 2,
    ensures
        fold_spec(t, stride, 0)[m] == t[fold_base(m, stride)],
        fold_spec(t, stride, 1)[m] == t[fold_base(m, stride) + stride],
{
    lemma_fold_base_bounds(m, stride, t.len() as int);
    let p = P as int;
    let y0 = t[fold_base(m, stride)];
    let y1 = t[fold_base(m, stride) + stride];
    let d = fsub(y1, y0);
    vstd::arithmetic::div_mod::lemma_mod_bound(y1 - y0, p);
    // at 0: the multiplier vanishes
    assert(0 * d == 0) by (nonlinear_arith);
    vstd::arithmetic::div_mod::lemma_small_mod(0nat, P as nat);
    vstd::arithmetic::div_mod::lemma_small_mod(y0 as nat, P as nat);
    assert(lin(y0, y1, 0) == y0);
    // at 1: the difference is restored
    assert(1 * d == d) by (nonlinear_arith);
    vstd::arithmetic::div_mod::lemma_small_mod(d as nat, P as nat);
    assert(fmul(1, d) == d);
    vstd::arithmetic::div_mod::lemma_add_mod_noop_right(y0, y1 - y0, p);
    vstd::arithmetic::div_mod::lemma_small_mod(y1 as nat, P as nat);
    assert(lin(y0, y1, 1) == y1);
}

/// Whether every coordinate of a point is boolean.
pub open spec fn bool_point(pts: Seq<int>) -> bool {
    forall|i: int| 0 <= i < pts.len() ==> #[trigger] pts[i] == 0 || pts[i] == 1
}

/// The table index whose bit expansion, most significant bit first, is the
/// boolean point.
pub open spec fn point_index(pts: Seq<int>) -> int
    decreases pts.len(),
{
    if pts.len() == 0 {
        0
    } else {
        pts[0] * pow2((pts.len() - 1) as nat) + point_index(pts.drop_first())
    }
}

/// Evaluating the multilinear extension at a boolean point reads the table
/// entry at that point: the extension agrees with the table on the
/// hypercube.
pub proof fn lemma_mle_eval_boolean(t: Seq<int>, pts: Seq<int>)
    requires
        table_ok(t),
        t.len() == pow2(pts.len()),
        bool_point(pts),
    ensures
        0 <= point_index(pts) < t.len(),
        mle_eval(t, pts) == t[point_index(pts)],
    decreases pts.len(),
{
    if pts.len() == 0 {
        assert(pow2(0) == 1) by { vstd::arithmetic::power2::lemma2_to64(); };
    } else {
        let n = pts.len();
        let half = pow2((n - 1) as nat);
        vstd::arithmetic::power2::lemma_pow2_adds((n - 1) as nat, 1);
        assert(pow2(1) == 2) by { vstd::arithmetic::power2::lemma2_to64(); };
        vstd::arithmetic::power2::lemma_pow2_pos((n - 1) as nat);
        assert(t.len() as int / 2 == half as int) by {
            vstd::arithmetic::div_mod::lemma_div_multiples_vanish(half as int, 2);
        };
        vstd::arithmetic::div_mod::lemma_mod_self_0(t.len() as int);
        let r = pts[0];
        let t1 = fold_spec(t, half as int, r);
        lemma_fold_spec_ok(t, half as int, r);
        let rest = pts.drop_first();
        assert(bool_point(rest));
        assert forall|m: int| 0 <= m < half implies #[trigger] fold_base(m, half as int) == m by {
            vstd::arithmetic::div_mod::lemma_basic_div(m, half as int);
            vstd::arithmetic::div_mod::lemma_small_mod(m as nat, half);
        }
        if r == 0 {
            assert forall|m: int| 0 <= m < half implies #[trigger] t1[m] == t[m] by {
                lemma_fold_boundary(t, half as int, m);
            }
        } else {
            assert forall|m: int| 0 <= m < half implies #[trigger] t1[m] == t[m + half] by {
                lemma_fold_boundary(t, half as int, m);
            }
        }
        lemma_mle_eval_boolean(t1, rest);
        assert(mle_eval(t, pts) == mle_eval(t1, rest));
        assert(point_index(pts) == r * half + point_index(rest));
        assert(r * half == if r == 0 { 0int } else { half as int }) by (nonlinear_arith)
            requires
                r == 0 || r == 1,
        ;
    }
}

/// A blown-up table folded back at the injected variable returns the
/// original, whatever field value the fold uses: the blown-up table does not
/// depend on the injected variable.
pub proof fn lemma_blow_up_independent(t: Seq<int>, stride: int, r: int)
    requires
        table_ok(t),
        stride >= 1,
        t.len() >= 1,
        t.len() as int % stride == 0,
    ensures
        fold_spec(blow_spec(t, stride), stride, r) == t,
{
    let bt = blow_spec(t, stride);
    let p = P as int;
    assert(bt.len() as int % (2 * stride) == 0) by {
        let b = t.len() as int / stride;
        vstd::arithmetic::div_mod::lemma_fundamental_div_mod(t.len() as int, stride);
        assert(t.len() as int == stride * b);
        assert(2 * (stride * b) == b * (2 * stride)) by (nonlinear_arith);
        vstd::arithmetic::div_mod::lemma_mod_multiples_basic(b, 2 * stride);
    };
    assert forall|m: int| 0 <= m < t.len() implies #[trigger] fold_spec(bt, stride, r)[m] == t[m] by {
        lemma_fold_base_bounds(m, stride, bt.len() as int);
        let q = m / stride;
        let rd = m % stride;
        let base = fold_base(m, stride);
        vstd::arithmetic::div_mod::lemma_fundamental_div_mod(m, stride);
        // the blown entry at base and at base + stride both read t[m]
        assert(base == (2 * q) * stride + rd && 0 <= rd < stride) by {
            assert(2 * stride * q == (2 * q) * stride) by (nonlinear_arith);
        };
        assert(base == q * (2 * stride) + rd) by {
            assert((2 * q) * stride == q * (2 * stride)) by (nonlinear_arith);
        };
        vstd::arithmetic::div_mod::lemma_fundamental_div_mod_converse(
            base,
            2 * stride,
            q,
            rd,
        );
        vstd::arithmetic::div_mod::lemma_fundamental_div_mod_converse(
            base,
            stride,
            2 * q,
            rd,
        );
        assert(blow_base(base, stride) == q * stride + rd) by {
            assert((2 * q) / 2 == q);
        };
        assert(q * stride == stride * q) by (nonlinear_arith);
        assert(blow_base(base, stride) == m);
        let base1 = base + stride;
        assert(base1 == q * (2 * stride) + (stride + rd));
        vstd::arithmetic::div_mod::lemma_fundamental_div_mod_converse(
            base1,
            2 * stride,
            q,
            stride + rd,
        );
        assert(base1 == (2 * q + 1) * stride + rd) by (nonlinear_arith)
            requires
                base1 == (2 * q) * stride + rd + stride,
        ;
        vstd::arithmetic::div_mod::lemma_fundamental_div_mod_converse(
            base1,
            stride,
            2 * q + 1,
            rd,
        );
        assert(blow_base(base1, stride) == m);
        // interpolating between two equal values returns that value
        let y = t[m];
        assert(fsub(y, y) == 0) by {
            vstd::arithmetic::div_mod::lemma_small_mod(0nat, P as nat);
        };
        assert(r * 0 == 0) by (nonlinear_arith);
        assert(fmul(r, 0) == 0) by {
            vstd::arithmetic::div_mod::lemma_small_mod(0nat, P as nat);
        };
        assert(lin(y, y, r) == y) by {
            vstd::arithmetic::div_mod::lemma_small_mod(y as nat, P as nat);
        };
    }
    assert(fold_spec(bt, stride, r) =~= t);
}

/// Fold variable 0 at the first `count` coordinates of `pts` and return the
/// partially evaluated table.
pub(crate) fn fold_prefix(table: Vec<Fq>, pts: &Vec<Fq>, count: usize) -> (r: Result<Vec<Fq>, Error>)
    ensures
        r is Ok <==> count <= pts@.len() && is_pow2_len(table@.len()) && count as nat <= num_vars(
            table@.len(),
        ),
        r matches Ok(out) ==> {
            &&& out@.len() == pow2((num_vars(table@.len()) - count as nat) as nat)
            &&& table_view(out@) == fold0_chain(
                table_view(table@),
                table_view(pts@.take(count as int)),
            )
        },
{
    if count > pts.len() {
        return Err(Error::LengthMismatch);
    }
    let n = match log2_exact(table.len()) {
        Some(n) => n,
        None => {
            return Err(Error::LengthMismatch);
        },
    };
    if count > n {
        return Err(Error::InvalidVariableIndex);
    }
    let ghost orig: Seq<int> = table_view(table@);
    let mut cur = table;
    let mut i: usize = 0;
    while i < count
        invariant
            i <= count,
            count <= n,
            n <= 63,
            count <= pts@.len(),
            pow2(n as nat) <= usize::MAX as nat,
            cur@.len() == pow2((n - i) as nat),
            table_view(cur@) == fold0_chain(orig, table_view(pts@.take(i as int))),
        decreases count - i,
    {
        proof {
            vstd::arithmetic::power2::lemma_pow2_adds((n - i - 1) as nat, 1);
            assert(pow2(1) == 2) by { vstd::arithmetic::power2::lemma2_to64(); };
            vstd::arithmetic::power2::lemma_pow2_pos((n - i - 1) as nat);
            vstd::arithmetic::div_mod::lemma_mod_self_0(cur@.len() as int);
        }
        let stride = cur.len() / 2;
        let rpt = pts[i];
        let next = fold_core(&cur, stride, rpt);
        proof {
            let pts_i = table_view(pts@.take(i as int));
            assert(pts@.take(i as int + 1) =~= pts@.take(i as int).push(pts@[i as int]));
            assert(table_view(pts@.take(i as int + 1)) =~= pts_i.push(rpt.as_int()));
            lemma_fold0_chain_snoc(orig, pts_i, rpt.as_int());
        }
        cur = next;
        i += 1;
    }
    Ok(cur)
}

/// A table folded at least once holds canonical representatives.
pub proof fn lemma_fold0_chain_ok(t: Seq<int>, pts: Seq<int>)
    requires
        pts.len() >= 1,
    ensures
        table_ok(fold0_chain(t, pts)),
    decreases pts.len(),
{
    let t1 = fold_spec(t, t.len() as int / 2, pts[0]);
    if pts.len() == 1 {
        assert(pts.drop_first() =~= Seq::<int>::empty());
        assert(fold0_chain(t, pts) == fold0_chain(t1, pts.drop_first()));
        lemma_fold_spec_ok(t, t.len() as int / 2, pts[0]);
    } else {
        lemma_fold0_chain_ok(t1, pts.drop_first());
    }
}

/// The pointwise form of the blow-up's independence: the two entries of
/// the blown-up table that differ only in the injected variable's bit both
/// read the source entry, so flipping that bit never changes the value.
pub proof fn lemma_blow_up_pointwise(t: Seq<int>, stride: int, m: int)
    requires
        stride >= 1,
        t.len() >= 1,
        t.len() as int % stride == 0,
        0 <= m < t.len(),
    ensures
        blow_spec(t, stride)[fold_base(m, stride)] == t[m],
        blow_spec(t, stride)[fold_base(m, stride) + stride] == t[m],
{
    let bt = blow_spec(t, stride);
    assert(bt.len() as int % (2 * stride) == 0) by {
        let b = t.len() as int / stride;
        vstd::arithmetic::div_mod::lemma_fundamental_div_mod(t.len() as int, stride);
        assert(t.len() as int == stride * b);
        assert(2 * (stride * b) == b * (2 * stride)) by (nonlinear_arith);
        vstd::arithmetic::div_mod::lemma_mod_multiples_basic(b, 2 * stride);
    };
    lemma_fold_base_bounds(m, stride, bt.len() as int);
    let q = m / stride;
    let rd = m % stride;
    let base = fold_base(m, stride);
    vstd::arithmetic::div_mod::lemma_fundamental_div_mod(m, stride);
    assert(base == (2 * q) * stride + rd && 0 <= rd < stride) by {
        assert(2 * stride * q == (2 * q) * stride) by (nonlinear_arith);
    };
    assert(base == q * (2 * stride) + rd) by {
        assert((2 * q) * stride == q * (2 * stride)) by (nonlinear_arith);
    };
    vstd::arithmetic::div_mod::lemma_fundamental_div_mod_converse(base, 2 * stride, q, rd);
    vstd::arithmetic::div_mod::lemma_fundamental_div_mod_converse(base, stride, 2 * q, rd);
    assert(blow_base(base, stride) == q * stride + rd);
    assert(q * stride == stride * q) by (nonlinear_arith);
    assert(blow_base(base, stride) == m);
    let base1 = base + stride;
    assert(base1 == q * (2 * stride) + (stride + rd));
    vstd::arithmetic::div_mod::lemma_fundamental_div_mod_converse(
        base1,
        2 * stride,
        q,
        stride + rd,
    );
    assert(base1 == (2 * q + 1) * stride + rd) by (nonlinear_arith)
        requires
            base1 == (2 * q) * stride + rd + stride,
    ;
    vstd::arithmetic::div_mod::lemma_fundamental_div_mod_converse(base1, stride, 2 * q + 1, rd);
    assert(blow_base(base1, stride) == m);
}

} // verus!
