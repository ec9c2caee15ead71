//! Binary representations of hypercube indices: the helpers that name a
//! table index by its bit string, enumerate the hypercube, and pair the
//! indices a fold combines.

use vstd::prelude::*;
use crate::field::Fq;
use crate::error::Error;
use crate::mle::{fold_base, lemma_fold_base_bounds, lemma_pow2_injective};
use vstd::arithmetic::power2::pow2;

verus! {

/// The digits of `v` in base two, read as a base-ten number: the form the
/// hypercube helpers hand indices around in.
pub open spec fn binary_as_decimal(v: nat) -> nat
    decreases v,
{
    if v == 0 {
        0
    } else {
        binary_as_decimal(v / 2) * 10 + v % 2
    }
}

/// The number written with `k` ones in base ten: the largest value
/// `binary_as_decimal` takes below `2^k`.
pub open spec fn repunit(k: nat) -> nat
    decreases k,
{
    if k == 0 {
        0
    } else {
        repunit((k - 1) as nat) * 10 + 1
    }
}

proof fn lemma_binary_as_decimal_bound(v: nat, k: nat)
    requires
        v < pow2(k),
    ensures
        binary_as_decimal(v) <= repunit(k),
    decreases k,
{
    if v == 0 {
    } else {
        if k == 0 {
            assert(pow2(0) == 1) by { vstd::arithmetic::power2::lemma2_to64(); };
        } else {
            assert(v / 2 < pow2((k - 1) as nat)) by {
                vstd::arithmetic::power2::lemma_pow2_adds((k - 1) as nat, 1);
                assert(pow2(1) == 2) by { vstd::arithmetic::power2::lemma2_to64(); };
            };
            lemma_binary_as_decimal_bound(v / 2, (k - 1) as nat);
        }
    }
}

proof fn lemma_binary_chars_len(v: nat, k: nat)
    requires
        v < pow2(k),
    ensures
        binary_chars(v).len() <= k,
    decreases k,
{
    if v == 0 {
    } else {
        if k == 0 {
            assert(pow2(0) == 1) by { vstd::arithmetic::power2::lemma2_to64(); };
        } else {
            assert(v / 2 < pow2((k - 1) as nat)) by {
                vstd::arithmetic::power2::lemma_pow2_adds((k - 1) as nat, 1);
                assert(pow2(1) == 2) by { vstd::arithmetic::power2::lemma2_to64(); };
            };
            lemma_binary_chars_len(v / 2, (k - 1) as nat);
        }
    }
}

proof fn lemma_repunit_ten()
    ensures
        repunit(10) == 1111111111,
{
    assert(repunit(0) == 0);
    assert(repunit(1) == 1);
    assert(repunit(2) == 11);
    assert(repunit(3) == 111);
    assert(repunit(4) == 1111);
    assert(repunit(5) == 11111);
    assert(repunit(6) == 111111);
    assert(repunit(7) == 1111111);
    assert(repunit(8) == 11111111);
    assert(repunit(9) == 111111111);
}

/// The bit string of `decimal_value`, `width`-padded, as a base-ten number.
/// The width only pads with leading zeros, so it does not change the value.
pub fn get_binary_value(decimal_value: u32, width: u32) -> (r: u32)
    requires
        decimal_value < 1024,
    ensures
        r as nat == binary_as_decimal(decimal_value as nat),
    decreases decimal_value,
{
    let _ = width;
    if decimal_value == 0 {
        0
    } else {
        proof {
            assert(pow2(9) == 512) by { vstd::arithmetic::power2::lemma2_to64(); };
            lemma_binary_as_decimal_bound((decimal_value / 2) as nat, 9);
            lemma_repunit_ten();
        }
        let rest = get_binary_value(decimal_value / 2, width);
        rest * 10 + decimal_value % 2
    }
}

/// The bits of `v`, most significant first, as characters, without leading
/// zeros.
pub open spec fn binary_chars(v: nat) -> Seq<char>
    decreases v,
{
    if v == 0 {
        Seq::empty()
    } else {
        binary_chars(v / 2).push(if v % 2 == 1 {
            '1'
        } else {
            '0'
        })
    }
}

/// The bits of `v`, left-padded with zeros to `width` characters where they
/// are fewer.
pub open spec fn padded_binary_chars(v: nat, width: nat) -> Seq<char> {
    if binary_chars(v).len() >= width {
        binary_chars(v)
    } else {
        Seq::new((width - binary_chars(v).len()) as nat, |i: int| '0') + binary_chars(v)
    }
}

fn binary_string_core(v: u32) -> (s: String)
    ensures
        s@ == binary_chars(v as nat),
    decreases v,
{
    if v == 0 {
        let s = String::from_str("");
        proof {
            reveal_strlit("");
            assert(s@ =~= binary_chars(0));
        }
        s
    } else {
        let mut s = binary_string_core(v / 2);
        if v % 2 == 1 {
            s.append("1");
            proof {
                reveal_strlit("1");
                assert(s@ =~= binary_chars(v as nat));
            }
        } else {
            s.append("0");
            proof {
                reveal_strlit("0");
                assert(s@ =~= binary_chars(v as nat));
            }
        }
        s
    }
}

/// The bit string of `decimal_value` as text, left-padded with zeros to
/// `width` characters.
pub fn get_binary_value_as_string(decimal_value: u32, width: u32) -> (s: String)
    ensures
        s@ == padded_binary_chars(decimal_value as nat, width as nat),
{
    let core = binary_string_core(decimal_value);
    proof {
        assert(pow2(32) == 0x100000000) by { vstd::arithmetic::power2::lemma2_to64(); };
        lemma_binary_chars_len(decimal_value as nat, 32);
    }
    let core_len = core.as_str().unicode_len();
    let mut s = String::from_str("");
    proof {
        reveal_strlit("");
    }
    let mut i: usize = core_len;
    while i < width as usize
        invariant
            core_len <= i,
            core_len >= width as usize ==> i == core_len,
            core_len < width as usize ==> i <= width as usize,
            core_len == core@.len(),
            core_len <= 32,
            s@ =~= Seq::new((i - core_len) as nat, |j: int| '0'),
        decreases width as int - i as int,
    {
        s.append("0");
        proof {
            reveal_strlit("0");
            assert(s@ =~= Seq::new((i + 1 - core_len) as nat, |j: int| '0'));
        }
        i += 1;
    }
    proof {
        assert(i == if core_len >= width as usize { core_len as int } else { width as int });
    }
    s.append(core.as_str());
    proof {
        assert(s@ =~= padded_binary_chars(decimal_value as nat, width as nat));
    }
    s
}

/// Every hypercube point of `no_of_vars` variables, in index order, each as
/// its bit string read as a base-ten number.
pub fn get_hypercube(no_of_vars: u32) -> (r: Vec<u32>)
    requires
        no_of_vars <= 10,
    ensures
        r@.len() == pow2(no_of_vars as nat),
        forall|i: int| 0 <= i < r@.len() ==> #[trigger] r@[i] as nat == binary_as_decimal(i as nat),
{
    proof {
        assert(pow2(10) == 1024) by { vstd::arithmetic::power2::lemma2_to64(); };
        if (no_of_vars as nat) < 10 {
            vstd::arithmetic::power2::lemma_pow2_strictly_increases(no_of_vars as nat, 10);
        }
    }
    let count = crate::mle::pow2_exec(no_of_vars as usize);
    let mut out: Vec<u32> = Vec::new();
    let mut i: usize = 0;
    while i < count
        invariant
            i <= count,
            count as nat == pow2(no_of_vars as nat),
            count <= 1024,
            out@.len() == i,
            forall|j: int|
                0 <= j < i ==> #[trigger] out@[j] as nat == binary_as_decimal(j as nat),
        decreases count - i,
    {
        out.push(get_binary_value(i as u32, no_of_vars));
        i += 1;
    }
    out
}

/// The index pairs a fold at `var_index` combines: entry `m` holds the two
/// hypercube indices that agree everywhere but in that variable's bit, the
/// bit clear on the left and set on the right.  A single-variable cube pairs
/// its two points whatever index is named.
pub fn pair_index(no_of_vars: u32, var_index: usize) -> (r: Vec<(u32, u32)>)
    requires
        1 <= no_of_vars <= 31,
        no_of_vars == 1 || var_index < no_of_vars as usize,
    ensures
        r@.len() == pow2((no_of_vars - 1) as nat),
        forall|m: int|
            0 <= m < r@.len() ==> #[trigger] r@[m] == {
                let stride = if no_of_vars == 1 {
                    1int
                } else {
                    pow2((no_of_vars - 1 - var_index as u32) as nat) as int
                };
                ((fold_base(m, stride)) as u32, (fold_base(m, stride) + stride) as u32)
            },
{
    let n = no_of_vars as usize;
    let v: usize = if n == 1 {
        0
    } else {
        var_index
    };
    proof {
        crate::mle::lemma_stride_divides(n as nat, v as nat);
        assert(pow2((n - 1 - v) as nat) <= pow2(n as nat)) by {
            if n - 1 - v < n {
                vstd::arithmetic::power2::lemma_pow2_strictly_increases((n - 1 - v) as nat, n as nat);
            }
        };
        assert(pow2(n as nat) <= pow2(31)) by {
            if (n as nat) < 31 {
                vstd::arithmetic::power2::lemma_pow2_strictly_increases(n as nat, 31);
            }
        };
        assert(pow2(31) == 0x80000000) by { vstd::arithmetic::power2::lemma2_to64(); };
        vstd::arithmetic::power2::lemma_pow2_pos((n - 1 - v) as nat);
        vstd::arithmetic::power2::lemma_pow2_pos((n - 1) as nat);
    }
    let stride = crate::mle::pow2_exec(n - 1 - v);
    let half = crate::mle::pow2_exec(n - 1);
    let ghost len: int = pow2(n as nat) as int;
    proof {
        vstd::arithmetic::power2::lemma_pow2_adds((n - 1) as nat, 1);
        assert(pow2(1) == 2) by { vstd::arithmetic::power2::lemma2_to64(); };
    }
    let mut out: Vec<(u32, u32)> = Vec::new();
    let mut m: usize = 0;
    while m < half
        invariant
            m <= half,
            stride >= 1,
            half as nat == pow2((n - 1) as nat),
            len == pow2(n as nat),
            len == 2 * half,
            len <= 0x80000000,
            len % (2 * stride as int) == 0,
            out@.len() == m,
            forall|k: int|
                0 <= k < m ==> #[trigger] out@[k] == ((fold_base(k, stride as int)) as u32, (
                fold_base(k, stride as int) + stride) as u32),
        decreases half - m,
    {
        proof {
            lemma_fold_base_bounds(m as int, stride as int, len);
        }
        let left = (m / stride) * (2 * stride) + m % stride;
        let right = left + stride;
        out.push((left as u32, right as u32));
        m += 1;
    }
    proof {
        if no_of_vars == 1 {
            assert(pow2(0) == 1) by { vstd::arithmetic::power2::lemma2_to64(); };
        }
    }
    out
}

/// The value pairs a fold at `var_index` combines, in fold order: the value
/// with the variable's bit clear on the left and the partner with it set on
/// the right.
pub fn pair_values(no_of_vars: u32, evals: Vec<Fq>, var_index: usize) -> (r: Result<
    Vec<(Fq, Fq)>,
    Error,
>)
    ensures
        r is Ok <==> evals@.len() == pow2(no_of_vars as nat) && (var_index as nat) < (
        no_of_vars as nat),
        r matches Ok(out) ==> {
            &&& out@.len() == evals@.len() / 2
            &&& forall|m: int|
                0 <= m < out@.len() ==> #[trigger] out@[m] == {
                    let stride = pow2((no_of_vars - 1 - var_index as u32) as nat) as int;
                    (evals@[fold_base(m, stride)], evals@[fold_base(m, stride) + stride])
                }
        },
{
    let n = match crate::mle::log2_exact(evals.len()) {
        Some(n) => n,
        None => {
            proof {
                if evals@.len() == pow2(no_of_vars as nat) {
                }
            }
            return Err(Error::LengthMismatch);
        },
    };
    if n != no_of_vars as usize {
        proof {
            if evals@.len() == pow2(no_of_vars as nat) {
                lemma_pow2_injective(n as nat, no_of_vars as nat);
            }
        }
        return Err(Error::LengthMismatch);
    }
    if var_index >= n {
        return Err(Error::InvalidVariableIndex);
    }
    proof {
        crate::mle::lemma_stride_divides(n as nat, var_index as nat);
        assert(pow2((n - 1 - var_index) as nat) <= pow2(n as nat)) by {
            if n - 1 - var_index < n {
                vstd::arithmetic::power2::lemma_pow2_strictly_increases(
                    (n - 1 - var_index) as nat,
                    n as nat,
                );
            }
        };
        vstd::arithmetic::power2::lemma_pow2_pos((n - 1 - var_index) as nat);
    }
    let stride = crate::mle::pow2_exec(n - 1 - var_index);
    let half = evals.len() / 2;
    let mut out: Vec<(Fq, Fq)> = Vec::new();
    let mut m: usize = 0;
    while m < half
        invariant
            m <= half,
            stride >= 1,
            half == evals@.len() / 2,
            evals@.len() <= usize::MAX,
            evals@.len() as int % (2 * stride as int) == 0,
            out@.len() == m,
            forall|k: int|
                0 <= k < m ==> #[trigger] out@[k] == (
                    evals@[fold_base(k, stride as int)],
                    evals@[fold_base(k, stride as int) + stride],
                ),
        decreases half - m,
    {
        proof {
            if (evals@.len() as int) < 2 * (stride as int) {
                vstd::arithmetic::div_mod::lemma_small_mod(evals@.len(), (2 * stride) as nat);
                assert(false);
            }
            lemma_fold_base_bounds(m as int, stride as int, evals@.len() as int);
        }
        let left = (m / stride) * (2 * stride) + m % stride;
        let y0 = evals[left];
        let y1 = evals[left + stride];
        out.push((y0, y1));
        m += 1;
    }
    Ok(out)
}

/// A multilinear polynomial carried as its evaluation table.
#[derive(Debug, Clone, PartialEq)]
pub struct MultilinearPoly {
    pub coef_and_exp: Vec<Fq>,
}

impl MultilinearPoly {
    pub fn new(coef: Vec<Fq>) -> (r: Self)
        ensures
            r.coef_and_exp@ == coef@,
    {
        MultilinearPoly { coef_and_exp: coef }
    }
}

} // verus!
