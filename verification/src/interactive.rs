//! The interactive sum-check exchange: the prover sends a claimed sum and
//! the two half sums, the verifier checks them, answers with a uniformly
//! drawn challenge, and settles the final round against the original table.

use vstd::prelude::*;
use crate::field::{Fq, P, fadd};
use crate::error::Error;
use crate::mle::{table_view, mle_eval, is_pow2_len, num_vars};
use crate::gkr_sum_check::sum_vals;

verus! {

/// Relies on rand's `random`: an arbitrary machine word; nothing is
/// promised of its value.
#[verifier::external_body]
fn random_word() -> (r: u64) {
    rand::random()
}

/// A uniformly drawn field element: whatever word the generator returns,
/// reduced into the field.
fn random_field_element() -> (r: Fq)
    ensures
        0 <= r.as_int() < P,
{
    let w = random_word();
    let r = Fq::from(w);
    proof {
        vstd::arithmetic::div_mod::lemma_mod_bound(w as int, P as int);
    }
    r
}

/// The interactive sum-check prover: it holds the table being summed.
pub struct Prover {
    pub polynomial: Vec<Fq>,
}

impl Prover {
    pub fn init(polynomial: Vec<Fq>) -> (r: Prover)
        ensures
            r.polynomial@ == polynomial@,
    {
        Prover { polynomial }
    }

    /// The table's sum together with the sums of its two halves, the
    /// degree-one message of one round.
    pub fn generate_sum_and_univariate_poly(&mut self, evals: &[Fq]) -> (r: (Fq, Vec<Fq>))
        ensures
            *final(self) == *old(self),
            r.0.as_int() == sum_vals(table_view(evals@)),
            r.1@.len() == 2,
            r.1@[0].as_int() == sum_vals(table_view(evals@).take(evals@.len() as int / 2)),
            r.1@[1].as_int() == sum_vals(table_view(evals@).skip(evals@.len() as int / 2)),
    {
        let claimed_sum = crate::gkr_sum_check::sum_slice(evals, 0, evals.len());
        let half = evals.len() / 2;
        let first = crate::gkr_sum_check::sum_slice(evals, 0, half);
        let second = crate::gkr_sum_check::sum_slice(evals, half, evals.len());
        proof {
            let tv = table_view(evals@);
            assert(tv.subrange(0, tv.len() as int) =~= tv);
            assert(tv.subrange(0, tv.len() as int / 2) =~= tv.take(tv.len() as int / 2));
            assert(tv.subrange(tv.len() as int / 2, tv.len() as int) =~= tv.skip(
                tv.len() as int / 2,
            ));
        }
        (claimed_sum, vec![first, second])
    }

    /// Fold the table's first variable at the verifier's challenge: the
    /// table the next round runs on.
    pub fn proof_func(&mut self, polynomial: Vec<Fq>, rand_chal: Fq) -> (r: Result<Vec<Fq>, Error>)
        ensures
            *final(self) == *old(self),
            r is Ok <==> is_pow2_len(polynomial@.len()) && num_vars(polynomial@.len()) >= 1,
            r matches Ok(out) ==> table_view(out@) == crate::mle::fold_spec(
                table_view(polynomial@),
                polynomial@.len() as int / 2,
                rand_chal.as_int(),
            ),
    {
        let n = polynomial.len();
        match crate::mle::interpolate_then_evaluate_at_once(polynomial, 0, rand_chal) {
            Ok(out) => {
                proof {
                    crate::mle::lemma_stride_divides(num_vars(n as nat), 0);
                }
                Ok(out)
            },
            Err(e) => Err(e),
        }
    }
}

/// The interactive sum-check verifier: it holds the same table for the
/// final oracle check.
pub struct Verifier {
    pub polynomial: Vec<Fq>,
}

impl Verifier {
    pub fn init(polynomial: Vec<Fq>) -> (r: Verifier)
        ensures
            r.polynomial@ == polynomial@,
    {
        Verifier { polynomial }
    }

    /// Check one round message against the claimed sum and answer with a
    /// fresh random challenge.  The challenge is drawn anew each call, so
    /// nothing more than its range is promised.
    pub fn verify(&mut self, claimed_sum: Fq, univar_poly: Vec<Fq>) -> (r: Result<Fq, Error>)
        ensures
            *final(self) == *old(self),
            r is Ok <==> univar_poly@.len() >= 2 && fadd(
                univar_poly@[0].as_int(),
                univar_poly@[1].as_int(),
            ) == claimed_sum.as_int(),
            r matches Ok(c) ==> 0 <= c.as_int() < P,
            r matches Err(e) ==> e == Error::SoundnessCheckFailed,
    {
        if univar_poly.len() < 2 {
            return Err(Error::SoundnessCheckFailed);
        }
        let lhs = univar_poly[0].add(univar_poly[1]);
        proof {
            Fq::lemma_eq(lhs, claimed_sum);
        }
        if !(lhs == claimed_sum) {
            return Err(Error::SoundnessCheckFailed);
        }
        Ok(random_field_element())
    }

    /// The terminal oracle check: fold the held table at every challenge
    /// and compare with the last round message folded at the last
    /// challenge.
    pub fn oracle_check(&self, univar_poly: Vec<Fq>, rand_chal_array: Vec<Fq>) -> (r: Result<
        bool,
        Error,
    >)
        ensures
            r is Ok <==> rand_chal_array@.len() >= 1 && is_pow2_len(univar_poly@.len())
                && num_vars(univar_poly@.len()) >= 1 && is_pow2_len(self.polynomial@.len())
                && rand_chal_array@.len() <= num_vars(self.polynomial@.len()),
            r matches Ok(b) ==> (b <==> ({
                let k = rand_chal_array@.len() as int;
                mle_eval(table_view(self.polynomial@), table_view(rand_chal_array@)) == mle_eval(
                    table_view(univar_poly@),
                    seq![table_view(rand_chal_array@)[k - 1]],
                )
            })),
            r matches Err(e) ==> e == Error::SoundnessCheckFailed,
    {
        if rand_chal_array.len() == 0 {
            return Err(Error::SoundnessCheckFailed);
        }
        let last = rand_chal_array[rand_chal_array.len() - 1];
        let last_vec = vec![last];
        let one: usize = 1;
        let final_univar = match crate::mle::full_evaluate(&one, univar_poly, &last_vec) {
            Ok(v) => v,
            Err(_) => {
                return Err(Error::SoundnessCheckFailed);
            },
        };
        let count = rand_chal_array.len();
        let in_copy = crate::combined_polys::copy_table(&self.polynomial);
        let direct = match crate::mle::full_evaluate(&count, in_copy, &rand_chal_array) {
            Ok(v) => v,
            Err(_) => {
                return Err(Error::SoundnessCheckFailed);
            },
        };
        proof {
            Fq::lemma_eq(direct, final_univar);
            let rv = table_view(rand_chal_array@);
            assert(rand_chal_array@.take(count as int) =~= rand_chal_array@);
            assert(table_view(last_vec@.take(1)) =~= seq![rv[count - 1]]);
        }
        Ok(direct == final_univar)
    }
}

} // verus!
