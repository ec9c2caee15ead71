//! The sum-check round protocol over a `SumPoly`: the prover reduces a
//! claimed hypercube sum to one univariate round polynomial per variable,
//! and the verifier replays the transcript, holding every round polynomial
//! to `g(0) + g(1) = claim` before adopting `g(r)` as the next claim.

use vstd::prelude::*;
use crate::field::{Fq, P, fadd, fsub, fmul};
use crate::error::Error;
use crate::mle::{table_view, table_ok, lin, fold_spec, fold_base, is_pow2_len, num_vars, lemma_pow2_injective};
use crate::combined_polys::{SumPoly, sp_ok_tables, sp_fold_spec, sp_fold_chain, lemma_sp_fold_chain_snoc, sp_reduce_spec, fold_tables_spec, fold_one};
use crate::univar::{Univariatepoly, poly_eval};
use crate::transcript::{Transcript, conv_poly_to_byte, poly_bytes, squeeze_val, squeeze_state};
use crate::field::be8;
use vstd::arithmetic::power2::pow2;

verus! {

/// The sum of a list of field values.
pub open spec fn sum_vals(l: Seq<int>) -> int
    decreases l.len(),
{
    if l.len() == 0 {
        0
    } else {
        fadd(sum_vals(l.drop_last()), l.last())
    }
}

/// One round's consistency check: the round polynomial must account for the
/// held claim across the two boolean values of the round's variable.
pub open spec fn round_ok(claim: int, poly: Seq<int>) -> bool {
    fadd(poly_eval(poly, 0), poly_eval(poly, 1)) == claim
}

/// The transcript bytes after absorbing one round polynomial.
pub open spec fn round_state(state: Seq<u8>, poly: Seq<int>) -> Seq<u8> {
    state + poly_bytes(poly)
}

/// Whether a verifier that starts from `claim` and transcript bytes
/// `state` accepts the whole list of round polynomials.
pub open spec fn chain_accepts(polys: Seq<Seq<int>>, claim: int, state: Seq<u8>) -> bool
    decreases polys.len(),
{
    if polys.len() == 0 {
        true
    } else {
        let st = round_state(state, polys[0]);
        round_ok(claim, polys[0]) && chain_accepts(
            polys.drop_first(),
            poly_eval(polys[0], squeeze_val(st)),
            squeeze_state(st),
        )
    }
}

/// The challenges a transcript starting at `state` derives for the list of
/// round polynomials.
pub open spec fn chain_challenges(polys: Seq<Seq<int>>, state: Seq<u8>) -> Seq<int>
    decreases polys.len(),
{
    if polys.len() == 0 {
        Seq::empty()
    } else {
        let st = round_state(state, polys[0]);
        seq![squeeze_val(st)] + chain_challenges(polys.drop_first(), squeeze_state(st))
    }
}

/// The transcript bytes after all rounds.
pub open spec fn chain_state(polys: Seq<Seq<int>>, state: Seq<u8>) -> Seq<u8>
    decreases polys.len(),
{
    if polys.len() == 0 {
        state
    } else {
        chain_state(polys.drop_first(), squeeze_state(round_state(state, polys[0])))
    }
}

/// The claim left standing after all rounds: each round's polynomial
/// evaluated at that round's challenge.
pub open spec fn chain_final(polys: Seq<Seq<int>>, claim: int, state: Seq<u8>) -> int
    decreases polys.len(),
{
    if polys.len() == 0 {
        claim
    } else {
        let st = round_state(state, polys[0]);
        chain_final(polys.drop_first(), poly_eval(polys[0], squeeze_val(st)), squeeze_state(st))
    }
}

/// Appending a round polynomial extends the challenge list by one squeeze
/// from the state all earlier rounds left behind.
#[verifier::rlimit(100)]
pub proof fn lemma_chain_snoc(polys: Seq<Seq<int>>, p: Seq<int>, state: Seq<u8>)
    ensures
        chain_challenges(polys.push(p), state) == chain_challenges(polys, state).push(
            squeeze_val(round_state(chain_state(polys, state), p)),
        ),
        chain_state(polys.push(p), state) == squeeze_state(
            round_state(chain_state(polys, state), p),
        ),
    decreases polys.len(),
{
    if polys.len() == 0 {
        assert(polys.push(p)[0] == p);
        assert(polys.push(p).drop_first() =~= Seq::<Seq<int>>::empty());
        assert(chain_state(polys, state) == state);
        assert(chain_state(polys.push(p), state) == chain_state(
            Seq::<Seq<int>>::empty(),
            squeeze_state(round_state(state, p)),
        ));
        let x = squeeze_val(round_state(state, p));
        let st1 = squeeze_state(round_state(state, p));
        assert(chain_challenges(polys.push(p), state) == seq![x] + chain_challenges(
            polys.push(p).drop_first(),
            st1,
        ));
        assert(chain_challenges(polys.push(p).drop_first(), st1) =~= Seq::<int>::empty());
        assert(chain_challenges(polys.push(p).drop_first(), st1) == Seq::<int>::empty());
        assert(seq![x] + Seq::<int>::empty() =~= chain_challenges(polys, state).push(x));
    } else {
        let st = squeeze_state(round_state(state, polys[0]));
        assert(polys.push(p).drop_first() =~= polys.drop_first().push(p));
        assert(polys.push(p)[0] == polys[0]);
        lemma_chain_snoc(polys.drop_first(), p, st);
        let a = seq![squeeze_val(round_state(state, polys[0]))];
        let b = chain_challenges(polys.drop_first(), st);
        let x = squeeze_val(round_state(chain_state(polys.drop_first(), st), p));
        assert(a + b.push(x) =~= (a + b).push(x));
    }
}

/// Peeling one round off the tail of the chain.
pub proof fn lemma_chain_step(polys: Seq<Seq<int>>, i: int, claim: int, cur: Seq<u8>)
    requires
        0 <= i < polys.len(),
    ensures
        chain_accepts(polys.skip(i), claim, cur) == (round_ok(claim, polys[i]) && chain_accepts(
            polys.skip(i + 1),
            poly_eval(polys[i], squeeze_val(round_state(cur, polys[i]))),
            squeeze_state(round_state(cur, polys[i])),
        )),
        chain_challenges(polys.skip(i), cur) == seq![
            squeeze_val(round_state(cur, polys[i])),
        ] + chain_challenges(polys.skip(i + 1), squeeze_state(round_state(cur, polys[i]))),
        chain_final(polys.skip(i), claim, cur) == chain_final(
            polys.skip(i + 1),
            poly_eval(polys[i], squeeze_val(round_state(cur, polys[i]))),
            squeeze_state(round_state(cur, polys[i])),
        ),
{
    assert(polys.skip(i)[0] == polys[i]);
    assert(polys.skip(i).drop_first() =~= polys.skip(i + 1));
}

/// Concatenation shifts one element from the head of its right part to the
/// tail of its left part.
pub proof fn lemma_concat_shift(a: Seq<int>, x: int, b: Seq<int>)
    ensures
        a + (seq![x] + b) == a.push(x) + b,
{
    assert(a + (seq![x] + b) =~= a.push(x) + b);
}

/// Whether every factor table of every term has the same power-of-two
/// length.
pub open spec fn uniform_tables(l: Seq<Seq<Seq<int>>>, n: nat) -> bool {
    forall|k: int, j: int|
        0 <= k < l.len() && 0 <= j < l[k].len() ==> (#[trigger] l[k][j]).len() == pow2(n)
}

/// A power of two names its own exponent.
pub(crate) proof fn lemma_num_vars_pow2(m: nat)
    ensures
        is_pow2_len(pow2(m)),
        num_vars(pow2(m)) == m,
{
    assert(is_pow2_len(pow2(m)));
    if num_vars(pow2(m)) != m {
        lemma_pow2_injective(num_vars(pow2(m)), m);
    }
}

/// Folding one term of uniform non-constant tables keeps every table and
/// halves each.
proof fn lemma_fold_tables_uniform(pp: Seq<Seq<int>>, m: nat, rv: int)
    requires
        m >= 1,
        forall|j: int| 0 <= j < pp.len() ==> (#[trigger] pp[j]).len() == pow2(m),
    ensures
        fold_tables_spec(pp, 0, rv).len() == pp.len(),
        forall|j: int|
            0 <= j < pp.len() ==> (#[trigger] fold_tables_spec(pp, 0, rv)[j]).len() == pow2(
                (m - 1) as nat,
            ),
    decreases pp.len(),
{
    vstd::arithmetic::power2::lemma_pow2_pos(m);
    vstd::arithmetic::power2::lemma_pow2_pos((m - 1) as nat);
    crate::mle::lemma_stride_divides(m, 0);
    if pp.len() > 0 {
        lemma_fold_tables_uniform(pp.drop_last(), m, rv);
        lemma_num_vars_pow2(m);
        assert(pp.last().len() == pow2(m));
        assert(pp.last().len() != 1) by {
            vstd::arithmetic::power2::lemma_pow2_strictly_increases(0, m);
            assert(pow2(0) == 1) by { vstd::arithmetic::power2::lemma2_to64(); };
        };
        assert(fold_one(pp.last(), 0, rv).len() == pow2((m - 1) as nat)) by {
            assert(fold_one(pp.last(), 0, rv).len() == pp.last().len() / 2);
        };
    }
}

/// Every stage of a uniformly shaped sum of products stays foldable.
proof fn lemma_sp_fold_uniform(l: Seq<Seq<Seq<int>>>, m: nat, rv: int)
    requires
        m >= 1,
        uniform_tables(l, m),
    ensures
        sp_ok_tables(l, 0),
        sp_fold_spec(l, 0, rv).len() == l.len(),
        uniform_tables(sp_fold_spec(l, 0, rv), (m - 1) as nat),
{
    vstd::arithmetic::power2::lemma_pow2_pos(m);
    assert forall|k: int| 0 <= k < l.len() implies crate::combined_polys::ok_tables(
        #[trigger] l[k],
        0,
    ) by {
        lemma_num_vars_pow2(m);
        assert forall|j: int|
            0 <= j < l[k].len() && (#[trigger] l[k][j]).len() != 1 implies is_pow2_len(
            l[k][j].len(),
        ) && 0 < num_vars(l[k][j].len()) by {
            assert(l[k][j].len() == pow2(m));
        }
    }
    assert forall|k: int, j: int|
        0 <= k < sp_fold_spec(l, 0, rv).len() && 0 <= j < sp_fold_spec(l, 0, rv)[k].len()
        implies (#[trigger] sp_fold_spec(l, 0, rv)[k][j]).len() == pow2((m - 1) as nat) by {
        assert(sp_fold_spec(l, 0, rv)[k] == fold_tables_spec(l[k], 0, rv));
        lemma_fold_tables_uniform(l[k], m, rv);
    }
}

/// The view of a list of round polynomials as coefficient sequences.
pub open spec fn rounds_view(polys: Seq<Univariatepoly>) -> Seq<Seq<int>> {
    polys.map_values(|q: Univariatepoly| q.coefs())
}

/// A sum-check proof: the asserted sum, one univariate polynomial per
/// round, and the challenges the transcript yielded while it was built.
#[derive(Debug, Clone)]
pub struct Proof {
    pub initial_claimed_sum: Fq,
    pub univars_and_sums: Vec<Univariatepoly>,
    pub rand_challenges: Vec<Fq>,
}

/// The sum-check prover: the polynomial being summed, the transcript the
/// challenges come from, and the sum it stands behind.
pub struct Prover {
    pub poly_vec: SumPoly,
    pub transcript: Transcript,
    pub initial_claimed_sum: Fq,
}

impl Prover {
    pub fn init(poly_vec: SumPoly, transcript: Transcript, initial_claimed_sum: Fq) -> (r: Prover)
        ensures
            r.poly_vec == poly_vec,
            r.transcript == transcript,
            r.initial_claimed_sum == initial_claimed_sum,
    {
        Prover { poly_vec, transcript, initial_claimed_sum }
    }

    /// The hypercube sum of a table together with the two half sums that
    /// describe the round's degree-one message.
    pub fn generate_sum_and_univariate_poly(&mut self, evals: &[Fq]) -> (r: (Fq, Vec<Fq>))
        ensures
            r.0.as_int() == sum_vals(table_view(evals@)),
            r.1@.len() == 2,
            r.1@[0].as_int() == sum_vals(table_view(evals@).take(evals@.len() as int / 2)),
            r.1@[1].as_int() == sum_vals(table_view(evals@).skip(evals@.len() as int / 2)),
            *final(self) == *old(self),
    {
        let claimed_sum = sum_slice(evals, 0, evals.len());
        let half = evals.len() / 2;
        let first = sum_slice(evals, 0, half);
        let second = sum_slice(evals, half, evals.len());
        proof {
            let tv = table_view(evals@);
            assert(tv.subrange(0, tv.len() as int) =~= tv);
            assert(tv.subrange(0, tv.len() as int / 2) =~= tv.take(tv.len() as int / 2));
            assert(tv.subrange(tv.len() as int / 2, tv.len() as int) =~= tv.skip(
                tv.len() as int / 2,
            ));
        }
        (claimed_sum, vec![first, second])
    }

    /// Run every round: sample the current polynomial at `degree + 1`
    /// points, interpolate the round message, absorb it, squeeze the round
    /// challenge, and fold.  On a transcript that starts empty, the
    /// recorded challenges are exactly the ones a verifier re-derives from
    /// the claim and the round polynomials; on a uniformly shaped input,
    /// with the modulus checking prime, the prover always succeeds.
    #[verifier::rlimit(100)]
    pub fn generate_gkr_sumcheck_proof(&mut self, sum_poly: SumPoly, claimed_sum: Fq, total_bc_bits: u32) -> (r:
        Result<Proof, Error>)
        ensures
            (crate::field::is_prime(P as nat) && uniform_tables(
                sum_poly.view_terms(),
                total_bc_bits as nat,
            )) ==> r is Ok,
            r matches Ok(proof) ==> ({
                // honesty of the rounds: each round polynomial passes
                // through the true sample sums of the successively folded
                // polynomial
                let terms = sum_poly.view_terms();
                let deg = if terms.len() == 0 {
                    0int
                } else {
                    terms[0].len() as int
                };
                let chalv = table_view(proof.rand_challenges@);
                deg + 1 <= P ==> forall|j: int, t: int|
                    0 <= j < total_bc_bits as int && 0 <= t <= deg ==> #[trigger] poly_eval(
                        rounds_view(proof.univars_and_sums@)[j],
                        t % (P as int),
                    ) == sum_vals(
                        sp_reduce_spec(
                            sp_fold_spec(sp_fold_chain(terms, chalv.take(j)), 0, t % (P as int)),
                        ),
                    )
            }),
            r matches Ok(proof) ==> {
                &&& proof.initial_claimed_sum == claimed_sum
                &&& proof.univars_and_sums@.len() == total_bc_bits as int
                &&& proof.rand_challenges@.len() == total_bc_bits as int
                &&& table_view(proof.rand_challenges@) == chain_challenges(
                    rounds_view(proof.univars_and_sums@),
                    old(self).transcript.bytes() + be8(claimed_sum.as_int()),
                )
                &&& final(self).transcript.bytes() == chain_state(
                    rounds_view(proof.univars_and_sums@),
                    old(self).transcript.bytes() + be8(claimed_sum.as_int()),
                )
            },
            r matches Ok(proof) ==> ({
                // the round polynomials respect the degree bound: one
                // coefficient per interpolation point
                let terms = sum_poly.view_terms();
                let deg = if terms.len() == 0 {
                    0int
                } else {
                    terms[0].len() as int
                };
                forall|j: int|
                    0 <= j < total_bc_bits as int ==> (#[trigger] proof.univars_and_sums@[j]).coef@.len()
                        <= deg + 1
            }),
    {
        let mut round_poly: Vec<Univariatepoly> = Vec::new();
        let claim_bytes = claimed_sum.to_bytes();
        self.transcript.absorb(claim_bytes.as_slice());
        let ghost st0: Seq<u8> = self.transcript.bytes();
        let ghost terms0: Seq<Seq<Seq<int>>> = sum_poly.view_terms();
        let ghost cond0: bool = crate::field::is_prime(P as nat) && uniform_tables(
            terms0,
            total_bc_bits as nat,
        );
        let sumpoly_degree = sum_poly.degree();
        let ghost degv: int = if terms0.len() == 0 {
            0int
        } else {
            terms0[0].len() as int
        };
        let mut current_poly = sum_poly;
        let mut rand_challenges: Vec<Fq> = Vec::new();
        let mut r: u32 = 0;
        while r < total_bc_bits
            invariant
                r <= total_bc_bits,
                round_poly@.len() == r as int,
                rand_challenges@.len() == r as int,
                cond0 == (crate::field::is_prime(P as nat) && uniform_tables(
                    sum_poly.view_terms(),
                    total_bc_bits as nat,
                )),
                cond0 ==> uniform_tables(
                    current_poly.view_terms(),
                    (total_bc_bits - r) as nat,
                ),
                terms0 == sum_poly.view_terms(),
                degv == (if terms0.len() == 0 {
                    0int
                } else {
                    terms0[0].len() as int
                }),
                sumpoly_degree as int == degv,
                current_poly.view_terms() == sp_fold_chain(
                    terms0,
                    table_view(rand_challenges@),
                ),
                degv + 1 <= P ==> forall|j: int, t: int|
                    0 <= j < r as int && 0 <= t <= degv ==> #[trigger] poly_eval(
                        rounds_view(round_poly@)[j],
                        t % (P as int),
                    ) == sum_vals(
                        sp_reduce_spec(
                            sp_fold_spec(
                                sp_fold_chain(terms0, table_view(rand_challenges@).take(j)),
                                0,
                                t % (P as int),
                            ),
                        ),
                    ),
                self.transcript.bytes() == chain_state(rounds_view(round_poly@), st0),
                table_view(rand_challenges@) == chain_challenges(rounds_view(round_poly@), st0),
                forall|j: int|
                    0 <= j < r as int ==> (#[trigger] round_poly@[j]).coef@.len() <= degv + 1,
            decreases total_bc_bits - r,
        {
            let ghost cur_terms: Seq<Seq<Seq<int>>> = current_poly.view_terms();
            let mut sample_sums: Vec<Fq> = Vec::new();
            let mut xs: Vec<Fq> = Vec::new();
            let mut i: usize = 0;
            let mut done = false;
            while !done
                invariant
                    i <= sumpoly_degree,
                    done ==> i == sumpoly_degree,
                    r < total_bc_bits,
                    cur_terms == current_poly.view_terms(),
                    cond0 == (crate::field::is_prime(P as nat) && uniform_tables(
                        sum_poly.view_terms(),
                        total_bc_bits as nat,
                    )),
                    cond0 ==> uniform_tables(
                        current_poly.view_terms(),
                        (total_bc_bits - r) as nat,
                    ),
                    sample_sums@.len() == (if done {
                        i + 1
                    } else {
                        i as int
                    }),
                    xs@.len() == sample_sums@.len(),
                    forall|t: int|
                        0 <= t < sample_sums@.len() ==> 0 <= (#[trigger] sample_sums@[t]).as_int()
                            < P,
                    forall|t: int|
                        0 <= t < sample_sums@.len() ==> (#[trigger] sample_sums@[t]).as_int()
                            == sum_vals(
                            sp_reduce_spec(sp_fold_spec(cur_terms, 0, t % (P as int))),
                        ),
                    forall|t: int|
                        0 <= t < xs@.len() ==> (#[trigger] xs@[t]).as_int() == t % (P as int),
                decreases sumpoly_degree - i + (if done {
                    0int
                } else {
                    1int
                }),
            {
                let point = Fq::from(i as u64);
                proof {
                    if cond0 {
                        lemma_sp_fold_uniform(
                            current_poly.view_terms(),
                            (total_bc_bits - r) as nat,
                            point.as_int(),
                        );
                    }
                }
                let partially_evaluated = match current_poly.partial_evaluate(0, point) {
                    Ok(q) => q,
                    Err(e) => {
                        proof {
                            if cond0 {
                                assert(false);
                            }
                        }
                        return Err(e);
                    },
                };
                let reduced = partially_evaluated.reduce();
                let s = sum_slice(reduced.as_slice(), 0, reduced.len());
                proof {
                    let tv = table_view(reduced@);
                    assert(tv.subrange(0, tv.len() as int) =~= tv);
                    if tv.len() == 0 {
                    } else {
                        vstd::arithmetic::div_mod::lemma_mod_bound(
                            sum_vals(tv.drop_last()) + tv.last(),
                            P as int,
                        );
                    }
                }
                sample_sums.push(s);
                xs.push(point);
                if i == sumpoly_degree {
                    done = true;
                } else {
                    i += 1;
                }
            }
            let ghost xsv: Seq<int> = table_view(xs@);
            let ghost ysv: Seq<int> = table_view(sample_sums@);
            let univar = match Univariatepoly::interpolate(xs, sample_sums) {
                Ok(q) => q,
                Err(e) => {
                    proof {
                        if cond0 {
                            assert(false);
                        }
                    }
                    return Err(e);
                },
            };
            let bytes = conv_poly_to_byte(&univar.coef);
            self.transcript.absorb(bytes.as_slice());
            let chal = self.transcript.squeeze();
            let ghost prev_rounds = rounds_view(round_poly@);
            let ghost prev_chalv = table_view(rand_challenges@);
            let ghost uv = univar.coefs();
            round_poly.push(univar);
            rand_challenges.push(chal);
            proof {
                if cond0 {
                    lemma_sp_fold_uniform(
                        current_poly.view_terms(),
                        (total_bc_bits - r) as nat,
                        chal.as_int(),
                    );
                }
            }
            let next_poly = match current_poly.partial_evaluate(0, chal) {
                Ok(q) => q,
                Err(e) => {
                    proof {
                        if cond0 {
                            assert(false);
                        }
                    }
                    return Err(e);
                },
            };
            current_poly = next_poly;
            proof {
                // the fold chain and the recorded honesty facts advance by
                // one round
                assert(table_view(rand_challenges@) =~= prev_chalv.push(chal.as_int()));
                lemma_sp_fold_chain_snoc(terms0, prev_chalv, chal.as_int());
                assert(current_poly.view_terms() == sp_fold_chain(
                    terms0,
                    table_view(rand_challenges@),
                ));
                assert forall|j: int| 0 <= j <= r as int implies #[trigger] table_view(
                    rand_challenges@,
                ).take(j) == prev_chalv.take(j) by {
                    assert(table_view(rand_challenges@).take(j) =~= prev_chalv.take(j));
                }
                if degv + 1 <= P {
                    assert(crate::univar::distinct_vals(xsv)) by {
                        assert forall|a: int, b: int| 0 <= a < b < xsv.len() implies xsv[a]
                            != xsv[b] by {
                            vstd::arithmetic::div_mod::lemma_small_mod(a as nat, P as nat);
                            vstd::arithmetic::div_mod::lemma_small_mod(b as nat, P as nat);
                        }
                    };
                    assert(prev_chalv.take(r as int) =~= prev_chalv);
                    assert forall|t: int| 0 <= t <= degv implies #[trigger] poly_eval(
                        uv,
                        t % (P as int),
                    ) == sum_vals(
                        sp_reduce_spec(
                            sp_fold_spec(sp_fold_chain(terms0, prev_chalv), 0, t % (P as int)),
                        ),
                    ) by {
                        assert(xsv[t] == t % (P as int));
                        assert(poly_eval(uv, xsv[t]) == ysv[t]);
                        vstd::arithmetic::div_mod::lemma_small_mod(t as nat, P as nat);
                    }
                }
                lemma_chain_snoc(prev_rounds, uv, st0);
                assert(rounds_view(round_poly@) =~= prev_rounds.push(uv));
                assert(table_view(rand_challenges@) =~= chain_challenges(
                    rounds_view(round_poly@),
                    st0,
                ));
            }
            r += 1;
        }
        Ok(Proof {
            initial_claimed_sum: claimed_sum,
            univars_and_sums: round_poly,
            rand_challenges,
        })
    }
}

/// The sum of a whole table of field elements.
pub(crate) fn sum_table(evals: &Vec<Fq>) -> (r: Fq)
    ensures
        r.as_int() == sum_vals(table_view(evals@)),
{
    let s = sum_slice(evals.as_slice(), 0, evals.len());
    proof {
        assert(table_view(evals@).subrange(0, evals@.len() as int) =~= table_view(evals@));
    }
    s
}

/// The sum of a contiguous range of a table of field elements.
pub(crate) fn sum_slice(evals: &[Fq], from: usize, to: usize) -> (r: Fq)
    requires
        from <= to <= evals@.len(),
    ensures
        r.as_int() == sum_vals(table_view(evals@).subrange(from as int, to as int)),
{
    let mut acc = Fq::zero();
    let mut i = from;
    while i < to
        invariant
            from <= i <= to,
            to <= evals@.len(),
            acc.as_int() == sum_vals(table_view(evals@).subrange(from as int, i as int)),
        decreases to - i,
    {
        acc = acc.add(evals[i]);
        proof {
            let tv = table_view(evals@);
            assert(tv.subrange(from as int, i as int + 1).drop_last() =~= tv.subrange(
                from as int,
                i as int,
            ));
            assert(tv.subrange(from as int, i as int + 1).last() == tv[i as int]);
        }
        i += 1;
    }
    acc
}

/// The sum-check verifier: replays the transcript against the proof's own
/// messages, so a proof is held to the challenges it was built with.
pub struct GKRSumcheckVerifier {
    pub transcript: Transcript,
    pub proof: Proof,
}

impl GKRSumcheckVerifier {
    pub fn init(proof: Proof) -> (r: GKRSumcheckVerifier)
        ensures
            r.proof == proof,
            r.transcript.bytes() == Seq::<u8>::empty(),
    {
        GKRSumcheckVerifier { transcript: Transcript::new(), proof }
    }

    /// Check every round: recompute `g(0) + g(1)` against the held claim,
    /// absorb the same bytes the prover absorbed, squeeze the same
    /// challenge, and move the claim to `g(r)`.  Accepts exactly when every
    /// round check passes; the returned challenges and final claim are the
    /// replayed chain's, handed to the caller for its oracle check.
    #[verifier::rlimit(100)]
    pub fn verify_gkr_sumcheck_proof(&mut self) -> (r: Result<(Vec<Fq>, Fq), Error>)
        ensures
            r is Ok <==> chain_accepts(
                rounds_view(old(self).proof.univars_and_sums@),
                old(self).proof.initial_claimed_sum.as_int(),
                old(self).transcript.bytes() + be8(old(self).proof.initial_claimed_sum.as_int()),
            ),
            r matches Err(e) ==> e == Error::SoundnessCheckFailed,
            r is Ok ==> final(self).transcript.bytes() == chain_state(
                rounds_view(old(self).proof.univars_and_sums@),
                old(self).transcript.bytes() + be8(old(self).proof.initial_claimed_sum.as_int()),
            ),
            final(self).proof == old(self).proof,
            r matches Ok((chals, fin)) ==> {
                &&& table_view(chals@) == chain_challenges(
                    rounds_view(old(self).proof.univars_and_sums@),
                    old(self).transcript.bytes() + be8(
                        old(self).proof.initial_claimed_sum.as_int(),
                    ),
                )
                &&& fin.as_int() == chain_final(
                    rounds_view(old(self).proof.univars_and_sums@),
                    old(self).proof.initial_claimed_sum.as_int(),
                    old(self).transcript.bytes() + be8(
                        old(self).proof.initial_claimed_sum.as_int(),
                    ),
                )
            },
    {
        let mut claimed_sum = self.proof.initial_claimed_sum;
        let claim_bytes = claimed_sum.to_bytes();
        self.transcript.absorb(claim_bytes.as_slice());
        let ghost st0: Seq<u8> = self.transcript.bytes();
        let ghost polys: Seq<Seq<int>> = rounds_view(self.proof.univars_and_sums@);
        let n = self.proof.univars_and_sums.len();
        let mut rand_chal_arr: Vec<Fq> = Vec::new();
        let mut i: usize = 0;
        proof {
            assert(polys.skip(0) =~= polys);
        }
        while i < n
            invariant
                i <= n,
                n == self.proof.univars_and_sums@.len(),
                polys == rounds_view(self.proof.univars_and_sums@),
                self.proof == old(self).proof,
                st0 == old(self).transcript.bytes() + be8(
                    old(self).proof.initial_claimed_sum.as_int(),
                ),
                self.transcript.bytes() == chain_state(polys.take(i as int), st0),
                rand_chal_arr@.len() == i,
                chain_accepts(polys, old(self).proof.initial_claimed_sum.as_int(), st0)
                    == chain_accepts(polys.skip(i as int), claimed_sum.as_int(), self.transcript.bytes()),
                chain_challenges(polys, st0) == table_view(rand_chal_arr@) + chain_challenges(
                    polys.skip(i as int),
                    self.transcript.bytes(),
                ),
                chain_final(polys, old(self).proof.initial_claimed_sum.as_int(), st0)
                    == chain_final(
                    polys.skip(i as int),
                    claimed_sum.as_int(),
                    self.transcript.bytes(),
                ),
            decreases n - i,
        {
            let univar_poly = &self.proof.univars_and_sums[i];
            let sum_at_0 = univar_poly.evaluate(Fq::from(0));
            let sum_at_1 = univar_poly.evaluate(Fq::from(1));
            let claim = sum_at_0.add(sum_at_1);
            let ghost pre = self.transcript.bytes();
            proof {
                lemma_chain_step(polys, i as int, claimed_sum.as_int(), pre);
                Fq::lemma_eq(claimed_sum, claim);
                vstd::arithmetic::div_mod::lemma_small_mod(0nat, P as nat);
                vstd::arithmetic::div_mod::lemma_small_mod(1nat, P as nat);
            }
            if !(claimed_sum == claim) {
                proof {
                    assert(!round_ok(claimed_sum.as_int(), polys[i as int]));
                }
                return Err(Error::SoundnessCheckFailed);
            }
            let bytes = conv_poly_to_byte(&univar_poly.coef);
            self.transcript.absorb(bytes.as_slice());
            let rand_chal = self.transcript.squeeze();
            let ghost prev_chals = table_view(rand_chal_arr@);
            rand_chal_arr.push(rand_chal);
            claimed_sum = self.proof.univars_and_sums[i].evaluate(rand_chal);
            proof {
                let pi = polys[i as int];
                assert(self.transcript.bytes() == squeeze_state(round_state(pre, pi)));
                assert(polys.take(i as int + 1) =~= polys.take(i as int).push(
                    polys[i as int],
                ));
                lemma_chain_state_snoc(polys.take(i as int), polys[i as int], st0);
                assert(rand_chal.as_int() == squeeze_val(round_state(pre, pi)));
                assert(table_view(rand_chal_arr@) =~= prev_chals.push(rand_chal.as_int()));
                lemma_concat_shift(
                    prev_chals,
                    squeeze_val(round_state(pre, pi)),
                    chain_challenges(polys.skip(i as int + 1), self.transcript.bytes()),
                );
            }
            i += 1;
        }
        proof {
            assert(polys.skip(n as int) =~= Seq::<Seq<int>>::empty());
            assert(polys.take(n as int) =~= polys);
            assert(table_view(rand_chal_arr@) + chain_challenges(
                Seq::<Seq<int>>::empty(),
                self.transcript.bytes(),
            ) =~= table_view(rand_chal_arr@));
        }
        Ok((rand_chal_arr, claimed_sum))
    }
}

/// The chain state after one more round is one squeeze past absorbing that
/// round's polynomial.
#[verifier::rlimit(100)]
pub proof fn lemma_chain_state_snoc(polys: Seq<Seq<int>>, p: Seq<int>, state: Seq<u8>)
    ensures
        chain_state(polys.push(p), state) == squeeze_state(
            round_state(chain_state(polys, state), p),
        ),
    decreases polys.len(),
{
    if polys.len() == 0 {
        assert(polys.push(p)[0] == p);
        assert(polys.push(p).drop_first() =~= Seq::<Seq<int>>::empty());
        assert(chain_state(polys, state) == state);
        assert(chain_state(polys.push(p), state) == chain_state(
            Seq::<Seq<int>>::empty(),
            squeeze_state(round_state(state, p)),
        ));
    } else {
        assert(polys.push(p).drop_first() =~= polys.drop_first().push(p));
        assert(polys.push(p)[0] == polys[0]);
        lemma_chain_state_snoc(
            polys.drop_first(),
            p,
            squeeze_state(round_state(state, polys[0])),
        );
    }
}

/// Every sum of field values is a canonical representative.
pub proof fn lemma_sum_vals_range(l: Seq<int>)
    ensures
        0 <= sum_vals(l) < P,
    decreases l.len(),
{
    if l.len() == 0 {
    } else {
        lemma_sum_vals_range(l.drop_last());
        vstd::arithmetic::div_mod::lemma_mod_bound(
            sum_vals(l.drop_last()) + l.last(),
            P as int,
        );
    }
}

/// Field addition of three values associates.
proof fn lemma_fadd_assoc(x: int, y: int, z: int)
    ensures
        fadd(fadd(x, y), z) == fadd(x, fadd(y, z)),
{
    let p = P as int;
    vstd::arithmetic::div_mod::lemma_add_mod_noop(x + y, z, p);
    vstd::arithmetic::div_mod::lemma_mod_twice(z, p);
    assert(fadd(fadd(x, y), z) == (x + y + z) % p) by {
        assert(((x + y) % p + z % p) % p == ((x + y) + z) % p);
    };
    vstd::arithmetic::div_mod::lemma_add_mod_noop(x, y + z, p);
    vstd::arithmetic::div_mod::lemma_mod_twice(x, p);
    assert(fadd(x, fadd(y, z)) == (x + (y + z)) % p) by {
        assert((x % p + (y + z) % p) % p == (x + (y + z)) % p);
    };
}

/// The sum of a concatenation is the field sum of the parts' sums.
pub proof fn lemma_sum_vals_concat(a: Seq<int>, b: Seq<int>)
    ensures
        sum_vals(a + b) == fadd(sum_vals(a), sum_vals(b)),
    decreases b.len(),
{
    if b.len() == 0 {
        assert(a + b =~= a);
        lemma_sum_vals_range(a);
        vstd::arithmetic::div_mod::lemma_small_mod(sum_vals(a) as nat, P as nat);
    } else {
        assert((a + b).drop_last() =~= a + b.drop_last());
        assert((a + b).last() == b.last());
        lemma_sum_vals_concat(a, b.drop_last());
        lemma_fadd_assoc(sum_vals(a), sum_vals(b.drop_last()), b.last());
    }
}

/// One round of the exchange accounts for the whole sum: the claimed sum
/// equals the field sum of the two half sums the prover sends.
pub proof fn lemma_sum_split(t: Seq<int>)
    ensures
        sum_vals(t) == fadd(
            sum_vals(t.take(t.len() as int / 2)),
            sum_vals(t.skip(t.len() as int / 2)),
        ),
{
    let h = t.len() as int / 2;
    assert(t.take(h) + t.skip(h) =~= t);
    lemma_sum_vals_concat(t.take(h), t.skip(h));
}

/// Interpolation steps add: interpolating two pairs and adding equals
/// interpolating the added endpoints.
#[verifier::rlimit(100)]
#[verifier::spinoff_prover]
proof fn lemma_lin_additive(x: int, y: int, a: int, b: int, r: int)
    ensures
        fadd(lin(x, y, r), lin(a, b, r)) == lin(fadd(x, a), fadd(y, b), r),
{
    let p = P as int;
    // each side collapses to ((x + a) + r * ((y + b) - (x + a))) % p
    vstd::arithmetic::div_mod::lemma_mul_mod_noop_right(r, y - x, p);
    vstd::arithmetic::div_mod::lemma_add_mod_noop_right(x, r * (y - x), p);
    assert(lin(x, y, r) == (x + r * (y - x)) % p);
    vstd::arithmetic::div_mod::lemma_mul_mod_noop_right(r, b - a, p);
    vstd::arithmetic::div_mod::lemma_add_mod_noop_right(a, r * (b - a), p);
    assert(lin(a, b, r) == (a + r * (b - a)) % p);
    vstd::arithmetic::div_mod::lemma_add_mod_noop(x + r * (y - x), a + r * (b - a), p);
    assert(fadd(lin(x, y, r), lin(a, b, r)) == ((x + r * (y - x)) + (a + r * (b - a))) % p);
    let sx = fadd(x, a);
    let sy = fadd(y, b);
    vstd::arithmetic::div_mod::lemma_sub_mod_noop(y + b, x + a, p);
    assert((sy - sx) % p == ((y + b) - (x + a)) % p);
    vstd::arithmetic::div_mod::lemma_mul_mod_noop_right(r, sy - sx, p);
    vstd::arithmetic::div_mod::lemma_mul_mod_noop_right(r, (y + b) - (x + a), p);
    assert((r * ((sy - sx) % p)) % p == (r * ((y + b) - (x + a))) % p) by {
        assert((r * ((sy - sx) % p)) % p == (r * (sy - sx)) % p) by {
            vstd::arithmetic::div_mod::lemma_mul_mod_noop_right(r, (sy - sx) % p, p);
            vstd::arithmetic::div_mod::lemma_mod_twice(sy - sx, p);
        };
        assert((r * (sy - sx)) % p == (r * ((y + b) - (x + a))) % p) by {
            vstd::arithmetic::div_mod::lemma_mod_mul_equivalent(
                sy - sx,
                (y + b) - (x + a),
                r,
                p,
            );
        };
    };
    vstd::arithmetic::div_mod::lemma_add_mod_noop(sx, r * ((y + b) - (x + a)), p);
    vstd::arithmetic::div_mod::lemma_mod_twice(x + a, p);
    assert(lin(sx, sy, r) == ((x + a) + r * ((y + b) - (x + a))) % p) by {
        assert(fmul(r, fsub(sy, sx)) == (r * ((y + b) - (x + a))) % p);
        vstd::arithmetic::div_mod::lemma_add_mod_noop_right(
            sx,
            r * ((y + b) - (x + a)),
            p,
        );
        assert((sx + (r * ((y + b) - (x + a))) % p) % p == (sx + r * ((y + b) - (x + a)))
            % p);
        assert((sx + r * ((y + b) - (x + a))) % p == ((x + a) + r * ((y + b) - (x + a)))
            % p) by {
            assert(((x + a) % p + (r * ((y + b) - (x + a))) % p) % p == ((x + a) + r * ((y
                + b) - (x + a))) % p);
            vstd::arithmetic::div_mod::lemma_mod_twice(r * ((y + b) - (x + a)), p);
        };
    };
    assert((x + r * (y - x)) + (a + r * (b - a)) == (x + a) + r * ((y + b) - (x + a)))
        by (nonlinear_arith);
}

/// Pointwise interpolation of paired entries.
pub open spec fn lin_zip(a: Seq<int>, b: Seq<int>, r: int) -> Seq<int> {
    Seq::new(a.len(), |m: int| lin(a[m], b[m], r))
}

/// Summing pointwise interpolations interpolates the sums.
proof fn lemma_lin_sum(a: Seq<int>, b: Seq<int>, r: int)
    requires
        a.len() == b.len(),
    ensures
        sum_vals(lin_zip(a, b, r)) == lin(sum_vals(a), sum_vals(b), r),
    decreases a.len(),
{
    let p = P as int;
    if a.len() == 0 {
        assert(fsub(0, 0) == 0) by {
            vstd::arithmetic::div_mod::lemma_small_mod(0nat, P as nat);
        };
        assert(r * 0 == 0) by (nonlinear_arith);
        assert(fmul(r, 0) == 0) by {
            vstd::arithmetic::div_mod::lemma_small_mod(0nat, P as nat);
        };
        assert(lin(0, 0, r) == 0) by {
            vstd::arithmetic::div_mod::lemma_small_mod(0nat, P as nat);
        };
    } else {
        assert(lin_zip(a, b, r).drop_last() =~= lin_zip(a.drop_last(), b.drop_last(), r));
        assert(lin_zip(a, b, r).last() == lin(a.last(), b.last(), r));
        lemma_lin_sum(a.drop_last(), b.drop_last(), r);
        lemma_lin_additive(
            sum_vals(a.drop_last()),
            sum_vals(b.drop_last()),
            a.last(),
            b.last(),
            r,
        );
    }
}

/// Completeness of one sum-check round: folding the table at any challenge
/// and summing gives exactly the round message, itself the two half sums,
/// interpolated at that challenge.  An honest prover's next claimed sum
/// therefore always matches the verifier's `g(r)`.
pub proof fn lemma_fold_sum_round(t: Seq<int>, r: int)
    requires
        t.len() % 2 == 0,
    ensures
        sum_vals(fold_spec(t, t.len() as int / 2, r)) == lin(
            sum_vals(t.take(t.len() as int / 2)),
            sum_vals(t.skip(t.len() as int / 2)),
            r,
        ),
{
    let h = t.len() as int / 2;
    if t.len() == 0 {
        assert(fold_spec(t, 0, r).len() == 0);
        lemma_lin_sum(t.take(0), t.skip(0), r);
        assert(t.take(0) =~= lin_zip(t.take(0), t.skip(0), r));
        assert(fold_spec(t, 0, r) =~= t.take(0));
    } else {
        assert(fold_spec(t, h, r) =~= lin_zip(t.take(h), t.skip(h), r)) by {
            assert forall|m: int| 0 <= m < h implies fold_base(m, h) == m by {
                vstd::arithmetic::div_mod::lemma_basic_div(m, h);
                vstd::arithmetic::div_mod::lemma_small_mod(m as nat, h as nat);
            }
        };
        lemma_lin_sum(t.take(h), t.skip(h), r);
    }
}

/// The plain integer sum of a coefficient list.
pub open spec fn raw_sum(c: Seq<int>) -> int
    decreases c.len(),
{
    if c.len() == 0 {
        0
    } else {
        c[0] + raw_sum(c.drop_first())
    }
}

/// Horner evaluation lands in the canonical range.
proof fn lemma_poly_eval_range(c: Seq<int>, x: int)
    ensures
        0 <= poly_eval(c, x) < P,
    decreases c.len(),
{
    if c.len() == 0 {
    } else {
        lemma_poly_eval_range(c.drop_first(), x);
        vstd::arithmetic::div_mod::lemma_mod_bound(
            c[0] + fmul(x, poly_eval(c.drop_first(), x)),
            P as int,
        );
    }
}

/// At zero, only the constant coefficient remains.
proof fn lemma_eval_zero(c: Seq<int>)
    requires
        c.len() >= 1,
    ensures
        poly_eval(c, 0) == c[0] % (P as int),
{
    let e = poly_eval(c.drop_first(), 0);
    assert(0 * e == 0) by (nonlinear_arith);
    vstd::arithmetic::div_mod::lemma_small_mod(0nat, P as nat);
    assert(fmul(0, e) == 0);
}

/// At one, the coefficients sum.
proof fn lemma_eval_one(c: Seq<int>)
    ensures
        poly_eval(c, 1) == raw_sum(c) % (P as int),
    decreases c.len(),
{
    let p = P as int;
    if c.len() == 0 {
        vstd::arithmetic::div_mod::lemma_small_mod(0nat, P as nat);
    } else {
        lemma_eval_one(c.drop_first());
        lemma_poly_eval_range(c.drop_first(), 1);
        let e = poly_eval(c.drop_first(), 1);
        assert(1 * e == e) by (nonlinear_arith);
        vstd::arithmetic::div_mod::lemma_small_mod(e as nat, P as nat);
        assert(fmul(1, e) == e);
        vstd::arithmetic::div_mod::lemma_add_mod_noop_right(c[0], raw_sum(c.drop_first()), p);
        assert((c[0] + raw_sum(c.drop_first()) % p) % p == (c[0] + raw_sum(c.drop_first())) % p);
    }
}

/// The round check's left side, written over the raw coefficient sum.
proof fn lemma_round_sum_formula(c: Seq<int>)
    requires
        c.len() >= 1,
    ensures
        fadd(poly_eval(c, 0), poly_eval(c, 1)) == (c[0] + raw_sum(c)) % (P as int),
{
    let p = P as int;
    lemma_eval_zero(c);
    lemma_eval_one(c);
    vstd::arithmetic::div_mod::lemma_add_mod_noop(c[0], raw_sum(c), p);
}

/// Replacing one coefficient shifts the raw sum by the difference.
proof fn lemma_raw_sum_update(c: Seq<int>, j: int, v: int)
    requires
        0 <= j < c.len(),
    ensures
        raw_sum(c.update(j, v)) == raw_sum(c) - c[j] + v,
    decreases j,
{
    if j == 0 {
        assert(c.update(0, v).drop_first() =~= c.drop_first());
    } else {
        assert(c.update(j, v).drop_first() =~= c.drop_first().update(j - 1, v));
        lemma_raw_sum_update(c.drop_first(), j - 1, v);
    }
}

/// A nonzero shift below the modulus moves a remainder, whether it enters
/// once or twice: the modulus is odd.
proof fn lemma_shift_changes_mod(x: int, d: int)
    requires
        -(P as int) < d < P as int,
        d != 0,
    ensures
        (x + d) % (P as int) != x % (P as int),
        (x + 2 * d) % (P as int) != x % (P as int),
{
    let p = P as int;
    if (x + d) % p == x % p {
        vstd::arithmetic::div_mod::lemma_mod_equivalence(x + d, x, p);
        assert(d % p == 0);
        assert(false);
    }
    if (x + 2 * d) % p == x % p {
        vstd::arithmetic::div_mod::lemma_mod_equivalence(x + 2 * d, x, p);
        assert((2 * d) % p == 0);
        vstd::arithmetic::div_mod::lemma_fundamental_div_mod(2 * d, p);
        let q = (2 * d) / p;
        assert(2 * d == p * q);
        assert(-2 * p < p * q < 2 * p);
        assert(-2 < q < 2) by (nonlinear_arith)
            requires
                p > 0,
                -2 * p < p * q < 2 * p,
        ;
        assert(q == -1 || q == 0 || q == 1);
        assert(q != 1) by {
            if q == 1 {
                assert(2 * d == p);
                assert(false);
            }
        };
        assert(q != -1) by {
            if q == -1 {
                assert(2 * d == -p);
                assert(false);
            }
        };
        assert(d == 0);
        assert(false);
    }
}

/// Soundness spot check of the replay: an accepted list of round
/// polynomials stops being accepted the moment any single coefficient of
/// any round polynomial is replaced by a different canonical value.  With
/// the verifier's acceptance contract, such a tampered proof is rejected
/// with the soundness failure.
pub proof fn lemma_flip_rejects(
    polys: Seq<Seq<int>>,
    claim: int,
    st: Seq<u8>,
    i: int,
    j: int,
    c2: int,
)
    requires
        0 <= i < polys.len(),
        0 <= j < polys[i].len(),
        table_ok(polys[i]),
        0 <= c2 < P,
        c2 != polys[i][j],
        chain_accepts(polys, claim, st),
    ensures
        !chain_accepts(polys.update(i, polys[i].update(j, c2)), claim, st),
    decreases i,
{
    let p = P as int;
    let tampered = polys.update(i, polys[i].update(j, c2));
    if i == 0 {
        let c = polys[0];
        let c_new = c.update(j, c2);
        assert(tampered[0] == c_new);
        lemma_round_sum_formula(c);
        lemma_round_sum_formula(c_new);
        lemma_raw_sum_update(c, j, c2);
        let d = c2 - c[j];
        if j == 0 {
            assert(c_new[0] + raw_sum(c_new) == (c[0] + raw_sum(c)) + 2 * d);
            lemma_shift_changes_mod(c[0] + raw_sum(c), d);
        } else {
            assert(c_new[0] + raw_sum(c_new) == (c[0] + raw_sum(c)) + d);
            lemma_shift_changes_mod(c[0] + raw_sum(c), d);
        }
        assert(fadd(poly_eval(c_new, 0), poly_eval(c_new, 1)) != claim);
        assert(!round_ok(claim, tampered[0]));
    } else {
        assert(tampered[0] == polys[0]);
        assert(tampered.drop_first() =~= polys.drop_first().update(
            i - 1,
            polys[i].update(j, c2),
        ));
        assert(polys.drop_first()[i - 1] == polys[i]);
        let stp = round_state(st, polys[0]);
        lemma_flip_rejects(
            polys.drop_first(),
            poly_eval(polys[0], squeeze_val(stp)),
            squeeze_state(stp),
            i - 1,
            j,
            c2,
        );
        assert(round_state(st, tampered[0]) == stp);
    }
}

} // verus!
