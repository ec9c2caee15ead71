//! The GKR orchestration: one sum-check instance per circuit layer, the
//! claims folded across layers by a transcript-derived random linear
//! combination, and the final claim settled against the raw input table.

use vstd::prelude::*;
use crate::field::Fq;
use crate::error::Error;
use crate::mle::{table_view, is_pow2_len, mle_eval, fold0_chain};
use crate::combined_polys::{SumPoly, sp_reduce_spec, sp_fold_spec, sp_fold_chain, lemma_sp_fold_chain_snoc};
use crate::gkr_sum_check::{
    Proof, Prover, GKRSumcheckVerifier, chain_accepts, chain_challenges, chain_final, chain_state,
    rounds_view, sum_vals,
};
use crate::transcript::{poly_bytes, squeeze_val, squeeze_state, squeeze_n_vals};
use crate::gkr_circuit::{clog2, addi_table, muli_table, gate_index};
use crate::field::{fadd, fmul};
use crate::gkr_circuit::Circuit;
use crate::transcript::{Transcript, conv_poly_to_byte};
use crate::univar::Univariatepoly;
use crate::field::be8;
use vstd::arithmetic::power2::pow2;

verus! {

/// A full GKR proof: the output layer's table, one sum-check proof per
/// layer, and the pair of folded half-claims produced between layers.
#[derive(Debug, Clone)]
pub struct GKRProof {
    pub w_poly: Vec<Fq>,
    pub sumcheck_proofs: Vec<Proof>,
    pub w_rb_rcs: Vec<(Fq, Fq)>,
}

impl GKRProof {
    pub fn init(w_poly: Vec<Fq>, sumcheck_proofs: Vec<Proof>, w_rb_rcs: Vec<(Fq, Fq)>) -> (r:
        GKRProof)
        ensures
            r.w_poly@ == w_poly@,
            r.sumcheck_proofs@ == sumcheck_proofs@,
            r.w_rb_rcs@ == w_rb_rcs@,
    {
        GKRProof { w_poly, sumcheck_proofs, w_rb_rcs }
    }
}

/// A copy of one univariate polynomial.
fn copy_univar(p: &Univariatepoly) -> (r: Univariatepoly)
    ensures
        r.coef@ == p.coef@,
{
    Univariatepoly { coef: crate::combined_polys::copy_table(&p.coef) }
}

/// A copy of one sum-check proof.
fn copy_proof(p: &Proof) -> (r: Proof)
    ensures
        r.initial_claimed_sum == p.initial_claimed_sum,
        rounds_view(r.univars_and_sums@) == rounds_view(p.univars_and_sums@),
        r.rand_challenges@ == p.rand_challenges@,
{
    let mut rounds: Vec<Univariatepoly> = Vec::new();
    let mut i: usize = 0;
    while i < p.univars_and_sums.len()
        invariant
            i <= p.univars_and_sums@.len(),
            rounds@.len() == i,
            forall|k: int|
                0 <= k < i ==> (#[trigger] rounds@[k]).coef@ == p.univars_and_sums@[k].coef@,
        decreases p.univars_and_sums@.len() - i,
    {
        rounds.push(copy_univar(&p.univars_and_sums[i]));
        i += 1;
    }
    let r = Proof {
        initial_claimed_sum: p.initial_claimed_sum,
        univars_and_sums: rounds,
        rand_challenges: crate::combined_polys::copy_table(&p.rand_challenges),
    };
    proof {
        assert(rounds_view(r.univars_and_sums@) =~~= rounds_view(p.univars_and_sums@));
    }
    r
}

/// Whether every stage of the fold chain keeps foldable tables.
pub open spec fn sp_chain_ok(l: Seq<Seq<Seq<int>>>, pts: Seq<int>) -> bool
    decreases pts.len(),
{
    if pts.len() == 0 {
        true
    } else {
        crate::combined_polys::sp_ok_tables(l, 0) && sp_chain_ok(
            sp_fold_spec(l, 0, pts[0]),
            pts.drop_first(),
        )
    }
}

/// Peeling one fold off the chain's conditions.
proof fn lemma_sp_chain_ok_step(l: Seq<Seq<Seq<int>>>, pts: Seq<int>, i: int)
    requires
        0 <= i < pts.len(),
    ensures
        sp_chain_ok(sp_fold_chain(l, pts.take(i)), pts.skip(i)) <==> (
        crate::combined_polys::sp_ok_tables(sp_fold_chain(l, pts.take(i)), 0) && sp_chain_ok(
            sp_fold_chain(l, pts.take(i + 1)),
            pts.skip(i + 1),
        )),
{
    assert(pts.skip(i)[0] == pts[i]);
    assert(pts.skip(i).drop_first() =~= pts.skip(i + 1));
    assert(pts.take(i + 1) =~= pts.take(i).push(pts[i]));
    lemma_sp_fold_chain_snoc(l, pts.take(i), pts[i]);
}


/// The claim polynomial layer `i`'s sum-check attests: the layer's folded
/// wiring tables paired with the next layer's output (or the raw inputs at
/// the final layer) in the `(b, c)` space; for `i >= 1` the wiring tables
/// are folded at the previous layer's challenge halves and combined with
/// the transcript challenges.
pub open spec fn gkr_attested_poly(
    c: crate::gkr_circuit::Circuit,
    proofs: Seq<Proof>,
    wrr: Seq<(Fq, Fq)>,
    inputsv: Seq<int>,
    r0v: Seq<int>,
    i: int,
) -> Seq<Seq<Seq<int>>> {
    let d = c.layers@.len() as int;
    let gates = c.layers@[i].layer_gates@;
    let ob = if clog2(gates.len()) == 0 {
        1nat
    } else {
        clog2(gates.len())
    };
    let tbc = (clog2(gates.len()) + 1) * 2;
    let w = (ob + 1) as nat;
    let len = pow2((ob + tbc) as nat);
    let addi = addi_table(gates, len, w);
    let muli = muli_table(gates, len, w);
    let padv = crate::gkr_circuit::pad_table(
        inputsv,
        pow2(clog2(inputsv.len())),
    );
    let pair_add = if i + 1 < d {
        let gcn = c.layers@[i + 1].layer_gates@.len();
        let vn = (if clog2(gcn) == 0 {
            1nat
        } else {
            clog2(gcn)
        }) as nat;
        crate::gkr_circuit::wi_pair_add(table_view(c.layers@[i + 1].layer_output@), vn)
    } else {
        crate::gkr_circuit::wi_pair_add(padv, crate::mle::num_vars(padv.len()))
    };
    let pair_mul = if i + 1 < d {
        let gcn = c.layers@[i + 1].layer_gates@.len();
        let vn = (if clog2(gcn) == 0 {
            1nat
        } else {
            clog2(gcn)
        }) as nat;
        crate::gkr_circuit::wi_pair_mul(table_view(c.layers@[i + 1].layer_output@), vn)
    } else {
        crate::gkr_circuit::wi_pair_mul(padv, crate::mle::num_vars(padv.len()))
    };
    if i == 0 {
        seq![
            seq![fold0_chain(addi, r0v.take(ob as int)), pair_add],
            seq![fold0_chain(muli, r0v.take(ob as int)), pair_mul],
        ]
    } else {
        let sprev = proofs[i - 1].initial_claimed_sum.as_int();
        let stprev = Seq::<u8>::empty() + be8(sprev);
        let prev_rounds = rounds_view(proofs[i - 1].univars_and_sums@);
        let chprev = chain_challenges(prev_rounds, stprev);
        let half = chprev.len() as int / 2;
        let rbv = chprev.take(half);
        let rcv = chprev.subrange(half, 2 * half);
        let stend = chain_state(prev_rounds, stprev);
        let wrb = seq![wrr[i - 1].0.as_int()];
        let wrc = seq![wrr[i - 1].1.as_int()];
        let a = crate::gkr_circuit::alpha_of(stend, wrb);
        let b = crate::gkr_circuit::beta_of(stend, wrb, wrc);
        seq![
            seq![
                crate::gkr_circuit::combined_table(
                    fold0_chain(addi, rbv),
                    fold0_chain(addi, rcv),
                    a,
                    b,
                ),
                pair_add,
            ],
            seq![
                crate::gkr_circuit::combined_table(
                    fold0_chain(muli, rbv),
                    fold0_chain(muli, rcv),
                    a,
                    b,
                ),
                pair_mul,
            ],
        ]
    }
}

/// Layer `i`'s proof attests the claim polynomial of that layer: each of its
/// round polynomials passes through the true sample sums of the successively
/// folded attested polynomial, replayed at the transcript challenges.
pub open spec fn gkr_layer_attested(
    c: crate::gkr_circuit::Circuit,
    proofs: Seq<Proof>,
    wrr: Seq<(Fq, Fq)>,
    inputsv: Seq<int>,
    r0v: Seq<int>,
    i: int,
) -> bool {
    let terms = gkr_attested_poly(c, proofs, wrr, inputsv, r0v, i);
    let deg = if terms.len() == 0 {
        0int
    } else {
        terms[0].len() as int
    };
    let rounds = rounds_view(proofs[i].univars_and_sums@);
    let chalv = chain_challenges(
        rounds,
        Seq::<u8>::empty() + be8(proofs[i].initial_claimed_sum.as_int()),
    );
    deg + 1 <= crate::field::P ==> forall|j: int, t: int|
        0 <= j < rounds.len() && 0 <= t <= deg ==> #[trigger] crate::univar::poly_eval(
            rounds[j],
            t % (crate::field::P as int),
        ) == sum_vals(
            sp_reduce_spec(
                sp_fold_spec(
                    sp_fold_chain(terms, chalv.take(j)),
                    0,
                    t % (crate::field::P as int),
                ),
            ),
        )
}

/// The transcript-combined next claim a layer hands its successor: the two
/// half-claims bound into the layer's sum-check transcript and combined
/// with the squeezed challenges.
pub open spec fn succ_value(proofs: Seq<Proof>, wrr: Seq<(Fq, Fq)>, j: int) -> int {
    let s = proofs[j].initial_claimed_sum.as_int();
    let stj = chain_state(
        rounds_view(proofs[j].univars_and_sums@),
        Seq::<u8>::empty() + be8(s),
    );
    let wrb = seq![wrr[j].0.as_int()];
    let wrc = seq![wrr[j].1.as_int()];
    let a = crate::gkr_circuit::alpha_of(stj, wrb);
    let b = crate::gkr_circuit::beta_of(stj, wrb, wrc);
    fadd(fmul(a, wrr[j].0.as_int()), fmul(b, wrr[j].1.as_int()))
}

/// Whether layer `j + 1`'s claimed sum is exactly the combined claim layer
/// `j` produced.
pub open spec fn claim_succession(proofs: Seq<Proof>, wrr: Seq<(Fq, Fq)>, j: int) -> bool {
    proofs[j + 1].initial_claimed_sum.as_int() == succ_value(proofs, wrr, j)
}

/// The GKR prover: the transcript the output claim is pinned with, and the
/// executed circuit the layers are read from.
pub struct GKRProver {
    pub transcript: Transcript,
    pub circuit: Circuit,
}

impl GKRProver {
    pub fn init(transcript: Transcript, circuit: Circuit) -> (r: GKRProver)
        ensures
            r.transcript == transcript,
            r.circuit == circuit,
    {
        GKRProver { transcript, circuit }
    }

    /// Run the circuit on the inputs, realizing the layers the proof walks.
    pub fn execute_circuit(&mut self, inputs: Vec<Fq>) -> (r: Result<(), Error>)
        ensures
            final(self).transcript == old(self).transcript,
            r is Ok <==> crate::gkr_circuit::circuit_def_ok(
                crate::gkr_circuit::def_view(old(self).circuit.layer_def@),
                inputs@.len(),
            ) && crate::gkr_circuit::def_fits(
                crate::gkr_circuit::def_view(old(self).circuit.layer_def@),
            ),
            final(self).circuit.layer_def == old(self).circuit.layer_def,
            r is Ok ==> ({
                let def = crate::gkr_circuit::def_view(old(self).circuit.layer_def@);
                let n = def.len() as int;
                &&& final(self).circuit.layers@.len() == n
                &&& forall|i: int|
                    0 <= i < n ==> table_view(
                        (#[trigger] final(self).circuit.layers@[i]).layer_output@,
                    ) == crate::gkr_circuit::layer_result(def, table_view(inputs@), n - 1 - i)
                &&& forall|i: int|
                    0 <= i < n ==> (#[trigger] final(self).circuit.layers@[i]).layer_gates@
                        == def[n - 1 - i].map_values(
                        |g: Seq<usize>| crate::gkr_circuit::gate_from_def(g),
                    )
            }),
    {
        self.circuit.execute(inputs)
    }

    /// Evaluate a claim polynomial at a full challenge point: fold variable
    /// 0 once per coordinate, then reduce what remains to a single value.
    pub fn evaluate_fbc_poly(&mut self, initial_fbc_poly: SumPoly, eval_points: Vec<Fq>) -> (r:
        Result<Fq, Error>)
        ensures
            *final(self) == *old(self),
            r is Ok <==> sp_chain_ok(initial_fbc_poly.view_terms(), table_view(eval_points@)),
            r matches Ok(v) ==> v.as_int() == sp_reduce_spec(
                sp_fold_chain(initial_fbc_poly.view_terms(), table_view(eval_points@)),
            )[0],
    {
        let ghost pv0 = table_view(eval_points@);
        let mut fbc_poly = initial_fbc_poly;
        let mut i: usize = 0;
        proof {
            assert(pv0.skip(0) =~= pv0);
            assert(pv0.take(0) =~= Seq::<int>::empty());
        }
        while i < eval_points.len()
            invariant
                i <= eval_points@.len(),
                pv0 == table_view(eval_points@),
                fbc_poly.view_terms() == sp_fold_chain(
                    initial_fbc_poly.view_terms(),
                    pv0.take(i as int),
                ),
                sp_chain_ok(initial_fbc_poly.view_terms(), pv0) <==> sp_chain_ok(
                    fbc_poly.view_terms(),
                    pv0.skip(i as int),
                ),
            decreases eval_points@.len() - i,
        {
            proof {
                lemma_sp_chain_ok_step(initial_fbc_poly.view_terms(), pv0, i as int);
            }
            let next = match fbc_poly.partial_evaluate(0, eval_points[i]) {
                Ok(q) => q,
                Err(e) => {
                    return Err(e);
                },
            };
            proof {
                assert(pv0.take(i as int + 1) =~= pv0.take(i as int).push(pv0[i as int]));
                lemma_sp_fold_chain_snoc(
                    initial_fbc_poly.view_terms(),
                    pv0.take(i as int),
                    pv0[i as int],
                );
            }
            fbc_poly = next;
            i += 1;
        }
        proof {
            assert(pv0.take(pv0.len() as int) =~= pv0);
            assert(pv0.skip(pv0.len() as int) =~= Seq::<int>::empty());
        }
        let reduced = fbc_poly.reduce();
        if reduced.len() == 0 {
            proof {
                let terms = fbc_poly.view_terms();
                assert(table_view(reduced@) == sp_reduce_spec(terms));
                assert(table_view(reduced@).len() == reduced@.len());
                if terms.len() == 0 {
                    assert(sp_reduce_spec(terms).len() == 1);
                } else {
                    assert(crate::combined_polys::sp_reduce_len(terms) >= 1);
                    assert(sp_reduce_spec(terms).len() >= 1);
                }
                assert(false);
            }
            return Err(Error::LengthMismatch);
        }
        Ok(reduced[0])
    }

    /// Every layer's output table, zero-padded on the right to the next
    /// power of two: the form the multilinear machinery consumes.
    pub fn multilinearize_w_poly(&mut self) -> (r: Result<Vec<Vec<Fq>>, Error>)
        ensures
            *final(self) == *old(self),
            r is Ok <==> (forall|i: int|
                0 <= i < old(self).circuit.layers@.len() ==> crate::gkr_circuit::clog2(
                    (#[trigger] old(self).circuit.layers@[i]).layer_output@.len(),
                ) <= 30),
            r matches Ok(out) ==> {
                &&& out@.len() == old(self).circuit.layers@.len()
                &&& forall|i: int|
                    0 <= i < out@.len() ==> {
                        let src = old(self).circuit.layers@[i].layer_output@;
                        &&& is_pow2_len((#[trigger] out@[i])@.len())
                        &&& src.len() <= out@[i]@.len()
                        &&& table_view(out@[i]@) == crate::gkr_circuit::pad_table(
                            table_view(src),
                            out@[i]@.len(),
                        )
                    }
            },
    {
        let mut out: Vec<Vec<Fq>> = Vec::new();
        let mut i: usize = 0;
        while i < self.circuit.layers.len()
            invariant
                i <= self.circuit.layers@.len(),
                *self == *old(self),
                out@.len() == i,
                forall|k: int|
                    0 <= k < i ==> crate::gkr_circuit::clog2(
                        (#[trigger] self.circuit.layers@[k]).layer_output@.len(),
                    ) <= 30,
                forall|k: int|
                    0 <= k < i ==> {
                        let src = self.circuit.layers@[k].layer_output@;
                        &&& is_pow2_len((#[trigger] out@[k])@.len())
                        &&& src.len() <= out@[k]@.len()
                        &&& table_view(out@[k]@) == crate::gkr_circuit::pad_table(
                            table_view(src),
                            out@[k]@.len(),
                        )
                    },
            decreases self.circuit.layers@.len() - i,
        {
            let padded = match pad_to_pow2(&self.circuit.layers[i].layer_output) {
                Ok(p) => p,
                Err(e) => {
                    proof {
                        assert(crate::gkr_circuit::clog2(
                            self.circuit.layers@[i as int].layer_output@.len(),
                        ) > 30);
                    }
                    return Err(e);
                },
            };
            out.push(padded);
            i += 1;
        }
        Ok(out)
    }
}

/// A table zero-padded on the right to the next power of two.
fn pad_to_pow2(src: &Vec<Fq>) -> (r: Result<Vec<Fq>, Error>)
    ensures
        r is Ok <==> crate::gkr_circuit::clog2(src@.len()) <= 30,
        r matches Ok(out) ==> {
            &&& is_pow2_len(out@.len())
            &&& src@.len() <= out@.len()
            &&& out@.len() == pow2(crate::gkr_circuit::clog2(src@.len()))
            &&& table_view(out@) == crate::gkr_circuit::pad_table(table_view(src@), out@.len())
        },
{
    let c = clog2_for(src.len());
    if c > 30 {
        return Err(Error::LengthMismatch);
    }
    proof {
        vstd::arithmetic::power2::lemma2_to64();
        if (c as nat) < 30 {
            vstd::arithmetic::power2::lemma_pow2_strictly_increases(c as nat, 30);
        }
    }
    let target = crate::mle::pow2_exec(c);
    if target < src.len() {
        proof {
            assert(false);
        }
        return Err(Error::LengthMismatch);
    }
    let mut padded = crate::combined_polys::copy_table(src);
    while padded.len() < target
        invariant
            padded@.len() <= target,
            src@.len() <= padded@.len(),
            table_view(padded@) == table_view(src@) + Seq::new(
                (padded@.len() - src@.len()) as nat,
                |m: int| 0int,
            ),
        decreases target - padded@.len(),
    {
        let ghost pre = padded@;
        padded.push(Fq::zero());
        proof {
            assert(padded@ == pre.push(padded@[pre.len() as int]));
            assert(table_view(padded@) =~= table_view(pre).push(
                padded@[pre.len() as int].as_int(),
            ));
            assert(table_view(padded@) =~= table_view(src@) + Seq::new(
                (padded@.len() - src@.len()) as nat,
                |m: int| 0int,
            ));
        }
    }
    proof {
        assert(table_view(padded@) =~= crate::gkr_circuit::pad_table(
            table_view(src@),
            padded@.len(),
        ));
    }
    Ok(padded)
}

/// Ceiling base-two logarithm, shared with the circuit's width bookkeeping.
fn clog2_for(g: usize) -> (r: usize)
    ensures
        r as nat == crate::gkr_circuit::clog2(g as nat),
        r <= 64,
        g as nat <= pow2(r as nat),
    decreases g,
{
    proof {
        vstd::arithmetic::power2::lemma2_to64();
        vstd::arithmetic::power2::lemma2_to64_rest();
        crate::gkr_circuit::lemma_clog2_le(g as nat, 64);
    }
    if g <= 1 {
        proof {
            assert(pow2(0) == 1) by { vstd::arithmetic::power2::lemma2_to64(); };
        }
        0
    } else {
        let half = g / 2 + g % 2;
        proof {
            vstd::arithmetic::div_mod::lemma_fundamental_div_mod(g as int, 2);
            vstd::arithmetic::div_mod::lemma_fundamental_div_mod(g as int + 1, 2);
            assert(half as int == (g as int + 1) / 2);
        }
        let rest = clog2_for(half);
        proof {
            vstd::arithmetic::power2::lemma_pow2_adds(rest as nat, 1);
            assert(pow2(1) == 2) by { vstd::arithmetic::power2::lemma2_to64(); };
        }
        1 + rest
    }
}

/// A copy of the first and second halves of a challenge list.
fn split_halves(v: &Vec<Fq>) -> (r: (Vec<Fq>, Vec<Fq>))
    ensures
        r.0@ == v@.take(v@.len() as int / 2),
        r.1@ == v@.subrange(v@.len() as int / 2, 2 * (v@.len() as int / 2)),
        r.0@.len() == v@.len() / 2,
        r.1@.len() == v@.len() / 2,
{
    let half = v.len() / 2;
    let mut rb: Vec<Fq> = Vec::new();
    let mut rc: Vec<Fq> = Vec::new();
    let mut t: usize = 0;
    while t < half
        invariant
            t <= half,
            2 * half <= v@.len(),
            v@.len() <= usize::MAX,
            rb@ == v@.take(t as int),
            rc@ == v@.subrange(half as int, half as int + t as int),
        decreases half - t,
    {
        rb.push(v[t]);
        rc.push(v[half + t]);
        proof {
            assert(v@.take(t as int + 1) =~= v@.take(t as int).push(v@[t as int]));
            assert(v@.subrange(half as int, half as int + t as int + 1) =~= v@.subrange(
                half as int,
                half as int + t as int,
            ).push(v@[half as int + t as int]));
        }
        t += 1;
    }
    proof {
        assert(rb@ =~= v@.take(v@.len() as int / 2));
        assert(rc@ =~= v@.subrange(v@.len() as int / 2, 2 * (v@.len() as int / 2)));
    }
    (rb, rc)
}

/// Two tables joined end to end.
fn concat_tables(a: &Vec<Fq>, b: &Vec<Fq>) -> (r: Vec<Fq>)
    ensures
        r@ == a@ + b@,
{
    let mut out = crate::combined_polys::copy_table(a);
    let mut i: usize = 0;
    while i < b.len()
        invariant
            i <= b@.len(),
            out@ == a@ + b@.take(i as int),
        decreases b@.len() - i,
    {
        out.push(b[i]);
        proof {
            assert(b@.take(i as int + 1) =~= b@.take(i as int).push(b@[i as int]));
            assert(a@ + b@.take(i as int + 1) =~= (a@ + b@.take(i as int)).push(b@[i as int]));
        }
        i += 1;
    }
    proof {
        assert(b@.take(b@.len() as int) =~= b@);
    }
    out
}

impl GKRProver {
    /// Build the full proof: pin the output claim from the transcript, then
    /// one sum-check per layer, folding the two half-claims into the next
    /// layer's claim with the transcript-derived combination, down to the
    /// input layer, whose half-claims are direct input evaluations.
    #[verifier::rlimit(100)]
    #[verifier::spinoff_prover]
    pub fn prove(&mut self, inputs: Vec<Fq>) -> (r: Result<GKRProof, Error>)
        ensures
            final(self).circuit == old(self).circuit,
            r matches Ok(p) ==> {
                &&& p.sumcheck_proofs@.len() == old(self).circuit.layers@.len()
                &&& p.w_rb_rcs@.len() == old(self).circuit.layers@.len()
                &&& p.w_poly@ == old(self).circuit.layers@[0].layer_output@
            },
            r matches Ok(p) ==> ({
                // the first claimed sum is the output table's evaluation at
                // the transcript-derived challenges, as the verifier checks
                let w0v = table_view(old(self).circuit.layers@[0].layer_output@);
                let st1 = old(self).transcript.bytes() + crate::transcript::poly_bytes(w0v);
                let gc0 = old(self).circuit.layers@[0].layer_gates@.len();
                let v0 = if crate::gkr_circuit::clog2(gc0) == 0 {
                    1nat
                } else {
                    crate::gkr_circuit::clog2(gc0)
                };
                p.sumcheck_proofs@[0].initial_claimed_sum.as_int() == mle_eval(
                    w0v,
                    crate::transcript::squeeze_n_vals(st1, v0),
                )
            }),
            r matches Ok(p) ==> forall|j: int|
                0 <= j < p.sumcheck_proofs@.len() ==> table_view(
                    (#[trigger] p.sumcheck_proofs@[j]).rand_challenges@,
                ) == crate::gkr_sum_check::chain_challenges(
                    rounds_view(p.sumcheck_proofs@[j].univars_and_sums@),
                    Seq::<u8>::empty() + be8(
                        p.sumcheck_proofs@[j].initial_claimed_sum.as_int(),
                    ),
                ),
            r matches Ok(p) ==> forall|j: int|
                0 <= j < p.sumcheck_proofs@.len() - 1 ==> #[trigger] claim_succession(
                    p.sumcheck_proofs@,
                    p.w_rb_rcs@,
                    j,
                ),
            r matches Ok(p) ==> ({
                // each layer's sum-check attests that layer's claim
                // polynomial: the wiring tables folded at the previous
                // layer's challenges, paired with the next layer's output
                let w0v = table_view(old(self).circuit.layers@[0].layer_output@);
                let st1 = old(self).transcript.bytes() + crate::transcript::poly_bytes(w0v);
                let gc0 = old(self).circuit.layers@[0].layer_gates@.len();
                let v0 = if crate::gkr_circuit::clog2(gc0) == 0 {
                    1nat
                } else {
                    crate::gkr_circuit::clog2(gc0)
                };
                let r0 = crate::transcript::squeeze_n_vals(st1, v0);
                forall|i: int|
                    0 <= i < p.sumcheck_proofs@.len() ==> #[trigger] gkr_layer_attested(
                        old(self).circuit,
                        p.sumcheck_proofs@,
                        p.w_rb_rcs@,
                        table_view(inputs@),
                        r0,
                        i,
                    )
            }),
    {
        let depth = self.circuit.layers.len();
        if depth == 0 {
            return Err(Error::LengthMismatch);
        }
        let w_0 = crate::combined_polys::copy_table(&self.circuit.layers[0].layer_output);
        let binding = conv_poly_to_byte(&w_0);
        self.transcript.absorb(binding.as_slice());
        let (output_bit, _) = self.circuit.get_bit_len(0);
        let r_0 = self.transcript.squeeze_n(output_bit as usize);
        let ghost r0v: Seq<int> = table_view(r_0@);
        let r0_len = r_0.len();
        let w0_copy = crate::combined_polys::copy_table(&w_0);
        let mut claim = match crate::mle::full_evaluate(&r0_len, w0_copy, &r_0) {
            Ok(v) => v,
            Err(e) => {
                return Err(e);
            },
        };
        let mut fbc = if depth >= 2 {
            match self.circuit.get_fbc_poly(0, r_0) {
                Ok(p) => {
                    proof {
                        assert(crate::gkr_circuit::clamp_idx(depth as nat, 0) == 0);
                        assert(crate::gkr_circuit::clamp_idx(depth as nat, 1) == 1);
                        assert(p.view_terms() == gkr_attested_poly(
                            old(self).circuit,
                            Seq::<Proof>::empty(),
                            Seq::<(Fq, Fq)>::empty(),
                            table_view(inputs@),
                            r0v,
                            0,
                        ));
                    }
                    p
                },
                Err(e) => {
                    return Err(e);
                },
            }
        } else {
            // a single-layer circuit: the pair tables read the raw inputs
            let (a_bits, _) = self.circuit.get_bit_len(0);
            let pairm = match self.circuit.addi_muli_function(0) {
                Ok(t) => t,
                Err(e) => {
                    return Err(e);
                },
            };
            let (addi0, muli0) = pairm;
            if (a_bits as usize) > r_0.len() {
                return Err(Error::LengthMismatch);
            }
            let add_rbc = match crate::mle::fold_prefix(addi0, &r_0, a_bits as usize) {
                Ok(t) => t,
                Err(e) => {
                    return Err(e);
                },
            };
            let mul_rbc = match crate::mle::fold_prefix(muli0, &r_0, a_bits as usize) {
                Ok(t) => t,
                Err(e) => {
                    return Err(e);
                },
            };
            let padded_inputs = match pad_to_pow2(&inputs) {
                Ok(t) => t,
                Err(e) => {
                    return Err(e);
                },
            };
            let wpa = match crate::gkr_circuit::wi_pair_add_table(&padded_inputs) {
                Ok(t) => t,
                Err(e) => {
                    return Err(e);
                },
            };
            let wpm = match crate::gkr_circuit::wi_pair_mul_table(&padded_inputs) {
                Ok(t) => t,
                Err(e) => {
                    return Err(e);
                },
            };
            let ghost arbv: Seq<int> = table_view(add_rbc@);
            let ghost mrbv: Seq<int> = table_view(mul_rbc@);
            let ghost wpav: Seq<int> = table_view(wpa@);
            let ghost wpmv: Seq<int> = table_view(wpm@);
            let ghost padv_g: Seq<int> = table_view(padded_inputs@);
            let ghost pad_len: int = padded_inputs@.len() as int;
            let sp = SumPoly::new(vec![
                crate::combined_polys::ProductPoly::new(vec![add_rbc, wpa]),
                crate::combined_polys::ProductPoly::new(vec![mul_rbc, wpm]),
            ]);
            proof {
                assert(sp.view_terms() =~~= seq![seq![arbv, wpav], seq![mrbv, wpmv]]);
                assert(crate::gkr_circuit::clamp_idx(depth as nat, 0) == 0);
                assert(table_view(r_0@.take(a_bits as int)) =~= r0v.take(a_bits as int));
                let padv = crate::gkr_circuit::pad_table(
                    table_view(inputs@),
                    pow2(crate::gkr_circuit::clog2(table_view(inputs@).len())),
                );
                assert(table_view(inputs@).len() == inputs@.len());
                assert(padv_g == padv);
                assert(padv.len() == pad_len);
                assert(sp.view_terms() == gkr_attested_poly(
                    old(self).circuit,
                    Seq::<Proof>::empty(),
                    Seq::<(Fq, Fq)>::empty(),
                    table_view(inputs@),
                    r0v,
                    0,
                ));
            }
            sp
        };
        let ghost claim_formula: int = ({
            let w0v = table_view(old(self).circuit.layers@[0].layer_output@);
            let st1 = old(self).transcript.bytes() + crate::transcript::poly_bytes(w0v);
            let gc0 = old(self).circuit.layers@[0].layer_gates@.len();
            let v0 = if crate::gkr_circuit::clog2(gc0) == 0 {
                1nat
            } else {
                crate::gkr_circuit::clog2(gc0)
            };
            mle_eval(w0v, crate::transcript::squeeze_n_vals(st1, v0))
        });
        let ghost r0_formula: Seq<int> = ({
            let w0v = table_view(old(self).circuit.layers@[0].layer_output@);
            let st1 = old(self).transcript.bytes() + crate::transcript::poly_bytes(w0v);
            let gc0 = old(self).circuit.layers@[0].layer_gates@.len();
            let v0 = if crate::gkr_circuit::clog2(gc0) == 0 {
                1nat
            } else {
                crate::gkr_circuit::clog2(gc0)
            };
            crate::transcript::squeeze_n_vals(st1, v0)
        });
        proof {
            assert(r_0@.take(r0_len as int) =~= r_0@);
            assert(claim.as_int() == claim_formula);
            assert(r0v == r0_formula);
        }
        let mut sumcheck_proofs: Vec<Proof> = Vec::new();
        let mut w_rb_rcs: Vec<(Fq, Fq)> = Vec::new();
        let mut i: usize = 0;
        while i < depth
            invariant
                i <= depth,
                depth == self.circuit.layers@.len(),
                self.circuit == old(self).circuit,
                sumcheck_proofs@.len() == i,
                w_rb_rcs@.len() == i,
                i == 0 ==> claim.as_int() == claim_formula,
                i > 0 ==> sumcheck_proofs@[0].initial_claimed_sum.as_int() == claim_formula,
                i > 0 && i < depth ==> claim.as_int() == succ_value(
                    sumcheck_proofs@,
                    w_rb_rcs@,
                    i - 1,
                ),
                forall|j: int|
                    0 <= j < i - 1 ==> #[trigger] claim_succession(
                        sumcheck_proofs@,
                        w_rb_rcs@,
                        j,
                    ),
                forall|j: int|
                    0 <= j < i ==> table_view(
                        (#[trigger] sumcheck_proofs@[j]).rand_challenges@,
                    ) == crate::gkr_sum_check::chain_challenges(
                        rounds_view(sumcheck_proofs@[j].univars_and_sums@),
                        Seq::<u8>::empty() + be8(
                            sumcheck_proofs@[j].initial_claimed_sum.as_int(),
                        ),
                    ),
                r0v == r0_formula,
                i < depth ==> fbc.view_terms() == gkr_attested_poly(
                    old(self).circuit,
                    sumcheck_proofs@,
                    w_rb_rcs@,
                    table_view(inputs@),
                    r0v,
                    i as int,
                ),
                forall|j: int|
                    0 <= j < i ==> #[trigger] gkr_layer_attested(
                        old(self).circuit,
                        sumcheck_proofs@,
                        w_rb_rcs@,
                        table_view(inputs@),
                        r0v,
                        j,
                    ),
            decreases depth - i,
        {
            let (_, total_bc) = self.circuit.get_bit_len(i);
            let mut sc_prover = Prover::init(
                SumPoly::new(Vec::new()),
                Transcript::new(),
                claim,
            );
            let ghost fbc_terms: Seq<Seq<Seq<int>>> = fbc.view_terms();
            let sproof = match sc_prover.generate_gkr_sumcheck_proof(fbc, claim, total_bc) {
                Ok(p) => p,
                Err(e) => {
                    return Err(e);
                },
            };
            let r_values = crate::combined_polys::copy_table(&sproof.rand_challenges);
            let ghost sti: Seq<u8> = chain_state(
                rounds_view(sproof.univars_and_sums@),
                Seq::<u8>::empty() + be8(claim.as_int()),
            );
            proof {
                assert(sproof.initial_claimed_sum == claim);
                assert(Seq::<u8>::empty() + be8(claim.as_int()) =~= be8(claim.as_int()));
                assert(sc_prover.transcript.bytes() == sti) by {
                    assert(Seq::<u8>::empty() + be8(claim.as_int()) =~= be8(claim.as_int()));
                };
            }
            let ghost prev_proofs = sumcheck_proofs@;
            let ghost prev_wrr = w_rb_rcs@;
            sumcheck_proofs.push(sproof);
            proof {
                if i > 0 {
                    // the pushed proof's claimed sum settles the pending
                    // succession of the previous layer
                    assert forall|j: int| 0 <= j < i implies #[trigger] claim_succession(
                        sumcheck_proofs@,
                        w_rb_rcs@,
                        j,
                    ) by {
                        assert(sumcheck_proofs@[j] == prev_proofs[j]);
                        assert(sumcheck_proofs@[j + 1] == (if j + 1 < i {
                            prev_proofs[j + 1]
                        } else {
                            sproof
                        }));
                        if j < i - 1 {
                            assert(claim_succession(prev_proofs, prev_wrr, j));
                        } else {
                            assert(sumcheck_proofs@[i as int].initial_claimed_sum == claim);
                        }
                    }
                }
            }
            if i + 1 < depth {
                let pairm = match self.circuit.addi_muli_function(i + 1) {
                    Ok(t) => t,
                    Err(e) => {
                        return Err(e);
                    },
                };
                let (addi_next, muli_next) = pairm;
                let nva = self.circuit.calculate_num_vars_after_blowup(i + 1) as usize;
                let vn = nva - 1;
                if vn > 30 {
                    return Err(Error::LengthMismatch);
                }
                proof {
                    vstd::arithmetic::power2::lemma2_to64();
                    if (vn as nat) < 30 {
                        vstd::arithmetic::power2::lemma_pow2_strictly_increases(vn as nat, 30);
                    }
                }
                let sz = crate::mle::pow2_exec(vn);
                let wtab = match self.circuit.padded_output(i + 1, sz) {
                    Ok(t) => t,
                    Err(e) => {
                        return Err(e);
                    },
                };
                let wb = crate::combined_polys::copy_table(&wtab);
                let ghost wbv: Seq<int> = table_view(wb@);
                let ghost wcv: Seq<int> = table_view(wtab@);
                if i + 2 < depth {
                    let combined = match self.circuit.get_alpha_beta_poly_and_sum(
                        i + 1,
                        addi_next,
                        muli_next,
                        wb,
                        wtab,
                        r_values,
                        &mut sc_prover.transcript,
                    ) {
                        Ok(t) => t,
                        Err(e) => {
                            return Err(e);
                        },
                    };
                    let (new_fbc, new_claim, w_rb, w_rc) = combined;
                    if w_rb.len() != 1 || w_rc.len() != 1 {
                        return Err(Error::LengthMismatch);
                    }
                    let ghost wrr_pre2 = w_rb_rcs@;
                    w_rb_rcs.push((w_rb[0], w_rc[0]));
                    fbc = new_fbc;
                    claim = new_claim;
                    proof {
                        assert forall|j: int| 0 <= j < i as int implies #[trigger] claim_succession(
                            sumcheck_proofs@,
                            w_rb_rcs@,
                            j,
                        ) by {
                            assert(w_rb_rcs@[j] == wrr_pre2[j]);
                            assert(w_rb_rcs@[j + 1 - 1] == wrr_pre2[j]);
                            assert(claim_succession(sumcheck_proofs@, wrr_pre2, j));
                        }
                    }
                    proof {
                        let halfi = r_values@.len() as int / 2;
                        let rbv = table_view(r_values@).take(halfi);
                        let rcv = table_view(r_values@).subrange(halfi, 2 * halfi);
                        let wrbv = fold0_chain(wbv, rbv);
                        let wrcv = fold0_chain(wcv, rcv);
                        assert(halfi >= 1);
                        crate::mle::lemma_fold0_chain_ok(wbv, rbv);
                        crate::mle::lemma_fold0_chain_ok(wcv, rcv);
                        assert(wrbv =~= seq![w_rb_rcs@[i as int].0.as_int()]);
                        assert(wrcv =~= seq![w_rb_rcs@[i as int].1.as_int()]);
                        assert(wrbv.drop_last() =~= Seq::<int>::empty());
                        assert(wrcv.drop_last() =~= Seq::<int>::empty());
                        assert(sum_vals(Seq::<int>::empty()) == 0);
                        vstd::arithmetic::div_mod::lemma_small_mod(
                            wrbv[0] as nat,
                            crate::field::P as nat,
                        );
                        vstd::arithmetic::div_mod::lemma_small_mod(
                            wrcv[0] as nat,
                            crate::field::P as nat,
                        );
                        assert(sum_vals(wrbv) == crate::field::fadd(0, wrbv.last()));
                        assert(sum_vals(wrcv) == crate::field::fadd(0, wrcv.last()));
                        assert(sum_vals(wrbv) == w_rb_rcs@[i as int].0.as_int());
                        assert(sum_vals(wrcv) == w_rb_rcs@[i as int].1.as_int());
                        assert(claim.as_int() == succ_value(
                            sumcheck_proofs@,
                            w_rb_rcs@,
                            i as int,
                        ));
                    }
                    proof {
                        // the rebuilt claim polynomial is the attested
                        // polynomial of the next layer
                        let iv = table_view(inputs@);
                        assert(sumcheck_proofs@[i as int] == sproof);
                        assert(crate::gkr_circuit::clamp_idx(depth as nat, (i + 1) as nat) == i
                            + 1);
                        assert(crate::gkr_circuit::clamp_idx(depth as nat, (i + 2) as nat) == i
                            + 2);
                        let stprev = Seq::<u8>::empty() + be8(
                            sproof.initial_claimed_sum.as_int(),
                        );
                        let prev_rounds = rounds_view(sproof.univars_and_sums@);
                        let chprev = chain_challenges(prev_rounds, stprev);
                        assert(chprev == table_view(r_values@));
                        assert(chain_state(prev_rounds, stprev) == sti);
                        let halfa = chprev.len() as int / 2;
                        let rbva = chprev.take(halfa);
                        let rcva = chprev.subrange(halfa, 2 * halfa);
                        assert(fold0_chain(wbv, rbva) == seq![w_rb_rcs@[i as int].0.as_int()]);
                        assert(fold0_chain(wcv, rcva) == seq![w_rb_rcs@[i as int].1.as_int()]);
                        assert(fbc.view_terms() == gkr_attested_poly(
                            old(self).circuit,
                            sumcheck_proofs@,
                            w_rb_rcs@,
                            iv,
                            r0v,
                            i + 1,
                        ));
                    }
                } else {
                    // the next layer is the last: its pair tables read the
                    // raw input table, which is no realized layer
                    let combined = match self.circuit.new_addi_muli(
                        addi_next,
                        muli_next,
                        wb,
                        wtab,
                        r_values,
                        &mut sc_prover.transcript,
                    ) {
                        Ok(t) => t,
                        Err(e) => {
                            return Err(e);
                        },
                    };
                    let (new_addi, new_muli, new_claim, w_rb, w_rc) = combined;
                    if w_rb.len() != 1 || w_rc.len() != 1 {
                        return Err(Error::LengthMismatch);
                    }
                    let padded_inputs = match pad_to_pow2(&inputs) {
                        Ok(t) => t,
                        Err(e) => {
                            return Err(e);
                        },
                    };
                    let wpa = match crate::gkr_circuit::wi_pair_add_table(&padded_inputs) {
                        Ok(t) => t,
                        Err(e) => {
                            return Err(e);
                        },
                    };
                    let wpm = match crate::gkr_circuit::wi_pair_mul_table(&padded_inputs) {
                        Ok(t) => t,
                        Err(e) => {
                            return Err(e);
                        },
                    };
                    let ghost wrr_pre2 = w_rb_rcs@;
                    w_rb_rcs.push((w_rb[0], w_rc[0]));
                    let ghost nav: Seq<int> = table_view(new_addi@);
                    let ghost nmv: Seq<int> = table_view(new_muli@);
                    let ghost wpav: Seq<int> = table_view(wpa@);
                    let ghost wpmv: Seq<int> = table_view(wpm@);
                    let ghost padv_g: Seq<int> = table_view(padded_inputs@);
                    let ghost pad_len: int = padded_inputs@.len() as int;
                    fbc = SumPoly::new(vec![
                        crate::combined_polys::ProductPoly::new(vec![new_addi, wpa]),
                        crate::combined_polys::ProductPoly::new(vec![new_muli, wpm]),
                    ]);
                    proof {
                        assert(fbc.view_terms() =~~= seq![seq![nav, wpav], seq![nmv, wpmv]]);
                    }
                    claim = new_claim;
                    proof {
                        assert forall|j: int| 0 <= j < i as int implies #[trigger] claim_succession(
                            sumcheck_proofs@,
                            w_rb_rcs@,
                            j,
                        ) by {
                            assert(w_rb_rcs@[j] == wrr_pre2[j]);
                            assert(w_rb_rcs@[j + 1 - 1] == wrr_pre2[j]);
                            assert(claim_succession(sumcheck_proofs@, wrr_pre2, j));
                        }
                    }
                    proof {
                        let halfi = r_values@.len() as int / 2;
                        let rbv = table_view(r_values@).take(halfi);
                        let rcv = table_view(r_values@).subrange(halfi, 2 * halfi);
                        let wrbv = fold0_chain(wbv, rbv);
                        let wrcv = fold0_chain(wcv, rcv);
                        assert(halfi >= 1);
                        crate::mle::lemma_fold0_chain_ok(wbv, rbv);
                        crate::mle::lemma_fold0_chain_ok(wcv, rcv);
                        assert(wrbv =~= seq![w_rb_rcs@[i as int].0.as_int()]);
                        assert(wrcv =~= seq![w_rb_rcs@[i as int].1.as_int()]);
                        assert(wrbv.drop_last() =~= Seq::<int>::empty());
                        assert(wrcv.drop_last() =~= Seq::<int>::empty());
                        assert(sum_vals(Seq::<int>::empty()) == 0);
                        vstd::arithmetic::div_mod::lemma_small_mod(
                            wrbv[0] as nat,
                            crate::field::P as nat,
                        );
                        vstd::arithmetic::div_mod::lemma_small_mod(
                            wrcv[0] as nat,
                            crate::field::P as nat,
                        );
                        assert(sum_vals(wrbv) == crate::field::fadd(0, wrbv.last()));
                        assert(sum_vals(wrcv) == crate::field::fadd(0, wrcv.last()));
                        assert(sum_vals(wrbv) == w_rb_rcs@[i as int].0.as_int());
                        assert(sum_vals(wrcv) == w_rb_rcs@[i as int].1.as_int());
                        assert(claim.as_int() == succ_value(
                            sumcheck_proofs@,
                            w_rb_rcs@,
                            i as int,
                        ));
                    }
                    proof {
                        // the rebuilt claim polynomial is the attested
                        // polynomial of the last layer, whose pair tables
                        // read the padded input table
                        let iv = table_view(inputs@);
                        assert(sumcheck_proofs@[i as int] == sproof);
                        assert(crate::gkr_circuit::clamp_idx(depth as nat, (i + 1) as nat) == i
                            + 1);
                        let stprev = Seq::<u8>::empty() + be8(
                            sproof.initial_claimed_sum.as_int(),
                        );
                        let prev_rounds = rounds_view(sproof.univars_and_sums@);
                        let chprev = chain_challenges(prev_rounds, stprev);
                        assert(chprev == table_view(r_values@));
                        assert(chain_state(prev_rounds, stprev) == sti);
                        let halfa = chprev.len() as int / 2;
                        let rbva = chprev.take(halfa);
                        let rcva = chprev.subrange(halfa, 2 * halfa);
                        assert(fold0_chain(wbv, rbva) == seq![w_rb_rcs@[i as int].0.as_int()]);
                        assert(fold0_chain(wcv, rcva) == seq![w_rb_rcs@[i as int].1.as_int()]);
                        let padv = crate::gkr_circuit::pad_table(
                            iv,
                            pow2(crate::gkr_circuit::clog2(iv.len())),
                        );
                        assert(iv.len() == inputs@.len());
                        assert(padv_g == padv);
                        assert(padv.len() == pad_len);
                        assert(fbc.view_terms() == gkr_attested_poly(
                            old(self).circuit,
                            sumcheck_proofs@,
                            w_rb_rcs@,
                            iv,
                            r0v,
                            i + 1,
                        ));
                    }
                }
            } else {
                let (rb, rc) = split_halves(&r_values);
                let half = rb.len();
                let in_copy1 = crate::combined_polys::copy_table(&inputs);
                let wrb = match crate::mle::full_evaluate(&half, in_copy1, &rb) {
                    Ok(v) => v,
                    Err(e) => {
                        return Err(e);
                    },
                };
                let in_copy2 = crate::combined_polys::copy_table(&inputs);
                let wrc = match crate::mle::full_evaluate(&half, in_copy2, &rc) {
                    Ok(v) => v,
                    Err(e) => {
                        return Err(e);
                    },
                };
                let ghost wrr_pre2 = w_rb_rcs@;
                w_rb_rcs.push((wrb, wrc));
                fbc = SumPoly::new(Vec::new());
                proof {
                    assert forall|j: int| 0 <= j < i as int implies #[trigger] claim_succession(
                        sumcheck_proofs@,
                        w_rb_rcs@,
                        j,
                    ) by {
                        assert(w_rb_rcs@[j] == wrr_pre2[j]);
                        assert(claim_succession(sumcheck_proofs@, wrr_pre2, j));
                    }
                }
            }
            proof {
                // the attestation facts survive this iteration's pushes, and
                // the layer just proved gains its own from the sum-check
                // prover's honesty clause
                let iv = table_view(inputs@);
                let cg = old(self).circuit;
                assert forall|j: int| 0 <= j < i + 1 implies #[trigger] gkr_layer_attested(
                    cg,
                    sumcheck_proofs@,
                    w_rb_rcs@,
                    iv,
                    r0v,
                    j,
                ) by {
                    assert(sumcheck_proofs@[j] == (if j < i {
                        prev_proofs[j]
                    } else {
                        sproof
                    }));
                    if j < i as int {
                        if j >= 1 {
                            assert(sumcheck_proofs@[j - 1] == prev_proofs[j - 1]);
                            assert(w_rb_rcs@[j - 1] == prev_wrr[j - 1]);
                        }
                        assert(gkr_attested_poly(cg, sumcheck_proofs@, w_rb_rcs@, iv, r0v, j)
                            == gkr_attested_poly(cg, prev_proofs, prev_wrr, iv, r0v, j));
                        assert(gkr_layer_attested(cg, prev_proofs, prev_wrr, iv, r0v, j));
                    } else {
                        if j >= 1 {
                            assert(sumcheck_proofs@[j - 1] == prev_proofs[j - 1]);
                            assert(w_rb_rcs@[j - 1] == prev_wrr[j - 1]);
                        }
                        assert(gkr_attested_poly(cg, sumcheck_proofs@, w_rb_rcs@, iv, r0v, j)
                            == gkr_attested_poly(cg, prev_proofs, prev_wrr, iv, r0v, j));
                        assert(gkr_attested_poly(cg, prev_proofs, prev_wrr, iv, r0v, j)
                            == fbc_terms);
                        assert(rounds_view(sumcheck_proofs@[j].univars_and_sums@)
                            == rounds_view(sproof.univars_and_sums@));
                        assert(rounds_view(sproof.univars_and_sums@).len() == total_bc as int);
                    }
                }
            }
            i += 1;
        }
        Ok(GKRProof { w_poly: w_0, sumcheck_proofs, w_rb_rcs })
    }
}


/// The whole replay from layer `i` on: each layer's sum-check chain must
/// accept, the recomputed wiring-times-output claim must equal the chain's
/// final claim, and the next layer's claimed sum must equal the
/// transcript-combined half-claims, the last layer reading the raw inputs.
/// `pa`/`pb`/`prb`/`prc` carry the previous layer's combination challenges
/// and challenge halves.
pub open spec fn gkr_layers_ok(
    c: crate::gkr_circuit::Circuit,
    proofs: Seq<Proof>,
    wrr: Seq<(Fq, Fq)>,
    inputs: Seq<int>,
    r0v: Seq<int>,
    i: int,
    pa: int,
    pb: int,
    prb: Seq<int>,
    prc: Seq<int>,
) -> bool
    decreases c.layers@.len() - i,
{
    if i < 0 || i >= c.layers@.len() {
        true
    } else {
        let s = proofs[i].initial_claimed_sum.as_int();
        let rounds = rounds_view(proofs[i].univars_and_sums@);
        let st = Seq::<u8>::empty() + be8(s);
        let chals = chain_challenges(rounds, st);
        let fin = chain_final(rounds, s, st);
        let half = chals.len() as int / 2;
        let last = i + 1 == c.layers@.len();
        let wrb = if last {
            mle_eval(inputs, chals.take(half))
        } else {
            wrr[i].0.as_int()
        };
        let wrc = if last {
            mle_eval(inputs, chals.subrange(half, 2 * half))
        } else {
            wrr[i].1.as_int()
        };
        let gates = c.layers@[i].layer_gates@;
        let ob = if clog2(gates.len()) == 0 {
            1nat
        } else {
            clog2(gates.len())
        };
        let tbc = (clog2(gates.len()) + 1) * 2;
        let w = (ob + 1) as nat;
        let len = pow2((ob + tbc) as nat);
        let addi = addi_table(gates, len, w);
        let muli = muli_table(gates, len, w);
        let ptsb = if i == 0 {
            r0v + chals
        } else {
            prb + chals
        };
        let ptsc = if i == 0 {
            r0v + chals
        } else {
            prc + chals
        };
        let cadd = if i == 0 {
            mle_eval(addi, ptsb)
        } else {
            fadd(fmul(pa, mle_eval(addi, ptsb)), fmul(pb, mle_eval(addi, ptsc)))
        };
        let cmul = if i == 0 {
            mle_eval(muli, ptsb)
        } else {
            fadd(fmul(pa, mle_eval(muli, ptsb)), fmul(pb, mle_eval(muli, ptsc)))
        };
        let expected = fadd(fmul(cadd, fadd(wrb, wrc)), fmul(cmul, fmul(wrb, wrc)));
        let scend = chain_state(rounds, st);
        let a2 = squeeze_val(scend + poly_bytes(seq![wrb]));
        let st2 = squeeze_state(scend + poly_bytes(seq![wrb]));
        let b2 = squeeze_val(st2 + poly_bytes(seq![wrc]));
        &&& chain_accepts(rounds, s, st)
        &&& (last ==> is_pow2_len(inputs.len()) && half as nat <= crate::mle::num_vars(
            inputs.len(),
        ))
        &&& ob + tbc <= 30
        &&& (forall|k: int|
            0 <= k < gates.len() ==> 0 <= gate_index(#[trigger] gates[k], w) < len)
        &&& ptsb.len() <= ob + tbc
        &&& ptsc.len() <= ob + tbc
        &&& fin == expected
        &&& (!last ==> proofs[i + 1].initial_claimed_sum.as_int() == fadd(
            fmul(a2, wrb),
            fmul(b2, wrc),
        ))
        &&& gkr_layers_ok(
            c,
            proofs,
            wrr,
            inputs,
            r0v,
            i + 1,
            a2,
            b2,
            chals.take(half),
            chals.subrange(half, 2 * half),
        )
    }
}


/// The output-claim bit width of the first layer.
pub open spec fn gkr_output_bits(c: crate::gkr_circuit::Circuit) -> nat {
    let gc0 = c.layers@[0].layer_gates@.len();
    if clog2(gc0) == 0 {
        1nat
    } else {
        clog2(gc0)
    }
}

/// The output-pinning challenges: squeezed after the output table is
/// absorbed.
pub open spec fn gkr_r0_chals(
    c: crate::gkr_circuit::Circuit,
    w0v: Seq<int>,
    st0: Seq<u8>,
) -> Seq<int> {
    squeeze_n_vals(st0 + poly_bytes(w0v), gkr_output_bits(c))
}

/// Everything the replay checks: the shapes, the output claim against the
/// proof's own table, and every layer's conditions in order.
pub open spec fn gkr_verify_cond(
    c: crate::gkr_circuit::Circuit,
    p: GKRProof,
    inputsv: Seq<int>,
    st0: Seq<u8>,
) -> bool {
    let d = c.layers@.len() as int;
    let w0v = table_view(p.w_poly@);
    let r0v = gkr_r0_chals(c, w0v, st0);
    &&& d >= 1
    &&& p.sumcheck_proofs@.len() == d
    &&& p.w_rb_rcs@.len() == d
    &&& is_pow2_len(w0v.len())
    &&& gkr_output_bits(c) <= crate::mle::num_vars(w0v.len())
    &&& p.sumcheck_proofs@[0].initial_claimed_sum.as_int() == mle_eval(w0v, r0v)
    &&& gkr_layers_ok(
        c,
        p.sumcheck_proofs@,
        p.w_rb_rcs@,
        inputsv,
        r0v,
        0,
        0,
        0,
        Seq::<int>::empty(),
        Seq::<int>::empty(),
    )
}

/// The GKR verifier: mirrors every transcript interaction of the prover and
/// accepts only if every layer's recomputed claim matches.
pub struct GkrVerifier {
    pub transcript: Transcript,
    pub circuit: Circuit,
}

impl GkrVerifier {
    pub fn init(transcript: Transcript, circuit: Circuit) -> (r: GkrVerifier)
        ensures
            r.transcript == transcript,
            r.circuit == circuit,
    {
        GkrVerifier { transcript, circuit }
    }

    /// The input layer's two half-evaluations, computed from the known
    /// inputs rather than trusted from the proof.
    pub fn evaluate_input_layer(&self, inputs: &Vec<Fq>, rand_chal_arr: &Vec<Fq>) -> (r: Result<
        (Fq, Fq),
        Error,
    >)
        ensures
            r is Ok <==> is_pow2_len(inputs@.len()) && rand_chal_arr@.len() / 2 <= crate::mle::num_vars(
                inputs@.len(),
            ),
            r matches Ok(t) ==> ({
                let half = rand_chal_arr@.len() as int / 2;
                &&& t.0.as_int() == mle_eval(
                    table_view(inputs@),
                    table_view(rand_chal_arr@).take(half),
                )
                &&& t.1.as_int() == mle_eval(
                    table_view(inputs@),
                    table_view(rand_chal_arr@).subrange(half, 2 * half),
                )
            }),
    {
        let (rb, rc) = split_halves(rand_chal_arr);
        let half = rb.len();
        let in_copy1 = crate::combined_polys::copy_table(inputs);
        let wb = match crate::mle::full_evaluate(&half, in_copy1, &rb) {
            Ok(v) => v,
            Err(e) => {
                return Err(e);
            },
        };
        let in_copy2 = crate::combined_polys::copy_table(inputs);
        let wc = match crate::mle::full_evaluate(&half, in_copy2, &rc) {
            Ok(v) => v,
            Err(e) => {
                return Err(e);
            },
        };
        proof {
            let rv = table_view(rand_chal_arr@);
            let halfi = rand_chal_arr@.len() as int / 2;
            crate::mle::lemma_table_view_take(rb@, half as int);
            assert(rb@.take(half as int) =~= rb@);
            assert(rc@.take(half as int) =~= rc@);
            assert(table_view(rb@) =~= rv.take(halfi));
            assert(table_view(rc@) =~= rv.subrange(halfi, 2 * halfi));
        }
        Ok((wb, wc))
    }

    /// Replay the whole proof: re-derive the output challenges, verify each
    /// layer's sum-check, re-derive each combination challenge, and check
    /// every recomputed claim, substituting direct input evaluations at the
    /// final layer.  Any mismatch rejects the proof.
    #[verifier::rlimit(100)]
    #[verifier::spinoff_prover]
    pub fn verify_gkr_proof(&mut self, gkr_proof: GKRProof, inputs: Vec<Fq>) -> (r: bool)
        ensures
            r ==> gkr_proof.sumcheck_proofs@.len() == old(self).circuit.layers@.len(),
            r ==> gkr_proof.w_rb_rcs@.len() == old(self).circuit.layers@.len(),
            r ==> ({
                // the first claimed sum is pinned to the proof's own output
                // table, evaluated at the transcript-derived challenges
                let st1 = old(self).transcript.bytes() + poly_bytes(
                    table_view(gkr_proof.w_poly@),
                );
                let gc0 = old(self).circuit.layers@[0].layer_gates@.len();
                let v0 = if clog2(gc0) == 0 {
                    1nat
                } else {
                    clog2(gc0)
                };
                gkr_proof.sumcheck_proofs@[0].initial_claimed_sum.as_int() == mle_eval(
                    table_view(gkr_proof.w_poly@),
                    squeeze_n_vals(st1, v0),
                )
            }),
            r ==> forall|j: int|
                0 <= j < gkr_proof.sumcheck_proofs@.len() ==> chain_accepts(
                    rounds_view((#[trigger] gkr_proof.sumcheck_proofs@[j]).univars_and_sums@),
                    gkr_proof.sumcheck_proofs@[j].initial_claimed_sum.as_int(),
                    Seq::<u8>::empty() + be8(
                        gkr_proof.sumcheck_proofs@[j].initial_claimed_sum.as_int(),
                    ),
                ),
            gkr_verify_cond(
                old(self).circuit,
                gkr_proof,
                table_view(inputs@),
                old(self).transcript.bytes(),
            ) ==> r == true,
            r == true ==> gkr_verify_cond(
                old(self).circuit,
                gkr_proof,
                table_view(inputs@),
                old(self).transcript.bytes(),
            ),
    {
        let ghost cond0: bool = gkr_verify_cond(
            old(self).circuit,
            gkr_proof,
            table_view(inputs@),
            old(self).transcript.bytes(),
        );
        let ghost r0v: Seq<int> = gkr_r0_chals(
            old(self).circuit,
            table_view(gkr_proof.w_poly@),
            old(self).transcript.bytes(),
        );
        let depth = self.circuit.layers.len();
        if depth == 0 {
            return false;
        }
        if gkr_proof.sumcheck_proofs.len() != depth || gkr_proof.w_rb_rcs.len() != depth {
            return false;
        }
        let binding = conv_poly_to_byte(&gkr_proof.w_poly);
        self.transcript.absorb(binding.as_slice());
        let (output_bit, _) = self.circuit.get_bit_len(0);
        let r_0 = self.transcript.squeeze_n(output_bit as usize);
        let r0_len = r_0.len();
        proof {
            assert(table_view(r_0@) == r0v);
        }
        let w0_copy = crate::combined_polys::copy_table(&gkr_proof.w_poly);
        let m0 = match crate::mle::full_evaluate(&r0_len, w0_copy, &r_0) {
            Ok(v) => v,
            Err(_) => {
                proof {
                    if cond0 {
                        assert(false);
                    }
                }
                return false;
            },
        };
        proof {
            Fq::lemma_eq(gkr_proof.sumcheck_proofs@[0].initial_claimed_sum, m0);
            assert(r_0@.take(r0_len as int) =~= r_0@);
        }
        if !(gkr_proof.sumcheck_proofs[0].initial_claimed_sum == m0) {
            proof {
                if cond0 {
                    assert(false);
                }
            }
            return false;
        }
        let mut prev: Option<(Fq, Fq, Vec<Fq>, Vec<Fq>)> = None;
        let mut i: usize = 0;
        let ghost mut ga: int = 0;
        let ghost mut gb: int = 0;
        let ghost mut grb: Seq<int> = Seq::empty();
        let ghost mut grc: Seq<int> = Seq::empty();
        while i < depth
            invariant
                i <= depth,
                depth == self.circuit.layers@.len(),
                self.circuit == old(self).circuit,
                depth >= 1,
                gkr_proof.sumcheck_proofs@.len() == depth,
                gkr_proof.w_rb_rcs@.len() == depth,
                cond0 == gkr_verify_cond(
                    old(self).circuit,
                    gkr_proof,
                    table_view(inputs@),
                    old(self).transcript.bytes(),
                ),
                r0v == gkr_r0_chals(
                    old(self).circuit,
                    table_view(gkr_proof.w_poly@),
                    old(self).transcript.bytes(),
                ),
                cond0 ==> gkr_layers_ok(
                    old(self).circuit,
                    gkr_proof.sumcheck_proofs@,
                    gkr_proof.w_rb_rcs@,
                    table_view(inputs@),
                    r0v,
                    i as int,
                    ga,
                    gb,
                    grb,
                    grc,
                ),
                gkr_layers_ok(
                    old(self).circuit,
                    gkr_proof.sumcheck_proofs@,
                    gkr_proof.w_rb_rcs@,
                    table_view(inputs@),
                    r0v,
                    0,
                    0,
                    0,
                    Seq::<int>::empty(),
                    Seq::<int>::empty(),
                ) <==> gkr_layers_ok(
                    old(self).circuit,
                    gkr_proof.sumcheck_proofs@,
                    gkr_proof.w_rb_rcs@,
                    table_view(inputs@),
                    r0v,
                    i as int,
                    ga,
                    gb,
                    grb,
                    grc,
                ),
                i == 0 ==> prev is None && ga == 0 && gb == 0 && grb == Seq::<int>::empty()
                    && grc == Seq::<int>::empty(),
                i > 0 && i < depth ==> (prev matches Some(t) && t.0.as_int() == ga
                    && t.1.as_int() == gb && table_view(t.2@) == grb && table_view(t.3@)
                    == grc),
                table_view(r_0@) == r0v,
                forall|j: int|
                    0 <= j < i ==> chain_accepts(
                        rounds_view(
                            (#[trigger] gkr_proof.sumcheck_proofs@[j]).univars_and_sums@,
                        ),
                        gkr_proof.sumcheck_proofs@[j].initial_claimed_sum.as_int(),
                        Seq::<u8>::empty() + be8(
                            gkr_proof.sumcheck_proofs@[j].initial_claimed_sum.as_int(),
                        ),
                    ),
            decreases depth - i,
        {
            let ghost ga0: int = ga;
            let ghost gb0: int = gb;
            let ghost grb0: Seq<int> = grb;
            let ghost grc0: Seq<int> = grc;
            let ghost sv = gkr_proof.sumcheck_proofs@[i as int].initial_claimed_sum.as_int();
            let ghost roundsv = rounds_view(
                gkr_proof.sumcheck_proofs@[i as int].univars_and_sums@,
            );
            let ghost stv = Seq::<u8>::empty() + be8(sv);
            let ghost chalsv = chain_challenges(roundsv, stv);
            let pcopy = copy_proof(&gkr_proof.sumcheck_proofs[i]);
            let mut sc_verifier = GKRSumcheckVerifier::init(pcopy);
            let outcome = sc_verifier.verify_gkr_sumcheck_proof();
            let pair = match outcome {
                Ok(p) => p,
                Err(_) => {
                    proof {
                        if cond0 {
                            assert(chain_accepts(roundsv, sv, stv));
                            assert(false);
                        }
                    }
                    return false;
                },
            };
            let (rand_chal_arr, final_claim) = pair;
            let ghost scendv: Seq<u8> = sc_verifier.transcript.bytes();
            proof {
                assert(table_view(rand_chal_arr@) == chalsv);
                assert(final_claim.as_int() == chain_final(roundsv, sv, stv));
                assert(scendv == chain_state(roundsv, stv)) by {
                    assert(Seq::<u8>::empty() + be8(sv) =~= be8(sv));
                };
            }
            let half_pair = if i + 1 == depth {
                match self.evaluate_input_layer(&inputs, &rand_chal_arr) {
                    Ok(t) => t,
                    Err(_) => {
                        proof {
                            if cond0 {
                                assert(false);
                            }
                        }
                        return false;
                    },
                }
            } else {
                let entry = gkr_proof.w_rb_rcs[i];
                entry
            };
            let (w_rb, w_rc) = half_pair;
            let ghost wrbv: int = w_rb.as_int();
            let ghost wrcv: int = w_rc.as_int();
            let tables = match self.circuit.addi_muli_function(i) {
                Ok(t) => t,
                Err(_) => {
                    proof {
                        if cond0 {
                            assert(crate::gkr_circuit::clamp_idx(depth as nat, i as nat)
                                == i as int);
                            assert(false);
                        }
                    }
                    return false;
                },
            };
            proof {
                assert(crate::gkr_circuit::clamp_idx(depth as nat, i as nat) == i as int);
            }
            let (addi_poly, muli_poly) = tables;
            let ghost gatesg: Seq<crate::gkr_circuit::Gate> = old(
                self,
            ).circuit.layers@[i as int].layer_gates@;
            let ghost obg: nat = if clog2(gatesg.len()) == 0 {
                1nat
            } else {
                clog2(gatesg.len())
            };
            let ghost tbcg: nat = (clog2(gatesg.len()) + 1) * 2;
            let ghost wg: nat = (obg + 1) as nat;
            let ghost leng: nat = pow2((obg + tbcg) as nat);
            let ghost addig: Seq<int> = crate::gkr_circuit::addi_table(gatesg, leng, wg);
            let ghost mulig: Seq<int> = crate::gkr_circuit::muli_table(gatesg, leng, wg);
            proof {
                crate::gkr_sum_check::lemma_num_vars_pow2((obg + tbcg) as nat);
                assert(table_view(addi_poly@) == addig);
                assert(table_view(muli_poly@) == mulig);
            }
            let expected = match &prev {
                None => {
                    if i != 0 {
                        proof {
                            assert(false);
                        }
                        return false;
                    }
                    let pts = concat_tables(&r_0, &rand_chal_arr);
                    proof {
                        assert(table_view(pts@) =~= r0v + chalsv);
                    }
                    let count = pts.len();
                    let add_eval = match crate::mle::full_evaluate(&count, addi_poly, &pts) {
                        Ok(v) => v,
                        Err(_) => {
                            proof {
                                if cond0 {
                                    assert(false);
                                }
                            }
                            return false;
                        },
                    };
                    let mul_eval = match crate::mle::full_evaluate(&count, muli_poly, &pts) {
                        Ok(v) => v,
                        Err(_) => {
                            proof {
                                if cond0 {
                                    assert(false);
                                }
                            }
                            return false;
                        },
                    };
                    proof {
                        assert(pts@.take(count as int) =~= pts@);
                    }
                    let e = add_eval.mul(w_rb.add(w_rc)).add(mul_eval.mul(w_rb.mul(w_rc)));
                    proof {
                        assert(i == 0);
                        assert((r0v + chalsv).len() <= obg + tbcg);
                        assert(add_eval.as_int() == mle_eval(addig, r0v + chalsv));
                        assert(mul_eval.as_int() == mle_eval(mulig, r0v + chalsv));
                        assert(e.as_int() == fadd(
                            fmul(mle_eval(addig, r0v + chalsv), fadd(wrbv, wrcv)),
                            fmul(mle_eval(mulig, r0v + chalsv), fmul(wrbv, wrcv)),
                        ));
                    }
                    e
                },
                Some(state) => {
                    let alpha = state.0;
                    let beta = state.1;
                    let pts_b = concat_tables(&state.2, &rand_chal_arr);
                    let pts_c = concat_tables(&state.3, &rand_chal_arr);
                    proof {
                        assert(table_view(pts_b@) =~= grb + chalsv);
                        assert(table_view(pts_c@) =~= grc + chalsv);
                    }
                    let count_b = pts_b.len();
                    let count_c = pts_c.len();
                    let addi_copy = crate::combined_polys::copy_table(&addi_poly);
                    let muli_copy = crate::combined_polys::copy_table(&muli_poly);
                    let add_b = match crate::mle::full_evaluate(&count_b, addi_poly, &pts_b) {
                        Ok(v) => v,
                        Err(_) => {
                            proof {
                                if cond0 {
                                    assert(false);
                                }
                            }
                            return false;
                        },
                    };
                    let add_c = match crate::mle::full_evaluate(&count_c, addi_copy, &pts_c) {
                        Ok(v) => v,
                        Err(_) => {
                            proof {
                                if cond0 {
                                    assert(false);
                                }
                            }
                            return false;
                        },
                    };
                    let mul_b = match crate::mle::full_evaluate(&count_b, muli_poly, &pts_b) {
                        Ok(v) => v,
                        Err(_) => {
                            proof {
                                if cond0 {
                                    assert(false);
                                }
                            }
                            return false;
                        },
                    };
                    let mul_c = match crate::mle::full_evaluate(&count_c, muli_copy, &pts_c) {
                        Ok(v) => v,
                        Err(_) => {
                            proof {
                                if cond0 {
                                    assert(false);
                                }
                            }
                            return false;
                        },
                    };
                    proof {
                        assert(pts_b@.take(count_b as int) =~= pts_b@);
                        assert(pts_c@.take(count_c as int) =~= pts_c@);
                    }
                    let new_addi = alpha.mul(add_b).add(beta.mul(add_c));
                    let new_muli = alpha.mul(mul_b).add(beta.mul(mul_c));
                    let e = new_addi.mul(w_rb.add(w_rc)).add(new_muli.mul(w_rb.mul(w_rc)));
                    proof {
                        assert(i != 0);
                        assert(alpha.as_int() == ga0 && beta.as_int() == gb0);
                        assert((grb0 + chalsv).len() <= obg + tbcg);
                        assert((grc0 + chalsv).len() <= obg + tbcg);
                        assert(e.as_int() == fadd(
                            fmul(
                                fadd(
                                    fmul(ga0, mle_eval(addig, grb0 + chalsv)),
                                    fmul(gb0, mle_eval(addig, grc0 + chalsv)),
                                ),
                                fadd(wrbv, wrcv),
                            ),
                            fmul(
                                fadd(
                                    fmul(ga0, mle_eval(mulig, grb0 + chalsv)),
                                    fmul(gb0, mle_eval(mulig, grc0 + chalsv)),
                                ),
                                fmul(wrbv, wrcv),
                            ),
                        ));
                    }
                    e
                },
            };
            proof {
                Fq::lemma_eq(final_claim, expected);
            }
            if !(final_claim == expected) {
                proof {
                    if cond0 {
                        assert(false);
                    }
                }
                return false;
            }
            if i + 1 < depth {
                // re-derive the combination challenges exactly as the prover
                let wrb_vec = vec![w_rb];
                let bindb = conv_poly_to_byte(&wrb_vec);
                sc_verifier.transcript.absorb(bindb.as_slice());
                let alpha = sc_verifier.transcript.squeeze();
                let wrc_vec = vec![w_rc];
                let bindc = conv_poly_to_byte(&wrc_vec);
                sc_verifier.transcript.absorb(bindc.as_slice());
                let beta = sc_verifier.transcript.squeeze();
                proof {
                    assert(table_view(wrb_vec@) =~= seq![wrbv]);
                    assert(table_view(wrc_vec@) =~= seq![wrcv]);
                    assert(alpha.as_int() == squeeze_val(
                        scendv + poly_bytes(seq![wrbv]),
                    ));
                    assert(beta.as_int() == squeeze_val(
                        squeeze_state(scendv + poly_bytes(seq![wrbv])) + poly_bytes(seq![wrcv]),
                    ));
                }
                let expected_next = alpha.mul(w_rb).add(beta.mul(w_rc));
                proof {
                    Fq::lemma_eq(
                        gkr_proof.sumcheck_proofs@[i as int + 1].initial_claimed_sum,
                        expected_next,
                    );
                }
                if !(gkr_proof.sumcheck_proofs[i + 1].initial_claimed_sum == expected_next) {
                    proof {
                        if cond0 {
                            assert(false);
                        }
                    }
                    return false;
                }
                proof {
                    assert(gkr_proof.sumcheck_proofs@[i as int + 1].initial_claimed_sum.as_int()
                        == fadd(
                        fmul(squeeze_val(scendv + poly_bytes(seq![wrbv])), wrbv),
                        fmul(
                            squeeze_val(
                                squeeze_state(scendv + poly_bytes(seq![wrbv])) + poly_bytes(
                                    seq![wrcv],
                                ),
                            ),
                            wrcv,
                        ),
                    ));
                }
                let (rb, rc) = split_halves(&rand_chal_arr);
                proof {
                    crate::mle::lemma_table_view_take(
                        rand_chal_arr@,
                        rand_chal_arr@.len() as int / 2,
                    );
                    assert(table_view(rb@) == chalsv.take(chalsv.len() as int / 2));
                    assert(table_view(rc@) =~= chalsv.subrange(
                        chalsv.len() as int / 2,
                        2 * (chalsv.len() as int / 2),
                    ));
                    ga = alpha.as_int();
                    gb = beta.as_int();
                    grb = chalsv.take(chalsv.len() as int / 2);
                    grc = chalsv.subrange(chalsv.len() as int / 2, 2 * (chalsv.len() as int / 2));
                }
                prev = Some((alpha, beta, rb, rc));
            } else {
                proof {
                    ga = 0;
                    gb = 0;
                    grb = Seq::empty();
                    grc = Seq::empty();
                }
            }
            proof {
                // the peeled layer's checks all held, so the whole-replay
                // predicate is unchanged by stepping one layer forward
                let c = old(self).circuit;
                let proofs = gkr_proof.sumcheck_proofs@;
                let wrr = gkr_proof.w_rb_rcs@;
                let inputsv = table_view(inputs@);
                assert(chain_accepts(roundsv, sv, stv));
                let half = chalsv.len() as int / 2;
                let last = i as int + 1 == depth as int;
                if last {
                    assert(gkr_layers_ok(c, proofs, wrr, inputsv, r0v, i as int + 1, ga, gb, grb, grc));
                    assert(is_pow2_len(inputsv.len()) && half as nat <= crate::mle::num_vars(
                        inputsv.len(),
                    ));
                }
                assert(obg + tbcg <= 30 && (forall|k: int|
                    0 <= k < gatesg.len() ==> 0 <= crate::gkr_circuit::gate_index(
                        #[trigger] gatesg[k],
                        wg,
                    ) < leng));
                assert(chain_final(roundsv, sv, stv) == expected.as_int());
                if last {
                    assert(wrbv == mle_eval(inputsv, chalsv.take(half)));
                    assert(wrcv == mle_eval(inputsv, chalsv.subrange(half, 2 * half)));
                } else {
                    assert(wrbv == wrr[i as int].0.as_int());
                    assert(wrcv == wrr[i as int].1.as_int());
                    assert(ga == squeeze_val(
                        chain_state(roundsv, stv) + poly_bytes(seq![wrbv]),
                    ));
                    assert(gb == squeeze_val(
                        squeeze_state(chain_state(roundsv, stv) + poly_bytes(seq![wrbv]))
                            + poly_bytes(seq![wrcv]),
                    ));
                    assert(grb == chalsv.take(half));
                    assert(grc == chalsv.subrange(half, 2 * half));
                    assert(proofs[i as int + 1].initial_claimed_sum.as_int() == fadd(
                        fmul(ga, wrbv),
                        fmul(gb, wrcv),
                    ));
                }
                assert(c.layers@.len() == depth as int);
                let lhs = gkr_layers_ok(c, proofs, wrr, inputsv, r0v, i as int, ga0, gb0, grb0, grc0);
                let rhs = gkr_layers_ok(c, proofs, wrr, inputsv, r0v, i as int + 1, ga, gb, grb, grc);
                let spec_rec = gkr_layers_ok(
                    c,
                    proofs,
                    wrr,
                    inputsv,
                    r0v,
                    i as int + 1,
                    squeeze_val(chain_state(roundsv, stv) + poly_bytes(seq![wrbv])),
                    squeeze_val(
                        squeeze_state(chain_state(roundsv, stv) + poly_bytes(seq![wrbv]))
                            + poly_bytes(seq![wrcv]),
                    ),
                    chalsv.take(half),
                    chalsv.subrange(half, 2 * half),
                );
                if last {
                    assert(spec_rec);
                    assert(rhs);
                } else {
                    assert(spec_rec == rhs);
                }
                assert(lhs == spec_rec);
                assert(lhs <==> rhs);
            }
            i += 1;
        }
        true
    }
}

} // verus!
