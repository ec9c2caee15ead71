//! The non-interactive sum-check over a single evaluation table: the
//! prover's claimed sums and half-sum messages are bound into a Keccak
//! transcript, and the verifier replays the same bytes, checks every round,
//! and settles the last claim against the table itself.

use vstd::prelude::*;
use crate::field::{Fq, P, be8, fadd};
use crate::error::Error;
use crate::mle::{table_view, mle_eval, is_pow2_len, num_vars, lin, fold_spec, fold0_chain};
use crate::gkr_sum_check::sum_vals;
use crate::transcript::{Transcript, conv_poly_to_byte, poly_bytes, squeeze_val, squeeze_state};
use vstd::arithmetic::power2::pow2;

verus! {

/// The integer view of the proof's rounds.
pub open spec fn fs_view(s: Seq<(Fq, Vec<Fq>)>) -> Seq<(int, Seq<int>)> {
    s.map_values(|p: (Fq, Vec<Fq>)| (p.0.as_int(), table_view(p.1@)))
}

/// The transcript bytes after one round's sum and message are absorbed.
pub open spec fn fs_round_state(st: Seq<u8>, s: int, p: Seq<int>) -> Seq<u8> {
    st + be8(s) + poly_bytes(p)
}

/// The challenges the transcript yields for the rounds in order.
pub open spec fn fs_chals(rounds: Seq<(int, Seq<int>)>, st: Seq<u8>) -> Seq<int>
    decreases rounds.len(),
{
    if rounds.len() == 0 {
        Seq::empty()
    } else {
        let stp = fs_round_state(st, rounds[0].0, rounds[0].1);
        seq![squeeze_val(stp)] + fs_chals(rounds.drop_first(), squeeze_state(stp))
    }
}

/// Every round check of the replay: the message must be a two-entry table
/// summing to the claimed sum, and the message folded at the round's
/// challenge must equal the next round's claimed sum.
pub open spec fn fs_rounds_ok(rounds: Seq<(int, Seq<int>)>, st: Seq<u8>) -> bool
    decreases rounds.len(),
{
    if rounds.len() == 0 {
        true
    } else {
        let s = rounds[0].0;
        let p = rounds[0].1;
        let stp = fs_round_state(st, s, p);
        let c = squeeze_val(stp);
        &&& p.len() == 2
        &&& sum_vals(p) == s
        &&& (rounds.len() > 1 ==> lin(p[0], p[1], c) == rounds[1].0)
        &&& fs_rounds_ok(rounds.drop_first(), squeeze_state(stp))
    }
}

/// Peeling one round off the check chain.
proof fn lemma_fs_step(rounds: Seq<(int, Seq<int>)>, i: int, st: Seq<u8>)
    requires
        0 <= i < rounds.len(),
    ensures
        ({
            let s = rounds.skip(i)[0].0;
            let p = rounds.skip(i)[0].1;
            let stp = fs_round_state(st, s, p);
            &&& rounds.skip(i)[0] == rounds[i]
            &&& (fs_rounds_ok(rounds.skip(i), st) <==> {
                &&& p.len() == 2
                &&& sum_vals(p) == s
                &&& (rounds.skip(i).len() > 1 ==> lin(p[0], p[1], squeeze_val(stp))
                    == rounds.skip(i)[1].0)
                &&& fs_rounds_ok(rounds.skip(i + 1), squeeze_state(stp))
            })
            &&& fs_chals(rounds.skip(i), st) == seq![
                squeeze_val(fs_round_state(st, rounds[i].0, rounds[i].1)),
            ] + fs_chals(rounds.skip(i + 1), squeeze_state(
                fs_round_state(st, rounds[i].0, rounds[i].1),
            ))
        }),
{
    assert(rounds.skip(i)[0] == rounds[i]);
    assert(rounds.skip(i).drop_first() =~= rounds.skip(i + 1));
}

/// The transcript bytes after all rounds are absorbed and squeezed.
pub open spec fn fs_state(rounds: Seq<(int, Seq<int>)>, st: Seq<u8>) -> Seq<u8>
    decreases rounds.len(),
{
    if rounds.len() == 0 {
        st
    } else {
        fs_state(rounds.drop_first(), squeeze_state(fs_round_state(st, rounds[0].0, rounds[0].1)))
    }
}

/// The round checks with the final linkage still open: the last message
/// folded at its challenge is held to `next_claim` instead of a following
/// round.
pub open spec fn fs_ok_upto(rounds: Seq<(int, Seq<int>)>, st: Seq<u8>, next_claim: int) -> bool
    decreases rounds.len(),
{
    if rounds.len() == 0 {
        true
    } else {
        let s = rounds[0].0;
        let p = rounds[0].1;
        let stp = fs_round_state(st, s, p);
        let c = squeeze_val(stp);
        &&& p.len() == 2
        &&& sum_vals(p) == s
        &&& (if rounds.len() > 1 {
            lin(p[0], p[1], c) == rounds[1].0
        } else {
            lin(p[0], p[1], c) == next_claim
        })
        &&& fs_ok_upto(rounds.drop_first(), squeeze_state(stp), next_claim)
    }
}

/// Checks with the linkage open are at least the closed checks.
proof fn lemma_fs_upto_implies_ok(rounds: Seq<(int, Seq<int>)>, st: Seq<u8>, nc: int)
    requires
        fs_ok_upto(rounds, st, nc),
    ensures
        fs_rounds_ok(rounds, st),
    decreases rounds.len(),
{
    if rounds.len() > 0 {
        lemma_fs_upto_implies_ok(
            rounds.drop_first(),
            squeeze_state(fs_round_state(st, rounds[0].0, rounds[0].1)),
            nc,
        );
    }
}

/// Appending a round advances the replay state and challenge list by one
/// squeeze.
#[verifier::rlimit(100)]
proof fn lemma_fs_snoc_state(rounds: Seq<(int, Seq<int>)>, nr: (int, Seq<int>), st: Seq<u8>)
    ensures
        fs_state(rounds.push(nr), st) == squeeze_state(
            fs_round_state(fs_state(rounds, st), nr.0, nr.1),
        ),
        fs_chals(rounds.push(nr), st) == fs_chals(rounds, st).push(
            squeeze_val(fs_round_state(fs_state(rounds, st), nr.0, nr.1)),
        ),
        rounds.push(nr)[0] == (if rounds.len() == 0 {
            nr
        } else {
            rounds[0]
        }),
    decreases rounds.len(),
{
    let stp0 = squeeze_state(fs_round_state(st, rounds.push(nr)[0].0, rounds.push(nr)[0].1));
    if rounds.len() == 0 {
        assert(rounds.push(nr)[0] == nr);
        assert(rounds.push(nr).drop_first() =~= Seq::<(int, Seq<int>)>::empty());
        assert(rounds.push(nr).drop_first() == Seq::<(int, Seq<int>)>::empty());
        assert(fs_state(rounds.push(nr), st) == fs_state(rounds.push(nr).drop_first(), stp0));
        assert(fs_state(Seq::<(int, Seq<int>)>::empty(), stp0) == stp0);
        assert(fs_state(rounds, st) == st);
        assert(fs_chals(rounds.push(nr), st) == seq![
            squeeze_val(fs_round_state(st, nr.0, nr.1)),
        ] + fs_chals(rounds.push(nr).drop_first(), stp0));
        assert(fs_chals(Seq::<(int, Seq<int>)>::empty(), stp0) == Seq::<int>::empty());
        assert(fs_chals(rounds, st) == Seq::<int>::empty());
        assert(seq![squeeze_val(fs_round_state(st, nr.0, nr.1))] + Seq::<int>::empty()
            =~= Seq::<int>::empty().push(squeeze_val(fs_round_state(st, nr.0, nr.1))));
    } else {
        assert(rounds.push(nr)[0] == rounds[0]);
        assert(rounds.push(nr).drop_first() =~= rounds.drop_first().push(nr));
        let stp = squeeze_state(fs_round_state(st, rounds[0].0, rounds[0].1));
        assert(stp0 == stp);
        lemma_fs_snoc_state(rounds.drop_first(), nr, stp);
        assert(fs_state(rounds.push(nr), st) == fs_state(rounds.drop_first().push(nr), stp));
        assert(fs_state(rounds, st) == fs_state(rounds.drop_first(), stp));
        assert(fs_chals(rounds.push(nr), st) == seq![
            squeeze_val(fs_round_state(st, rounds[0].0, rounds[0].1)),
        ] + fs_chals(rounds.drop_first().push(nr), stp));
        assert(fs_chals(rounds, st) == seq![
            squeeze_val(fs_round_state(st, rounds[0].0, rounds[0].1)),
        ] + fs_chals(rounds.drop_first(), stp));
        let a = seq![squeeze_val(fs_round_state(st, rounds[0].0, rounds[0].1))];
        let b = fs_chals(rounds.drop_first(), stp);
        let x = squeeze_val(fs_round_state(fs_state(rounds.drop_first(), stp), nr.0, nr.1));
        assert(a + b.push(x) =~= (a + b).push(x));
    }
}

/// Appending an honest round settles the open linkage against the new
/// round's claimed sum and leaves the new round's linkage open.
#[verifier::rlimit(100)]
proof fn lemma_fs_snoc_upto(rounds: Seq<(int, Seq<int>)>, nr: (int, Seq<int>), st: Seq<u8>, nc: int)
    requires
        fs_ok_upto(rounds, st, nr.0),
        nr.1.len() == 2,
        sum_vals(nr.1) == nr.0,
        lin(nr.1[0], nr.1[1], squeeze_val(fs_round_state(fs_state(rounds, st), nr.0, nr.1)))
            == nc,
    ensures
        fs_ok_upto(rounds.push(nr), st, nc),
    decreases rounds.len(),
{
    if rounds.len() == 0 {
        assert(rounds.push(nr)[0] == nr);
        assert(rounds.push(nr).drop_first() =~= Seq::<(int, Seq<int>)>::empty());
        assert(rounds.push(nr).drop_first() == Seq::<(int, Seq<int>)>::empty());
        assert(fs_state(rounds, st) == st);
        assert(fs_ok_upto(
            Seq::<(int, Seq<int>)>::empty(),
            squeeze_state(fs_round_state(st, nr.0, nr.1)),
            nc,
        ));
        assert(rounds.push(nr).len() == 1);
    } else {
        assert(rounds.push(nr)[0] == rounds[0]);
        assert(rounds.push(nr).drop_first() =~= rounds.drop_first().push(nr));
        let stp = squeeze_state(fs_round_state(st, rounds[0].0, rounds[0].1));
        assert(fs_state(rounds, st) == fs_state(rounds.drop_first(), stp));
        assert(fs_ok_upto(rounds.drop_first(), stp, nr.0));
        lemma_fs_snoc_upto(rounds.drop_first(), nr, stp, nc);
        assert(rounds.push(nr).len() > 1);
    }
}

/// The open linkage of a nonempty checked prefix: the last message folded
/// at the last challenge equals the value the chain was held to.
proof fn lemma_fs_upto_last(rounds: Seq<(int, Seq<int>)>, st: Seq<u8>, nc: int)
    requires
        fs_ok_upto(rounds, st, nc),
        rounds.len() > 0,
    ensures
        fs_chals(rounds, st).len() == rounds.len(),
        lin(
            rounds.last().1[0],
            rounds.last().1[1],
            fs_chals(rounds, st).last(),
        ) == nc,
    decreases rounds.len(),
{
    let stp = squeeze_state(fs_round_state(st, rounds[0].0, rounds[0].1));
    lemma_fs_chals_len(rounds.drop_first(), stp);
    if rounds.len() == 1 {
        assert(rounds.last() == rounds[0]);
        assert(fs_chals(rounds, st) =~= seq![
            squeeze_val(fs_round_state(st, rounds[0].0, rounds[0].1)),
        ]);
    } else {
        lemma_fs_upto_last(rounds.drop_first(), stp, nc);
        assert(rounds.drop_first().last() == rounds.last());
        let a = seq![squeeze_val(fs_round_state(st, rounds[0].0, rounds[0].1))];
        let b = fs_chals(rounds.drop_first(), stp);
        assert((a + b).last() == b.last());
    }
}

/// One challenge per round.
proof fn lemma_fs_chals_len(rounds: Seq<(int, Seq<int>)>, st: Seq<u8>)
    ensures
        fs_chals(rounds, st).len() == rounds.len(),
    decreases rounds.len(),
{
    if rounds.len() > 0 {
        lemma_fs_chals_len(
            rounds.drop_first(),
            squeeze_state(fs_round_state(st, rounds[0].0, rounds[0].1)),
        );
    }
}

/// A sum-check proof over one table: each round's claimed sum and two-entry
/// message, in order.
#[derive(Debug, Clone)]
pub struct Proof {
    pub univars_and_sums: Vec<(Fq, Vec<Fq>)>,
}

/// The Fiat-Shamir sum-check prover: the table and the transcript the
/// challenges come from.
pub struct Prover {
    pub polynomial: Vec<Fq>,
    pub transcript: Transcript,
}

impl Prover {
    pub fn init(polynomial: Vec<Fq>, transcript: Transcript) -> (r: Prover)
        ensures
            r.polynomial@ == polynomial@,
            r.transcript == transcript,
    {
        Prover { polynomial, transcript }
    }

    /// The table's sum together with the sums of its two halves.
    pub fn generate_sum_and_univariate_poly(&mut self, evals: &[Fq]) -> (r: (Fq, Vec<Fq>))
        ensures
            *final(self) == *old(self),
            r.0.as_int() == sum_vals(table_view(evals@)),
            r.1@.len() == 2,
            r.1@[0].as_int() == sum_vals(table_view(evals@).take(evals@.len() as int / 2)),
            r.1@[1].as_int() == sum_vals(table_view(evals@).skip(evals@.len() as int / 2)),
    {
        let claimed_sum = crate::gkr_sum_check::sum_slice(evals, 0, evals.len());
        let half = evals.len() / 2;
        let first = crate::gkr_sum_check::sum_slice(evals, 0, half);
        let second = crate::gkr_sum_check::sum_slice(evals, half, evals.len());
        proof {
            let tv = table_view(evals@);
            assert(tv.subrange(0, tv.len() as int) =~= tv);
            assert(tv.subrange(0, tv.len() as int / 2) =~= tv.take(tv.len() as int / 2));
            assert(tv.subrange(tv.len() as int / 2, tv.len() as int) =~= tv.skip(
                tv.len() as int / 2,
            ));
        }
        (claimed_sum, vec![first, second])
    }

    /// One round per variable: record the sum and half sums, absorb them,
    /// squeeze the round challenge, and fold the table at it.  The proof an
    /// honest prover builds this way passes every replay check: the first
    /// claimed sum is the table's true hypercube sum, every round message
    /// accounts for its claim and folds to the next claim, and the last
    /// claim is the table's own evaluation at the replayed challenges.
    pub fn generate_proof(&mut self, evals: Vec<Fq>) -> (r: Result<Proof, Error>)
        ensures
            r is Ok <==> is_pow2_len(evals@.len()),
            r matches Err(e) ==> e == Error::LengthMismatch,
            r matches Ok(proof) ==> {
                &&& is_pow2_len(evals@.len())
                &&& proof.univars_and_sums@.len() == num_vars(evals@.len())
                &&& fs_rounds_ok(
                    fs_view(proof.univars_and_sums@),
                    old(self).transcript.bytes(),
                )
                &&& proof.univars_and_sums@.len() > 0 ==> ({
                    let rounds = fs_view(proof.univars_and_sums@);
                    let chals = fs_chals(rounds, old(self).transcript.bytes());
                    &&& rounds[0].0 == sum_vals(table_view(evals@))
                    &&& chals.len() == rounds.len()
                    &&& mle_eval(table_view(evals@), chals) == lin(
                        rounds.last().1[0],
                        rounds.last().1[1],
                        chals.last(),
                    )
                })
            },
    {
        let n = match crate::mle::log2_exact(evals.len()) {
            Some(n) => n,
            None => {
                return Err(Error::LengthMismatch);
            },
        };
        let ghost st0: Seq<u8> = self.transcript.bytes();
        let ghost t0: Seq<int> = table_view(evals@);
        let mut proof_array: Vec<(Fq, Vec<Fq>)> = Vec::new();
        let mut current_poly = evals;
        let mut round: usize = 0;
        let ghost chals_g: Seq<int> = Seq::empty();
        proof {
            assert(fs_view(proof_array@) =~= Seq::<(int, Seq<int>)>::empty());
            assert(fold0_chain(t0, chals_g) == t0);
        }
        while round < n
            invariant
                round <= n,
                n <= 63,
                st0 == old(self).transcript.bytes(),
                proof_array@.len() == round,
                current_poly@.len() == pow2((n - round) as nat),
                self.transcript.bytes() == fs_state(fs_view(proof_array@), st0),
                chals_g == fs_chals(fs_view(proof_array@), st0),
                chals_g.len() == round,
                table_view(current_poly@) == fold0_chain(t0, chals_g),
                fs_ok_upto(fs_view(proof_array@), st0, sum_vals(table_view(current_poly@))),
                round > 0 ==> fs_view(proof_array@)[0].0 == sum_vals(t0),
                round > 0 ==> crate::mle::table_ok(table_view(current_poly@)),
            decreases n - round,
        {
            let ghost rounds_pre = fs_view(proof_array@);
            let ghost cur_pre: Seq<int> = table_view(current_poly@);
            let pair = self.generate_sum_and_univariate_poly(current_poly.as_slice());
            let (sum, univar_poly) = pair;
            proof {
                crate::gkr_sum_check::lemma_sum_split(cur_pre);
                crate::gkr_sum_check::lemma_sum_vals_range(
                    cur_pre.take(cur_pre.len() as int / 2),
                );
                crate::gkr_sum_check::lemma_sum_vals_range(
                    cur_pre.skip(cur_pre.len() as int / 2),
                );
                assert(table_view(univar_poly@) =~= seq![
                    univar_poly@[0].as_int(),
                    univar_poly@[1].as_int(),
                ]);
                // the two half sums account for the claimed sum
                let pv = table_view(univar_poly@);
                let s1 = seq![pv[0]];
                assert(pv.drop_last() =~= s1);
                assert(pv.drop_last() == s1);
                assert(s1.drop_last() =~= Seq::<int>::empty());
                assert(s1.drop_last() == Seq::<int>::empty());
                assert(sum_vals(Seq::<int>::empty()) == 0);
                assert(sum_vals(s1) == fadd(0, pv[0]));
                assert(pv.last() == pv[1]);
                assert(sum_vals(pv) == fadd(sum_vals(s1), pv[1]));
                vstd::arithmetic::div_mod::lemma_small_mod(pv[0] as nat, P as nat);
                assert(fadd(0, pv[0]) == pv[0]);
                assert(sum_vals(pv) == sum.as_int());
            }
            let sum_bytes = sum.to_bytes();
            self.transcript.absorb(sum_bytes.as_slice());
            let poly_bytes_exec = conv_poly_to_byte(&univar_poly);
            self.transcript.absorb(poly_bytes_exec.as_slice());
            let rand_chal = self.transcript.squeeze();
            let ghost nr: (int, Seq<int>) = (sum.as_int(), table_view(univar_poly@));
            proof_array.push((sum, univar_poly));
            proof {
                assert(fs_view(proof_array@) =~= rounds_pre.push(nr));
                assert(self.transcript.bytes() == squeeze_state(
                    fs_round_state(fs_state(rounds_pre, st0), nr.0, nr.1),
                ));
                lemma_fs_snoc_state(rounds_pre, nr, st0);
                vstd::arithmetic::power2::lemma_pow2_pos((n - round - 1) as nat);
                vstd::arithmetic::power2::lemma_pow2_adds((n - round - 1) as nat, 1);
                assert(pow2(1) == 2) by { vstd::arithmetic::power2::lemma2_to64(); };
                vstd::arithmetic::div_mod::lemma_mod_self_0(current_poly@.len() as int);
            }
            let stride = current_poly.len() / 2;
            let next = crate::mle::fold_core(&current_poly, stride, rand_chal);
            proof {
                let chal = rand_chal.as_int();
                let folded = table_view(next@);
                assert(folded == fold_spec(cur_pre, stride as int, chal));
                assert(cur_pre.len() % 2 == 0);
                crate::gkr_sum_check::lemma_fold_sum_round(cur_pre, chal);
                assert(lin(nr.1[0], nr.1[1], chal) == sum_vals(folded));
                lemma_fs_snoc_upto(rounds_pre, nr, st0, sum_vals(folded));
                crate::mle::lemma_fold0_chain_snoc(t0, chals_g, chal);
                crate::mle::lemma_fold_spec_ok(cur_pre, stride as int, chal);
            }
            proof {
                chals_g = chals_g.push(rand_chal.as_int());
            }
            current_poly = next;
            round += 1;
        }
        proof {
            let rounds = fs_view(proof_array@);
            lemma_fs_upto_implies_ok(rounds, st0, sum_vals(table_view(current_poly@)));
            if n > 0 {
                lemma_fs_upto_last(rounds, st0, sum_vals(table_view(current_poly@)));
                let cv = table_view(current_poly@);
                assert(cv.len() == pow2(0));
                assert(pow2(0) == 1) by { vstd::arithmetic::power2::lemma2_to64(); };
                assert(cv.drop_last() =~= Seq::<int>::empty());
                assert(cv.drop_last() == Seq::<int>::empty());
                assert(sum_vals(Seq::<int>::empty()) == 0);
                vstd::arithmetic::div_mod::lemma_small_mod(cv[0] as nat, P as nat);
                assert(sum_vals(cv) == fadd(0, cv.last()));
                assert(sum_vals(cv) == cv[0]);
                assert(mle_eval(t0, chals_g) == cv[0]);
            }
        }
        Ok(Proof { univars_and_sums: proof_array })
    }
}

/// The Fiat-Shamir sum-check verifier: the table, a fresh transcript, and
/// the proof under examination.
pub struct Verifier {
    pub polynomial: Vec<Fq>,
    pub transcript: Transcript,
    pub proof: Proof,
}

impl Verifier {
    pub fn init(polynomial: Vec<Fq>, transcript: Transcript, proof: Proof) -> (r: Verifier)
        ensures
            r.polynomial@ == polynomial@,
            r.transcript == transcript,
            r.proof == proof,
    {
        Verifier { polynomial, transcript, proof }
    }

    /// Replay every round against the transcript and reject on the first
    /// mismatch; at the last round, fold the held table at all the replayed
    /// challenges and require agreement with the last message.  Acceptance
    /// implies that every round check and the final oracle check held.
    pub fn verify(&mut self) -> (r: Result<bool, Error>)
        ensures
            r matches Err(e) ==> e == Error::SoundnessCheckFailed,
            r matches Ok(b) ==> b == true,
            r is Ok ==> fs_rounds_ok(
                fs_view(old(self).proof.univars_and_sums@),
                old(self).transcript.bytes(),
            ),
            r is Ok && old(self).proof.univars_and_sums@.len() > 0 ==> ({
                let rounds = fs_view(old(self).proof.univars_and_sums@);
                let chals = fs_chals(rounds, old(self).transcript.bytes());
                let last = rounds[rounds.len() - 1];
                &&& is_pow2_len(old(self).polynomial@.len())
                &&& chals.len() == num_vars(old(self).polynomial@.len())
                &&& mle_eval(table_view(old(self).polynomial@), chals) == lin(
                    last.1[0],
                    last.1[1],
                    chals.last(),
                )
            }),
            ({
                let rounds = fs_view(old(self).proof.univars_and_sums@);
                let chals = fs_chals(rounds, old(self).transcript.bytes());
                &&& fs_rounds_ok(rounds, old(self).transcript.bytes())
                &&& (rounds.len() > 0 ==> {
                    &&& is_pow2_len(old(self).polynomial@.len())
                    &&& chals.len() == num_vars(old(self).polynomial@.len())
                    &&& mle_eval(table_view(old(self).polynomial@), chals) == lin(
                        rounds.last().1[0],
                        rounds.last().1[1],
                        chals.last(),
                    )
                })
            }) ==> r is Ok,
    {
        let ghost rounds: Seq<(int, Seq<int>)> = fs_view(self.proof.univars_and_sums@);
        let ghost st0: Seq<u8> = self.transcript.bytes();
        let n = self.proof.univars_and_sums.len();
        let mut rand_chal_array: Vec<Fq> = Vec::new();
        let mut last_claim = Fq::zero();
        let mut i: usize = 0;
        proof {
            assert(rounds.skip(0) =~= rounds);
        }
        while i < n
            invariant
                i <= n,
                n == self.proof.univars_and_sums@.len(),
                rounds == fs_view(self.proof.univars_and_sums@),
                st0 == old(self).transcript.bytes(),
                self.proof == old(self).proof,
                self.polynomial == old(self).polynomial,
                rand_chal_array@.len() == i,
                fs_rounds_ok(rounds, st0) <==> ((if 0 < i < n {
                    lin(
                        rounds[i - 1].1[0],
                        rounds[i - 1].1[1],
                        fs_chals(rounds, st0)[i - 1],
                    ) == rounds[i as int].0
                } else {
                    true
                }) && fs_rounds_ok(rounds.skip(i as int), self.transcript.bytes())),
                fs_chals(rounds, st0) == table_view(rand_chal_array@) + fs_chals(
                    rounds.skip(i as int),
                    self.transcript.bytes(),
                ),
                i > 0 ==> last_claim.as_int() == lin(
                    rounds[i - 1].1[0],
                    rounds[i - 1].1[1],
                    fs_chals(rounds, st0)[i - 1],
                ) && rounds[i - 1].1.len() == 2,
            decreases n - i,
        {
            let ghost pre = self.transcript.bytes();
            proof {
                lemma_fs_step(rounds, i as int, pre);
                assert(rounds[i as int] == (
                    self.proof.univars_and_sums@[i as int].0.as_int(),
                    table_view(self.proof.univars_and_sums@[i as int].1@),
                ));
            }
            let entry = &self.proof.univars_and_sums[i];
            let claimed_sum = entry.0;
            if entry.1.len() != 2 {
                proof {
                    if fs_rounds_ok(rounds, st0) {
                        assert(false);
                    }
                }
                return Err(Error::SoundnessCheckFailed);
            }
            let claim_check = crate::gkr_sum_check::sum_slice(
                entry.1.as_slice(),
                0,
                entry.1.len(),
            );
            proof {
                assert(table_view(entry.1@).subrange(0, 2) =~= table_view(entry.1@));
                Fq::lemma_eq(claimed_sum, claim_check);
            }
            if !(claimed_sum == claim_check) {
                proof {
                    if fs_rounds_ok(rounds, st0) {
                        assert(false);
                    }
                }
                return Err(Error::SoundnessCheckFailed);
            }
            if i > 0 {
                proof {
                    Fq::lemma_eq(last_claim, claimed_sum);
                }
                if !(last_claim == claimed_sum) {
                    proof {
                        if fs_rounds_ok(rounds, st0) {
                            assert(false);
                        }
                    }
                    return Err(Error::SoundnessCheckFailed);
                }
            }
            let sum_bytes = claimed_sum.to_bytes();
            self.transcript.absorb(sum_bytes.as_slice());
            let pb = conv_poly_to_byte(&self.proof.univars_and_sums[i].1);
            self.transcript.absorb(pb.as_slice());
            let rand_chal = self.transcript.squeeze();
            let ghost prev_chals = table_view(rand_chal_array@);
            rand_chal_array.push(rand_chal);
            let y0 = self.proof.univars_and_sums[i].1[0];
            let y1 = self.proof.univars_and_sums[i].1[1];
            last_claim = y0.add(rand_chal.mul(y1.sub(y0)));
            proof {
                let stp = fs_round_state(pre, rounds[i as int].0, rounds[i as int].1);
                assert(self.transcript.bytes() == squeeze_state(stp));
                assert(rand_chal.as_int() == squeeze_val(stp));
                assert(table_view(rand_chal_array@) =~= prev_chals.push(rand_chal.as_int()));
                crate::gkr_sum_check::lemma_concat_shift(
                    prev_chals,
                    squeeze_val(stp),
                    fs_chals(rounds.skip(i as int + 1), self.transcript.bytes()),
                );
                assert(fs_chals(rounds, st0)[i as int] == squeeze_val(stp)) by {
                    assert(prev_chals.len() == i as int);
                };
            }
            i += 1;
        }
        proof {
            assert(rounds.skip(n as int) =~= Seq::<(int, Seq<int>)>::empty());
            assert(table_view(rand_chal_array@) + fs_chals(
                Seq::<(int, Seq<int>)>::empty(),
                self.transcript.bytes(),
            ) =~= table_view(rand_chal_array@));
        }
        if n > 0 {
            let count = rand_chal_array.len();
            let table_copy = crate::combined_polys::copy_table(&self.polynomial);
            proof {
                lemma_fs_chals_len(rounds, st0);
                assert(fs_chals(rounds, st0) == table_view(rand_chal_array@));
            }
            let direct = match crate::mle::full_evaluate(&count, table_copy, &rand_chal_array) {
                Ok(v) => v,
                Err(_) => {
                    proof {
                        if is_pow2_len(self.polynomial@.len()) && fs_chals(rounds, st0).len()
                            == num_vars(self.polynomial@.len()) {
                            assert(false);
                        }
                    }
                    return Err(Error::SoundnessCheckFailed);
                },
            };
            proof {
                Fq::lemma_eq(direct, last_claim);
                assert(rand_chal_array@.take(count as int) =~= rand_chal_array@);
            }
            if !(direct == last_claim) {
                proof {
                    let chals = fs_chals(rounds, st0);
                    if mle_eval(table_view(self.polynomial@), chals) == lin(
                        rounds.last().1[0],
                        rounds.last().1[1],
                        chals.last(),
                    ) {
                        assert(rounds.last() == rounds[n - 1]);
                        assert(chals.last() == chals[n - 1]);
                        assert(false);
                    }
                }
                return Err(Error::SoundnessCheckFailed);
            }
            proof {
                assert(fs_chals(rounds, st0).len() == count) by {
                    assert(table_view(rand_chal_array@).len() == count);
                };
            }
            let expected = match crate::mle::log2_exact(self.polynomial.len()) {
                Some(m) => m,
                None => {
                    proof {
                        if is_pow2_len(self.polynomial@.len()) {
                            assert(false);
                        }
                    }
                    return Err(Error::SoundnessCheckFailed);
                },
            };
            if expected != count {
                proof {
                    if fs_chals(rounds, st0).len() == num_vars(self.polynomial@.len()) {
                        assert(false);
                    }
                }
                return Err(Error::SoundnessCheckFailed);
            }
        }
        Ok(true)
    }
}

} // verus!
