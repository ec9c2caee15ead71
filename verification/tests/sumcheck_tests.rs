use gkr::field::Fq;
use gkr::transcript::Transcript;
use gkr::combined_polys::{ProductPoly, SumPoly};
use gkr::gkr_sum_check::{Prover, GKRSumcheckVerifier};
use gkr::error::Error;

fn fq(v: u64) -> Fq {
    Fq::from(v)
}

fn sum(table: &[Fq]) -> Fq {
    let mut acc = fq(0);
    for x in table {
        acc = acc.add(*x);
    }
    acc
}

fn test_sum_poly() -> SumPoly {
    let prod_poly_0 = vec![
        vec![fq(0), fq(1), fq(0), fq(0), fq(0), fq(0), fq(0), fq(0)],
        vec![fq(30), fq(3360), fq(15), fq(1680), fq(15), fq(1680), fq(0), fq(0)],
    ];
    let prod_poly_1 = vec![
        vec![fq(0), fq(0), fq(0), fq(0), fq(0), fq(0), fq(0), fq(0)],
        vec![fq(225), fq(2822400), fq(0), fq(0), fq(0), fq(0), fq(0), fq(0)],
    ];
    let prod_poly_a = ProductPoly::new(prod_poly_0);
    let prod_poly_b = ProductPoly::new(prod_poly_1);
    SumPoly::new(vec![prod_poly_a, prod_poly_b])
}

#[test]
fn test_transcript() {
    let mut transcript = Transcript::new();
    transcript.absorb(b"[0,1]");
    transcript.absorb(b"50");
    let random_chal = transcript.squeeze();
    let random_chal_n = transcript.squeeze_n(2);
    println!("{:?}", random_chal);
    println!("{:?}", random_chal_n);
}

#[test]
fn transcript_squeezes_diverge() {
    let mut transcript = Transcript::new();
    let a = transcript.squeeze();
    let b = transcript.squeeze();
    // the digest is re-absorbed, so back-to-back squeezes differ
    assert_ne!(a, b);
    // a transcript that hashed nothing still yields a nonzero digest
    assert_ne!(a, fq(0));
}

#[test]
fn test_generate_proof() {
    let transcript = Transcript::new();
    let sum_poly = test_sum_poly();
    let initial_claimed_sum = sum(&sum_poly.reduce());
    let mut gkr_sumcheck_prover =
        Prover::init(sum_poly.clone(), transcript, initial_claimed_sum);
    let proof = gkr_sumcheck_prover
        .generate_gkr_sumcheck_proof(sum_poly, initial_claimed_sum, 6)
        .unwrap();
    println!("{:?}", proof);
}

#[test]
fn test_gkr_sumcheck_verifier() {
    let transcript = Transcript::new();
    let sum_poly = test_sum_poly();
    let initial_claimed_sum = sum(&sum_poly.reduce());
    let mut gkr_sumcheck_prover =
        Prover::init(sum_poly.clone(), transcript, initial_claimed_sum);
    let proof = gkr_sumcheck_prover
        .generate_gkr_sumcheck_proof(sum_poly, initial_claimed_sum, 6)
        .unwrap();
    let mut verifier = GKRSumcheckVerifier::init(proof);
    let result = verifier.verify_gkr_sumcheck_proof();
    println!("{:?}", result);
}

#[test]
fn sumcheck_accepts_honest_three_round_proof() {
    let transcript = Transcript::new();
    let sum_poly = test_sum_poly();
    let initial_claimed_sum = sum(&sum_poly.reduce());
    let mut prover = Prover::init(sum_poly.clone(), transcript, initial_claimed_sum);
    // three variables: one round per variable keeps every check meaningful
    let proof = prover
        .generate_gkr_sumcheck_proof(sum_poly, initial_claimed_sum, 3)
        .unwrap();
    let mut verifier = GKRSumcheckVerifier::init(proof);
    assert!(verifier.verify_gkr_sumcheck_proof().is_ok());
}

#[test]
fn sumcheck_rejects_a_flipped_coefficient() {
    let transcript = Transcript::new();
    let sum_poly = test_sum_poly();
    let initial_claimed_sum = sum(&sum_poly.reduce());
    let mut prover = Prover::init(sum_poly.clone(), transcript, initial_claimed_sum);
    let mut proof = prover
        .generate_gkr_sumcheck_proof(sum_poly, initial_claimed_sum, 3)
        .unwrap();
    // flip one coefficient of one round polynomial
    let old = proof.univars_and_sums[1].coef[0];
    proof.univars_and_sums[1].coef[0] = old.add(fq(1));
    let mut verifier = GKRSumcheckVerifier::init(proof);
    assert_eq!(
        verifier.verify_gkr_sumcheck_proof().unwrap_err(),
        Error::SoundnessCheckFailed
    );
}

#[test]
fn sumcheck_rejects_a_wrong_claim() {
    let transcript = Transcript::new();
    let sum_poly = test_sum_poly();
    let initial_claimed_sum = sum(&sum_poly.reduce()).add(fq(1));
    let mut prover = Prover::init(sum_poly.clone(), transcript, initial_claimed_sum);
    let proof = prover
        .generate_gkr_sumcheck_proof(sum_poly, initial_claimed_sum, 3)
        .unwrap();
    let mut verifier = GKRSumcheckVerifier::init(proof);
    // the claimed sum disagrees with the first round polynomial
    assert_eq!(
        verifier.verify_gkr_sumcheck_proof().unwrap_err(),
        Error::SoundnessCheckFailed
    );
}

#[test]
fn test_sum_check_protocol() {
    let mut polynomial = vec![fq(0), fq(0), fq(0), fq(1), fq(2), fq(3), fq(2), fq(4)];
    let mut prover = gkr::interactive::Prover::init(polynomial.clone());
    let mut verifier = gkr::interactive::Verifier::init(polynomial.clone());
    let mut rand_chal_array = vec![];
    let no_of_vars = 3;
    let mut okay = false;
    for i in 0..no_of_vars {
        let (claimed_sum, univar_poly) =
            prover.generate_sum_and_univariate_poly(polynomial.as_slice());
        let new_rand_chal = verifier.verify(claimed_sum, univar_poly.clone()).unwrap();
        rand_chal_array.push(new_rand_chal);
        if i != no_of_vars - 1 {
            let new_poly = prover.proof_func(polynomial.clone(), new_rand_chal).unwrap();
            polynomial = new_poly;
        } else {
            okay = verifier
                .oracle_check(univar_poly.clone(), rand_chal_array.clone())
                .unwrap();
        }
    }
    assert_eq!(okay, true);
}

#[test]
fn fiat_shamir_sum_check_round_trip() {
    let evals = vec![fq(0), fq(0), fq(0), fq(1), fq(2), fq(3), fq(2), fq(4)];
    let mut prover = gkr::fiat_shamir::Prover::init(evals.clone(), Transcript::new());
    let proof = prover.generate_proof(evals.clone()).unwrap();
    let mut verifier =
        gkr::fiat_shamir::Verifier::init(evals, Transcript::new(), proof);
    assert_eq!(verifier.verify().unwrap(), true);
}

#[test]
fn fiat_shamir_rejects_a_flipped_half_sum() {
    let evals = vec![fq(0), fq(0), fq(0), fq(1), fq(2), fq(3), fq(2), fq(4)];
    let mut prover = gkr::fiat_shamir::Prover::init(evals.clone(), Transcript::new());
    let mut proof = prover.generate_proof(evals.clone()).unwrap();
    let old = proof.univars_and_sums[0].1[0];
    proof.univars_and_sums[0].1[0] = old.add(fq(1));
    let mut verifier =
        gkr::fiat_shamir::Verifier::init(evals, Transcript::new(), proof);
    assert_eq!(verifier.verify().unwrap_err(), Error::SoundnessCheckFailed);
}
