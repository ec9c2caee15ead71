use gkr::field::Fq;
use gkr::transcript::Transcript;
use gkr::gkr_circuit::Circuit;
use gkr::gkr::{GKRProver, GkrVerifier};

fn fq(v: u64) -> Fq {
    Fq::from(v)
}

fn three_layer_layout() -> Vec<Vec<Vec<usize>>> {
    vec![
        vec![
            vec![0, 0, 0, 1, 0],
            vec![1, 1, 2, 3, 1],
            vec![1, 1, 4, 5, 2],
            vec![1, 1, 6, 7, 3],
        ],
        vec![vec![0, 0, 0, 1, 0], vec![1, 1, 2, 3, 1]],
        vec![vec![0, 0, 0, 1, 0]],
    ]
}

fn eight_inputs() -> Vec<Fq> {
    vec![fq(1), fq(2), fq(3), fq(4), fq(5), fq(6), fq(7), fq(8)]
}

#[test]
fn test_gkr_prover_prove() {
    let mut my_circuit = Circuit::new(three_layer_layout());
    my_circuit.execute(eight_inputs()).unwrap();
    let transcript = Transcript::new();
    let mut gkr_prover = GKRProver::init(transcript, my_circuit);
    let proof = gkr_prover.prove(eight_inputs()).unwrap();
    println!("gkr proof{:?}", proof);
}

#[test]
fn test_gkr_verifier() {
    let mut my_circuit = Circuit::new(three_layer_layout());
    my_circuit.execute(eight_inputs()).unwrap();
    let transcript = Transcript::new();
    let mut gkr_verifier = GkrVerifier::init(transcript, my_circuit.clone());
    let transcript = Transcript::new();
    let mut gkr_prover = GKRProver::init(transcript, my_circuit);
    let proof = gkr_prover.prove(eight_inputs()).unwrap();
    let verified = gkr_verifier.verify_gkr_proof(proof, eight_inputs());
    println!("gkr verified {}", verified);
    assert!(verified);
}

#[test]
fn gkr_rejects_a_tampered_output_claim() {
    let mut my_circuit = Circuit::new(three_layer_layout());
    my_circuit.execute(eight_inputs()).unwrap();
    let mut gkr_verifier = GkrVerifier::init(Transcript::new(), my_circuit.clone());
    let mut gkr_prover = GKRProver::init(Transcript::new(), my_circuit);
    let mut proof = gkr_prover.prove(eight_inputs()).unwrap();
    let old = proof.w_poly[0];
    proof.w_poly[0] = old.add(fq(1));
    assert!(!gkr_verifier.verify_gkr_proof(proof, eight_inputs()));
}

#[test]
fn gkr_rejects_wrong_inputs() {
    let mut my_circuit = Circuit::new(three_layer_layout());
    my_circuit.execute(eight_inputs()).unwrap();
    let mut gkr_verifier = GkrVerifier::init(Transcript::new(), my_circuit.clone());
    let mut gkr_prover = GKRProver::init(Transcript::new(), my_circuit);
    let proof = gkr_prover.prove(eight_inputs()).unwrap();
    let other_inputs = vec![fq(9), fq(2), fq(3), fq(4), fq(5), fq(6), fq(7), fq(8)];
    assert!(!gkr_verifier.verify_gkr_proof(proof, other_inputs));
}

#[test]
fn multilinearize_pads_to_powers_of_two() {
    let mut my_circuit = Circuit::new(three_layer_layout());
    my_circuit.execute(eight_inputs()).unwrap();
    let mut gkr_prover = GKRProver::init(Transcript::new(), my_circuit);
    let tables = gkr_prover.multilinearize_w_poly().unwrap();
    assert_eq!(tables.len(), 3);
    for t in &tables {
        assert!(t.len().is_power_of_two());
    }
}
