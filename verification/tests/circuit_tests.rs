use gkr::field::Fq;
use gkr::gkr_circuit::Circuit;

fn fq(v: u64) -> Fq {
    Fq::from(v)
}

fn three_layer_layout() -> Vec<Vec<Vec<usize>>> {
    vec![
        vec![
            vec![0, 0, 0, 1, 0],
            vec![1, 1, 2, 3, 1],
            vec![1, 1, 4, 5, 2],
            vec![1, 1, 6, 7, 3],
        ],
        vec![vec![0, 0, 0, 1, 0], vec![1, 1, 2, 3, 1]],
        vec![vec![0, 0, 0, 1, 0]],
    ]
}

fn eight_inputs() -> Vec<Fq> {
    vec![fq(1), fq(2), fq(3), fq(4), fq(5), fq(6), fq(7), fq(8)]
}

#[test]
fn test_addi_muli_function() {
    let mut my_circuit = Circuit::new(three_layer_layout());
    my_circuit.execute(eight_inputs()).unwrap();
    let result = my_circuit.addi_muli_function(0).unwrap();
    println!("result for addi and muli {:?}", result);
}

#[test]
fn test_get_wi_x_func() {
    let mut my_circuit = Circuit::new(three_layer_layout());
    my_circuit.execute(eight_inputs()).unwrap();
    let result = my_circuit.get_wi_x_func(1, 1).unwrap();
    let resultc = my_circuit.get_wi_x_func(1, 0).unwrap();
    println!("result for blowup in b {:?}", result);
    println!("result for blowup in c{:?}", resultc);
}

#[test]
fn test_add_and_mul_wi_x_poly() {
    let mut my_circuit = Circuit::new(three_layer_layout());
    my_circuit.execute(eight_inputs()).unwrap();
    let wbc_add = my_circuit.add_wi_x_poly(0).unwrap();
    let wbc_mul = my_circuit.mul_wi_x_poly(0).unwrap();
    println!("result for adding blownup polys{:?}", wbc_add);
    println!("result for muling blownup polys{:?}", wbc_mul);
}

#[test]
fn test_get_fbc_poly() {
    let mut my_circuit = Circuit::new(three_layer_layout());
    my_circuit.execute(eight_inputs()).unwrap();
    let fbc_poly = my_circuit.get_fbc_poly(0, vec![fq(7898765)]).unwrap();
    println!("result for fbc poly {:?}", fbc_poly);
}

#[test]
fn execute_realizes_the_expected_layers() {
    let mut my_circuit = Circuit::new(three_layer_layout());
    my_circuit.execute(eight_inputs()).unwrap();
    // output-first: [3 + 1680, then (3, 1680), then (3, 12, 30, 56)]
    assert_eq!(my_circuit.layers[2].layer_output, vec![fq(3), fq(12), fq(30), fq(56)]);
    assert_eq!(my_circuit.layers[1].layer_output, vec![fq(15), fq(1680)]);
    assert_eq!(my_circuit.layers[0].layer_output, vec![fq(1695), fq(0)]);
}

#[test]
fn execute_rejects_an_out_of_range_gate_index() {
    let layout = vec![vec![vec![0, 0, 0, 9, 0]]];
    let mut my_circuit = Circuit::new(layout);
    let r = my_circuit.execute(vec![fq(1), fq(2)]);
    assert!(r.is_err());
}

#[test]
fn indicator_tables_mark_each_gate_once() {
    let mut my_circuit = Circuit::new(three_layer_layout());
    my_circuit.execute(eight_inputs()).unwrap();
    // layer 0 holds one addition gate (0, 1) -> 0: the add table has a
    // single 1 and the mul table none
    let (addi, muli) = my_circuit.addi_muli_function(0).unwrap();
    let ones_a = addi.iter().filter(|x| **x == fq(1)).count();
    let ones_m = muli.iter().filter(|x| **x == fq(1)).count();
    assert_eq!(ones_a, 1);
    assert_eq!(ones_m, 0);
    assert_eq!(addi[1], fq(1));
}
