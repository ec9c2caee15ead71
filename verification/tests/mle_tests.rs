use gkr::field::Fq;
use gkr::error::Error;
use gkr::mle::{interpolate_then_evaluate_at_once, evaluate_interpolate, full_evaluate, blow_up};
use gkr::bit_format::{
    get_binary_value, get_binary_value_as_string, get_hypercube, pair_index, pair_values,
    MultilinearPoly,
};

fn fq(v: u64) -> Fq {
    Fq::from(v)
}

#[test]
fn full_evaluate_at_boolean_points_reads_the_table() {
    // the extension agrees with the table on every hypercube point
    let table = vec![fq(7), fq(11), fq(13), fq(17), fq(19), fq(23), fq(29), fq(31)];
    let points: [[u64; 3]; 8] = [
        [0, 0, 0],
        [0, 0, 1],
        [0, 1, 0],
        [0, 1, 1],
        [1, 0, 0],
        [1, 0, 1],
        [1, 1, 0],
        [1, 1, 1],
    ];
    for (i, p) in points.iter().enumerate() {
        let pt: Vec<Fq> = p.iter().map(|b| fq(*b)).collect();
        let three: usize = 3;
        let v = full_evaluate(&three, table.clone(), &pt).unwrap();
        assert_eq!(v, table[i]);
    }
}

#[test]
fn fold_at_zero_and_one_restricts_the_table() {
    let table = vec![fq(1), fq(2), fq(3), fq(4)];
    // variable 0 at 0 keeps the first half; at 1 the second half
    let at0 = interpolate_then_evaluate_at_once(table.clone(), 0, fq(0)).unwrap();
    assert_eq!(at0, vec![fq(1), fq(2)]);
    let at1 = interpolate_then_evaluate_at_once(table.clone(), 0, fq(1)).unwrap();
    assert_eq!(at1, vec![fq(3), fq(4)]);
    // variable 1 at 0 keeps the even positions; at 1 the odd ones
    let v1_at0 = interpolate_then_evaluate_at_once(table.clone(), 1, fq(0)).unwrap();
    assert_eq!(v1_at0, vec![fq(1), fq(3)]);
    let v1_at1 = interpolate_then_evaluate_at_once(table, 1, fq(1)).unwrap();
    assert_eq!(v1_at1, vec![fq(2), fq(4)]);
}

#[test]
fn fold_matches_known_partial_evaluation() {
    // the worked example: fold variable 2 of an 8-entry table at 3
    let table = vec![fq(0), fq(0), fq(0), fq(3), fq(0), fq(0), fq(2), fq(5)];
    let folded = interpolate_then_evaluate_at_once(table, 2, fq(3)).unwrap();
    assert_eq!(folded, vec![fq(0), fq(9), fq(0), fq(11)]);
}

#[test]
fn evaluate_interpolate_validates_its_inputs() {
    let table = vec![fq(1), fq(2), fq(3), fq(4)];
    let bad_index = evaluate_interpolate(2, table.clone(), 5, fq(1));
    assert_eq!(bad_index.unwrap_err(), Error::InvalidVariableIndex);
    let bad_len = evaluate_interpolate(3, table.clone(), 0, fq(1));
    assert_eq!(bad_len.unwrap_err(), Error::LengthMismatch);
    let ok = evaluate_interpolate(2, table, 0, fq(0)).unwrap();
    assert_eq!(ok, vec![fq(1), fq(2)]);
}

#[test]
fn fold_rejects_non_power_of_two_tables() {
    let table = vec![fq(1), fq(2), fq(3)];
    let r = interpolate_then_evaluate_at_once(table, 0, fq(1));
    assert_eq!(r.unwrap_err(), Error::LengthMismatch);
}

#[test]
fn blow_up_is_independent_of_the_new_variable() {
    let table = vec![fq(3), fq(5)];
    // inject a new variable at index 1 of a 2-variable space
    let blown = blow_up(table.clone(), 1, 2).unwrap();
    assert_eq!(blown, vec![fq(3), fq(3), fq(5), fq(5)]);
    // folding the injected variable back out, at 0, at 1, or at any other
    // field value, returns the original table
    for r in [0u64, 1, 7898765] {
        let folded = interpolate_then_evaluate_at_once(blown.clone(), 1, fq(r)).unwrap();
        assert_eq!(folded, table);
    }
    // injecting at index 0 duplicates block-wise instead
    let blown0 = blow_up(table.clone(), 0, 2).unwrap();
    assert_eq!(blown0, vec![fq(3), fq(5), fq(3), fq(5)]);
    for r in [0u64, 1, 31415] {
        let folded = interpolate_then_evaluate_at_once(blown0.clone(), 0, fq(r)).unwrap();
        assert_eq!(folded, table);
    }
}

#[test]
fn blow_up_rejects_bad_shapes() {
    let r = blow_up(vec![fq(1), fq(2), fq(3)], 0, 3);
    assert_eq!(r.unwrap_err(), Error::LengthMismatch);
    let r2 = blow_up(vec![fq(1), fq(2)], 5, 2);
    assert_eq!(r2.unwrap_err(), Error::InvalidVariableIndex);
}

#[test]
fn binary_values_and_hypercube() {
    assert_eq!(get_binary_value(5, 3), 101);
    assert_eq!(get_binary_value(0, 4), 0);
    assert_eq!(get_binary_value_as_string(5, 4), "0101");
    assert_eq!(get_binary_value_as_string(0, 3), "000");
    assert_eq!(get_binary_value_as_string(9, 2), "1001");
    let cube = get_hypercube(3);
    assert_eq!(cube, vec![0, 1, 10, 11, 100, 101, 110, 111]);
}

#[test]
fn pair_index_lists_fold_partners() {
    assert_eq!(pair_index(3, 0), vec![(0, 4), (1, 5), (2, 6), (3, 7)]);
    assert_eq!(pair_index(3, 2), vec![(0, 1), (2, 3), (4, 5), (6, 7)]);
    assert_eq!(pair_index(1, 0), vec![(0, 1)]);
}

#[test]
fn pair_values_lists_fold_value_pairs() {
    let evals = vec![fq(1), fq(2), fq(3), fq(4)];
    let pairs = pair_values(2, evals.clone(), 0).unwrap();
    assert_eq!(pairs, vec![(fq(1), fq(3)), (fq(2), fq(4))]);
    let bad = pair_values(2, evals, 2);
    assert_eq!(bad.unwrap_err(), Error::InvalidVariableIndex);
}

#[test]
fn multilinear_poly_wraps_its_table() {
    let p = MultilinearPoly::new(vec![fq(1), fq(2)]);
    assert_eq!(p.coef_and_exp, vec![fq(1), fq(2)]);
}

#[test]
fn field_bytes_round_trip_through_the_transcript_encoding() {
    let x = fq(123456789);
    let bytes = x.to_bytes();
    assert_eq!(bytes.len(), 8);
    assert_eq!(Fq::from_be_bytes(&bytes), x);
}
