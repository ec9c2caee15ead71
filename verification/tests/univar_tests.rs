use gkr::field::Fq;
use gkr::univar::Univariatepoly;
use gkr::error::Error;

fn fq(v: u64) -> Fq {
    Fq::from(v)
}

fn poly_1() -> Univariatepoly {
    // f(x) = 1 + 2x + 3x^2
    Univariatepoly::new(vec![fq(1), fq(2), fq(3)])
}

fn poly_2() -> Univariatepoly {
    // f(x) = 3 + 4x + 5x^11
    let mut coef = vec![fq(3), fq(4)];
    for _ in 0..9 {
        coef.push(fq(0));
    }
    coef.push(fq(5));
    Univariatepoly::new(coef)
}

#[test]
fn test_degree() {
    assert_eq!(poly_1().degree(), 2);
}

#[test]
fn test_evaluate() {
    assert_eq!(poly_1().evaluate(fq(2)), fq(17));
}

#[test]
fn test_addition() {
    let mut expected = vec![fq(4), fq(6), fq(3)];
    for _ in 0..8 {
        expected.push(fq(0));
    }
    expected.push(fq(5));
    assert_eq!(poly_1().add(&poly_2()).coef, expected);
}

#[test]
fn test_mul() {
    // f(x) = 5 + 2x^2
    let a = Univariatepoly::new(vec![fq(5), fq(0), fq(2)]);
    // f(x) = 6 + 2x
    let b = Univariatepoly::new(vec![fq(6), fq(2)]);
    assert_eq!(a.mul(&b).coef, vec![fq(30), fq(10), fq(12), fq(4)]);
}

#[test]
fn test_interpolate() {
    let ans = Univariatepoly::interpolate(vec![fq(2), fq(4)], vec![fq(4), fq(8)]).unwrap();
    assert_eq!(ans.coef, vec![fq(0), fq(2)]);
}

#[test]
fn interpolate_test_degree() {
    assert_eq!(poly_1().degree(), 2);
}

#[test]
fn interpolate_test_evaluate() {
    assert_eq!(poly_1().evaluate(fq(2)), fq(17));
}

#[test]
fn interpolate_test_addition() {
    let mut expected = vec![fq(4), fq(6), fq(3)];
    for _ in 0..8 {
        expected.push(fq(0));
    }
    expected.push(fq(5));
    assert_eq!(poly_1().add(&poly_2()).coef, expected);
}

#[test]
fn interpolate_test_mul() {
    let a = Univariatepoly::new(vec![fq(5), fq(0), fq(2)]);
    let b = Univariatepoly::new(vec![fq(6), fq(2)]);
    assert_eq!(a.mul(&b).coef, vec![fq(30), fq(10), fq(12), fq(4)]);
}

#[test]
fn interpolate_test_interpolate() {
    let ans = Univariatepoly::interpolate(vec![fq(2), fq(4)], vec![fq(4), fq(8)]).unwrap();
    assert_eq!(ans.coef, vec![fq(0), fq(2)]);
}

#[test]
fn interpolate_round_trip_many_points() {
    // degree + 1 = 4 distinct sample points and arbitrary targets
    let xs = vec![fq(1), fq(5), fq(9), fq(200)];
    let ys = vec![fq(7), fq(0), fq(123456), fq(2)];
    let p = Univariatepoly::interpolate(xs.clone(), ys.clone()).unwrap();
    for i in 0..xs.len() {
        assert_eq!(p.evaluate(xs[i]), ys[i]);
    }
}

#[test]
fn interpolate_rejects_mismatched_lengths() {
    let r = Univariatepoly::interpolate(vec![fq(1)], vec![fq(1), fq(2)]);
    assert_eq!(r.unwrap_err(), Error::LengthMismatch);
}

#[test]
fn interpolate_rejects_empty_sample_set() {
    let r = Univariatepoly::interpolate(vec![], vec![]);
    assert_eq!(r.unwrap_err(), Error::InterpolationUnderspecified);
}

#[test]
fn sum_and_product_of_poly_lists() {
    let s = Univariatepoly::sum(vec![poly_1(), Univariatepoly::new(vec![fq(10)])]);
    assert_eq!(s.coef, vec![fq(11), fq(2), fq(3)]);
    let p = Univariatepoly::product(vec![
        Univariatepoly::new(vec![fq(5), fq(0), fq(2)]),
        Univariatepoly::new(vec![fq(6), fq(2)]),
    ]);
    assert_eq!(p.coef, vec![fq(30), fq(10), fq(12), fq(4)]);
}

#[test]
fn field_inverse_of_zero_is_none() {
    assert!(fq(0).inverse().is_none());
}

#[test]
fn field_inverse_multiplies_to_one() {
    let a = fq(123456789);
    let inv = a.inverse().unwrap();
    assert_eq!(a.mul(inv), fq(1));
}
