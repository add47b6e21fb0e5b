use sumcheck::field::Fq;
use sumcheck::polynomial::UnivariatePolynomial;
use sumcheck::PolyError;

fn to_field(input: Vec<u64>) -> Vec<Fq> {
    input.into_iter().map(Fq::from_u64).collect()
}

fn poly_1() -> UnivariatePolynomial {
    // f(x) = 1 + 2x + 3x^2
    UnivariatePolynomial::new(to_field(vec![1, 2, 3]))
}

fn poly_2() -> UnivariatePolynomial {
    // f(x) = 4x + 3 + 5x^11
    UnivariatePolynomial::new(
        [to_field(vec![3, 4]), to_field(vec![0; 9]), to_field(vec![5])].concat(),
    )
}

#[test]
fn test_degree() {
    assert_eq!(poly_1().degree(), 2);
}

#[test]
fn test_evaluation() {
    assert!(poly_1().evaluate(Fq::from_u64(2)) == Fq::from_u64(17));
}

#[test]
fn test_addition() {
    // f(x) = 1 + 2x + 3x^2
    // f(x) = 4x + 3 + 5x^11

    // r(x) = 4 + 6x + 3x^2 + 5x^11
    assert!(
        poly_1().add(&poly_2()).coefficients
            == [to_field(vec![4, 6, 3]), to_field(vec![0; 8]), to_field(vec![5])].concat()
    )
}

#[test]
fn test_mul() {
    // f(x) = 5 + 2x^2
    let poly_1 = UnivariatePolynomial::new(to_field(vec![5, 0, 2]));
    // f(x) = 2x + 6
    let poly_2 = UnivariatePolynomial::new(to_field(vec![6, 2]));

    // r(x) = 30 + 10x + 12x^2 + 4x^3
    assert!(poly_1.mul(&poly_2).coefficients == to_field(vec![30, 10, 12, 4]));
}

#[test]
fn test_interpolate() {
    // f(x) = 2x
    // [(2, 4), (4, 8)]
    let maybe_2x = UnivariatePolynomial::interpolate(
        to_field(vec![2, 4]),
        to_field(vec![4, 8]),
    )
    .unwrap();
    assert!(maybe_2x.coefficients == to_field(vec![0, 2]));
}

#[test]
fn interpolate_reproduces_coefficients() {
    // three points of f(x) = 1 + 2x + 3x^2 give back its coefficients
    let xs = to_field(vec![0, 1, 2]);
    let ys = to_field(vec![1, 6, 17]);
    let p = UnivariatePolynomial::interpolate(xs, ys).unwrap();
    assert!(p.coefficients == to_field(vec![1, 2, 3]));
}

#[test]
fn interpolate_passes_through_points() {
    let xs = to_field(vec![1, 3, 7, 9]);
    let ys = to_field(vec![5, 11, 2, 31]);
    let p = UnivariatePolynomial::interpolate(xs.clone(), ys.clone()).unwrap();
    for (x, y) in xs.iter().zip(ys.iter()) {
        assert!(p.evaluate(*x) == *y);
    }
}

#[test]
fn interpolate_rejects_duplicate_abscissas() {
    let r = UnivariatePolynomial::interpolate(to_field(vec![2, 3, 2]), to_field(vec![1, 2, 3]));
    assert!(matches!(r, Err(PolyError::DegenerateInput)));
}

#[test]
fn interpolate_rejects_mismatched_lengths() {
    let r = UnivariatePolynomial::interpolate(to_field(vec![2, 3]), to_field(vec![1]));
    assert!(matches!(r, Err(PolyError::ArityMismatch)));
}

#[test]
fn scalar_mul_scales_every_coefficient() {
    let p = poly_1().scalar_mul(&Fq::from_u64(4));
    assert!(p.coefficients == to_field(vec![4, 8, 12]));
}

#[test]
fn sum_and_product_fold_over_all_polynomials() {
    let polys = vec![
        UnivariatePolynomial::new(to_field(vec![1, 2])),
        UnivariatePolynomial::new(to_field(vec![3])),
        UnivariatePolynomial::new(to_field(vec![0, 0, 4])),
    ];
    assert!(UnivariatePolynomial::sum(&polys).coefficients == to_field(vec![4, 2, 4]));
    let factors = vec![
        UnivariatePolynomial::new(to_field(vec![1, 1])),
        UnivariatePolynomial::new(to_field(vec![2, 3])),
    ];
    // (1 + x)(2 + 3x) = 2 + 5x + 3x^2
    assert!(UnivariatePolynomial::product(&factors).coefficients == to_field(vec![2, 5, 3]));
}
