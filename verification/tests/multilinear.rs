use sumcheck::field::Fq;
use sumcheck::multilinear_poly::{insert_bit, pairs, MultilinearPoly, ProductPoly, SumPoly};
use sumcheck::PolyError;

fn to_field(input: Vec<u64>) -> Vec<Fq> {
    input.into_iter().map(Fq::from_u64).collect()
}

#[test]
fn bit_insertion() {
    assert_eq!(insert_bit(3, 0), 0b110);
    assert_eq!(insert_bit(3, 1), 0b101);
    assert_eq!(insert_bit(3, 2), 0b011);
}

#[test]
fn test_pairs() {
    let pairs = pairs(2, 3);
    assert_eq!(pairs, vec![(0, 1), (2, 3), (4, 5), (6, 7)]);
}

#[test]
fn test_partial_evaluate() {
    // 2ab + 3bc
    let poly = MultilinearPoly::new(to_field(vec![0_u64, 0, 0, 3, 0, 0, 2, 5])).unwrap();
    assert!(poly.partial_evaluate(2, &Fq::from_u64(3)).evals == to_field(vec![0, 9, 0, 11]));
    assert!(poly.partial_evaluate(1, &Fq::from_u64(3)).evals == to_field(vec![0, 9, 6, 15]));
}

#[test]
fn new_accepts_exactly_powers_of_two() {
    for n in 0..7u32 {
        let len = 1usize << n;
        assert!(MultilinearPoly::new(to_field((0..len as u64).collect())).is_ok());
    }
    for len in [0u64, 3, 5, 6, 7, 9, 12, 100] {
        let r = MultilinearPoly::new(to_field((0..len).collect()));
        assert!(matches!(r, Err(PolyError::InvalidShape)));
    }
}

#[test]
fn partial_evaluations_recombine_to_original() {
    // binding a variable to 0 and to 1 splits the vector along that
    // variable's bit; together the halves carry every original evaluation
    let evals = vec![0u64, 0, 0, 3, 0, 0, 2, 5];
    let poly = MultilinearPoly::new(to_field(evals.clone())).unwrap();
    let low = poly.partial_evaluate(1, &Fq::from_u64(0));
    let high = poly.partial_evaluate(1, &Fq::from_u64(1));
    assert!(low.evals == to_field(vec![0, 0, 0, 0]));
    assert!(high.evals == to_field(vec![0, 3, 2, 5]));
    // inverse bit map: index j of the original is (bit 1 of j, j with bit 1 removed)
    let expected: Vec<u64> = vec![0, 0, 0, 3, 0, 0, 2, 5];
    for j in 0..8usize {
        let bit = (j >> 1) & 1;
        let k = (j >> 2) * 2 + (j & 1);
        let half = if bit == 0 { &low } else { &high };
        assert!(half.evals[k] == Fq::from_u64(expected[j]));
    }
}

#[test]
fn evaluate_is_linear_in_each_variable() {
    // f(a, b, c) = 2ab + 3bc; f(2, b, 4) = 16b, so binding b interpolates
    let poly = MultilinearPoly::new(to_field(vec![0_u64, 0, 0, 3, 0, 0, 2, 5])).unwrap();
    let at_3 = poly.evaluate(to_field(vec![2, 3, 4])).unwrap();
    let at_0 = poly.evaluate(to_field(vec![2, 0, 4])).unwrap();
    let at_1 = poly.evaluate(to_field(vec![2, 1, 4])).unwrap();
    assert!(at_0 == Fq::from_u64(0));
    assert!(at_1 == Fq::from_u64(16));
    // 0 + 3 * (16 - 0)
    assert!(at_3 == Fq::from_u64(48));
}

#[test]
fn evaluate_rejects_wrong_arity() {
    let poly = MultilinearPoly::new(to_field(vec![1u64, 2, 3, 4])).unwrap();
    assert!(matches!(
        poly.evaluate(to_field(vec![1, 2, 3])),
        Err(PolyError::ArityMismatch)
    ));
    assert!(poly.evaluate(to_field(vec![1, 2])).is_ok());
}

#[test]
fn multi_partial_evaluate_binds_a_prefix() {
    let poly = MultilinearPoly::new(to_field(vec![0_u64, 0, 0, 3, 0, 0, 2, 5])).unwrap();
    let values = to_field(vec![2, 3]);
    let reduced = poly.multi_partial_evaluate(&values).unwrap();
    assert_eq!(reduced.n_vars, 1);
    // f(a, b, c) = 2ab + 3bc, so f(2, 3, c) = 12 + 9c
    assert!(reduced.evals == to_field(vec![12, 21]));
    let too_many = to_field(vec![1, 2, 3, 4]);
    assert!(matches!(
        poly.multi_partial_evaluate(&too_many),
        Err(PolyError::ArityMismatch)
    ));
}

#[test]
fn pointwise_ops_and_scale() {
    let a = MultilinearPoly::new(to_field(vec![1u64, 2, 3, 4])).unwrap();
    let b = MultilinearPoly::new(to_field(vec![5u64, 6, 7, 8])).unwrap();
    assert!(a.add(&b).unwrap().evals == to_field(vec![6, 8, 10, 12]));
    assert!(b.sub(&a).unwrap().evals == to_field(vec![4, 4, 4, 4]));
    assert!(a.mul(&b).unwrap().evals == to_field(vec![5, 12, 21, 32]));
    assert!(a.scale(Fq::from_u64(3)).evals == to_field(vec![3, 6, 9, 12]));
    let c = MultilinearPoly::new(to_field(vec![1u64, 2])).unwrap();
    assert!(matches!(a.add(&c), Err(PolyError::ShapeMismatch)));
    assert!(matches!(a.sub(&c), Err(PolyError::ShapeMismatch)));
    assert!(matches!(a.mul(&c), Err(PolyError::ShapeMismatch)));
}

#[test]
fn product_poly_evaluates_multiple_polys() {
    let evaluations = vec![
        to_field(vec![0, 0, 0, 3]),
        to_field(vec![0, 0, 0, 2]),
    ];

    let product_polys = ProductPoly::new(evaluations).unwrap();

    let values = to_field(vec![2, 3]);

    let expected_evaluation = Fq::from_u64(216);

    let result = product_polys.evaluate(values).unwrap();

    assert!(expected_evaluation == result);
}

#[test]
fn product_poly_partially_evaluates_multiple_polys() {
    let evaluations = vec![
        to_field(vec![0, 0, 0, 3]),
        to_field(vec![0, 0, 0, 2]),
    ];

    let product_polys = ProductPoly::new(evaluations).unwrap();

    let value = Fq::from_u64(2);

    let expected_evaluation = vec![
        to_field(vec![0, 6]),
        to_field(vec![0, 4]),
    ];

    let result = product_polys.partial_evaluate(&value);

    let result_polys: Vec<_> = result
        .evaluation
        .iter()
        .map(|poly| poly.evals.clone())
        .collect();

    assert!(result_polys == expected_evaluation);
}

#[test]
fn product_poly_doesnt_allow_different_evaluation_size() {
    let evaluations = vec![
        to_field(vec![0, 0, 0, 3]),
        to_field(vec![0, 0, 0, 4, 0, 0, 0, 4]),
    ];

    let result = ProductPoly::new(evaluations);
    assert!(matches!(result, Err(PolyError::ShapeMismatch)));
}

#[test]
fn product_poly_gets_correct_degree() {}

#[test]
fn sum_poly_gets_correct_degree() {}

#[test]
fn product_degree_counts_factors() {
    let product = ProductPoly::new(vec![
        to_field(vec![0, 0, 0, 3]),
        to_field(vec![0, 0, 0, 2]),
        to_field(vec![1, 1, 1, 1]),
    ])
    .unwrap();
    assert_eq!(product.get_degree(), 3);
}

#[test]
fn sum_degree_is_term_degree() {
    let term_1 = ProductPoly::new(vec![to_field(vec![0, 0, 0, 3]), to_field(vec![0, 0, 0, 2])])
        .unwrap();
    let term_2 = ProductPoly::new(vec![to_field(vec![0, 0, 0, 4]), to_field(vec![0, 0, 0, 5])])
        .unwrap();
    let sum_poly = SumPoly::new(vec![term_1, term_2]).unwrap();
    assert_eq!(sum_poly.get_degree(), 2);
}

#[test]
fn sum_poly_evaluates_properly() {
    let evaluations_1 = vec![
        to_field(vec![0, 0, 0, 3]),
        to_field(vec![0, 0, 0, 2]),
    ];

    let evaluations_2 = vec![
        to_field(vec![0, 0, 0, 4]),
        to_field(vec![0, 0, 0, 5]),
    ];

    let product_poly_1 = ProductPoly::new(evaluations_1).unwrap();
    let product_poly_2 = ProductPoly::new(evaluations_2).unwrap();

    let sum_poly = SumPoly::new(vec![product_poly_1, product_poly_2]).unwrap();

    let values = to_field(vec![2, 3]);

    let expected_result = Fq::from_u64(936);

    let result = sum_poly.evaluate(values).unwrap();

    assert!(expected_result == result);
}

#[test]
fn sum_poly_partially_evaluates_properly() {
    let evaluations_1 = vec![
        to_field(vec![0, 0, 0, 3]),
        to_field(vec![0, 0, 0, 2]),
    ];

    let evaluations_2 = vec![
        to_field(vec![0, 0, 0, 4]),
        to_field(vec![0, 0, 0, 5]),
    ];

    let product_poly_1 = ProductPoly::new(evaluations_1).unwrap();
    let product_poly_2 = ProductPoly::new(evaluations_2).unwrap();

    let value = Fq::from_u64(2);

    let expected_evaluation_1 = vec![
        to_field(vec![0, 6]),
        to_field(vec![0, 4]),
    ];

    let expected_evaluation_2 = vec![
        to_field(vec![0, 8]),
        to_field(vec![0, 10]),
    ];

    let sum_poly = SumPoly::new(vec![product_poly_1, product_poly_2]).unwrap();

    let result = sum_poly.partial_evaluate(&value);

    let result_polys: Vec<_> = result
        .polys
        .iter()
        .map(|product_poly| {
            product_poly
                .evaluation
                .iter()
                .map(|poly| poly.evals.clone())
                .collect::<Vec<_>>()
        })
        .collect();

    assert!(vec![expected_evaluation_1, expected_evaluation_2] == result_polys);
}

#[test]
fn product_poly_rejects_empty_and_bad_shapes() {
    assert!(matches!(
        ProductPoly::new(vec![]),
        Err(PolyError::ShapeMismatch)
    ));
    assert!(matches!(
        ProductPoly::new(vec![to_field(vec![1, 2, 3])]),
        Err(PolyError::InvalidShape)
    ));
}

#[test]
fn sum_poly_rejects_mismatched_degrees() {
    let term_1 = ProductPoly::new(vec![to_field(vec![0, 0, 0, 3]), to_field(vec![0, 0, 0, 2])])
        .unwrap();
    let term_2 = ProductPoly::new(vec![to_field(vec![0, 0, 0, 4])]).unwrap();
    assert!(matches!(
        SumPoly::new(vec![term_1, term_2]),
        Err(PolyError::DegreeMismatch)
    ));
    assert!(matches!(
        SumPoly::new(vec![]),
        Err(PolyError::DegreeMismatch)
    ));
}

#[test]
fn reduce_folds_all_factors_and_terms() {
    // a product of three factors reduces to the pointwise product of all three
    let product = ProductPoly::new(vec![
        to_field(vec![1, 2, 3, 4]),
        to_field(vec![2, 2, 2, 2]),
        to_field(vec![1, 0, 1, 3]),
    ])
    .unwrap();
    assert!(product.reduce() == to_field(vec![2, 0, 6, 24]));
    // a sum of terms reduces to the pointwise sum of the reduced terms
    let term_1 = ProductPoly::new(vec![to_field(vec![1, 2, 3, 4]), to_field(vec![2, 2, 2, 2])])
        .unwrap();
    let term_2 = ProductPoly::new(vec![to_field(vec![0, 1, 0, 1]), to_field(vec![5, 5, 5, 5])])
        .unwrap();
    let sum_poly = SumPoly::new(vec![term_1, term_2]).unwrap();
    assert!(sum_poly.reduce() == to_field(vec![2, 9, 6, 13]));
}

#[test]
fn zero_variable_polynomial_is_a_constant() {
    let poly = MultilinearPoly::new(to_field(vec![7])).unwrap();
    assert_eq!(poly.n_vars, 0);
    assert!(poly.evaluate(vec![]).unwrap() == Fq::from_u64(7));
}
