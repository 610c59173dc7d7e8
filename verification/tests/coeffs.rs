use multilinear::crypto::fields::Field64;
use multilinear::poly_utils::coeffs::CoefficientList;
use multilinear::poly_utils::dense::DensePolynomial;
use multilinear::poly_utils::evals::EvaluationsList;
use multilinear::poly_utils::hypercube::BinaryHypercubePoint;
use multilinear::poly_utils::multilinear::MultilinearPoint;

type F = Field64;

#[test]
fn test_evaluation_conversion() {
    let coeffs = vec![F::from(22), F::from(5), F::from(10), F::from(97)];
    let coeffs_list = CoefficientList::new(coeffs.clone());

    let evaluations = EvaluationsList::from(coeffs_list);

    assert_eq!(evaluations[0], coeffs[0]);
    assert_eq!(evaluations[1], coeffs[0] + coeffs[1]);
    assert_eq!(evaluations[2], coeffs[0] + coeffs[2]);
    assert_eq!(
        evaluations[3],
        coeffs[0] + coeffs[1] + coeffs[2] + coeffs[3]
    );
}

#[test]
fn test_folding() {
    let coeffs = vec![F::from(22), F::from(5), F::from(00), F::from(00)];
    let coeffs_list = CoefficientList::new(coeffs);

    let alpha = F::from(100);
    let beta = F::from(32);

    let folded = coeffs_list.fold(&MultilinearPoint(vec![beta]));

    assert_eq!(
        coeffs_list.evaluate(&MultilinearPoint(vec![alpha, beta])),
        folded.evaluate(&MultilinearPoint(vec![alpha]))
    );
}

#[test]
fn test_folding_and_evaluation() {
    let num_variables = 10;
    let coeffs = (0..(1 << num_variables)).map(F::from).collect();
    let coeffs_list = CoefficientList::new(coeffs);

    let randomness: Vec<_> = (0..num_variables).map(|i| F::from(35 * i as u64)).collect();
    for k in 0..num_variables {
        let fold_part = randomness[0..k].to_vec();
        let eval_part = randomness[k..randomness.len()].to_vec();

        let fold_random = MultilinearPoint(fold_part.clone());
        let eval_point = MultilinearPoint([eval_part.clone(), fold_part].concat());

        let folded = coeffs_list.fold(&fold_random);
        assert_eq!(
            folded.evaluate(&MultilinearPoint(eval_part)),
            coeffs_list.evaluate(&eval_point)
        );
    }
}

#[test]
fn test_evaluation_mv() {
    let polynomial = vec![
        F::from(0),
        F::from(1),
        F::from(2),
        F::from(3),
        F::from(4),
        F::from(5),
        F::from(6),
        F::from(7),
        F::from(8),
        F::from(9),
        F::from(10),
        F::from(11),
        F::from(12),
        F::from(13),
        F::from(14),
        F::from(15),
    ];

    let mv_poly = CoefficientList::new(polynomial);
    let uv_poly: DensePolynomial<_> = mv_poly.clone().into();

    let eval_point = F::from(4999);
    assert_eq!(
        uv_poly.evaluate(&F::from(1)),
        F::from((0..=15).sum::<u64>())
    );
    assert_eq!(
        uv_poly.evaluate(&eval_point),
        mv_poly.evaluate(&MultilinearPoint::expand_from_univariate(eval_point, 4))
    );
}

#[test]
fn test_coefficient_list_initialization() {
    let coeffs = vec![F::from(3), F::from(1), F::from(4), F::from(1)];
    let coeff_list = CoefficientList::new(coeffs.clone());

    // Check that the coefficients are stored correctly
    assert_eq!(coeff_list.coeffs(), &coeffs);
    // Since len = 4 = 2^2, we expect num_variables = 2
    assert_eq!(coeff_list.num_variables(), 2);
}

#[test]
fn test_evaluate_hypercube() {
    let coeff0 = F::from(10);
    let coeff1 = F::from(3);
    let coeff2 = F::from(5);
    let coeff3 = F::from(7);

    let coeffs = vec![
        coeff0, // Constant term
        coeff1, // X_2 coefficient
        coeff2, // X_1 coefficient
        coeff3, // X_1 * X_2 coefficient
    ];
    let coeff_list = CoefficientList::new(coeffs);

    // f(0,0) = coeffs[0]
    assert_eq!(
        coeff_list.evaluate_hypercube(BinaryHypercubePoint(0b00)),
        coeff0
    );
    // f(0,1) = coeffs[0] + coeffs[1]
    assert_eq!(
        coeff_list.evaluate_hypercube(BinaryHypercubePoint(0b01)),
        coeff0 + coeff1
    );
    // f(1,0) = coeffs[0] + coeffs[2]
    assert_eq!(
        coeff_list.evaluate_hypercube(BinaryHypercubePoint(0b10)),
        coeff0 + coeff2
    );
    // f(1,1) = coeffs[0] + coeffs[1] + coeffs[2] + coeffs[3]
    assert_eq!(
        coeff_list.evaluate_hypercube(BinaryHypercubePoint(0b11)),
        coeff0 + coeff1 + coeff2 + coeff3
    );
}

#[test]
fn test_evaluate_multilinear() {
    let coeff0 = F::from(8);
    let coeff1 = F::from(2);
    let coeff2 = F::from(3);
    let coeff3 = F::from(1);

    let coeffs = vec![coeff0, coeff1, coeff2, coeff3];
    let coeff_list = CoefficientList::new(coeffs);

    let x0 = F::from(2);
    let x1 = F::from(3);
    let point = MultilinearPoint(vec![x0, x1]);

    // Expected value based on multilinear evaluation
    let expected_value = coeff0 + coeff1 * x1 + coeff2 * x0 + coeff3 * x0 * x1;
    assert_eq!(coeff_list.evaluate(&point), expected_value);
}

#[test]
fn test_evaluate_single_variable() {
    let coeff0 = F::from(4);
    let coeff1 = F::from(7);

    let coeffs = vec![coeff0, coeff1];
    let coeff_list = CoefficientList::new(coeffs);

    // Single-variable polynomial evaluations
    assert_eq!(
        coeff_list.evaluate_hypercube(BinaryHypercubePoint(0)),
        coeff0
    );
    assert_eq!(
        coeff_list.evaluate_hypercube(BinaryHypercubePoint(1)),
        coeff0 + coeff1
    );
}

#[test]
fn test_folding_multiple_variables() {
    let num_variables = 3;
    let coeffs: Vec<F> = (0..(1 << num_variables)).map(F::from).collect();
    let coeff_list = CoefficientList::new(coeffs);

    let fold_x1 = F::from(4);
    let fold_x2 = F::from(2);
    let folding_point = MultilinearPoint(vec![fold_x1, fold_x2]);

    let folded = coeff_list.fold(&folding_point);

    let eval_x0 = F::from(6);
    let full_point = MultilinearPoint(vec![eval_x0, fold_x1, fold_x2]);
    let expected_eval = coeff_list.evaluate(&full_point);

    // Ensure correctness of folding and evaluation
    assert_eq!(
        folded.evaluate(&MultilinearPoint(vec![eval_x0])),
        expected_eval
    );
}

#[test]
fn test_coefficient_to_evaluations_conversion() {
    let coeff0 = F::from(5);
    let coeff1 = F::from(3);
    let coeff2 = F::from(7);
    let coeff3 = F::from(2);

    let coeffs = vec![coeff0, coeff1, coeff2, coeff3];
    let coeff_list = CoefficientList::new(coeffs);

    let evaluations = EvaluationsList::from(coeff_list);

    // Expected results after wavelet transform (manually derived)
    assert_eq!(evaluations[0], coeff0);
    assert_eq!(evaluations[1], coeff0 + coeff1);
    assert_eq!(evaluations[2], coeff0 + coeff2);
    assert_eq!(evaluations[3], coeff0 + coeff1 + coeff2 + coeff3);
}

#[test]
fn test_num_variables_and_coeffs() {
    // 8 = 2^3, so num_variables = 3
    let coeffs = vec![F::from(1); 8];
    let coeff_list = CoefficientList::new(coeffs);

    assert_eq!(coeff_list.num_variables(), 3);
    assert_eq!(coeff_list.num_coeffs(), 8);
}
