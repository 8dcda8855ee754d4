use multilinear::evaluation_form::MultiLinearPolynomial;
use multilinear::field::Felt;

fn f(x: u64) -> Felt {
    Felt::from_u64(x)
}

#[test]
fn test_new_multilinear_poly() {
    // should not allow n_vars / evaluation count mismatch
    let poly = MultiLinearPolynomial::new(2, vec![f(3), f(1), f(2)]);
    assert_eq!(poly.is_err(), true);
    let poly = MultiLinearPolynomial::new(2, vec![f(3), f(1)]);
    assert_eq!(poly.is_err(), true);

    // correct inputs
    let poly = MultiLinearPolynomial::new(1, vec![f(3), f(1)]);
    assert_eq!(poly.is_err(), false);
    let poly = MultiLinearPolynomial::new(2, vec![f(3), f(1), f(2), f(5)]);
    assert_eq!(poly.is_err(), false);
}

#[test]
fn test_partial_evaluate_single_variable() {
    let poly = MultiLinearPolynomial::new(2, vec![f(3), f(1), f(2), f(5)]).unwrap();
    let neg_two = f(0).sub(&f(2));
    assert_eq!(
        poly.partial_evaluate(0, &[f(5)]).unwrap().evaluation_slice(),
        vec![neg_two, f(21)].as_slice()
    );

    // get first half of evaluations by partially evaluating at 0
    assert_eq!(
        poly.partial_evaluate(0, &[f(0)]).unwrap().evaluation_slice(),
        vec![f(3), f(1)].as_slice()
    );
}

#[test]
fn test_partial_evaluate_consecutive_variables() {
    // f(a, b, c) = 2ab + 3bc
    let poly = MultiLinearPolynomial::new(
        3,
        vec![f(0), f(0), f(0), f(3), f(0), f(0), f(2), f(5)],
    )
    .unwrap();

    let f_of_a = poly.partial_evaluate(1, &[f(2), f(3)]).unwrap();
    let f_of_a_evaluations = f_of_a.evaluation_slice();
    assert_eq!(f_of_a_evaluations.len(), 2);
    assert_eq!(f_of_a_evaluations, &[f(18), f(22)]);
}

#[test]
fn test_full_evaluation() {
    // f(a, b, c) = 2ab + 3bc
    let poly = MultiLinearPolynomial::new(
        3,
        vec![f(0), f(0), f(0), f(3), f(0), f(0), f(2), f(5)],
    )
    .unwrap();

    let evaluation_result = poly.evaluate(&[f(2), f(3), f(4)]).unwrap();
    assert_eq!(evaluation_result, f(48));
}

#[test]
fn test_partial_evaluate_at_one_selects_upper_half() {
    let poly = MultiLinearPolynomial::new(2, vec![f(3), f(1), f(2), f(5)]).unwrap();
    assert_eq!(
        poly.partial_evaluate(0, &[f(1)]).unwrap().evaluation_slice(),
        vec![f(2), f(5)].as_slice()
    );
    // boundary selection on the second variable too
    assert_eq!(
        poly.partial_evaluate(1, &[f(0)]).unwrap().evaluation_slice(),
        vec![f(3), f(2)].as_slice()
    );
    assert_eq!(
        poly.partial_evaluate(1, &[f(1)]).unwrap().evaluation_slice(),
        vec![f(1), f(5)].as_slice()
    );
}

#[test]
fn test_repeated_single_variable_agrees_with_full_evaluation() {
    // f(a, b, c) = 2ab + 3bc
    let poly = MultiLinearPolynomial::new(
        3,
        vec![f(0), f(0), f(0), f(3), f(0), f(0), f(2), f(5)],
    )
    .unwrap();

    let step1 = poly.partial_evaluate(0, &[f(2)]).unwrap();
    assert_eq!(step1.n_vars(), 2);
    let step2 = step1.partial_evaluate(0, &[f(3)]).unwrap();
    assert_eq!(step2.n_vars(), 1);
    let step3 = step2.partial_evaluate(0, &[f(4)]).unwrap();
    assert_eq!(step3.n_vars(), 0);
    assert_eq!(step3.evaluation_slice().len(), 1);

    let direct = poly.evaluate(&[f(2), f(3), f(4)]).unwrap();
    assert_eq!(step3.evaluation_slice()[0], direct);
    assert_eq!(direct, f(48));
}

#[test]
fn test_evaluate_arity_mismatch() {
    let poly = MultiLinearPolynomial::new(2, vec![f(3), f(1), f(2), f(5)]).unwrap();

    // too few and too many assignments are rejected with the arity error
    let too_few = poly.evaluate(&[f(1)]);
    assert_eq!(too_few, Err("evaluate must assign to all variables"));
    let too_many = poly.evaluate(&[f(1), f(2), f(3)]);
    assert_eq!(too_many, Err("evaluate must assign to all variables"));

    // the polynomial is untouched and still evaluates correctly
    assert_eq!(poly.n_vars(), 2);
    assert_eq!(poly.evaluation_slice(), vec![f(3), f(1), f(2), f(5)].as_slice());
    // f(a, b) with table [3, 1, 2, 5]: f(1, 1) = 5
    assert_eq!(poly.evaluate(&[f(1), f(1)]).unwrap(), f(5));
}

#[test]
fn test_new_length_mismatch_error_message() {
    let poly = MultiLinearPolynomial::new(3, vec![f(1), f(2)]);
    assert_eq!(poly, Err("evaluation vec len should equal 2^n_vars"));
    // zero variables need exactly one evaluation
    assert!(MultiLinearPolynomial::new(0, vec![f(7)]).is_ok());
    assert!(MultiLinearPolynomial::new(0, vec![]).is_err());
}

#[test]
fn test_partial_evaluate_rejects_bad_variable_run() {
    let poly = MultiLinearPolynomial::new(
        3,
        vec![f(0), f(0), f(0), f(3), f(0), f(0), f(2), f(5)],
    )
    .unwrap();

    // the run of fixed variables must fit inside the polynomial's variables
    assert!(poly.partial_evaluate(3, &[f(1)]).is_err());
    assert!(poly.partial_evaluate(2, &[f(1), f(2)]).is_err());
    assert!(poly.partial_evaluate(0, &[f(1), f(2), f(3), f(4)]).is_err());
    // an empty run always succeeds and changes nothing
    let unchanged = poly.partial_evaluate(7, &[]).unwrap();
    assert_eq!(unchanged.n_vars(), 3);
    assert_eq!(unchanged.evaluation_slice(), poly.evaluation_slice());
}

#[test]
fn test_to_bytes_big_endian_concatenation() {
    let poly = MultiLinearPolynomial::new(1, vec![f(1), f(0x0102)]).unwrap();
    let bytes = poly.to_bytes();
    assert_eq!(bytes.len(), 64);
    // first element: canonical representative 1, big-endian over 32 bytes
    assert_eq!(bytes[31], 1);
    assert!(bytes[0..31].iter().all(|b| *b == 0));
    // second element: 0x0102
    assert_eq!(bytes[62], 1);
    assert_eq!(bytes[63], 2);
    assert!(bytes[32..62].iter().all(|b| *b == 0));
}
