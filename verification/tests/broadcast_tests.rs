use cognet::{broadcast_length, broadcast_pairs, Operand};

fn divide(a: f64, b: f64) -> f64 {
    if b == 0.0 {
        0.0
    } else {
        a / b
    }
}

#[test]
fn scalar_mode_writes_only_the_scalar_output() {
    let a = Operand::Scalar(2.0);
    let b = Operand::Scalar(3.0);
    assert_eq!(broadcast_length("Add", &a, &b), Ok(None), "no list: one scalar run");
    let (Operand::Scalar(x), Operand::Scalar(y)) = (&a, &b) else {
        panic!("scalar operands");
    };
    assert_eq!(x + y, 5.0);
}

#[test]
fn a_wired_list_operand_maps_elementwise() {
    let a = Operand::List(vec![1.0, 2.0, 3.0]);
    let b = Operand::Scalar(10.0);
    assert_eq!(broadcast_length("Add", &a, &b), Ok(Some(3)));
    let pairs = broadcast_pairs(&a, &b, 3);
    let sums: Vec<f64> = pairs.iter().map(|(x, y)| x + y).collect();
    assert_eq!(sums, vec![11.0, 12.0, 13.0]);
}

#[test]
fn two_lists_of_equal_length_pair_up() {
    let a = Operand::List(vec![10.0, 20.0]);
    let b = Operand::List(vec![1.0, 2.0]);
    assert_eq!(broadcast_length("Subtract", &a, &b), Ok(Some(2)));
    let diffs: Vec<f64> = broadcast_pairs(&a, &b, 2).iter().map(|(x, y)| x - y).collect();
    assert_eq!(diffs, vec![9.0, 18.0]);
}

#[test]
fn a_length_mismatch_is_a_typed_error() {
    let a = Operand::List(vec![1.0, 2.0]);
    let b = Operand::List(vec![3.0, 4.0, 5.0]);
    let err = broadcast_length("Multiply", &a, &b).expect_err("mismatched lengths must error");
    assert!(err.contains("must share one length"), "got: {err}");
    assert!(err.contains("'B[]' has 3 elements"), "got: {err}");
    assert_eq!(err, "Multiply: list inputs must share one length; 'B[]' has 3 elements, expected 2");
}

#[test]
fn an_empty_list_maps_to_an_empty_list() {
    let a: Operand<f64> = Operand::List(Vec::new());
    let b = Operand::Scalar(1.0);
    assert_eq!(broadcast_length("Add", &a, &b), Ok(Some(0)));
    assert!(broadcast_pairs(&a, &b, 0).is_empty());
}

#[test]
fn divide_substitutes_zero_per_element_as_it_does_for_a_scalar() {
    assert_eq!(divide(6.0, 0.0), 0.0);
    let a = Operand::List(vec![6.0, 8.0]);
    let b = Operand::List(vec![0.0, 2.0]);
    assert_eq!(broadcast_length("Divide", &a, &b), Ok(Some(2)));
    let quotients: Vec<f64> = broadcast_pairs(&a, &b, 2).iter().map(|(x, y)| divide(*x, *y)).collect();
    assert_eq!(quotients, vec![0.0, 4.0]);
}

#[test]
fn a_list_in_second_place_sets_the_length() {
    let a = Operand::Scalar(5);
    let b = Operand::List(vec![1, 2]);
    assert_eq!(broadcast_length("Add", &a, &b), Ok(Some(2)));
    assert_eq!(broadcast_pairs(&a, &b, 2), vec![(5, 1), (5, 2)]);
}

#[test]
fn a_wired_list_wins_over_the_scalar_slot() {
    match cognet::pick_operand(Some(vec![1u32, 2]), Some(9u32), 0u32) {
        cognet::Operand::List(xs) => assert_eq!(xs, vec![1, 2]),
        cognet::Operand::Scalar(_) => panic!("expected the list"),
    }
}

#[test]
fn an_unwired_scalar_reads_the_given_default() {
    match cognet::pick_operand::<u32>(None, None, 0) {
        cognet::Operand::Scalar(v) => assert_eq!(v, 0),
        cognet::Operand::List(_) => panic!("expected a scalar"),
    }
    match cognet::pick_operand::<u32>(None, Some(5), 0) {
        cognet::Operand::Scalar(v) => assert_eq!(v, 5),
        cognet::Operand::List(_) => panic!("expected a scalar"),
    }
}

#[test]
fn scalar_results_go_to_slot_zero_and_element_results_to_slot_one() {
    assert_eq!(cognet::result_slot(None), 0);
    assert_eq!(cognet::result_slot(Some(3)), 1);
    assert_eq!(cognet::result_slot(Some(0)), 1);
}
