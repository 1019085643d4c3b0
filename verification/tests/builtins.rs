use plic::eval::builtins::{minus, plus};
use plic::eval::{apply, Builtin, EvalError, PlicType};

#[test]
fn plus_of_nothing_is_zero() {
    assert!(matches!(plus(vec![]), Ok(PlicType::Integer(0))));
}

#[test]
fn plus_adds_all_integers() {
    let operands = vec![PlicType::Integer(20), PlicType::Integer(10), PlicType::Integer(3)];
    assert!(matches!(plus(operands), Ok(PlicType::Integer(33))));
}

#[test]
fn plus_reads_from_the_front_and_stops_at_a_non_integer() {
    let operands = vec![
        PlicType::Integer(1),
        PlicType::Integer(2),
        PlicType::Symbol("x".to_string()),
        PlicType::Integer(100),
    ];
    assert!(matches!(plus(operands), Ok(PlicType::Integer(3))));

    let operands = vec![PlicType::Keyword, PlicType::Integer(100)];
    assert!(matches!(plus(operands), Ok(PlicType::Integer(0))));
}

#[test]
fn plus_beyond_a_machine_word_is_an_error() {
    let operands = vec![PlicType::Integer(usize::MAX), PlicType::Integer(1)];
    assert!(matches!(plus(operands), Err(EvalError::Other)));

    let operands = vec![PlicType::Integer(1), PlicType::Integer(usize::MAX)];
    assert!(matches!(plus(operands), Err(EvalError::Other)));

    let operands = vec![PlicType::Integer(usize::MAX), PlicType::Integer(0)];
    assert!(matches!(plus(operands), Ok(PlicType::Integer(usize::MAX))));
}

#[test]
fn plus_ignores_an_overflow_behind_a_non_integer() {
    let operands = vec![
        PlicType::Integer(usize::MAX),
        PlicType::Pair(0, 0),
        PlicType::Integer(usize::MAX),
    ];
    assert!(matches!(plus(operands), Ok(PlicType::Integer(usize::MAX))));
}

#[test]
fn plus_does_not_depend_on_the_order_of_integers() {
    let one = vec![PlicType::Integer(5), PlicType::Integer(7), PlicType::Integer(11)];
    let other = vec![PlicType::Integer(11), PlicType::Integer(5), PlicType::Integer(7)];
    assert!(matches!(plus(one), Ok(PlicType::Integer(23))));
    assert!(matches!(plus(other), Ok(PlicType::Integer(23))));
}

#[test]
fn minus_of_nothing_is_an_error() {
    assert!(matches!(minus(vec![]), Err(EvalError::Other)));
}

#[test]
fn minus_of_one_integer_is_that_integer() {
    assert!(matches!(minus(vec![PlicType::Integer(5)]), Ok(PlicType::Integer(5))));
}

#[test]
fn minus_subtracts_from_the_first_operand() {
    let operands = vec![PlicType::Integer(10), PlicType::Integer(3), PlicType::Integer(2)];
    assert!(matches!(minus(operands), Ok(PlicType::Integer(5))));

    let operands = vec![PlicType::Integer(9), PlicType::Integer(4)];
    assert!(matches!(minus(operands), Ok(PlicType::Integer(5))));
}

#[test]
fn minus_needs_an_integer_to_start_from() {
    let operands = vec![PlicType::Symbol("x".to_string()), PlicType::Integer(1)];
    assert!(matches!(minus(operands), Err(EvalError::Other)));
}

#[test]
fn minus_stops_at_a_non_integer() {
    let operands = vec![
        PlicType::Integer(10),
        PlicType::Integer(1),
        PlicType::Lambda { bound_var: "x".to_string(), expression: "x ".to_string() },
        PlicType::Integer(4),
    ];
    assert!(matches!(minus(operands), Ok(PlicType::Integer(9))));
}

#[test]
fn minus_below_zero_is_an_error() {
    let operands = vec![PlicType::Integer(1), PlicType::Integer(2)];
    assert!(matches!(minus(operands), Err(EvalError::Other)));

    let operands = vec![PlicType::Integer(3), PlicType::Integer(2), PlicType::Integer(2)];
    assert!(matches!(minus(operands), Err(EvalError::Other)));

    let operands = vec![PlicType::Integer(3), PlicType::Integer(2), PlicType::Integer(1)];
    assert!(matches!(minus(operands), Ok(PlicType::Integer(0))));
}

#[test]
fn minus_of_huge_operands_is_an_error_not_a_wrap() {
    let operands = vec![
        PlicType::Integer(usize::MAX),
        PlicType::Integer(usize::MAX),
        PlicType::Integer(usize::MAX),
    ];
    assert!(matches!(minus(operands), Err(EvalError::Other)));
}

#[test]
fn apply_dispatches_on_the_operation() {
    let operands = vec![PlicType::Integer(7), PlicType::Integer(2)];
    let sum = apply(PlicType::Operation { function: Builtin::Plus }, operands.clone());
    assert!(matches!(sum, Ok(PlicType::Integer(9))));
    let difference = apply(PlicType::Operation { function: Builtin::Minus }, operands);
    assert!(matches!(difference, Ok(PlicType::Integer(5))));
}

#[test]
fn apply_refuses_what_is_no_operation() {
    let heads = vec![
        PlicType::Integer(1),
        PlicType::Symbol("f".to_string()),
        PlicType::Pair(1, 2),
        PlicType::Lambda { bound_var: "x".to_string(), expression: "x ".to_string() },
        PlicType::Keyword,
    ];
    for head in heads {
        assert!(matches!(
            apply(head, vec![PlicType::Integer(1)]),
            Err(EvalError::NonApplicable)
        ));
    }
}
