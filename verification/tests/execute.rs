use rusty_rpn::execute;
use rusty_rpn::tokenise;
use rusty_rpn::EvalError;
use rusty_rpn::Node;

#[test]
fn binary_operator_results() {
    assert_eq!(execute(vec![Node::Val(2), Node::Val(3), Node::Plus]), Ok(5));
    assert_eq!(execute(vec![Node::Val(7), Node::Val(3), Node::Minus]), Ok(4));
    assert_eq!(execute(vec![Node::Val(6), Node::Val(7), Node::Mul]), Ok(42));
    assert_eq!(execute(vec![Node::Val(10), Node::Val(2), Node::Div]), Ok(5));
}

#[test]
fn division_truncates_toward_zero() {
    assert_eq!(execute(vec![Node::Val(7), Node::Val(-2), Node::Div]), Ok(-3));
    assert_eq!(execute(vec![Node::Val(-7), Node::Val(2), Node::Div]), Ok(-3));
    assert_eq!(execute(vec![Node::Val(-7), Node::Val(-2), Node::Div]), Ok(3));
}

#[test]
fn divide_by_zero() {
    assert_eq!(
        execute(vec![Node::Val(5), Node::Val(0), Node::Div]),
        Err(EvalError::DivideByZero)
    );
}

#[test]
fn stack_underflow() {
    assert_eq!(execute(vec![Node::Plus]), Err(EvalError::StackUnderflow));
}

#[test]
fn underflow_beats_divide_by_zero() {
    // only one operand present: underflow, not a zero-divisor error
    assert_eq!(
        execute(vec![Node::Val(0), Node::Div]),
        Err(EvalError::StackUnderflow)
    );
}

#[test]
fn malformed_result() {
    assert_eq!(
        execute(vec![Node::Val(1), Node::Val(2)]),
        Err(EvalError::MalformedResult)
    );
    assert_eq!(execute(vec![]), Err(EvalError::MalformedResult));
}

#[test]
fn round_trip_addition() {
    let nodes = tokenise("3 4 +".to_string()).unwrap();
    assert_eq!(nodes, vec![Node::Val(3), Node::Val(4), Node::Plus]);
    assert_eq!(execute(nodes), Ok(7));
}

#[test]
fn round_trip_division() {
    let nodes = tokenise("10 2 /".to_string()).unwrap();
    assert_eq!(nodes, vec![Node::Val(10), Node::Val(2), Node::Div]);
    assert_eq!(execute(nodes), Ok(5));
}

#[test]
fn round_trip_divide_by_zero() {
    let nodes = tokenise("1 0 /".to_string()).unwrap();
    assert_eq!(execute(nodes), Err(EvalError::DivideByZero));
}

#[test]
fn round_trip_operand_order() {
    let nodes = tokenise("7 3 -".to_string()).unwrap();
    assert_eq!(execute(nodes), Ok(4));
}

#[test]
fn nested_expression() {
    let nodes = tokenise("2 3 4 + *".to_string()).unwrap();
    assert_eq!(execute(nodes), Ok(14));
}

#[test]
fn arithmetic_wraps_on_overflow() {
    assert_eq!(
        execute(vec![Node::Val(i32::MAX), Node::Val(1), Node::Plus]),
        Ok(i32::MIN)
    );
    assert_eq!(
        execute(vec![Node::Val(i32::MIN), Node::Val(-1), Node::Div]),
        Ok(i32::MIN)
    );
}
