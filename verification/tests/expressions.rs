//! The expression mini-language: compilation and evaluation.

use behaviour_tree::expressions::{
    evaluate_expression_int, generate_postfixed_expression, EvalErr, PostfixedExpressionMember,
};
use behaviour_tree::expressions::PostfixedExpressionMember::{Constant, Op, Variable};
use behaviour_tree::standard::{Context, StoreKind};
use behaviour_tree::value::{Operator, Value};

#[test]
fn evaluate_int() {
    let context = Context::new();
    let expression = vec![Constant(1), Constant(2), Op(Operator::Plus)];
    assert!(evaluate_expression_int(&context, &expression).unwrap() == 3);
}

#[test]
fn incorrect_expression() {
    let context = Context::new();
    let expression = vec![
        Constant(1),
        Constant(2),
        Op(Operator::Plus),
        Op(Operator::Multiply),
    ];
    assert!(matches!(
        evaluate_expression_int(&context, &expression),
        Err(EvalErr::MissingOperand)
    ));
}

#[test]
fn evaluate_int_variable() {
    let mut context = Context::new();
    context.insert_value("forty_two".to_string(), StoreKind::I64(42));
    context.insert_value("two".to_string(), StoreKind::I64(2));
    // Calculates 2 * (forty_two / two) - 3
    let expression = vec![
        Constant(2),
        Variable("forty_two".to_string()),
        Variable("two".to_string()),
        Op(Operator::Divide),
        Op(Operator::Multiply),
        Constant(3),
        Op(Operator::Minus),
    ];
    assert!(evaluate_expression_int(&context, &expression).unwrap() == 39);
}

#[test]
fn leftover_operands_are_detected() {
    let context = Context::new();
    let expression = vec![Constant(1), Constant(2)];
    assert!(matches!(
        evaluate_expression_int(&context, &expression),
        Err(EvalErr::Residue)
    ));
}

#[test]
fn empty_expression_has_no_result() {
    let context = Context::new();
    let expression: Vec<PostfixedExpressionMember> = Vec::new();
    assert!(matches!(
        evaluate_expression_int(&context, &expression),
        Err(EvalErr::NoResult)
    ));
}

#[test]
fn division_by_zero_is_detected() {
    let context = Context::new();
    let expression = vec![Constant(7), Constant(0), Op(Operator::Divide)];
    assert!(matches!(
        evaluate_expression_int(&context, &expression),
        Err(EvalErr::DivisionByZero)
    ));
}

#[test]
fn overflow_is_detected() {
    let context = Context::new();
    let expression = vec![Constant(i64::MAX), Constant(1), Op(Operator::Plus)];
    assert!(matches!(
        evaluate_expression_int(&context, &expression),
        Err(EvalErr::Overflow)
    ));
}

#[test]
fn missing_variable_is_detected() {
    let context = Context::new();
    let expression = vec![Variable("absent".to_string())];
    match evaluate_expression_int(&context, &expression) {
        Err(EvalErr::MissingVariable(name)) => assert_eq!(name, "absent"),
        other => panic!("expected a missing-variable error, got {:?}", other),
    }
}

#[test]
fn wrong_kind_variable_is_detected() {
    let mut context = Context::new();
    context.insert_value("label".to_string(), StoreKind::String("oops".to_string()));
    let expression = vec![Variable("label".to_string())];
    assert!(matches!(
        evaluate_expression_int(&context, &expression),
        Err(EvalErr::WrongKind(_))
    ));
}

#[test]
fn truncating_division_toward_zero() {
    let context = Context::new();
    let expression = vec![Constant(-7), Constant(2), Op(Operator::Divide)];
    assert!(evaluate_expression_int(&context, &expression).unwrap() == -3);
}

#[test]
fn compile_translates_each_operand() {
    let array = vec![
        Value::Integer(4),
        Value::String("x".to_string()),
        Value::Operator(Operator::Minus),
    ];
    let compiled = generate_postfixed_expression(&array).unwrap();
    assert_eq!(compiled.len(), 3);
    assert!(matches!(compiled[0], Constant(4)));
    assert!(matches!(compiled[1], Variable(ref name) if name == "x"));
    assert!(matches!(compiled[2], Op(Operator::Minus)));
}

#[test]
fn compile_rejects_a_nested_array() {
    let array = vec![Value::Integer(1), Value::Array(vec![Value::Integer(2)])];
    let message = generate_postfixed_expression(&array).unwrap_err();
    assert_eq!(message, "Expected operand, found an array");
}

#[test]
fn evaluate_of_compiled_matches_infix_value() {
    // (1 + 3) * (3 + 4)
    let array = vec![
        Value::Integer(1),
        Value::Integer(3),
        Value::Operator(Operator::Plus),
        Value::Integer(3),
        Value::Integer(4),
        Value::Operator(Operator::Plus),
        Value::Operator(Operator::Multiply),
    ];
    let compiled = generate_postfixed_expression(&array).unwrap();
    let context = Context::new();
    assert_eq!(evaluate_expression_int(&context, &compiled).unwrap(), 28);
}
