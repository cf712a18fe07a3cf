use radiant::compiler::{parse, Expr, Node, Span};
use radiant::engine::eval::unresolved_operand;
use radiant::engine::value::{Resolution, Value};
use radiant::engine::walk::{eval_step, operand, EvalStep};
use radiant::error::{ErrorCode, RenderError};
use radiant::paths::{lookup_step, Lookup, LookupStep};

type Outcome = Result<Resolution<Value>, RenderError>;

fn expression(source: &str) -> Expr {
    for node in parse("t", source).expect("template should parse").nodes {
        if let Node::Output { expression, .. } = node {
            return expression;
        }
    }
    panic!("no output");
}

fn value(v: Value) -> Outcome {
    Ok(Resolution::Value(v))
}

#[test]
fn elvis_evaluates_its_right_side_only_after_a_missing_or_null_left_side() {
    let e = expression("{a ?: b}");
    assert_eq!(eval_step(&e, &vec![]), EvalStep::Operand(0));
    assert_eq!(eval_step(&e, &vec![value(Value::Integer(1))]), EvalStep::Take(0));
    assert_eq!(eval_step(&e, &vec![Ok(Resolution::NotFound)]), EvalStep::Operand(1));
    assert_eq!(eval_step(&e, &vec![value(Value::Null)]), EvalStep::Operand(1));
    assert_eq!(eval_step(&e, &vec![Err(unresolved_operand())]), EvalStep::Operand(1));
    assert_eq!(
        eval_step(&e, &vec![Ok(Resolution::NotFound), value(Value::Integer(2))]),
        EvalStep::Take(1)
    );
    let other = RenderError::new(ErrorCode::Type, "bad".to_string());
    assert_eq!(eval_step(&e, &vec![Err(other)]), EvalStep::Take(0));
}

#[test]
fn safe_turns_a_missing_value_into_null_and_keeps_other_outcomes() {
    let e = expression("{missing[0]??}");
    assert_eq!(eval_step(&e, &vec![]), EvalStep::Operand(0));
    assert_eq!(eval_step(&e, &vec![Ok(Resolution::NotFound)]), EvalStep::Null);
    assert_eq!(eval_step(&e, &vec![Err(unresolved_operand())]), EvalStep::Null);
    assert_eq!(eval_step(&e, &vec![value(Value::Integer(3))]), EvalStep::Take(0));
    let inner = operand(&e, 0).expect("the operand of ??");
    assert!(matches!(inner, Expr::Index { .. }));
    assert_eq!(eval_step(inner, &vec![Ok(Resolution::NotFound)]), EvalStep::Unresolved(Span::new(1, 8)));
}

#[test]
fn logical_operators_evaluate_the_right_side_only_when_the_left_does_not_decide() {
    let and = expression("{a && b}");
    assert_eq!(eval_step(&and, &vec![value(Value::Bool(false))]), EvalStep::Truth(false));
    assert_eq!(eval_step(&and, &vec![value(Value::Bool(true))]), EvalStep::Operand(1));
    assert_eq!(
        eval_step(&and, &vec![value(Value::Bool(true)), value(Value::Integer(0))]),
        EvalStep::TruthOf(1)
    );
    let or = expression("{a || b}");
    assert_eq!(eval_step(&or, &vec![value(Value::Bool(true))]), EvalStep::Truth(true));
    assert_eq!(eval_step(&or, &vec![Ok(Resolution::NotFound)]), EvalStep::Unresolved(Span::new(1, 2)));
}

#[test]
fn calls_evaluate_every_argument_before_the_callee() {
    let e = expression("{item.price(1, 2)}");
    assert_eq!(eval_step(&e, &vec![]), EvalStep::Operand(0));
    assert_eq!(eval_step(&e, &vec![value(Value::Integer(1))]), EvalStep::Operand(1));
    let both = vec![value(Value::Integer(1)), value(Value::Integer(2))];
    assert_eq!(eval_step(&e, &both), EvalStep::Operand(2));
    let all = vec![value(Value::Integer(1)), value(Value::Integer(2)), value(Value::String("x".to_string()))];
    assert_eq!(eval_step(&e, &all), EvalStep::Member { base: 2, arguments: 2 });
    let failed = vec![Err(RenderError::new(ErrorCode::Type, "bad".to_string()))];
    assert_eq!(eval_step(&e, &failed), EvalStep::Propagate(0));
}

#[test]
fn members_of_missing_objects_are_missing() {
    let e = expression("{item.name}");
    assert_eq!(eval_step(&e, &vec![]), EvalStep::Operand(0));
    assert_eq!(eval_step(&e, &vec![Ok(Resolution::NotFound)]), EvalStep::Missing);
    assert_eq!(eval_step(&e, &vec![value(Value::Integer(1))]), EvalStep::Member { base: 0, arguments: 0 });
    assert_eq!(eval_step(&expression("{name}"), &vec![]), EvalStep::Lookup);
    assert_eq!(eval_step(&expression("{1 + 2}"), &vec![value(Value::Integer(1)), value(Value::Integer(2))]), EvalStep::Operate(0, 1));
}

#[test]
fn template_lookup_takes_the_first_present_candidate_in_order() {
    assert_eq!(lookup_step(3, &vec![]), LookupStep::Ask(0));
    assert_eq!(lookup_step(3, &vec![Lookup::Absent]), LookupStep::Ask(1));
    assert_eq!(lookup_step(3, &vec![Lookup::Absent, Lookup::Present]), LookupStep::Found(1));
    assert_eq!(lookup_step(3, &vec![Lookup::Absent, Lookup::Failed]), LookupStep::Failed(1));
    assert_eq!(lookup_step(2, &vec![Lookup::Absent, Lookup::Absent]), LookupStep::Unresolved);
    assert_eq!(lookup_step(0, &vec![]), LookupStep::Unresolved);
}
