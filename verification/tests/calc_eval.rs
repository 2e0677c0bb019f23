use dist_rust_buted::svc_mat::calc::eval::{Action, EvalError, Evaluation, MathError, Phase, Reply};
use dist_rust_buted::svc_mat::calc::expression::{Expression, ExpressionTreeNode, Operator};
use dist_rust_buted::svc_mat::calc::parse::parse;

fn local_answer(operator: Operator, num1: i32, num2: i32) -> Reply {
    match operator {
        Operator::Add => Reply::Answer(num1 + num2),
        Operator::Sub => Reply::Answer(num1 - num2),
        Operator::Mul => Reply::Answer(num1 * num2),
        Operator::Div => {
            if num2 == 0 {
                Reply::Refused
            } else {
                Reply::Answer(num1 / num2)
            }
        }
    }
}

/// Drives an evaluation to its end, answering every action locally, and
/// records the actions.
fn drive(expr: &ExpressionTreeNode) -> (Vec<Action>, Result<i32, EvalError>) {
    let mut evaluation = Evaluation::new(expr);
    let mut actions = Vec::new();
    let mut action = evaluation.start();
    loop {
        actions.push(action);
        match action {
            Action::Connect(_) => action = evaluation.resume(Reply::Connected),
            Action::Call { operator, num1, num2 } => {
                action = evaluation.resume(local_answer(operator, num1, num2))
            }
            Action::Finish(v) => return (actions, Ok(v)),
            Action::Fail(e) => return (actions, Err(e)),
        }
    }
}

#[test]
fn the_calculator_examples_evaluate_as_expected() {
    let cases = vec![
        ("+ + 5 5 5", 15),
        (" - + 5 5 20", -10),
        ("* 5 10", 50),
        ("/ 10 2", 5),
        ("/ * 10 - 20 + 5 10 5", 10),
    ];
    for (input, expected) in cases {
        let expr = parse(input).unwrap();
        let (_, result) = drive(&expr);
        assert_eq!(result, Ok(expected), "input {}", input);
    }
}

#[test]
fn a_value_finishes_at_once() {
    let (actions, result) = drive(&ExpressionTreeNode::Val(7));
    assert_eq!(actions, vec![Action::Finish(7)]);
    assert_eq!(result, Ok(7));
}

#[test]
fn actions_come_in_the_order_of_the_recursive_evaluation() {
    let expr = parse("- * 2 3 4").unwrap();
    let (actions, result) = drive(&expr);
    assert_eq!(
        actions,
        vec![
            Action::Connect(Operator::Sub),
            Action::Connect(Operator::Mul),
            Action::Call { operator: Operator::Mul, num1: 2, num2: 3 },
            Action::Call { operator: Operator::Sub, num1: 6, num2: 4 },
            Action::Finish(2),
        ]
    );
    assert_eq!(result, Ok(2));
}

#[test]
fn an_unreachable_operator_server_stops_the_evaluation() {
    let expr = parse("+ 1 2").unwrap();
    let mut evaluation = Evaluation::new(&expr);
    assert_eq!(evaluation.start(), Action::Connect(Operator::Add));
    assert_eq!(
        evaluation.resume(Reply::Unreachable),
        Action::Fail(EvalError::Math(MathError::OperatorServerUnreachable {
            operator: Operator::Add
        }))
    );
}

#[test]
fn a_refused_call_stops_the_evaluation() {
    let expr = parse("/ 1 0").unwrap();
    let (actions, result) = drive(&expr);
    assert_eq!(actions.len(), 3);
    assert_eq!(result, Err(EvalError::Refused));
}

#[test]
fn an_operator_with_other_than_two_operands_is_refused() {
    let expr = ExpressionTreeNode::Expr(Expression {
        operator: Operator::Mul,
        children: vec![
            ExpressionTreeNode::Val(1),
            ExpressionTreeNode::Val(2),
            ExpressionTreeNode::Val(3),
        ],
    });
    let (actions, result) = drive(&expr);
    assert_eq!(actions.len(), 1);
    assert_eq!(
        result,
        Err(EvalError::Math(MathError::InvalidOperandCount {
            operator: Operator::Mul,
            got: 3
        }))
    );
}

#[test]
fn the_operand_count_is_checked_before_connecting_and_after_earlier_operands() {
    let expr = ExpressionTreeNode::Expr(Expression {
        operator: Operator::Add,
        children: vec![
            ExpressionTreeNode::Val(1),
            ExpressionTreeNode::Expr(Expression {
                operator: Operator::Sub,
                children: vec![ExpressionTreeNode::Val(5)],
            }),
        ],
    });
    let (actions, result) = drive(&expr);
    assert_eq!(actions[0], Action::Connect(Operator::Add));
    assert_eq!(
        result,
        Err(EvalError::Math(MathError::InvalidOperandCount {
            operator: Operator::Sub,
            got: 1
        }))
    );
}

#[test]
fn the_phase_follows_the_actions() {
    let expr = parse("+ 1 2").unwrap();
    let mut evaluation = Evaluation::new(&expr);
    assert_eq!(evaluation.current_phase(), Phase::Ready);
    evaluation.start();
    assert_eq!(evaluation.current_phase(), Phase::AwaitingConnection(Operator::Add));
    evaluation.resume(Reply::Connected);
    assert_eq!(evaluation.current_phase(), Phase::AwaitingAnswer);
    assert_eq!(evaluation.resume(Reply::Answer(3)), Action::Finish(3));
    assert_eq!(evaluation.current_phase(), Phase::Done);
}
