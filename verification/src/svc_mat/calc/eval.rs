use vstd::prelude::*;

use super::expression::{ExpressionTreeNode, Operator, Tree};
use crate::svc_mat::ops::div_toward_zero;

verus! {

/// Errors of a math evaluation that the calculator detects itself.
#[derive(Debug, PartialEq, Eq, Clone, Copy, Structural)]
pub enum MathError {
    InvalidOperandCount { operator: Operator, got: usize },
    OperatorServerUnreachable { operator: Operator },
}

/// Why an evaluation stopped without a result.
#[derive(Debug, PartialEq, Eq, Clone, Copy, Structural)]
pub enum EvalError {
    Math(MathError),
    /// The operator's server answered the call with an error.
    Refused,
}

/// One instruction of an evaluation plan. `Enter` marks the start of an
/// operator node with two operands, `Reject` one with another number of
/// operands; `Apply` combines the two values its operands left.
#[derive(Debug, PartialEq, Eq, Clone, Copy, Structural)]
pub enum Instr {
    Val(i32),
    Enter(Operator),
    Reject(Operator, usize),
    Apply(Operator),
}

/// What the evaluation needs done next.
#[derive(Debug, PartialEq, Eq, Clone, Copy, Structural)]
pub enum Action {
    /// Connect to the server of this operator.
    Connect(Operator),
    /// Ask the operator's server for `num1 op num2`.
    Call { operator: Operator, num1: i32, num2: i32 },
    /// The value of the whole expression.
    Finish(i32),
    Fail(EvalError),
}

/// What came of the last action.
#[derive(Debug, PartialEq, Eq, Clone, Copy, Structural)]
pub enum Reply {
    Connected,
    Unreachable,
    Answer(i32),
    Refused,
}

/// Where an evaluation stands.
#[derive(Debug, PartialEq, Eq, Clone, Copy, Structural)]
pub enum Phase {
    Ready,
    AwaitingConnection(Operator),
    AwaitingAnswer,
    Done,
}

/// The plan of an expression: each operator node is entered, its operands are
/// planned left to right, and it is applied; a node with other than two
/// operands is rejected.
pub open spec fn plan(t: Tree) -> Seq<Instr>
    decreases t,
{
    match t {
        Tree::Val(v) => seq![Instr::Val(v)],
        Tree::Expr(op, cs) => {
            if cs.len() == 2 {
                seq![Instr::Enter(op)] + plan(cs[0]) + plan(cs[1]) + seq![Instr::Apply(op)]
            } else {
                seq![Instr::Reject(op, cs.len() as usize)]
            }
        },
    }
}

/// Runs a plan from its first instruction until it needs outside work:
/// values are pushed, an entered node asks for a connection (or fails when it
/// does not have two operands), an applied node asks for a call on the two
/// topmost values, and the end of the plan finishes with the topmost value.
/// Gives the rest of the plan, the values and the action.
pub open spec fn run(rest: Seq<Instr>, vals: Seq<i32>) -> (Seq<Instr>, Seq<i32>, Action)
    decreases rest.len(),
{
    if rest.len() == 0 {
        (rest, vals, Action::Finish(vals.last()))
    } else {
        match rest[0] {
            Instr::Val(v) => run(rest.drop_first(), vals.push(v)),
            Instr::Enter(op) => (rest.drop_first(), vals, Action::Connect(op)),
            Instr::Reject(op, k) => (
                rest.drop_first(),
                vals,
                Action::Fail(EvalError::Math(MathError::InvalidOperandCount { operator: op, got: k })),
            ),
            Instr::Apply(op) => (
                rest.drop_first(),
                vals.drop_last().drop_last(),
                Action::Call {
                    operator: op,
                    num1: vals[vals.len() - 2],
                    num2: vals[vals.len() - 1],
                },
            ),
        }
    }
}

/// The phase an action leaves the evaluation in.
pub open spec fn phase_after(a: Action) -> Phase {
    match a {
        Action::Connect(op) => Phase::AwaitingConnection(op),
        Action::Call { .. } => Phase::AwaitingAnswer,
        Action::Finish(_) => Phase::Done,
        Action::Fail(_) => Phase::Done,
    }
}

/// Whether a phase takes a reply.
pub open spec fn accepts(p: Phase, r: Reply) -> bool {
    match p {
        Phase::AwaitingConnection(_) => r is Connected || r is Unreachable,
        Phase::AwaitingAnswer => r is Answer || r is Refused,
        _ => false,
    }
}

/// Whether a plan never runs short of values when it starts with `d` of them,
/// and ends with exactly one.
pub open spec fn fits(rest: Seq<Instr>, d: int) -> bool
    decreases rest.len(),
{
    if rest.len() == 0 {
        d == 1
    } else {
        match rest[0] {
            Instr::Val(_) => fits(rest.drop_first(), d + 1),
            Instr::Enter(_) => fits(rest.drop_first(), d),
            Instr::Reject(_, _) => true,
            Instr::Apply(_) => d >= 2 && fits(rest.drop_first(), d - 1),
        }
    }
}

/// The value of an expression, with `reachable` telling which operator
/// servers can be connected to and `answer` what a server answers a call
/// with (`None` for an error). An operator node checks its operand count,
/// connects, evaluates its operands left to right and calls its server.
pub open spec fn spec_eval(
    t: Tree,
    reachable: spec_fn(Operator) -> bool,
    answer: spec_fn(Operator, i32, i32) -> Option<i32>,
) -> Result<i32, EvalError>
    decreases t,
{
    match t {
        Tree::Val(v) => Ok(v),
        Tree::Expr(op, cs) => {
            if cs.len() != 2 {
                Err(
                    EvalError::Math(
                        MathError::InvalidOperandCount { operator: op, got: cs.len() as usize },
                    ),
                )
            } else if !reachable(op) {
                Err(EvalError::Math(MathError::OperatorServerUnreachable { operator: op }))
            } else {
                match spec_eval(cs[0], reachable, answer) {
                    Err(e) => Err(e),
                    Ok(a) => match spec_eval(cs[1], reachable, answer) {
                        Err(e) => Err(e),
                        Ok(b) => match answer(op, a, b) {
                            Some(r) => Ok(r),
                            None => Err(EvalError::Refused),
                        },
                    },
                }
            }
        },
    }
}

/// A run never grows the plan, and shortens it unless it finishes.
pub proof fn lemma_run_consumes(rest: Seq<Instr>, vals: Seq<i32>)
    ensures
        ({
            let (r2, _, a) = run(rest, vals);
            &&& r2.len() <= rest.len()
            &&& !(a is Finish) ==> r2.len() < rest.len()
        }),
    decreases rest.len(),
{
    if rest.len() > 0 {
        if let Instr::Val(v) = rest[0] {
            lemma_run_consumes(rest.drop_first(), vals.push(v));
        }
    }
}

/// Whether every operator node of a tree has exactly two operands.
pub open spec fn is_binary_tree(t: Tree) -> bool
    decreases t,
{
    match t {
        Tree::Val(_) => true,
        Tree::Expr(_, cs) => cs.len() == 2 && is_binary_tree(cs[0]) && is_binary_tree(cs[1]),
    }
}

/// An expression whose operator nodes all have two operands is never refused
/// for its operand count.
pub proof fn lemma_binary_tree_counts_operands(
    t: Tree,
    reachable: spec_fn(Operator) -> bool,
    answer: spec_fn(Operator, i32, i32) -> Option<i32>,
)
    requires
        is_binary_tree(t),
    ensures
        !(spec_eval(t, reachable, answer) matches Err(
            EvalError::Math(MathError::InvalidOperandCount { .. }),
        )),
    decreases t,
{
    if let Tree::Expr(op, cs) = t {
        lemma_binary_tree_counts_operands(cs[0], reachable, answer);
        lemma_binary_tree_counts_operands(cs[1], reachable, answer);
    }
}

/// The reply a connection or call gets when `reachable` tells which operator
/// servers can be connected to and `answer` what a server answers a call with.
pub open spec fn reply_to(
    a: Action,
    reachable: spec_fn(Operator) -> bool,
    answer: spec_fn(Operator, i32, i32) -> Option<i32>,
) -> Reply {
    match a {
        Action::Connect(op) => if reachable(op) {
            Reply::Connected
        } else {
            Reply::Unreachable
        },
        Action::Call { operator, num1, num2 } => match answer(operator, num1, num2) {
            Some(r) => Reply::Answer(r),
            None => Reply::Refused,
        },
        _ => Reply::Refused,
    }
}

/// How an evaluation that has reached action `a` ends when each of its
/// actions gets `reply_to`: the evaluation's own `on_reply`, repeated.
pub open spec fn finish(
    rest: Seq<Instr>,
    vals: Seq<i32>,
    a: Action,
    reachable: spec_fn(Operator) -> bool,
    answer: spec_fn(Operator, i32, i32) -> Option<i32>,
) -> Result<i32, EvalError>
    decreases rest.len(), if a is Connect || a is Call {
        1int
    } else {
        0int
    },
{
    match a {
        Action::Finish(v) => Ok(v),
        Action::Fail(e) => Err(e),
        _ => {
            let reply = reply_to(a, reachable, answer);
            let (r2, v2, a2) = on_reply(rest, vals, phase_after(a), reply);
            proof {
                lemma_run_consumes(rest, vals);
                if let Reply::Answer(x) = reply {
                    lemma_run_consumes(rest, vals.push(x));
                }
            }
            finish(r2, v2, a2, reachable, answer)
        },
    }
}

/// The result of an evaluation from its start, with every connection
/// answered by `reachable` and every call by `answer`.
pub open spec fn drive(
    rest: Seq<Instr>,
    vals: Seq<i32>,
    reachable: spec_fn(Operator) -> bool,
    answer: spec_fn(Operator, i32, i32) -> Option<i32>,
) -> Result<i32, EvalError> {
    let (r2, v2, a) = run(rest, vals);
    finish(r2, v2, a, reachable, answer)
}

/// One action of `drive`: a connection that succeeds runs on, a call that is
/// answered runs on with the answer on top of the values.
proof fn lemma_drive_step(
    rest: Seq<Instr>,
    vals: Seq<i32>,
    reachable: spec_fn(Operator) -> bool,
    answer: spec_fn(Operator, i32, i32) -> Option<i32>,
)
    ensures
        drive(rest, vals, reachable, answer) == ({
            let (r2, v2, a) = run(rest, vals);
            match a {
                Action::Finish(v) => Ok(v),
                Action::Fail(e) => Err(e),
                Action::Connect(op) => {
                    if reachable(op) {
                        drive(r2, v2, reachable, answer)
                    } else {
                        Err(EvalError::Math(MathError::OperatorServerUnreachable { operator: op }))
                    }
                },
                Action::Call { operator, num1, num2 } => match answer(operator, num1, num2) {
                    Some(r) => drive(r2, v2.push(r), reachable, answer),
                    None => Err(EvalError::Refused),
                },
            }
        }),
{
    let (r2, v2, a) = run(rest, vals);
    match a {
        Action::Connect(op) => {
            if !reachable(op) {
                let (r3, v3, a3) = on_reply(r2, v2, phase_after(a), Reply::Unreachable);
                assert(finish(r3, v3, a3, reachable, answer) == Err::<i32, EvalError>(
                    EvalError::Math(MathError::OperatorServerUnreachable { operator: op }),
                ));
            }
        },
        Action::Call { operator, num1, num2 } => {
            if answer(operator, num1, num2) is None {
                let (r3, v3, a3) = on_reply(r2, v2, phase_after(a), Reply::Refused);
                assert(finish(r3, v3, a3, reachable, answer) == Err::<i32, EvalError>(
                    EvalError::Refused,
                ));
            }
        },
        _ => {},
    }
}

proof fn lemma_plan_fits(t: Tree, rest: Seq<Instr>, d: int)
    requires
        0 <= d,
        fits(rest, d + 1),
    ensures
        fits(plan(t) + rest, d),
    decreases t,
{
    match t {
        Tree::Val(v) => {
            assert((plan(t) + rest)[0] == Instr::Val(v));
            assert((plan(t) + rest).drop_first() =~= rest);
        },
        Tree::Expr(op, cs) => {
            if cs.len() == 2 {
                let tail = seq![Instr::Apply(op)] + rest;
                assert(tail.drop_first() =~= rest);
                lemma_plan_fits(cs[1], tail, d + 1);
                lemma_plan_fits(cs[0], plan(cs[1]) + tail, d);
                assert((plan(t) + rest)[0] == Instr::Enter(op));
                assert((plan(t) + rest).drop_first() =~= plan(cs[0]) + (plan(cs[1]) + tail));
            } else {
                assert((plan(t) + rest)[0] == Instr::Reject(op, cs.len() as usize));
            }
        },
    }
}

/// Driving the plan of a tree, followed by more instructions, is evaluating
/// the tree and then driving the rest with its value on top.
proof fn lemma_drive_plan(
    t: Tree,
    rest: Seq<Instr>,
    vals: Seq<i32>,
    reachable: spec_fn(Operator) -> bool,
    answer: spec_fn(Operator, i32, i32) -> Option<i32>,
)
    ensures
        drive(plan(t) + rest, vals, reachable, answer) == match spec_eval(t, reachable, answer) {
            Ok(v) => drive(rest, vals.push(v), reachable, answer),
            Err(e) => Err(e),
        },
    decreases t,
{
    let whole = plan(t) + rest;
    lemma_drive_step(whole, vals, reachable, answer);
    match t {
        Tree::Val(v) => {
            assert(whole[0] == Instr::Val(v));
            assert(whole.drop_first() =~= rest);
            assert(run(whole, vals) == run(rest, vals.push(v)));
            assert(drive(whole, vals, reachable, answer) == drive(rest, vals.push(v), reachable, answer));
        },
        Tree::Expr(op, cs) => {
            if cs.len() == 2 {
                let tail = seq![Instr::Apply(op)] + rest;
                assert(whole.drop_first() =~= plan(cs[0]) + (plan(cs[1]) + tail));
                lemma_drive_plan(cs[0], plan(cs[1]) + tail, vals, reachable, answer);
                if let Ok(a) = spec_eval(cs[0], reachable, answer) {
                    lemma_drive_plan(cs[1], tail, vals.push(a), reachable, answer);
                    if let Ok(b) = spec_eval(cs[1], reachable, answer) {
                        let vs = vals.push(a).push(b);
                        lemma_drive_step(tail, vs, reachable, answer);
                        assert(tail.drop_first() =~= rest);
                        assert(vs.drop_last().drop_last() =~= vals);
                    }
                }
            } else {
                assert(whole.drop_first() =~= rest);
            }
        },
    }
}

/// An evaluation of an expression (`Evaluation::new`, then `start`, then
/// `resume` with each action's reply) whose connections and calls are
/// answered as `reachable` and `answer` say ends with what the recursive
/// evaluation of the expression gives with the same answers.
pub proof fn theorem_drive_plan_is_eval(
    t: Tree,
    reachable: spec_fn(Operator) -> bool,
    answer: spec_fn(Operator, i32, i32) -> Option<i32>,
)
    ensures
        drive(plan(t), Seq::empty(), reachable, answer) == spec_eval(t, reachable, answer),
{
    lemma_drive_plan(t, Seq::empty(), Seq::empty(), reachable, answer);
    assert(plan(t) + Seq::<Instr>::empty() =~= plan(t));
    if let Ok(v) = spec_eval(t, reachable, answer) {
        assert(Seq::<i32>::empty().push(v).last() == v);
    }
}


/// The operators of a tree's two-operand nodes, each node once, in the order
/// a walk from the root meets them: a node before its operands, the first
/// operand before the second.
pub open spec fn operators(t: Tree) -> Seq<Operator>
    decreases t,
{
    match t {
        Tree::Val(_) => Seq::empty(),
        Tree::Expr(op, cs) => if cs.len() == 2 {
            seq![op] + operators(cs[0]) + operators(cs[1])
        } else {
            Seq::empty()
        },
    }
}

/// Every operator server can be connected to.
pub open spec fn all_reachable() -> spec_fn(Operator) -> bool {
    |op: Operator| true
}

/// What the evaluation does after action `a` when every server can be
/// connected to and `answer` answers each call.
pub open spec fn next_step(
    rest: Seq<Instr>,
    vals: Seq<i32>,
    a: Action,
    answer: spec_fn(Operator, i32, i32) -> Option<i32>,
) -> (Seq<Instr>, Seq<i32>, Action) {
    on_reply(rest, vals, phase_after(a), reply_to(a, all_reachable(), answer))
}

/// The operators whose servers an evaluation connects to from action `a` on,
/// in order, when every server can be connected to and `answer` answers each
/// call.
pub open spec fn connections(
    rest: Seq<Instr>,
    vals: Seq<i32>,
    a: Action,
    answer: spec_fn(Operator, i32, i32) -> Option<i32>,
) -> Seq<Operator>
    decreases rest.len(), if a is Connect || a is Call {
        1int
    } else {
        0int
    },
{
    match a {
        Action::Connect(op) => {
            let (r2, v2, a2) = next_step(rest, vals, a, answer);
            proof {
                lemma_run_consumes(rest, vals);
            }
            seq![op] + connections(r2, v2, a2, answer)
        },
        Action::Call { .. } => {
            let (r2, v2, a2) = next_step(rest, vals, a, answer);
            proof {
                lemma_run_consumes(rest, vals);
                if let Reply::Answer(x) = reply_to(a, all_reachable(), answer) {
                    lemma_run_consumes(rest, vals.push(x));
                }
            }
            connections(r2, v2, a2, answer)
        },
        _ => Seq::empty(),
    }
}

/// Whether, from action `a` on, every call goes to the server of the latest
/// connection that no call has used yet (`open` holds those connections,
/// latest last), and the evaluation finishes with every connection used.
pub open spec fn calls_use_latest_connection(
    rest: Seq<Instr>,
    vals: Seq<i32>,
    a: Action,
    open: Seq<Operator>,
    answer: spec_fn(Operator, i32, i32) -> Option<i32>,
) -> bool
    decreases rest.len(), if a is Connect || a is Call {
        1int
    } else {
        0int
    },
{
    match a {
        Action::Connect(op) => {
            let (r2, v2, a2) = next_step(rest, vals, a, answer);
            proof {
                lemma_run_consumes(rest, vals);
            }
            calls_use_latest_connection(r2, v2, a2, open.push(op), answer)
        },
        Action::Call { operator, .. } => {
            let (r2, v2, a2) = next_step(rest, vals, a, answer);
            proof {
                lemma_run_consumes(rest, vals);
                if let Reply::Answer(x) = reply_to(a, all_reachable(), answer) {
                    lemma_run_consumes(rest, vals.push(x));
                }
            }
            &&& open.len() > 0
            &&& open.last() == operator
            &&& calls_use_latest_connection(r2, v2, a2, open.drop_last(), answer)
        },
        Action::Finish(_) => open.len() == 0,
        Action::Fail(_) => true,
    }
}

/// With every operator node binary and every call answered, evaluation gives
/// a value.
proof fn lemma_eval_total(t: Tree, answer: spec_fn(Operator, i32, i32) -> Option<i32>)
    requires
        is_binary_tree(t),
        forall|op: Operator, x: i32, y: i32| #[trigger] answer(op, x, y) is Some,
    ensures
        spec_eval(t, all_reachable(), answer) is Ok,
    decreases t,
{
    if let Tree::Expr(_, cs) = t {
        lemma_eval_total(cs[0], answer);
        lemma_eval_total(cs[1], answer);
    }
}

/// Running the plan of a tree, followed by more instructions, connects to the
/// tree's operators, each call using the latest unused connection, and then
/// goes on as the rest does with the tree's value on top.
proof fn lemma_plan_connections(
    t: Tree,
    rest: Seq<Instr>,
    vals: Seq<i32>,
    open: Seq<Operator>,
    answer: spec_fn(Operator, i32, i32) -> Option<i32>,
)
    requires
        is_binary_tree(t),
        forall|op: Operator, x: i32, y: i32| #[trigger] answer(op, x, y) is Some,
    ensures
        ({
            let (r, v, a) = run(plan(t) + rest, vals);
            let (r2, v2, a2) = run(
                rest,
                vals.push(spec_eval(t, all_reachable(), answer)->Ok_0),
            );
            &&& connections(r, v, a, answer) == operators(t) + connections(r2, v2, a2, answer)
            &&& calls_use_latest_connection(r, v, a, open, answer)
                == calls_use_latest_connection(r2, v2, a2, open, answer)
        }),
    decreases t,
{
    lemma_eval_total(t, answer);
    let whole = plan(t) + rest;
    match t {
        Tree::Val(v) => {
            assert(whole[0] == Instr::Val(v));
            assert(whole.drop_first() =~= rest);
            assert(run(whole, vals) == run(rest, vals.push(v)));
            assert(operators(t) + Seq::<Operator>::empty() =~= Seq::<Operator>::empty());
            let (r2, v2, a2) = run(rest, vals.push(v));
            assert(operators(t) + connections(r2, v2, a2, answer) =~= connections(
                r2,
                v2,
                a2,
                answer,
            ));
        },
        Tree::Expr(op, cs) => {
            let tail = seq![Instr::Apply(op)] + rest;
            assert(whole[0] == Instr::Enter(op));
            assert(whole.drop_first() =~= plan(cs[0]) + (plan(cs[1]) + tail));
            lemma_eval_total(cs[0], answer);
            lemma_eval_total(cs[1], answer);
            let va = spec_eval(cs[0], all_reachable(), answer)->Ok_0;
            let vb = spec_eval(cs[1], all_reachable(), answer)->Ok_0;
            lemma_plan_connections(cs[0], plan(cs[1]) + tail, vals, open.push(op), answer);
            lemma_plan_connections(cs[1], tail, vals.push(va), open.push(op), answer);
            let vs = vals.push(va).push(vb);
            assert(tail[0] == Instr::Apply(op));
            assert(tail.drop_first() =~= rest);
            assert(vs.drop_last().drop_last() =~= vals);
            assert(run(tail, vs) == (rest, vals, Action::Call { operator: op, num1: va, num2: vb }));
            assert(open.push(op).drop_last() =~= open);
            let x = answer(op, va, vb)->Some_0;
            assert(spec_eval(t, all_reachable(), answer) == Ok::<i32, EvalError>(x));
            let (r2, v2, a2) = run(rest, vals.push(x));
            let c1 = connections(r2, v2, a2, answer);
            let (rb, vb2, ab) = run(plan(cs[1]) + tail, vals.push(va));
            assert(seq![op] + (operators(cs[0]) + (operators(cs[1]) + c1)) =~= operators(t) + c1);
        },
    }
}

/// An evaluation of an expression whose operator nodes all have two operands,
/// with every server reachable and every call answered, connects once to the
/// server of each operator node, in the order a walk from the root meets
/// them, and sends each call over the latest connection not used yet, so
/// that it reaches the server of its own operator node.
pub proof fn theorem_each_operator_connected_once(
    t: Tree,
    answer: spec_fn(Operator, i32, i32) -> Option<i32>,
)
    requires
        is_binary_tree(t),
        forall|op: Operator, x: i32, y: i32| #[trigger] answer(op, x, y) is Some,
    ensures
        ({
            let (r, v, a) = run(plan(t), Seq::empty());
            &&& connections(r, v, a, answer) == operators(t)
            &&& calls_use_latest_connection(r, v, a, Seq::empty(), answer)
        }),
{
    lemma_plan_connections(t, Seq::empty(), Seq::empty(), Seq::empty(), answer);
    assert(plan(t) + Seq::<Instr>::empty() =~= plan(t));
    lemma_eval_total(t, answer);
    let x = spec_eval(t, all_reachable(), answer)->Ok_0;
    let (r2, v2, a2) = run(Seq::empty(), Seq::<i32>::empty().push(x));
    assert(connections(r2, v2, a2, answer) =~= Seq::<Operator>::empty());
    assert(operators(t) + Seq::<Operator>::empty() =~= operators(t));
}


/// An operator applied to two integers: division rounds toward zero.
pub open spec fn apply_op(op: Operator, x: int, y: int) -> int {
    match op {
        Operator::Add => x + y,
        Operator::Sub => x - y,
        Operator::Mul => x * y,
        Operator::Div => div_toward_zero(x, y),
    }
}

/// What correct operator servers answer a call with: the result of the
/// operator, refused for a zero denominator or a result outside `i32`.
pub open spec fn correct_answers() -> spec_fn(Operator, i32, i32) -> Option<i32> {
    |op: Operator, x: i32, y: i32|
        if op == Operator::Div && y == 0 {
            None
        } else if i32::MIN <= apply_op(op, x as int, y as int) <= i32::MAX {
            Some(apply_op(op, x as int, y as int) as i32)
        } else {
            None
        }
}

/// The value of an expression in integer arithmetic.
pub open spec fn math_value(t: Tree) -> int
    decreases t,
{
    match t {
        Tree::Val(v) => v as int,
        Tree::Expr(op, cs) => if cs.len() == 2 {
            apply_op(op, math_value(cs[0]), math_value(cs[1]))
        } else {
            0
        },
    }
}

/// Whether every operator node of an expression has two operands, divides by
/// a value other than zero, and has a value that fits in an `i32`.
pub open spec fn computable(t: Tree) -> bool
    decreases t,
{
    match t {
        Tree::Val(_) => true,
        Tree::Expr(op, cs) => {
            &&& cs.len() == 2
            &&& computable(cs[0])
            &&& computable(cs[1])
            &&& !(op == Operator::Div && math_value(cs[1]) == 0)
            &&& i32::MIN <= apply_op(op, math_value(cs[0]), math_value(cs[1])) <= i32::MAX
        },
    }
}

proof fn lemma_eval_computes_value(t: Tree)
    requires
        computable(t),
    ensures
        i32::MIN <= math_value(t) <= i32::MAX,
        spec_eval(t, all_reachable(), correct_answers()) == Ok::<i32, EvalError>(
            math_value(t) as i32,
        ),
    decreases t,
{
    if let Tree::Expr(op, cs) = t {
        lemma_eval_computes_value(cs[0]);
        lemma_eval_computes_value(cs[1]);
    }
}

/// An evaluation whose operator servers are all reachable and answer
/// correctly finishes with the arithmetic value of the expression, whenever
/// no division is by zero and every intermediate value fits in an `i32`.
pub proof fn theorem_evaluation_computes_value(t: Tree)
    requires
        computable(t),
    ensures
        drive(plan(t), Seq::empty(), all_reachable(), correct_answers()) == Ok::<i32, EvalError>(
            math_value(t) as i32,
        ),
{
    lemma_eval_computes_value(t);
    theorem_drive_plan_is_eval(t, all_reachable(), correct_answers());
}


/// What the evaluation gives back on a reply, from the rest of its plan, its
/// values and its phase: the rest of the plan, the values and the action after
/// the reply.
pub open spec fn on_reply(rest: Seq<Instr>, vals: Seq<i32>, p: Phase, r: Reply) -> (
    Seq<Instr>,
    Seq<i32>,
    Action,
) {
    match r {
        Reply::Connected => run(rest, vals),
        Reply::Unreachable => (
            rest,
            vals,
            Action::Fail(
                EvalError::Math(
                    MathError::OperatorServerUnreachable { operator: p->AwaitingConnection_0 },
                ),
            ),
        ),
        Reply::Answer(v) => run(rest, vals.push(v)),
        Reply::Refused => (rest, vals, Action::Fail(EvalError::Refused)),
    }
}

pub open spec fn pushed_onto(vals: Seq<i32>, pushed: Option<i32>) -> Seq<i32> {
    match pushed {
        Some(v) => vals.push(v),
        None => vals,
    }
}

/// Appends the plan of an expression to `out`.
fn append_plan(node: &ExpressionTreeNode, out: &mut Vec<Instr>)
    ensures
        final(out)@ == old(out)@ + plan(node.tree()),
    decreases node,
{
    match node {
        ExpressionTreeNode::Val(v) => {
            out.push(Instr::Val(*v));
        },
        ExpressionTreeNode::Expr(e) => {
            let ghost cs = node.tree()->Expr_1;
            if e.children.len() == 2 {
                assert(cs[0] == e.children@[0].tree());
                assert(cs[1] == e.children@[1].tree());
                let ghost before = out@;
                out.push(Instr::Enter(e.operator));
                append_plan(&e.children[0], out);
                append_plan(&e.children[1], out);
                out.push(Instr::Apply(e.operator));
                assert(out@ =~= before + plan(node.tree()));
            } else {
                out.push(Instr::Reject(e.operator, e.children.len()));
            }
        },
    }
}

/// An evaluation of an expression, one outside action at a time: the caller
/// performs each action it is given and hands back what came of it.
pub struct Evaluation {
    program: Vec<Instr>,
    pc: usize,
    values: Vec<i32>,
    phase: Phase,
}

impl Evaluation {
    #[verifier::type_invariant]
    spec fn well_formed(&self) -> bool {
        &&& self.pc <= self.program@.len()
        &&& match self.phase {
            Phase::Ready => self.values@.len() == 0 && fits(self.program@.skip(self.pc as int), 0),
            Phase::AwaitingConnection(_) => fits(
                self.program@.skip(self.pc as int),
                self.values@.len() as int,
            ),
            Phase::AwaitingAnswer => fits(
                self.program@.skip(self.pc as int),
                (self.values@.len() + 1) as int,
            ),
            Phase::Done => true,
        }
    }

    /// The part of the plan not run yet.
    pub closed spec fn rest(&self) -> Seq<Instr> {
        self.program@.skip(self.pc as int)
    }

    /// The values computed and not consumed yet.
    pub closed spec fn values(&self) -> Seq<i32> {
        self.values@
    }

    pub closed spec fn phase(&self) -> Phase {
        self.phase
    }

    /// Where the evaluation stands: which replies it takes next.
    pub fn current_phase(&self) -> (r: Phase)
        ensures
            r == self.phase(),
    {
        self.phase
    }

    /// Plans the evaluation of an expression.
    pub fn new(expr: &ExpressionTreeNode) -> (r: Self)
        ensures
            r.rest() == plan(expr.tree()),
            r.values() == Seq::<i32>::empty(),
            r.phase() == Phase::Ready,
    {
        let mut program: Vec<Instr> = Vec::new();
        append_plan(expr, &mut program);
        proof {
            lemma_plan_fits(expr.tree(), Seq::empty(), 0);
            assert(plan(expr.tree()) + Seq::<Instr>::empty() =~= plan(expr.tree()));
            assert(program@.skip(0) =~= program@);
        }
        Evaluation { program, pc: 0, values: Vec::new(), phase: Phase::Ready }
    }

    /// Runs the plan until it needs outside work, or to its end.
    pub fn start(&mut self) -> (a: Action)
        requires
            old(self).phase() == Phase::Ready,
        ensures
            (final(self).rest(), final(self).values(), a) == run(old(self).rest(), old(self).values()),
            final(self).phase() == phase_after(a),
    {
        proof {
            use_type_invariant(&*self);
        }
        self.phase = Phase::Done;
        self.advance(None)
    }

    /// Takes what came of the last action and runs on until the plan needs
    /// outside work again, or to its end.
    pub fn resume(&mut self, reply: Reply) -> (a: Action)
        requires
            accepts(old(self).phase(), reply),
        ensures
            (final(self).rest(), final(self).values(), a) == on_reply(
                old(self).rest(),
                old(self).values(),
                old(self).phase(),
                reply,
            ),
            final(self).phase() == phase_after(a),
    {
        proof {
            use_type_invariant(&*self);
        }
        let phase = self.phase;
        self.phase = Phase::Done;
        match reply {
            Reply::Connected => self.advance(None),
            Reply::Unreachable => {
                let operator = match phase {
                    Phase::AwaitingConnection(operator) => operator,
                    _ => {
                        // The phase accepts the reply, so it awaits a connection.
                        proof {
                            assert(false);
                        }
                        Operator::Add
                    },
                };
                Action::Fail(EvalError::Math(MathError::OperatorServerUnreachable { operator }))
            },
            Reply::Answer(v) => self.advance(Some(v)),
            Reply::Refused => Action::Fail(EvalError::Refused),
        }
    }

    /// Pushes `pushed`, if any, onto the values and runs the plan until it
    /// needs outside work, or to its end.
    fn advance(&mut self, pushed: Option<i32>) -> (a: Action)
        requires
            old(self).phase == Phase::Done,
            fits(old(self).rest(), old(self).values@.len() + if pushed is Some { 1int } else { 0 }),
        ensures
            final(self).rest() == run(old(self).rest(), pushed_onto(old(self).values(), pushed)).0,
            final(self).values() == run(old(self).rest(), pushed_onto(old(self).values(), pushed)).1,
            a == run(old(self).rest(), pushed_onto(old(self).values(), pushed)).2,
            final(self).phase() == phase_after(a),
    {
        proof {
            use_type_invariant(&*self);
        }
        let mut values: Vec<i32> = Vec::new();
        std::mem::swap(&mut values, &mut self.values);
        if let Some(v) = pushed {
            values.push(v);
        }
        let ghost rest0 = self.rest();
        let ghost vals0 = values@;
        assert(rest0 == old(self).rest());
        assert(vals0 == pushed_onto(old(self).values(), pushed));
        loop
            invariant
                self.phase == Phase::Done,
                self.pc <= self.program@.len(),
                run(self.rest(), values@) == run(rest0, vals0),
                rest0 == old(self).rest(),
                vals0 == pushed_onto(old(self).values(), pushed),
                fits(self.rest(), values@.len() as int),
            decreases self.program@.len() - self.pc,
        {
            let ghost rest = self.rest();
            if self.pc == self.program.len() {
                assert(rest.len() == 0);
                let v = values[values.len() - 1];
                self.values = values;
                return Action::Finish(v);
            }
            assert(rest[0] == self.program@[self.pc as int]);
            assert(rest.drop_first() =~= self.program@.skip(self.pc + 1));
            let ins = self.program[self.pc];
            match ins {
                Instr::Val(v) => {
                    values.push(v);
                    self.pc = self.pc + 1;
                },
                Instr::Enter(operator) => {
                    self.pc = self.pc + 1;
                    self.values = values;
                    self.phase = Phase::AwaitingConnection(operator);
                    return Action::Connect(operator);
                },
                Instr::Reject(operator, got) => {
                    self.pc = self.pc + 1;
                    self.values = values;
                    return Action::Fail(
                        EvalError::Math(MathError::InvalidOperandCount { operator, got }),
                    );
                },
                Instr::Apply(operator) => {
                    let ghost vals = values@;
                    let num2 = values.pop().unwrap();
                    let num1 = values.pop().unwrap();
                    assert(values@ =~= vals.drop_last().drop_last());
                    self.pc = self.pc + 1;
                    self.values = values;
                    self.phase = Phase::AwaitingAnswer;
                    return Action::Call { operator, num1, num2 };
                },
            }
        }
    }
}

} // verus!
