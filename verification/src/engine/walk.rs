//! The evaluation of one expression node as a sequence of steps: which
//! operand the renderer evaluates next, and what the node's outcome is once
//! the outcomes of its operands are known. The renderer runs the steps,
//! awaiting resolvers where a step asks for one.

use vstd::prelude::*;

use crate::compiler::expr::{BinaryOp, Expr, UnaryOp};
use crate::compiler::span::Span;
use crate::engine::eval::recoverable;
use crate::engine::value::{truthy, Resolution, Value, ValueV};
use crate::error::{ErrorCode, RenderError};

verus! {

/// What evaluating an operand gave.
pub type Outcome = Result<Resolution<Value>, RenderError>;

/// The next step in evaluating an expression node, given the outcomes of the
/// operands evaluated so far (in the order the steps asked for them).
#[derive(Debug, Clone, Copy, PartialEq, Eq, Structural)]
pub enum EvalStep {
    /// Evaluate operand `.0` of the node (see `operand`) and add its outcome.
    Operand(usize),
    /// The node is a literal: its value.
    Literal,
    /// Look the identifier up in the render scopes.
    Lookup,
    /// Ask the namespace resolvers, with the values of the first `.0`
    /// outcomes as arguments.
    Namespace(usize),
    /// Ask the member resolvers for the member of the value of outcome
    /// `base`, with the values of the first `arguments` outcomes as arguments.
    Member { base: usize, arguments: usize },
    /// Index the value of outcome `.0` by the value of outcome `.1`.
    Index(usize, usize),
    /// Apply the node's binary operator to the values of outcomes `.0`, `.1`.
    Operate(usize, usize),
    /// Negate the value of outcome `.0`.
    Negate(usize),
    /// The truth of the value of outcome `.0`, negated.
    Not(usize),
    /// The truth of the value of outcome `.0`.
    TruthOf(usize),
    /// This truth value.
    Truth(bool),
    /// Outcome `.0` is the node's outcome.
    Take(usize),
    /// Outcome `.0` failed: that failure is the node's.
    Propagate(usize),
    /// An operand at this span could not be resolved.
    Unresolved(Span),
    /// Only namespace and member functions can be called.
    NotCallable,
    /// The node's value could not be resolved.
    Missing,
    /// The node's value is null.
    Null,
}

/// Operand `k` of a node: a call's arguments first, then the object of a
/// member callee; the object and index of an index; the left and right
/// sides of a binary operator; the operand of every other node.
pub open spec fn operand_of(e: Expr, k: int) -> Option<Expr> {
    match e {
        Expr::Member { object, .. } => if k == 0 {
            Some(*object)
        } else {
            None
        },
        Expr::Index { object, index, .. } => if k == 0 {
            Some(*object)
        } else if k == 1 {
            Some(*index)
        } else {
            None
        },
        Expr::Call { callee, arguments, .. } => if 0 <= k < arguments.len() {
            Some(arguments@[k])
        } else if k == arguments.len() {
            match *callee {
                Expr::Member { object, .. } => Some(*object),
                _ => None,
            }
        } else {
            None
        },
        Expr::Safe { expression, .. } => if k == 0 {
            Some(*expression)
        } else {
            None
        },
        Expr::Unary { expression, .. } => if k == 0 {
            Some(*expression)
        } else {
            None
        },
        Expr::Binary { left, right, .. } => if k == 0 {
            Some(*left)
        } else if k == 1 {
            Some(*right)
        } else {
            None
        },
        _ => None,
    }
}

/// An operand whose value is needed: evaluate it first; a failure is the
/// node's; a value that could not be resolved is an error at the operand.
pub open spec fn needing(done: Seq<Outcome>, k: int, at: Span, then: EvalStep) -> EvalStep {
    if done.len() <= k {
        EvalStep::Operand(k as usize)
    } else {
        match done[k] {
            Err(_) => EvalStep::Propagate(k as usize),
            Ok(Resolution::NotFound) => EvalStep::Unresolved(at),
            Ok(Resolution::Value(_)) => then,
        }
    }
}

/// The arguments `args[k..]` of a call, each needed, then `then`.
pub open spec fn needing_all(done: Seq<Outcome>, args: Seq<Expr>, k: int, then: EvalStep) -> EvalStep
    decreases args.len() - k,
{
    if k < 0 || k >= args.len() {
        then
    } else {
        needing(done, k, args[k].span_of(), needing_all(done, args, k + 1, then))
    }
}

/// The value of outcome `k` is truthy.
pub open spec fn truthy_at(done: Seq<Outcome>, k: int) -> bool {
    done[k] matches Ok(Resolution::Value(v)) && truthy(v@)
}

/// The next step of a node. Operands are needed except where `??` and `?:`
/// recover from a missing value: `??` turns a missing value, or a missing
/// operand inside, into null; `?:` takes its right side after such a left
/// side or a null one. A member of a missing object is missing. `&&` and
/// `||` evaluate their right side only when the left does not decide.
pub open spec fn eval_step_of(e: Expr, done: Seq<Outcome>) -> EvalStep {
    match e {
        Expr::Literal { .. } => EvalStep::Literal,
        Expr::Identifier { .. } => EvalStep::Lookup,
        Expr::Namespace { .. } => EvalStep::Namespace(0),
        Expr::Member { .. } => if done.len() == 0 {
            EvalStep::Operand(0)
        } else {
            match done[0] {
                Err(_) => EvalStep::Propagate(0),
                Ok(Resolution::NotFound) => EvalStep::Missing,
                Ok(Resolution::Value(_)) => EvalStep::Member { base: 0, arguments: 0 },
            }
        },
        Expr::Index { object, index, .. } => needing(
            done,
            0,
            object.span_of(),
            needing(done, 1, index.span_of(), EvalStep::Index(0, 1)),
        ),
        Expr::Call { callee, arguments, .. } => needing_all(
            done,
            arguments@,
            0,
            match *callee {
                Expr::Namespace { .. } => EvalStep::Namespace(arguments.len()),
                Expr::Member { object, .. } => needing(
                    done,
                    arguments.len() as int,
                    object.span_of(),
                    EvalStep::Member { base: arguments.len(), arguments: arguments.len() },
                ),
                _ => EvalStep::NotCallable,
            },
        ),
        Expr::Safe { .. } => if done.len() == 0 {
            EvalStep::Operand(0)
        } else if recoverable(done[0]) {
            EvalStep::Null
        } else {
            EvalStep::Take(0)
        },
        Expr::Unary { op, expression, .. } => needing(
            done,
            0,
            expression.span_of(),
            match op {
                UnaryOp::Not => EvalStep::Not(0),
                UnaryOp::Negate => EvalStep::Negate(0),
            },
        ),
        Expr::Binary { op, left, right, .. } => if op == BinaryOp::Elvis {
            if done.len() == 0 {
                EvalStep::Operand(0)
            } else if recoverable(done[0]) || (done[0] matches Ok(Resolution::Value(v)) && v@ == ValueV::Null) {
                if done.len() == 1 {
                    EvalStep::Operand(1)
                } else {
                    EvalStep::Take(1)
                }
            } else {
                EvalStep::Take(0)
            }
        } else if op == BinaryOp::And || op == BinaryOp::Or {
            needing(
                done,
                0,
                left.span_of(),
                if op == BinaryOp::And && !truthy_at(done, 0) {
                    EvalStep::Truth(false)
                } else if op == BinaryOp::Or && truthy_at(done, 0) {
                    EvalStep::Truth(true)
                } else {
                    needing(done, 1, right.span_of(), EvalStep::TruthOf(1))
                },
            )
        } else {
            needing(done, 0, left.span_of(), needing(done, 1, right.span_of(), EvalStep::Operate(0, 1)))
        },
    }
}

fn needing_exec(done: &Vec<Outcome>, k: usize, at: Span, then: EvalStep) -> (r: EvalStep)
    ensures
        r == needing(done@, k as int, at, then),
{
    if done.len() <= k {
        EvalStep::Operand(k)
    } else {
        match &done[k] {
            Err(_) => EvalStep::Propagate(k),
            Ok(Resolution::NotFound) => EvalStep::Unresolved(at),
            Ok(Resolution::Value(_)) => then,
        }
    }
}

fn needing_all_exec(done: &Vec<Outcome>, args: &Vec<Expr>, then: EvalStep) -> (r: EvalStep)
    ensures
        r == needing_all(done@, args@, 0, then),
{
    let mut k: usize = 0;
    while k < args.len()
        invariant
            k <= args@.len(),
            forall|j: int| 0 <= j < k ==> done@.len() > j && #[trigger] done@[j] matches Ok(Resolution::Value(_)),
        decreases args@.len() - k,
    {
        if done.len() <= k {
            proof {
                lemma_needing_all_prefix(done@, args@, then, k as int);
            }
            return EvalStep::Operand(k);
        }
        match &done[k] {
            Err(_) => {
                proof {
                    lemma_needing_all_prefix(done@, args@, then, k as int);
                }
                return EvalStep::Propagate(k);
            },
            Ok(Resolution::NotFound) => {
                proof {
                    lemma_needing_all_prefix(done@, args@, then, k as int);
                }
                return EvalStep::Unresolved(args[k].span());
            },
            Ok(Resolution::Value(_)) => {},
        }
        k = k + 1;
    }
    proof {
        lemma_needing_all_prefix(done@, args@, then, k as int);
    }
    then
}

/// After `k` arguments whose values are known, the step is that of the rest.
proof fn lemma_needing_all_prefix(done: Seq<Outcome>, args: Seq<Expr>, then: EvalStep, k: int)
    requires
        0 <= k <= args.len(),
        forall|j: int| 0 <= j < k ==> done.len() > j && #[trigger] done[j] matches Ok(Resolution::Value(_)),
    ensures
        needing_all(done, args, 0, then) == needing_all(done, args, k, then),
    decreases k,
{
    if k > 0 {
        lemma_needing_all_prefix_from(done, args, then, 0, k);
    }
}

proof fn lemma_needing_all_prefix_from(done: Seq<Outcome>, args: Seq<Expr>, then: EvalStep, i: int, k: int)
    requires
        0 <= i <= k <= args.len(),
        forall|j: int| 0 <= j < k ==> done.len() > j && #[trigger] done[j] matches Ok(Resolution::Value(_)),
    ensures
        needing_all(done, args, i, then) == needing_all(done, args, k, then),
    decreases k - i,
{
    if i < k {
        assert(done[i] matches Ok(Resolution::Value(_)));
        lemma_needing_all_prefix_from(done, args, then, i + 1, k);
    }
}

/// The next step in evaluating the node `e`.
pub fn eval_step(e: &Expr, done: &Vec<Outcome>) -> (r: EvalStep)
    ensures
        r == eval_step_of(*e, done@),
{
    match e {
        Expr::Literal { .. } => EvalStep::Literal,
        Expr::Identifier { .. } => EvalStep::Lookup,
        Expr::Namespace { .. } => EvalStep::Namespace(0),
        Expr::Member { .. } => {
            if done.len() == 0 {
                EvalStep::Operand(0)
            } else {
                match &done[0] {
                    Err(_) => EvalStep::Propagate(0),
                    Ok(Resolution::NotFound) => EvalStep::Missing,
                    Ok(Resolution::Value(_)) => EvalStep::Member { base: 0, arguments: 0 },
                }
            }
        },
        Expr::Index { object, index, .. } => {
            let inner = needing_exec(done, 1, index.span(), EvalStep::Index(0, 1));
            needing_exec(done, 0, object.span(), inner)
        },
        Expr::Call { callee, arguments, .. } => {
            let n = arguments.len();
            let then = match &**callee {
                Expr::Namespace { .. } => EvalStep::Namespace(n),
                Expr::Member { object, .. } => needing_exec(
                    done,
                    n,
                    object.span(),
                    EvalStep::Member { base: n, arguments: n },
                ),
                _ => EvalStep::NotCallable,
            };
            needing_all_exec(done, arguments, then)
        },
        Expr::Safe { .. } => {
            if done.len() == 0 {
                EvalStep::Operand(0)
            } else {
                let recover = match &done[0] {
                    Ok(Resolution::NotFound) => true,
                    Ok(Resolution::Value(_)) => false,
                    Err(error) => error.code == ErrorCode::MissingValue,
                };
                if recover {
                    EvalStep::Null
                } else {
                    EvalStep::Take(0)
                }
            }
        },
        Expr::Unary { op, expression, .. } => {
            let then = match op {
                UnaryOp::Not => EvalStep::Not(0),
                UnaryOp::Negate => EvalStep::Negate(0),
            };
            needing_exec(done, 0, expression.span(), then)
        },
        Expr::Binary { op, left, right, .. } => {
            let op = *op;
            if op == BinaryOp::Elvis {
                if done.len() == 0 {
                    EvalStep::Operand(0)
                } else if crate::engine::eval::elvis_takes_right(&done[0]) {
                    if done.len() == 1 {
                        EvalStep::Operand(1)
                    } else {
                        EvalStep::Take(1)
                    }
                } else {
                    EvalStep::Take(0)
                }
            } else if op == BinaryOp::And || op == BinaryOp::Or {
                let decided = if done.len() > 0 {
                    match &done[0] {
                        Ok(Resolution::Value(v)) => crate::engine::eval::logical_shortcut(op, v),
                        _ => None,
                    }
                } else {
                    None
                };
                let then = match decided {
                    Some(b) => EvalStep::Truth(b),
                    None => needing_exec(done, 1, right.span(), EvalStep::TruthOf(1)),
                };
                proof {
                    if done@.len() == 0 {
                        assert(needing(done@, 0, left.span_of(), then) == EvalStep::Operand(0));
                    }
                }
                needing_exec(done, 0, left.span(), then)
            } else {
                let inner = needing_exec(done, 1, right.span(), EvalStep::Operate(0, 1));
                needing_exec(done, 0, left.span(), inner)
            }
        },
    }
}

/// Operand `k` of the node `e`, as `eval_step` numbers them.
pub fn operand(e: &Expr, k: usize) -> (r: Option<&Expr>)
    ensures
        match operand_of(*e, k as int) {
            Some(x) => r matches Some(y) && *y == x,
            None => r is None,
        },
{
    match e {
        Expr::Member { object, .. } => if k == 0 {
            Some(&**object)
        } else {
            None
        },
        Expr::Index { object, index, .. } => if k == 0 {
            Some(&**object)
        } else if k == 1 {
            Some(&**index)
        } else {
            None
        },
        Expr::Call { callee, arguments, .. } => if k < arguments.len() {
            Some(&arguments[k])
        } else if k == arguments.len() {
            match &**callee {
                Expr::Member { object, .. } => Some(&**object),
                _ => None,
            }
        } else {
            None
        },
        Expr::Safe { expression, .. } => if k == 0 {
            Some(&**expression)
        } else {
            None
        },
        Expr::Unary { expression, .. } => if k == 0 {
            Some(&**expression)
        } else {
            None
        },
        Expr::Binary { left, right, .. } => if k == 0 {
            Some(&**left)
        } else if k == 1 {
            Some(&**right)
        } else {
            None
        },
        _ => None,
    }
}

} // verus!

verus! {

proof fn lemma_needing_all_asks_next(done: Seq<Outcome>, args: Seq<Expr>, k: int, then: EvalStep)
    requires
        0 <= k,
        args.len() <= usize::MAX,
        done.len() >= k,
    ensures
        needing_all(done, args, k, then) == then && done.len() >= args.len() || (needing_all(
            done,
            args,
            k,
            then,
        ) matches EvalStep::Operand(j) ==> j == done.len() && j < args.len()),
    decreases args.len() - k,
{
    if k < args.len() {
        if done.len() > k {
            lemma_needing_all_asks_next(done, args, k + 1, then);
        }
    }
}

/// An expression's operands are evaluated in order, each once: a step that
/// asks for an operand asks for the one after those already evaluated, and
/// that operand exists.
pub proof fn law_operands_in_order(e: Expr, done: Seq<Outcome>)
    requires
        done.len() <= usize::MAX,
    ensures
        eval_step_of(e, done) matches EvalStep::Operand(k) ==> k == done.len() && operand_of(e, k as int) is Some,
{
    match e {
        Expr::Call { callee, arguments, .. } => {
            let n = arguments@.len();
            let then = match *callee {
                Expr::Namespace { .. } => EvalStep::Namespace(arguments.len()),
                Expr::Member { object, .. } => needing(
                    done,
                    n as int,
                    object.span_of(),
                    EvalStep::Member { base: arguments.len(), arguments: arguments.len() },
                ),
                _ => EvalStep::NotCallable,
            };
            lemma_needing_all_asks_next(done, arguments@, 0, then);
        },
        _ => {},
    }
}

} // verus!
