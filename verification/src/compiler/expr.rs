//! Expressions of the template language.

use vstd::prelude::*;

use crate::compiler::span::Span;

verus! {

/// A literal value. Floating-point literals keep their source digits.
#[derive(Debug, Clone, PartialEq)]
pub enum Literal {
    Null,
    Bool(bool),
    String(String),
    Integer(i64),
    /// The digits of a decimal literal such as `1.5`, as written.
    Float(String),
}

#[derive(Debug, Clone, Copy, PartialEq, Eq, Hash, Structural)]
pub enum UnaryOp {
    Not,
    Negate,
}

#[derive(Debug, Clone, Copy, PartialEq, Eq, Hash, Structural)]
pub enum BinaryOp {
    Add,
    Subtract,
    Multiply,
    Divide,
    Remainder,
    Equal,
    NotEqual,
    Less,
    LessEqual,
    Greater,
    GreaterEqual,
    And,
    Or,
    Elvis,
}

#[derive(Debug, PartialEq)]
pub enum Expr {
    Literal { value: Literal, span: Span },
    Identifier { name: String, span: Span },
    Namespace { namespace: String, name: String, span: Span },
    Unary { op: UnaryOp, expression: Box<Expr>, span: Span },
    Binary { op: BinaryOp, left: Box<Expr>, right: Box<Expr>, span: Span },
    Member { object: Box<Expr>, member: String, span: Span },
    Call { callee: Box<Expr>, arguments: Vec<Expr>, span: Span },
    Index { object: Box<Expr>, index: Box<Expr>, span: Span },
    Safe { expression: Box<Expr>, span: Span },
}

/// The value of a literal, with its text as characters.
pub enum LiteralV {
    Null,
    Bool(bool),
    String(Seq<char>),
    Integer(i64),
    Float(Seq<char>),
}

/// The mathematical value of an expression tree.
pub enum ExprV {
    Literal { value: LiteralV, span: Span },
    Identifier { name: Seq<char>, span: Span },
    Namespace { namespace: Seq<char>, name: Seq<char>, span: Span },
    Unary { op: UnaryOp, expression: Box<ExprV>, span: Span },
    Binary { op: BinaryOp, left: Box<ExprV>, right: Box<ExprV>, span: Span },
    Member { object: Box<ExprV>, member: Seq<char>, span: Span },
    Call { callee: Box<ExprV>, arguments: Seq<ExprV>, span: Span },
    Index { object: Box<ExprV>, index: Box<ExprV>, span: Span },
    Safe { expression: Box<ExprV>, span: Span },
}

impl View for Literal {
    type V = LiteralV;

    open spec fn view(&self) -> LiteralV {
        match self {
            Literal::Null => LiteralV::Null,
            Literal::Bool(b) => LiteralV::Bool(*b),
            Literal::String(s) => LiteralV::String(s@),
            Literal::Integer(i) => LiteralV::Integer(*i),
            Literal::Float(s) => LiteralV::Float(s@),
        }
    }
}

pub open spec fn exprs_view(es: Seq<Expr>) -> Seq<ExprV>
    decreases es,
{
    if es.len() == 0 {
        Seq::empty()
    } else {
        seq![expr_view(es[0])] + exprs_view(es.drop_first())
    }
}

pub open spec fn expr_view(e: Expr) -> ExprV
    decreases e,
{
    match e {
        Expr::Literal { value, span } => ExprV::Literal { value: value@, span },
        Expr::Identifier { name, span } => ExprV::Identifier { name: name@, span },
        Expr::Namespace { namespace, name, span } => ExprV::Namespace {
            namespace: namespace@,
            name: name@,
            span,
        },
        Expr::Unary { op, expression, span } => ExprV::Unary {
            op,
            expression: Box::new(expr_view(*expression)),
            span,
        },
        Expr::Binary { op, left, right, span } => ExprV::Binary {
            op,
            left: Box::new(expr_view(*left)),
            right: Box::new(expr_view(*right)),
            span,
        },
        Expr::Member { object, member, span } => ExprV::Member {
            object: Box::new(expr_view(*object)),
            member: member@,
            span,
        },
        Expr::Call { callee, arguments, span } => ExprV::Call {
            callee: Box::new(expr_view(*callee)),
            arguments: exprs_view(arguments@),
            span,
        },
        Expr::Index { object, index, span } => ExprV::Index {
            object: Box::new(expr_view(*object)),
            index: Box::new(expr_view(*index)),
            span,
        },
        Expr::Safe { expression, span } => ExprV::Safe {
            expression: Box::new(expr_view(*expression)),
            span,
        },
    }
}

impl Expr {
    pub open spec fn span_of(&self) -> Span {
        match self {
            Expr::Literal { span, .. } => *span,
            Expr::Identifier { span, .. } => *span,
            Expr::Namespace { span, .. } => *span,
            Expr::Unary { span, .. } => *span,
            Expr::Binary { span, .. } => *span,
            Expr::Member { span, .. } => *span,
            Expr::Call { span, .. } => *span,
            Expr::Index { span, .. } => *span,
            Expr::Safe { span, .. } => *span,
        }
    }

    /// The source range of the whole expression.
    pub fn span(&self) -> (r: Span)
        ensures
            r == self.span_of(),
    {
        match self {
            Expr::Literal { span, .. } => *span,
            Expr::Identifier { span, .. } => *span,
            Expr::Namespace { span, .. } => *span,
            Expr::Unary { span, .. } => *span,
            Expr::Binary { span, .. } => *span,
            Expr::Member { span, .. } => *span,
            Expr::Call { span, .. } => *span,
            Expr::Index { span, .. } => *span,
            Expr::Safe { span, .. } => *span,
        }
    }
}

impl ExprV {
    pub open spec fn span_of(self) -> Span {
        match self {
            ExprV::Literal { span, .. } => span,
            ExprV::Identifier { span, .. } => span,
            ExprV::Namespace { span, .. } => span,
            ExprV::Unary { span, .. } => span,
            ExprV::Binary { span, .. } => span,
            ExprV::Member { span, .. } => span,
            ExprV::Call { span, .. } => span,
            ExprV::Index { span, .. } => span,
            ExprV::Safe { span, .. } => span,
        }
    }
}

pub proof fn lemma_expr_view_span(e: Expr)
    ensures
        expr_view(e).span_of() == e.span_of(),
{
}

/// A copy of a literal.
pub fn clone_literal(l: &Literal) -> (r: Literal)
    ensures
        r@ == l@,
{
    match l {
        Literal::Null => Literal::Null,
        Literal::Bool(b) => Literal::Bool(*b),
        Literal::String(s) => Literal::String(s.clone()),
        Literal::Integer(i) => Literal::Integer(*i),
        Literal::Float(s) => Literal::Float(s.clone()),
    }
}

/// A deep copy of an expression.
pub fn clone_expr(e: &Expr) -> (r: Expr)
    ensures
        expr_view(r) == expr_view(*e),
    decreases e,
{
    match e {
        Expr::Literal { value, span } => Expr::Literal { value: clone_literal(value), span: *span },
        Expr::Identifier { name, span } => Expr::Identifier { name: name.clone(), span: *span },
        Expr::Namespace { namespace, name, span } => Expr::Namespace {
            namespace: namespace.clone(),
            name: name.clone(),
            span: *span,
        },
        Expr::Unary { op, expression, span } => Expr::Unary {
            op: *op,
            expression: Box::new(clone_expr(expression)),
            span: *span,
        },
        Expr::Binary { op, left, right, span } => Expr::Binary {
            op: *op,
            left: Box::new(clone_expr(left)),
            right: Box::new(clone_expr(right)),
            span: *span,
        },
        Expr::Member { object, member, span } => Expr::Member {
            object: Box::new(clone_expr(object)),
            member: member.clone(),
            span: *span,
        },
        Expr::Call { callee, arguments, span } => {
            let c = clone_expr(callee);
            let args = clone_exprs(arguments);
            Expr::Call { callee: Box::new(c), arguments: args, span: *span }
        },
        Expr::Index { object, index, span } => Expr::Index {
            object: Box::new(clone_expr(object)),
            index: Box::new(clone_expr(index)),
            span: *span,
        },
        Expr::Safe { expression, span } => Expr::Safe {
            expression: Box::new(clone_expr(expression)),
            span: *span,
        },
    }
}

pub proof fn lemma_exprs_view_push(es: Seq<Expr>, e: Expr)
    ensures
        exprs_view(es.push(e)) == exprs_view(es).push(expr_view(e)),
    decreases es.len(),
{
    if es.len() > 0 {
        assert(es.push(e).drop_first() =~= es.drop_first().push(e));
        lemma_exprs_view_push(es.drop_first(), e);
        assert(seq![expr_view(es[0])] + exprs_view(es.drop_first()).push(expr_view(e)) =~= (seq![
            expr_view(es[0]),
        ] + exprs_view(es.drop_first())).push(expr_view(e)));
    } else {
        assert(es.push(e).drop_first() =~= es);
        assert(es.push(e)[0] == e);
        assert(exprs_view(es) =~= Seq::<ExprV>::empty());
        assert(exprs_view(es.push(e)) == seq![expr_view(e)] + exprs_view(es));
        assert(exprs_view(es.push(e)) =~= seq![expr_view(e)]);
    }
}

/// A deep copy of a list of expressions.
pub fn clone_exprs(es: &Vec<Expr>) -> (r: Vec<Expr>)
    ensures
        exprs_view(r@) == exprs_view(es@),
    decreases es,
{
    let mut r: Vec<Expr> = Vec::new();
    let mut i: usize = 0;
    proof {
        assert(es@.take(0) =~= Seq::<Expr>::empty());
        assert(r@ =~= Seq::<Expr>::empty());
    }
    while i < es.len()
        invariant
            i <= es@.len(),
            exprs_view(r@) == exprs_view(es@.take(i as int)),
        decreases es@.len() - i,
    {
        let c = clone_expr(&es[i]);
        proof {
            lemma_exprs_view_push(r@, c);
            lemma_exprs_view_push(es@.take(i as int), es@[i as int]);
            assert(es@.take(i as int).push(es@[i as int]) =~= es@.take(i + 1));
        }
        r.push(c);
        i = i + 1;
    }
    proof {
        assert(es@.take(es@.len() as int) =~= es@);
    }
    r
}

} // verus!
