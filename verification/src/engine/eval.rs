//! What the evaluator does with values: member, index and operator results.
//!
//! Arithmetic and comparison of floating-point numbers, and equality and order
//! between numbers (which the evaluator takes as floating-point), are not
//! decided here: the operations below say so by returning `None`.

use vstd::prelude::*;

use crate::compiler::expr::BinaryOp;
use crate::engine::value::{
    plain_text_of, clone_value, lemma_entries_view, lemma_values_view, map_get, map_lookup, value_view, values_view,
    entries_view, kind_name_of, truthy, Entry, Resolution, Value, ValueV,
};
use crate::error::{ErrorCode, RenderError};
use crate::escape::{escaped_for, write_escaped};
use crate::media::MediaType;
use crate::messages::chars_lt;
use crate::text::{chars_eq, chars_of, push_str, str_eq};

verus! {

/// Calls `str::to_uppercase`. What it returns is named by `upper_text`.
#[verifier::external_body]
fn to_upper_text(s: &str) -> (r: String)
    ensures
        r@ == upper_text(s@),
{
    s.to_uppercase()
}

/// Calls `str::to_lowercase`. What it returns is named by `lower_text`.
#[verifier::external_body]
fn to_lower_text(s: &str) -> (r: String)
    ensures
        r@ == lower_text(s@),
{
    s.to_lowercase()
}

/// The text `str::to_uppercase` returns for `s`.
pub uninterp spec fn upper_text(s: Seq<char>) -> Seq<char>;

/// The text `str::to_lowercase` returns for `s`.
pub uninterp spec fn lower_text(s: Seq<char>) -> Seq<char>;

/// An error that carries only a code and a message.
pub open spec fn bare(e: RenderError, code: ErrorCode, message: Seq<char>) -> bool {
    &&& e.code == code
    &&& e.message@ == message
    &&& e.template is None
    &&& e.span is None
    &&& e.line is None
    &&& e.column is None
    &&& e.render_stack@.len() == 0
    &&& e.source is None
}

// ---------------------------------------------------------------------------
// Index and member access
// ---------------------------------------------------------------------------

/// `base[index]`: a map read by a string key, or a sequence by a position.
pub open spec fn index_value(base: ValueV, index: ValueV) -> Option<ValueV> {
    match (base, index) {
        (ValueV::Dict(es), ValueV::String(k)) => map_lookup(es, k),
        (ValueV::Sequence(vs), ValueV::Integer(i)) => if 0 <= i < vs.len() {
            Some(vs[i as int])
        } else {
            None
        },
        _ => None,
    }
}

/// Reads `base[index]`.
pub fn resolve_index(base: &Value, index: &Value) -> (r: Resolution<Value>)
    ensures
        r@ == index_value(base@, index@),
{
    match (base, index) {
        (Value::Dict(es), Value::String(k)) => match map_get(es, k.as_str()) {
            Some(v) => Resolution::Value(v),
            None => Resolution::NotFound,
        },
        (Value::Sequence(vs), Value::Integer(i)) => {
            proof {
                lemma_values_view(vs@);
            }
            if *i >= 0 && (*i as u64) < (vs.len() as u64) {
                let k = *i as usize;
                Resolution::Value(clone_value(&vs[k]))
            } else {
                Resolution::NotFound
            }
        },
        _ => Resolution::NotFound,
    }
}

/// What the built-in members of sequences answer.
pub open spec fn sequence_member(vs: Seq<ValueV>, name: Seq<char>, args: Seq<ValueV>) -> Option<ValueV> {
    if args.len() == 0 && (name == "size"@ || name == "length"@) {
        Some(ValueV::Integer(vs.len() as i64))
    } else if args.len() == 0 && (name == "isEmpty"@ || name == "empty"@) {
        Some(ValueV::Bool(vs.len() == 0))
    } else if args.len() == 0 && name == "first"@ {
        if vs.len() > 0 {
            Some(vs[0])
        } else {
            None
        }
    } else if args.len() == 0 && name == "last"@ {
        if vs.len() > 0 {
            Some(vs.last())
        } else {
            None
        }
    } else if args.len() == 1 && name == "get"@ {
        match args[0] {
            ValueV::Integer(i) => if 0 <= i < vs.len() {
                Some(vs[i as int])
            } else {
                None
            },
            _ => None,
        }
    } else {
        None
    }
}

/// What the built-in members of strings answer.
pub open spec fn string_member(s: Seq<char>, name: Seq<char>, args: Seq<ValueV>) -> Option<ValueV> {
    if args.len() != 0 {
        None
    } else if name == "size"@ || name == "length"@ {
        Some(ValueV::Integer(s.len() as i64))
    } else if name == "toUpperCase"@ || name == "upper"@ {
        Some(ValueV::String(upper_text(s)))
    } else if name == "toLowerCase"@ || name == "lower"@ {
        Some(ValueV::String(lower_text(s)))
    } else {
        None
    }
}

/// The built-in member `name` of `base` called with `args`: a map answers
/// every name without arguments with its entry of that name; sequences and
/// strings answer the members above.
pub open spec fn builtin_member(base: ValueV, name: Seq<char>, args: Seq<ValueV>) -> Option<ValueV> {
    match base {
        ValueV::Dict(es) => if args.len() == 0 {
            map_lookup(es, name)
        } else {
            None
        },
        ValueV::Sequence(vs) => sequence_member(vs, name, args),
        ValueV::String(s) => string_member(s, name, args),
        _ => None,
    }
}

/// Resolves a built-in member of a value.
pub fn resolve_builtin(base: &Value, name: &str, arguments: &[Value]) -> (r: Resolution<Value>)
    ensures
        r@ == builtin_member(base@, name@, values_view(arguments@)),
{
    proof {
        lemma_values_view(arguments@);
    }
    let none = arguments.len() == 0;
    match base {
        Value::Dict(es) => {
            if !none {
                return Resolution::NotFound;
            }
            match map_get(es, name) {
                Some(v) => Resolution::Value(v),
                None => Resolution::NotFound,
            }
        },
        Value::Sequence(vs) => {
            proof {
                lemma_values_view(vs@);
            }
            if none && (str_eq(name, "size") || str_eq(name, "length")) {
                Resolution::Value(Value::Integer(vs.len() as i64))
            } else if none && (str_eq(name, "isEmpty") || str_eq(name, "empty")) {
                Resolution::Value(Value::Bool(vs.len() == 0))
            } else if none && str_eq(name, "first") {
                if vs.len() > 0 {
                    Resolution::Value(clone_value(&vs[0]))
                } else {
                    Resolution::NotFound
                }
            } else if none && str_eq(name, "last") {
                if vs.len() > 0 {
                    Resolution::Value(clone_value(&vs[vs.len() - 1]))
                } else {
                    Resolution::NotFound
                }
            } else if arguments.len() == 1 && str_eq(name, "get") {
                match &arguments[0] {
                    Value::Integer(i) => {
                        if *i >= 0 && (*i as u64) < (vs.len() as u64) {
                            let k = *i as usize;
                            Resolution::Value(clone_value(&vs[k]))
                        } else {
                            Resolution::NotFound
                        }
                    },
                    _ => Resolution::NotFound,
                }
            } else {
                Resolution::NotFound
            }
        },
        Value::String(s) => {
            if !none {
                Resolution::NotFound
            } else if str_eq(name, "size") || str_eq(name, "length") {
                let n = chars_of(s.as_str()).len();
                Resolution::Value(Value::Integer(n as i64))
            } else if str_eq(name, "toUpperCase") || str_eq(name, "upper") {
                Resolution::Value(Value::String(to_upper_text(s.as_str())))
            } else if str_eq(name, "toLowerCase") || str_eq(name, "lower") {
                Resolution::Value(Value::String(to_lower_text(s.as_str())))
            } else {
                Resolution::NotFound
            }
        },
        _ => Resolution::NotFound,
    }
}

// ---------------------------------------------------------------------------
// Operators
// ---------------------------------------------------------------------------

/// An integer or a floating-point number.
pub open spec fn is_number(v: ValueV) -> bool {
    v is Integer || v is Float
}

/// A floating-point number occurs in the value, at any depth.
pub open spec fn has_float(v: ValueV) -> bool
    decreases v,
{
    match v {
        ValueV::Float(..) => true,
        ValueV::Sequence(vs) => any_float(vs),
        ValueV::Dict(es) => any_float_entry(es),
        _ => false,
    }
}

pub open spec fn any_float(vs: Seq<ValueV>) -> bool
    decreases vs,
{
    vs.len() > 0 && (has_float(vs[0]) || any_float(vs.drop_first()))
}

pub open spec fn any_float_entry(es: Seq<(Seq<char>, ValueV)>) -> bool
    decreases es,
{
    es.len() > 0 && (has_float(es[0].1) || any_float_entry(es.drop_first()))
}

/// What an operator gives, in terms of views: a value, a failure with its
/// code and message, or a floating-point computation left to the caller.
pub enum OutcomeV {
    Value(ValueV),
    Failure(ErrorCode, Seq<char>),
    Float,
}

pub open spec fn outcome_view(r: Option<Result<Value, RenderError>>) -> OutcomeV {
    match r {
        None => OutcomeV::Float,
        Some(Ok(v)) => OutcomeV::Value(v@),
        Some(Err(e)) => OutcomeV::Failure(e.code, e.message@),
    }
}

/// Errors in an outcome carry no location yet.
pub open spec fn unlocated(r: Option<Result<Value, RenderError>>) -> bool {
    r matches Some(Err(e)) ==> bare(e, e.code, e.message@)
}

pub open spec fn pair_message(operation: Seq<char>, l: ValueV, r: ValueV) -> Seq<char> {
    "cannot "@ + operation + " "@ + kind_name_of(l) + " and "@ + kind_name_of(r)
}

pub open spec fn checked_integer(op: BinaryOp, a: i64, b: i64) -> Option<i64> {
    match op {
        BinaryOp::Add => a.checked_add(b),
        BinaryOp::Subtract => a.checked_sub(b),
        BinaryOp::Multiply => a.checked_mul(b),
        BinaryOp::Divide => a.checked_div(b),
        _ => a.checked_rem(b),
    }
}

/// The result of a binary operator other than `&&`, `||` and `?:`.
pub open spec fn binary_outcome(op: BinaryOp, l: ValueV, r: ValueV) -> OutcomeV {
    match op {
        BinaryOp::Equal | BinaryOp::NotEqual => {
            if (is_number(l) && is_number(r)) || has_float(l) || has_float(r) {
                OutcomeV::Float
            } else {
                OutcomeV::Value(ValueV::Bool((l == r) == (op is Equal)))
            }
        },
        BinaryOp::Less | BinaryOp::LessEqual | BinaryOp::Greater | BinaryOp::GreaterEqual => {
            if is_number(l) && is_number(r) {
                OutcomeV::Float
            } else {
                match (l, r) {
                    (ValueV::String(a), ValueV::String(b)) => OutcomeV::Value(
                        ValueV::Bool(
                            match op {
                                BinaryOp::Less => seq_lt_spec(a, b),
                                BinaryOp::LessEqual => seq_lt_spec(a, b) || a == b,
                                BinaryOp::Greater => seq_lt_spec(b, a),
                                _ => seq_lt_spec(b, a) || a == b,
                            },
                        ),
                    ),
                    _ => OutcomeV::Failure(ErrorCode::Type, pair_message("compare"@, l, r)),
                }
            }
        },
        BinaryOp::Add => match (l, r) {
            (ValueV::Integer(a), ValueV::Integer(b)) => match checked_integer(op, a, b) {
                Some(c) => OutcomeV::Value(ValueV::Integer(c)),
                None => OutcomeV::Failure(ErrorCode::Arithmetic, "integer overflow"@),
            },
            _ => if is_number(l) && is_number(r) {
                OutcomeV::Float
            } else if l is String || r is String {
                OutcomeV::Value(
                    ValueV::String(
                        crate::engine::value::plain_text_of(l) + crate::engine::value::plain_text_of(
                            r,
                        ),
                    ),
                )
            } else {
                OutcomeV::Failure(ErrorCode::Type, pair_message("add"@, l, r))
            },
        },
        _ => match (l, r) {
            (ValueV::Integer(a), ValueV::Integer(b)) => match checked_integer(op, a, b) {
                Some(c) => OutcomeV::Value(ValueV::Integer(c)),
                None => OutcomeV::Failure(
                    ErrorCode::Arithmetic,
                    "invalid integer arithmetic (overflow or division by zero)"@,
                ),
            },
            _ => if is_number(l) && is_number(r) {
                OutcomeV::Float
            } else {
                OutcomeV::Failure(ErrorCode::Type, pair_message("perform arithmetic on"@, l, r))
            },
        },
    }
}

pub open spec fn seq_lt_spec(a: Seq<char>, b: Seq<char>) -> bool {
    crate::messages::seq_lt(a, b)
}

proof fn lemma_any_float_step(vs: Seq<Value>)
    requires
        vs.len() > 0,
    ensures
        any_float(values_view(vs)) == (has_float(value_view(vs[0])) || any_float(values_view(vs.drop_first()))),
{
    let v = values_view(vs);
    assert(v.drop_first() =~= values_view(vs.drop_first()));
}

proof fn lemma_any_float_entry_step(es: Seq<Entry>)
    requires
        es.len() > 0,
    ensures
        any_float_entry(entries_view(es)) == (has_float(value_view(es[0].value)) || any_float_entry(
            entries_view(es.drop_first()),
        )),
{
    let v = entries_view(es);
    assert(v.drop_first() =~= entries_view(es.drop_first()));
}

/// Whether a floating-point number occurs in the value.
pub fn contains_float(v: &Value) -> (r: bool)
    ensures
        r == has_float(v@),
    decreases v,
{
    match v {
        Value::Float(_) => true,
        Value::Sequence(vs) => any_float_in(vs),
        Value::Dict(es) => any_float_in_entries(es),
        _ => false,
    }
}

fn any_float_in(vs: &Vec<Value>) -> (r: bool)
    ensures
        r == any_float(values_view(vs@)),
    decreases vs,
{
    let mut i: usize = 0;
    proof {
        assert(vs@.skip(0) =~= vs@);
    }
    while i < vs.len()
        invariant
            i <= vs@.len(),
            any_float(values_view(vs@)) == any_float(values_view(vs@.skip(i as int))),
        decreases vs@.len() - i,
    {
        proof {
            assert(decreases_to!(vs => vs@[i as int]));
            lemma_any_float_step(vs@.skip(i as int));
            assert(vs@.skip(i as int)[0] == vs@[i as int]);
            assert(vs@.skip(i as int).drop_first() =~= vs@.skip(i + 1));
        }
        if contains_float(&vs[i]) {
            return true;
        }
        i = i + 1;
    }
    proof {
        assert(vs@.skip(i as int) =~= Seq::<Value>::empty());
        assert(values_view(vs@.skip(i as int)) =~= Seq::<ValueV>::empty());
    }
    false
}

fn any_float_in_entries(es: &Vec<Entry>) -> (r: bool)
    ensures
        r == any_float_entry(entries_view(es@)),
    decreases es,
{
    let mut i: usize = 0;
    proof {
        assert(es@.skip(0) =~= es@);
    }
    while i < es.len()
        invariant
            i <= es@.len(),
            any_float_entry(entries_view(es@)) == any_float_entry(entries_view(es@.skip(i as int))),
        decreases es@.len() - i,
    {
        proof {
            assert(decreases_to!(es => es@[i as int]));
            assert(decreases_to!(es@[i as int] => es@[i as int].value));
            lemma_any_float_entry_step(es@.skip(i as int));
            assert(es@.skip(i as int)[0] == es@[i as int]);
            assert(es@.skip(i as int).drop_first() =~= es@.skip(i + 1));
        }
        if contains_float(&es[i].value) {
            return true;
        }
        i = i + 1;
    }
    proof {
        assert(es@.skip(i as int) =~= Seq::<Entry>::empty());
        assert(entries_view(es@.skip(i as int)) =~= Seq::<(Seq<char>, ValueV)>::empty());
    }
    false
}

proof fn lemma_views_equal(a: Seq<Value>, b: Seq<Value>)
    ensures
        values_view(a) == values_view(b) <==> (a.len() == b.len() && forall|i: int|
            0 <= i < a.len() ==> value_view(#[trigger] a[i]) == value_view(b[i])),
{
    lemma_values_view(a);
    lemma_values_view(b);
    if a.len() == b.len() && forall|i: int| 0 <= i < a.len() ==> value_view(#[trigger] a[i]) == value_view(b[i]) {
        assert(values_view(a) =~= values_view(b));
    }
    if values_view(a) == values_view(b) {
        assert forall|i: int| 0 <= i < a.len() implies value_view(#[trigger] a[i]) == value_view(b[i]) by {
            assert(values_view(a)[i] == values_view(b)[i]);
        }
    }
}

proof fn lemma_entry_views_equal(a: Seq<Entry>, b: Seq<Entry>)
    ensures
        entries_view(a) == entries_view(b) <==> (a.len() == b.len() && forall|i: int|
            0 <= i < a.len() ==> (#[trigger] a[i]).name@ == b[i].name@ && value_view(a[i].value)
                == value_view(b[i].value)),
{
    lemma_entries_view(a);
    lemma_entries_view(b);
    if a.len() == b.len() && forall|i: int|
        0 <= i < a.len() ==> (#[trigger] a[i]).name@ == b[i].name@ && value_view(a[i].value)
            == value_view(b[i].value) {
        assert(entries_view(a) =~= entries_view(b));
    }
    if entries_view(a) == entries_view(b) {
        assert forall|i: int|
            0 <= i < a.len() implies (#[trigger] a[i]).name@ == b[i].name@ && value_view(a[i].value)
                == value_view(b[i].value) by {
            assert(entries_view(a)[i] == entries_view(b)[i]);
        }
    }
}

/// Whether two values are the same, part for part.
pub fn same_value(a: &Value, b: &Value) -> (r: bool)
    ensures
        r == (a@ == b@),
    decreases a,
{
    match (a, b) {
        (Value::Null, Value::Null) => true,
        (Value::Bool(x), Value::Bool(y)) => *x == *y,
        (Value::Integer(x), Value::Integer(y)) => *x == *y,
        (Value::Float(x), Value::Float(y)) => x.bits == y.bits && str_eq(x.text.as_str(), y.text.as_str()),
        (Value::String(x), Value::String(y)) => str_eq(x.as_str(), y.as_str()),
        (Value::SafeHtml(x), Value::SafeHtml(y)) => str_eq(x.as_str(), y.as_str()),
        (Value::SafeXml(x), Value::SafeXml(y)) => str_eq(x.as_str(), y.as_str()),
        (Value::SafeJsonString(x), Value::SafeJsonString(y)) => str_eq(x.as_str(), y.as_str()),
        (Value::Sequence(xs), Value::Sequence(ys)) => {
            let r = same_values(xs, ys);
            proof {
                if r {
                    assert(a@ == ValueV::Sequence(values_view(xs@)));
                }
            }
            r
        },
        (Value::Dict(xs), Value::Dict(ys)) => same_entries(xs, ys),
        _ => false,
    }
}

fn same_values(xs: &Vec<Value>, ys: &Vec<Value>) -> (r: bool)
    ensures
        r == (values_view(xs@) == values_view(ys@)),
    decreases xs,
{
    proof {
        lemma_views_equal(xs@, ys@);
    }
    if xs.len() != ys.len() {
        return false;
    }
    let mut i: usize = 0;
    while i < xs.len()
        invariant
            i <= xs@.len(),
            xs@.len() == ys@.len(),
            forall|j: int| 0 <= j < i ==> value_view(#[trigger] xs@[j]) == value_view(ys@[j]),
        decreases xs@.len() - i,
    {
        proof {
            assert(decreases_to!(xs => xs@[i as int]));
        }
        if !same_value(&xs[i], &ys[i]) {
            proof {
                lemma_views_equal(xs@, ys@);
            }
            return false;
        }
        i = i + 1;
    }
    true
}

fn same_entries(xs: &Vec<Entry>, ys: &Vec<Entry>) -> (r: bool)
    ensures
        r == (entries_view(xs@) == entries_view(ys@)),
    decreases xs,
{
    proof {
        lemma_entry_views_equal(xs@, ys@);
    }
    if xs.len() != ys.len() {
        return false;
    }
    let mut i: usize = 0;
    while i < xs.len()
        invariant
            i <= xs@.len(),
            xs@.len() == ys@.len(),
            forall|j: int|
                0 <= j < i ==> (#[trigger] xs@[j]).name@ == ys@[j].name@ && value_view(xs@[j].value)
                    == value_view(ys@[j].value),
        decreases xs@.len() - i,
    {
        proof {
            assert(decreases_to!(xs => xs@[i as int]));
            assert(decreases_to!(xs@[i as int] => xs@[i as int].value));
        }
        if !str_eq(xs[i].name.as_str(), ys[i].name.as_str()) {
            proof {
                lemma_entry_views_equal(xs@, ys@);
            }
            return false;
        }
        if !same_value(&xs[i].value, &ys[i].value) {
            proof {
                lemma_entry_views_equal(xs@, ys@);
            }
            return false;
        }
        i = i + 1;
    }
    true
}

fn bare_error(code: ErrorCode, message: String) -> (e: RenderError)
    ensures
        bare(e, code, message@),
{
    RenderError::new(code, message)
}

fn pair_error(operation: &str, l: &Value, r: &Value) -> (e: RenderError)
    ensures
        bare(e, ErrorCode::Type, pair_message(operation@, l@, r@)),
{
    let mut m = String::new();
    push_str(&mut m, "cannot ");
    push_str(&mut m, operation);
    push_str(&mut m, " ");
    push_str(&mut m, l.kind_name());
    push_str(&mut m, " and ");
    push_str(&mut m, r.kind_name());
    proof {
        assert(m@ =~= pair_message(operation@, l@, r@));
    }
    bare_error(ErrorCode::Type, m)
}

fn checked_integer_exec(op: BinaryOp, a: i64, b: i64) -> (r: Option<i64>)
    requires
        !(op is Equal || op is NotEqual || op is Less || op is LessEqual || op is Greater
            || op is GreaterEqual || op is And || op is Or || op is Elvis),
    ensures
        r == checked_integer(op, a, b),
{
    match op {
        BinaryOp::Add => a.checked_add(b),
        BinaryOp::Subtract => a.checked_sub(b),
        BinaryOp::Multiply => a.checked_mul(b),
        BinaryOp::Divide => a.checked_div(b),
        _ => a.checked_rem(b),
    }
}

/// Applies a binary operator other than `&&`, `||` and `?:` to two values.
/// `None` means that the operator compares or computes with floating-point
/// numbers, which is the caller's to do.
pub fn binary_exact(op: BinaryOp, left: &Value, right: &Value) -> (r: Option<Result<Value, RenderError>>)
    requires
        !(op is And || op is Or || op is Elvis),
    ensures
        outcome_view(r) == binary_outcome(op, left@, right@),
        unlocated(r),
{
    let numbers = matches!(left, Value::Integer(_) | Value::Float(_)) && matches!(right, Value::Integer(_) | Value::Float(_));
    match op {
        BinaryOp::Equal | BinaryOp::NotEqual => {
            if numbers || contains_float(left) || contains_float(right) {
                None
            } else {
                let same = same_value(left, right);
                Some(Ok(Value::Bool(same == matches!(op, BinaryOp::Equal))))
            }
        },
        BinaryOp::Less | BinaryOp::LessEqual | BinaryOp::Greater | BinaryOp::GreaterEqual => {
            if numbers {
                None
            } else {
                match (left, right) {
                    (Value::String(a), Value::String(b)) => {
                        let x = chars_of(a.as_str());
                        let y = chars_of(b.as_str());
                        let eq = chars_eq(x.as_slice(), y.as_slice());
                        let b = match op {
                            BinaryOp::Less => chars_lt(x.as_slice(), y.as_slice()),
                            BinaryOp::LessEqual => chars_lt(x.as_slice(), y.as_slice()) || eq,
                            BinaryOp::Greater => chars_lt(y.as_slice(), x.as_slice()),
                            _ => chars_lt(y.as_slice(), x.as_slice()) || eq,
                        };
                        Some(Ok(Value::Bool(b)))
                    },
                    _ => Some(Err(pair_error("compare", left, right))),
                }
            }
        },
        BinaryOp::Add => match (left, right) {
            (Value::Integer(a), Value::Integer(b)) => match a.checked_add(*b) {
                Some(c) => Some(Ok(Value::Integer(c))),
                None => Some(Err(bare_error(ErrorCode::Arithmetic, "integer overflow".to_string()))),
            },
            _ => {
                if numbers {
                    None
                } else if matches!(left, Value::String(_)) || matches!(right, Value::String(_)) {
                    let mut s = left.plain_text();
                    let t = right.plain_text();
                    push_str(&mut s, t.as_str());
                    Some(Ok(Value::String(s)))
                } else {
                    Some(Err(pair_error("add", left, right)))
                }
            },
        },
        _ => match (left, right) {
            (Value::Integer(a), Value::Integer(b)) => match checked_integer_exec(op, *a, *b) {
                Some(c) => Some(Ok(Value::Integer(c))),
                None => Some(
                    Err(
                        bare_error(
                            ErrorCode::Arithmetic,
                            "invalid integer arithmetic (overflow or division by zero)".to_string(),
                        ),
                    ),
                ),
            },
            _ => {
                if numbers {
                    None
                } else {
                    Some(Err(pair_error("perform arithmetic on", left, right)))
                }
            },
        },
    }
}

/// What `-value` gives.
pub open spec fn negate_outcome(v: ValueV) -> OutcomeV {
    match v {
        ValueV::Integer(i) => if i == i64::MIN {
            OutcomeV::Failure(ErrorCode::Arithmetic, "integer overflow"@)
        } else {
            OutcomeV::Value(ValueV::Integer((-i) as i64))
        },
        ValueV::Float(..) => OutcomeV::Float,
        _ => OutcomeV::Failure(ErrorCode::Type, "cannot negate "@ + kind_name_of(v)),
    }
}

/// Negates a value; `None` for a floating-point number, which is the caller's
/// to negate.
pub fn negate_exact(v: &Value) -> (r: Option<Result<Value, RenderError>>)
    ensures
        outcome_view(r) == negate_outcome(v@),
        unlocated(r),
{
    match v {
        Value::Integer(i) => if *i == i64::MIN {
            Some(Err(bare_error(ErrorCode::Arithmetic, "integer overflow".to_string())))
        } else {
            Some(Ok(Value::Integer(-*i)))
        },
        Value::Float(_) => None,
        _ => {
            let mut m = "cannot negate ".to_string();
            push_str(&mut m, v.kind_name());
            Some(Err(bare_error(ErrorCode::Type, m)))
        },
    }
}

// ---------------------------------------------------------------------------
// Output
// ---------------------------------------------------------------------------

/// What an output tag writes for a value: safe markup of the output's own
/// kind as it is, any other scalar as its text escaped for the media type;
/// sequences and maps cannot be written (`None`).
pub open spec fn written_text(v: ValueV, media_type: MediaType) -> Option<Seq<char>> {
    match v {
        ValueV::Sequence(_) => None,
        ValueV::Dict(_) => None,
        ValueV::SafeHtml(s) if media_type == MediaType::Html => Some(s),
        ValueV::SafeXml(s) if media_type == MediaType::Xml => Some(s),
        ValueV::SafeJsonString(s) if media_type == MediaType::Json => Some(s),
        _ => Some(escaped_for(media_type, plain_text_of(v))),
    }
}

/// Writes a value into the output of a rendering.
pub fn write_value(value: &Value, media_type: MediaType, output: &mut String) -> (r: Result<(), RenderError>)
    ensures
        match written_text(value@, media_type) {
            Some(t) => r is Ok && final(output)@ == old(output)@ + t,
            None => r matches Err(e) && bare(e, ErrorCode::Type, "cannot render "@ + kind_name_of(value@) + " directly"@)
                && final(output)@ == old(output)@,
        },
{
    match value {
        Value::Sequence(_) | Value::Dict(_) => {
            let mut m = "cannot render ".to_string();
            push_str(&mut m, value.kind_name());
            push_str(&mut m, " directly");
            return Err(RenderError::new(ErrorCode::Type, m));
        },
        Value::SafeHtml(s) => {
            if media_type == MediaType::Html {
                push_str(output, s.as_str());
                return Ok(());
            }
        },
        Value::SafeXml(s) => {
            if media_type == MediaType::Xml {
                push_str(output, s.as_str());
                return Ok(());
            }
        },
        Value::SafeJsonString(s) => {
            if media_type == MediaType::Json {
                push_str(output, s.as_str());
                return Ok(());
            }
        },
        _ => {},
    }
    let text = value.plain_text();
    write_escaped(text.as_str(), media_type, output);
    Ok(())
}

// ---------------------------------------------------------------------------
// Missing values and short-circuits
// ---------------------------------------------------------------------------

/// A failure that `??` and `?:` recover from: a value that could not be
/// resolved, or an operand inside that could not be.
pub open spec fn recoverable(r: Result<Resolution<Value>, RenderError>) -> bool {
    match r {
        Ok(Resolution::NotFound) => true,
        Ok(Resolution::Value(_)) => false,
        Err(e) => e.code == ErrorCode::MissingValue,
    }
}

/// `?:` takes its right side exactly when its left side is missing, null, or
/// failed for a missing operand inside it.
pub fn elvis_takes_right(left: &Result<Resolution<Value>, RenderError>) -> (b: bool)
    ensures
        b == (recoverable(*left) || (left matches Ok(Resolution::Value(v)) && v@ == ValueV::Null)),
{
    match left {
        Ok(Resolution::NotFound) => true,
        Ok(Resolution::Value(Value::Null)) => true,
        Ok(Resolution::Value(_)) => false,
        Err(e) => e.code == ErrorCode::MissingValue,
    }
}

/// The value of `&&` or `||` when the left operand decides it: `false` for
/// `&&` after a falsy left side, `true` for `||` after a truthy one. `None`
/// when the right operand decides, by its truthiness.
pub fn logical_shortcut(op: BinaryOp, left: &Value) -> (r: Option<bool>)
    requires
        op == BinaryOp::And || op == BinaryOp::Or,
    ensures
        r == (if op == BinaryOp::And {
            if truthy(left@) {
                None
            } else {
                Some(false)
            }
        } else if truthy(left@) {
            Some(true)
        } else {
            None
        }),
{
    let t = left.is_truthy();
    match op {
        BinaryOp::And => if t {
            None
        } else {
            Some(false)
        },
        _ => if t {
            Some(true)
        } else {
            None
        },
    }
}

// ---------------------------------------------------------------------------
// What a missing value costs
// ---------------------------------------------------------------------------

/// What an output tag whose expression could not be resolved yields: an
/// error in strict mode, else nothing (the tag writes nothing).
pub fn unresolved_output(strict: bool) -> (r: Option<RenderError>)
    ensures
        r is Some <==> strict,
        r matches Some(e) ==> bare(e, ErrorCode::MissingValue, "expression could not be resolved"@),
{
    if strict {
        Some(RenderError::new(ErrorCode::MissingValue, "expression could not be resolved".to_string()))
    } else {
        None
    }
}

/// What a section argument that could not be resolved yields: an error in
/// strict mode, else null.
pub fn unresolved_argument(strict: bool) -> (r: Result<Value, RenderError>)
    ensures
        match r {
            Ok(v) => !strict && v@ == ValueV::Null,
            Err(e) => strict && bare(e, ErrorCode::MissingValue, "section argument could not be resolved"@),
        },
{
    if strict {
        Err(RenderError::new(ErrorCode::MissingValue, "section argument could not be resolved".to_string()))
    } else {
        Ok(Value::Null)
    }
}

/// The error for a section without the argument it needs.
pub fn missing_argument() -> (e: RenderError)
    ensures
        bare(e, ErrorCode::Type, "section argument is missing"@),
{
    RenderError::new(ErrorCode::Type, "section argument is missing".to_string())
}

/// The error for an operand, index or call argument that could not be
/// resolved: these are needed whatever the mode.
pub fn unresolved_operand() -> (e: RenderError)
    ensures
        bare(e, ErrorCode::MissingValue, "expression operand could not be resolved"@),
{
    RenderError::new(ErrorCode::MissingValue, "expression operand could not be resolved".to_string())
}

/// The error for calling something other than a namespace or member function.
pub fn not_callable() -> (e: RenderError)
    ensures
        bare(e, ErrorCode::Type, "only namespace and member functions can be called"@),
{
    RenderError::new(ErrorCode::Type, "only namespace and member functions can be called".to_string())
}

} // verus!

verus! {

/// The built-in members of a sequence: `first` is its item at position 0 and
/// `last` its final item (nothing for an empty sequence), `get(i)` reads
/// position `i` as indexing does, `size` and `length` count its items, and
/// `isEmpty`/`empty` tell whether it has none.
pub proof fn law_sequence_members(vs: Seq<ValueV>, i: ValueV)
    requires
        vs.len() <= i64::MAX,
    ensures
        vs.len() > 0 ==> builtin_member(ValueV::Sequence(vs), "first"@, Seq::empty()) == Some(vs[0]),
        vs.len() > 0 ==> builtin_member(ValueV::Sequence(vs), "last"@, Seq::empty()) == Some(vs[vs.len() - 1]),
        vs.len() == 0 ==> builtin_member(ValueV::Sequence(vs), "first"@, Seq::empty()) is None
            && builtin_member(ValueV::Sequence(vs), "last"@, Seq::empty()) is None,
        builtin_member(ValueV::Sequence(vs), "get"@, seq![i]) == index_value(ValueV::Sequence(vs), i),
        builtin_member(ValueV::Sequence(vs), "size"@, Seq::empty()) == Some(ValueV::Integer(vs.len() as i64)),
        builtin_member(ValueV::Sequence(vs), "length"@, Seq::empty()) == Some(ValueV::Integer(vs.len() as i64)),
        builtin_member(ValueV::Sequence(vs), "isEmpty"@, Seq::empty()) == Some(ValueV::Bool(vs.len() == 0)),
        builtin_member(ValueV::Sequence(vs), "empty"@, Seq::empty()) == Some(ValueV::Bool(vs.len() == 0)),
{
    reveal_strlit("first");
    reveal_strlit("last");
    reveal_strlit("get");
    reveal_strlit("size");
    reveal_strlit("length");
    reveal_strlit("isEmpty");
    reveal_strlit("empty");
    assert("first"@[0] != "empty"@[0] && "first"@[0] != "size"@[0] && "first"@[0] != "length"@[0]);
    assert("first"@ != "empty"@ && "first"@ != "size"@ && "first"@ != "length"@ && "first"@ != "isEmpty"@);
    assert("last"@[0] != "size"@[0] && "last"@[1] != "length"@[1] && "last"@[0] != "first"@[0]);
    assert("last"@ != "size"@ && "last"@ != "length"@ && "last"@ != "isEmpty"@ && "last"@ != "empty"@
        && "last"@ != "first"@);
}

} // verus!

verus! {

/// A map answers a member name without arguments with its entry of that
/// name; a string's `size` and `length` count its characters; any other
/// value has no built-in members.
pub proof fn law_map_and_string_members(
    es: Seq<(Seq<char>, ValueV)>,
    s: Seq<char>,
    name: Seq<char>,
    args: Seq<ValueV>,
    other: ValueV,
)
    requires
        s.len() <= i64::MAX,
        !(other is Dict || other is Sequence || other is String),
    ensures
        builtin_member(ValueV::Dict(es), name, Seq::empty()) == map_lookup(es, name),
        args.len() > 0 ==> builtin_member(ValueV::Dict(es), name, args) is None,
        builtin_member(ValueV::String(s), "size"@, Seq::empty()) == Some(ValueV::Integer(s.len() as i64)),
        builtin_member(ValueV::String(s), "length"@, Seq::empty()) == Some(ValueV::Integer(s.len() as i64)),
        builtin_member(other, name, args) is None,
{
}

} // verus!
