//! The dynamic values that templates read.

use vstd::prelude::*;

use crate::escape::{decimal, format_integer};
use crate::messages::{
    chars_lt, lemma_seq_lt_irreflexive, lemma_seq_lt_total, lemma_seq_lt_transitive, seq_lt,
};
use crate::text::{chars_eq, chars_of};

verus! {

/// A floating-point number: its IEEE-754 bit pattern and the decimal text that
/// its `Display` gives.
#[derive(Debug, Clone, PartialEq)]
pub struct Float {
    pub bits: u64,
    pub text: String,
}

/// A value understood by the dynamic evaluator.
///
/// A map holds its entries in increasing order of name, each name once; the
/// operations below keep it so.
#[derive(Debug)]
pub enum Value {
    Null,
    Bool(bool),
    Integer(i64),
    Float(Float),
    String(String),
    Sequence(Vec<Value>),
    Dict(Vec<Entry>),
    SafeHtml(String),
    SafeXml(String),
    SafeJsonString(String),
}

/// A named value of a map.
#[derive(Debug)]
pub struct Entry {
    pub name: String,
    pub value: Value,
}

/// The outcome of looking something up: a value, or nothing by that name.
#[derive(Debug, Clone, PartialEq)]
pub enum Resolution<T> {
    Value(T),
    NotFound,
}

/// The mathematical content of a value.
pub enum ValueV {
    Null,
    Bool(bool),
    Integer(i64),
    Float(u64, Seq<char>),
    String(Seq<char>),
    Sequence(Seq<ValueV>),
    Dict(Seq<(Seq<char>, ValueV)>),
    SafeHtml(Seq<char>),
    SafeXml(Seq<char>),
    SafeJsonString(Seq<char>),
}

pub open spec fn value_view(v: Value) -> ValueV
    decreases v,
{
    match v {
        Value::Null => ValueV::Null,
        Value::Bool(b) => ValueV::Bool(b),
        Value::Integer(i) => ValueV::Integer(i),
        Value::Float(f) => ValueV::Float(f.bits, f.text@),
        Value::String(s) => ValueV::String(s@),
        Value::Sequence(items) => ValueV::Sequence(values_view(items@)),
        Value::Dict(entries) => ValueV::Dict(entries_view(entries@)),
        Value::SafeHtml(s) => ValueV::SafeHtml(s@),
        Value::SafeXml(s) => ValueV::SafeXml(s@),
        Value::SafeJsonString(s) => ValueV::SafeJsonString(s@),
    }
}

pub open spec fn values_view(vs: Seq<Value>) -> Seq<ValueV>
    decreases vs,
{
    if vs.len() == 0 {
        Seq::empty()
    } else {
        seq![value_view(vs[0])] + values_view(vs.drop_first())
    }
}

pub open spec fn entries_view(es: Seq<Entry>) -> Seq<(Seq<char>, ValueV)>
    decreases es,
{
    if es.len() == 0 {
        Seq::empty()
    } else {
        seq![(es[0].name@, value_view(es[0].value))] + entries_view(es.drop_first())
    }
}

impl View for Value {
    type V = ValueV;

    open spec fn view(&self) -> ValueV {
        value_view(*self)
    }
}

impl<T: View> View for Resolution<T> {
    type V = Option<T::V>;

    open spec fn view(&self) -> Option<T::V> {
        match self {
            Resolution::Value(v) => Some(v@),
            Resolution::NotFound => None,
        }
    }
}

pub proof fn lemma_values_view(vs: Seq<Value>)
    ensures
        values_view(vs).len() == vs.len(),
        forall|i: int| 0 <= i < vs.len() ==> #[trigger] values_view(vs)[i] == value_view(vs[i]),
    decreases vs.len(),
{
    if vs.len() > 0 {
        lemma_values_view(vs.drop_first());
        assert forall|i: int| 0 <= i < vs.len() implies #[trigger] values_view(vs)[i] == value_view(
            vs[i],
        ) by {
            if i > 0 {
                assert(vs.drop_first()[i - 1] == vs[i]);
            }
        }
    }
}

pub proof fn lemma_entries_view(es: Seq<Entry>)
    ensures
        entries_view(es).len() == es.len(),
        forall|i: int|
            0 <= i < es.len() ==> #[trigger] entries_view(es)[i] == (es[i].name@, value_view(es[i].value)),
    decreases es.len(),
{
    if es.len() > 0 {
        lemma_entries_view(es.drop_first());
        assert forall|i: int| 0 <= i < es.len() implies #[trigger] entries_view(es)[i] == (
            es[i].name@,
            value_view(es[i].value),
        ) by {
            if i > 0 {
                assert(es.drop_first()[i - 1] == es[i]);
            }
        }
    }
}

/// Views of equal length that agree everywhere are equal.
proof fn lemma_values_view_ext(a: Seq<Value>, b: Seq<Value>)
    requires
        a.len() == b.len(),
        forall|i: int| 0 <= i < a.len() ==> value_view(#[trigger] a[i]) == value_view(b[i]),
    ensures
        values_view(a) == values_view(b),
{
    lemma_values_view(a);
    lemma_values_view(b);
    assert(values_view(a) =~= values_view(b));
}

proof fn lemma_entries_view_ext(a: Seq<Entry>, b: Seq<Entry>)
    requires
        a.len() == b.len(),
        forall|i: int|
            0 <= i < a.len() ==> (#[trigger] a[i]).name@ == b[i].name@ && value_view(a[i].value)
                == value_view(b[i].value),
    ensures
        entries_view(a) == entries_view(b),
{
    lemma_entries_view(a);
    lemma_entries_view(b);
    assert(entries_view(a) =~= entries_view(b));
}

// ---------------------------------------------------------------------------
// Copies
// ---------------------------------------------------------------------------

/// A deep copy of a value.
pub fn clone_value(v: &Value) -> (r: Value)
    ensures
        r@ == v@,
    decreases v,
{
    match v {
        Value::Null => Value::Null,
        Value::Bool(b) => Value::Bool(*b),
        Value::Integer(i) => Value::Integer(*i),
        Value::Float(f) => Value::Float(Float { bits: f.bits, text: f.text.clone() }),
        Value::String(s) => Value::String(s.clone()),
        Value::Sequence(items) => Value::Sequence(clone_values(items)),
        Value::Dict(entries) => Value::Dict(clone_entries(entries)),
        Value::SafeHtml(s) => Value::SafeHtml(s.clone()),
        Value::SafeXml(s) => Value::SafeXml(s.clone()),
        Value::SafeJsonString(s) => Value::SafeJsonString(s.clone()),
    }
}

/// A deep copy of a list of values.
pub fn clone_values(vs: &Vec<Value>) -> (r: Vec<Value>)
    ensures
        values_view(r@) == values_view(vs@),
    decreases vs,
{
    let mut r: Vec<Value> = Vec::new();
    let mut i: usize = 0;
    while i < vs.len()
        invariant
            i <= vs@.len(),
            r@.len() == i,
            forall|j: int| 0 <= j < i ==> value_view(#[trigger] r@[j]) == value_view(vs@[j]),
        decreases vs@.len() - i,
    {
        proof {
            assert(decreases_to!(vs => vs@[i as int]));
        }
        let c = clone_value(&vs[i]);
        r.push(c);
        i = i + 1;
    }
    proof {
        lemma_values_view_ext(r@, vs@);
    }
    r
}

/// A deep copy of a map's entries.
pub fn clone_entries(es: &Vec<Entry>) -> (r: Vec<Entry>)
    ensures
        entries_view(r@) == entries_view(es@),
    decreases es,
{
    let mut r: Vec<Entry> = Vec::new();
    let mut i: usize = 0;
    while i < es.len()
        invariant
            i <= es@.len(),
            r@.len() == i,
            forall|j: int|
                0 <= j < i ==> (#[trigger] r@[j]).name@ == es@[j].name@ && value_view(r@[j].value)
                    == value_view(es@[j].value),
        decreases es@.len() - i,
    {
        proof {
            assert(decreases_to!(es => es@[i as int]));
            assert(decreases_to!(es@[i as int] => es@[i as int].value));
        }
        let c = clone_value(&es[i].value);
        let k = es[i].name.clone();
        r.push(Entry { name: k, value: c });
        i = i + 1;
    }
    proof {
        lemma_entries_view_ext(r@, es@);
    }
    r
}

// ---------------------------------------------------------------------------
// Truthiness, type names and plain text
// ---------------------------------------------------------------------------

/// The bits of a float other than its sign are zero: it is `0.0` or `-0.0`.
pub open spec fn float_is_zero(bits: u64) -> bool {
    bits & 0x7fff_ffff_ffff_ffffu64 == 0
}

/// Whether a value counts as true in a condition: `null`, `false`, zero and
/// empty strings, sequences and maps are false; everything else is true.
pub open spec fn truthy(v: ValueV) -> bool {
    match v {
        ValueV::Null => false,
        ValueV::Bool(b) => b,
        ValueV::Integer(i) => i != 0,
        ValueV::Float(bits, _) => !float_is_zero(bits),
        ValueV::String(s) => s.len() > 0,
        ValueV::SafeHtml(s) => s.len() > 0,
        ValueV::SafeXml(s) => s.len() > 0,
        ValueV::SafeJsonString(s) => s.len() > 0,
        ValueV::Sequence(s) => s.len() > 0,
        ValueV::Dict(m) => m.len() > 0,
    }
}

/// The name of a value's kind, as error messages give it.
pub open spec fn kind_name_of(v: ValueV) -> Seq<char> {
    match v {
        ValueV::Null => "null"@,
        ValueV::Bool(_) => "boolean"@,
        ValueV::Integer(_) => "integer"@,
        ValueV::Float(..) => "float"@,
        ValueV::String(_) => "string"@,
        ValueV::Sequence(_) => "sequence"@,
        ValueV::Dict(_) => "map"@,
        ValueV::SafeHtml(_) => "safe HTML"@,
        ValueV::SafeXml(_) => "safe XML"@,
        ValueV::SafeJsonString(_) => "safe JSON string"@,
    }
}

/// The text a value stands for when it is written or concatenated.
pub open spec fn plain_text_of(v: ValueV) -> Seq<char> {
    match v {
        ValueV::Null => Seq::empty(),
        ValueV::Bool(b) => if b {
            "true"@
        } else {
            "false"@
        },
        ValueV::Integer(i) => decimal(i as int),
        ValueV::Float(_, text) => text,
        ValueV::String(s) => s,
        ValueV::SafeHtml(s) => s,
        ValueV::SafeXml(s) => s,
        ValueV::SafeJsonString(s) => s,
        ValueV::Sequence(_) => "[sequence]"@,
        ValueV::Dict(_) => "[map]"@,
    }
}

fn text_is_empty(s: &String) -> (r: bool)
    ensures
        r == (s@.len() == 0),
{
    chars_of(s.as_str()).len() == 0
}

impl Value {
    /// Whether the value counts as true in a condition.
    pub fn is_truthy(&self) -> (r: bool)
        ensures
            r == truthy(self@),
    {
        match self {
            Value::Null => false,
            Value::Bool(b) => *b,
            Value::Integer(i) => *i != 0,
            Value::Float(f) => (f.bits & 0x7fff_ffff_ffff_ffffu64) != 0,
            Value::String(s) => !text_is_empty(s),
            Value::SafeHtml(s) => !text_is_empty(s),
            Value::SafeXml(s) => !text_is_empty(s),
            Value::SafeJsonString(s) => !text_is_empty(s),
            Value::Sequence(items) => {
                proof {
                    lemma_values_view(items@);
                }
                items.len() != 0
            },
            Value::Dict(entries) => {
                proof {
                    lemma_entries_view(entries@);
                }
                entries.len() != 0
            },
        }
    }

    /// The name of the value's kind.
    pub fn kind_name(&self) -> (r: &'static str)
        ensures
            r@ == kind_name_of(self@),
    {
        match self {
            Value::Null => "null",
            Value::Bool(_) => "boolean",
            Value::Integer(_) => "integer",
            Value::Float(_) => "float",
            Value::String(_) => "string",
            Value::Sequence(_) => "sequence",
            Value::Dict(_) => "map",
            Value::SafeHtml(_) => "safe HTML",
            Value::SafeXml(_) => "safe XML",
            Value::SafeJsonString(_) => "safe JSON string",
        }
    }

    /// The text the value stands for.
    pub fn plain_text(&self) -> (r: String)
        ensures
            r@ == plain_text_of(self@),
    {
        match self {
            Value::Null => String::new(),
            Value::Bool(b) => if *b {
                "true".to_string()
            } else {
                "false".to_string()
            },
            Value::Integer(i) => format_integer(*i as i128),
            Value::Float(f) => f.text.clone(),
            Value::String(s) => s.clone(),
            Value::SafeHtml(s) => s.clone(),
            Value::SafeXml(s) => s.clone(),
            Value::SafeJsonString(s) => s.clone(),
            Value::Sequence(_) => "[sequence]".to_string(),
            Value::Dict(_) => "[map]".to_string(),
        }
    }
}

// ---------------------------------------------------------------------------
// Maps
// ---------------------------------------------------------------------------

/// The entries' names strictly increase.
pub open spec fn keys_sorted(es: Seq<(Seq<char>, ValueV)>) -> bool {
    forall|i: int, j: int| 0 <= i < j < es.len() ==> seq_lt(#[trigger] es[i].0, #[trigger] es[j].0)
}

/// The value of the first entry named `key`.
pub open spec fn map_lookup(es: Seq<(Seq<char>, ValueV)>, key: Seq<char>) -> Option<ValueV>
    decreases es.len(),
{
    if es.len() == 0 {
        None
    } else if es[0].0 == key {
        Some(es[0].1)
    } else {
        map_lookup(es.drop_first(), key)
    }
}

/// How many leading entries have names before `key`.
pub open spec fn insert_index(es: Seq<(Seq<char>, ValueV)>, key: Seq<char>) -> int
    decreases es.len(),
{
    if es.len() == 0 || !seq_lt(es[0].0, key) {
        0
    } else {
        1 + insert_index(es.drop_first(), key)
    }
}

/// The entries after setting `key` to `value`: the entry of that name is
/// replaced, or a new one goes where the order puts it.
pub open spec fn map_put(es: Seq<(Seq<char>, ValueV)>, key: Seq<char>, value: ValueV) -> Seq<
    (Seq<char>, ValueV),
> {
    let i = insert_index(es, key);
    if i < es.len() && es[i].0 == key {
        es.update(i, (key, value))
    } else {
        es.insert(i, (key, value))
    }
}

proof fn lemma_insert_index(es: Seq<(Seq<char>, ValueV)>, key: Seq<char>, i: int)
    requires
        0 <= i <= es.len(),
        forall|j: int| 0 <= j < i ==> seq_lt(#[trigger] es[j].0, key),
        i == es.len() || !seq_lt(es[i].0, key),
    ensures
        insert_index(es, key) == i,
    decreases i,
{
    if i > 0 {
        assert forall|j: int| 0 <= j < i - 1 implies seq_lt(#[trigger] es.drop_first()[j].0, key) by {
            assert(es.drop_first()[j] == es[j + 1]);
        }
        lemma_insert_index(es.drop_first(), key, i - 1);
    }
}

proof fn lemma_insert_index_bounds(es: Seq<(Seq<char>, ValueV)>, key: Seq<char>)
    ensures
        0 <= insert_index(es, key) <= es.len(),
        forall|j: int| 0 <= j < insert_index(es, key) ==> seq_lt(#[trigger] es[j].0, key),
        insert_index(es, key) == es.len() || !seq_lt(es[insert_index(es, key)].0, key),
    decreases es.len(),
{
    if es.len() > 0 && seq_lt(es[0].0, key) {
        lemma_insert_index_bounds(es.drop_first(), key);
        assert forall|j: int| 0 <= j < insert_index(es, key) implies seq_lt(#[trigger] es[j].0, key) by {
            if j > 0 {
                assert(es.drop_first()[j - 1] == es[j]);
            }
        }
    }
}

proof fn lemma_lookup_index(es: Seq<(Seq<char>, ValueV)>, key: Seq<char>, i: int)
    requires
        0 <= i < es.len(),
        es[i].0 == key,
        forall|j: int| 0 <= j < i ==> (#[trigger] es[j]).0 != key,
    ensures
        map_lookup(es, key) == Some(es[i].1),
    decreases i,
{
    if i > 0 {
        assert forall|j: int| 0 <= j < i - 1 implies (#[trigger] es.drop_first()[j]).0 != key by {
            assert(es.drop_first()[j] == es[j + 1]);
        }
        lemma_lookup_index(es.drop_first(), key, i - 1);
    }
}

proof fn lemma_lookup_absent(es: Seq<(Seq<char>, ValueV)>, key: Seq<char>)
    requires
        forall|j: int| 0 <= j < es.len() ==> (#[trigger] es[j]).0 != key,
    ensures
        map_lookup(es, key) is None,
    decreases es.len(),
{
    if es.len() > 0 {
        assert forall|j: int| 0 <= j < es.len() - 1 implies (#[trigger] es.drop_first()[j]).0 != key by {
            assert(es.drop_first()[j] == es[j + 1]);
        }
        lemma_lookup_absent(es.drop_first(), key);
    }
}

/// `map_lookup` is the first entry of that name, or nothing when there is none.
proof fn lemma_lookup_cases(es: Seq<(Seq<char>, ValueV)>, key: Seq<char>)
    ensures
        map_lookup(es, key) is None <==> forall|j: int| 0 <= j < es.len() ==> (#[trigger] es[j]).0 != key,
        map_lookup(es, key) matches Some(v) ==> exists|i: int|
            0 <= i < es.len() && #[trigger] es[i].0 == key && es[i].1 == v && forall|j: int|
                0 <= j < i ==> (#[trigger] es[j]).0 != key,
    decreases es.len(),
{
    if es.len() > 0 {
        lemma_lookup_cases(es.drop_first(), key);
        if es[0].0 == key {
            assert(es[0].0 == key && es[0].1 == es[0].1);
        } else {
            assert forall|j: int| 0 <= j < es.len() - 1 implies #[trigger] es.drop_first()[j] == es[j + 1] by {}
            if map_lookup(es.drop_first(), key) is None {
                assert forall|j: int| 0 <= j < es.len() implies (#[trigger] es[j]).0 != key by {
                    if j > 0 {
                        assert(es.drop_first()[j - 1] == es[j]);
                    }
                }
            } else {
                let i = choose|i: int|
                    0 <= i < es.len() - 1 && #[trigger] es.drop_first()[i].0 == key
                        && es.drop_first()[i].1 == map_lookup(es.drop_first(), key)->0 && forall|j: int|
                        0 <= j < i ==> (#[trigger] es.drop_first()[j]).0 != key;
                assert(es[i + 1] == es.drop_first()[i]);
                assert forall|j: int| 0 <= j < i + 1 implies (#[trigger] es[j]).0 != key by {
                    if j > 0 {
                        assert(es.drop_first()[j - 1] == es[j]);
                    }
                }
            }
        }
    }
}

/// Setting a name and reading it back gives the value that was set.
pub proof fn law_put_then_lookup(es: Seq<(Seq<char>, ValueV)>, key: Seq<char>, value: ValueV)
    ensures
        map_lookup(map_put(es, key, value), key) == Some(value),
{
    let i = insert_index(es, key);
    let r = map_put(es, key, value);
    lemma_insert_index_bounds(es, key);
    assert forall|j: int| 0 <= j < i implies (#[trigger] r[j]).0 != key by {
        lemma_seq_lt_irreflexive(key);
    }
    lemma_lookup_index(r, key, i);
}

/// Setting a name leaves what every other name reads unchanged.
pub proof fn law_put_keeps_other_names(
    es: Seq<(Seq<char>, ValueV)>,
    key: Seq<char>,
    value: ValueV,
    other: Seq<char>,
)
    requires
        other != key,
    ensures
        map_lookup(map_put(es, key, value), other) == map_lookup(es, other),
{
    let i = insert_index(es, key);
    let r = map_put(es, key, value);
    lemma_insert_index_bounds(es, key);
    lemma_lookup_cases(es, other);
    if map_lookup(es, other) is None {
        assert forall|j: int| 0 <= j < r.len() implies (#[trigger] r[j]).0 != other by {
            if i < es.len() && es[i].0 == key {
                if j != i {
                    assert(r[j] == es[j]);
                }
            } else if j < i {
                assert(r[j] == es[j]);
            } else if j > i {
                assert(r[j] == es[j - 1]);
            }
        }
        lemma_lookup_absent(r, other);
    } else {
        let k = choose|k: int|
            0 <= k < es.len() && #[trigger] es[k].0 == other && es[k].1 == map_lookup(es, other)->0
                && forall|j: int| 0 <= j < k ==> (#[trigger] es[j]).0 != other;
        if i < es.len() && es[i].0 == key {
            assert(k != i);
            assert forall|j: int| 0 <= j < k implies (#[trigger] r[j]).0 != other by {
                if j != i {
                    assert(r[j] == es[j]);
                }
            }
            lemma_lookup_index(r, other, k);
        } else if k < i {
            assert forall|j: int| 0 <= j < k implies (#[trigger] r[j]).0 != other by {
                assert(r[j] == es[j]);
            }
            lemma_lookup_index(r, other, k);
        } else {
            assert(r[k + 1] == es[k]);
            assert forall|j: int| 0 <= j < k + 1 implies (#[trigger] r[j]).0 != other by {
                if j < i {
                    assert(r[j] == es[j]);
                } else if j > i {
                    assert(r[j] == es[j - 1]);
                }
            }
            lemma_lookup_index(r, other, k + 1);
        }
    }
}

/// Setting a name keeps the entries in increasing order of name.
pub proof fn law_put_keeps_keys_sorted(es: Seq<(Seq<char>, ValueV)>, key: Seq<char>, value: ValueV)
    requires
        keys_sorted(es),
    ensures
        keys_sorted(map_put(es, key, value)),
{
    let i = insert_index(es, key);
    let r = map_put(es, key, value);
    lemma_insert_index_bounds(es, key);
    if i < es.len() && es[i].0 == key {
        assert forall|a: int, b: int| 0 <= a < b < r.len() implies seq_lt(
            #[trigger] r[a].0,
            #[trigger] r[b].0,
        ) by {
            assert(r[a].0 == es[a].0);
            assert(r[b].0 == es[b].0);
        }
    } else {
        assert forall|a: int, b: int| 0 <= a < b < r.len() implies seq_lt(
            #[trigger] r[a].0,
            #[trigger] r[b].0,
        ) by {
            if b < i {
                assert(r[a] == es[a] && r[b] == es[b]);
            } else if b == i {
                assert(r[a] == es[a]);
            } else if a < i {
                assert(r[a] == es[a] && r[b] == es[b - 1]);
            } else if a == i {
                assert(r[b] == es[b - 1]);
                lemma_seq_lt_total(es[i].0, key);
                if b - 1 > i {
                    lemma_seq_lt_transitive(key, es[i].0, es[b - 1].0);
                }
            } else {
                assert(r[a] == es[a - 1] && r[b] == es[b - 1]);
            }
        }
    }
}

/// The value of the entry named `key`, when there is one.
pub fn map_get(entries: &Vec<Entry>, key: &str) -> (r: Option<Value>)
    ensures
        match r {
            Some(v) => map_lookup(entries_view(entries@), key@) == Some(v@),
            None => map_lookup(entries_view(entries@), key@) is None,
        },
{
    let k = chars_of(key);
    let ghost ev = entries_view(entries@);
    proof {
        lemma_entries_view(entries@);
    }
    let mut i: usize = 0;
    while i < entries.len()
        invariant
            i <= entries@.len(),
            ev == entries_view(entries@),
            ev.len() == entries@.len(),
            k@ == key@,
            forall|j: int| 0 <= j < entries@.len() ==> #[trigger] ev[j] == (entries@[j].name@, value_view(entries@[j].value)),
            forall|j: int| 0 <= j < i ==> (#[trigger] ev[j]).0 != key@,
        decreases entries@.len() - i,
    {
        let name = chars_of(entries[i].name.as_str());
        if chars_eq(name.as_slice(), k.as_slice()) {
            proof {
                lemma_lookup_index(ev, key@, i as int);
            }
            return Some(clone_value(&entries[i].value));
        }
        i = i + 1;
    }
    proof {
        lemma_lookup_absent(ev, key@);
    }
    None
}

/// Sets `key` to `value`, replacing the entry of that name or adding one where
/// the order of names puts it.
pub fn map_insert(entries: &mut Vec<Entry>, key: String, value: Value)
    ensures
        entries_view(final(entries)@) == map_put(entries_view(old(entries)@), key@, value@),
{
    let ghost ev = entries_view(entries@);
    proof {
        lemma_entries_view(entries@);
    }
    let k = chars_of(key.as_str());
    let mut i: usize = 0;
    while i < entries.len()
        invariant
            i <= entries@.len(),
            ev == entries_view(entries@),
            ev.len() == entries@.len(),
            k@ == key@,
            forall|j: int| 0 <= j < entries@.len() ==> #[trigger] ev[j] == (entries@[j].name@, value_view(entries@[j].value)),
            forall|j: int| 0 <= j < i ==> seq_lt(#[trigger] ev[j].0, key@),
        ensures
            i <= entries@.len(),
            forall|j: int| 0 <= j < i ==> seq_lt(#[trigger] ev[j].0, key@),
            i == entries@.len() || !seq_lt(ev[i as int].0, key@),
        decreases entries@.len() - i,
    {
        let name = chars_of(entries[i].name.as_str());
        if !chars_lt(name.as_slice(), k.as_slice()) {
            break;
        }
        i = i + 1;
    }
    proof {
        lemma_insert_index(ev, key@, i as int);
    }
    let same = if i < entries.len() {
        let name = chars_of(entries[i].name.as_str());
        chars_eq(name.as_slice(), k.as_slice())
    } else {
        false
    };
    let ghost old_entries = entries@;
    let ghost vv = value@;
    if same {
        entries.set(i, Entry { name: key, value });
        proof {
            lemma_entries_view(entries@);
            assert(entries_view(entries@) =~= ev.update(i as int, (k@, vv)));
        }
    } else {
        entries.insert(i, Entry { name: key, value });
        proof {
            lemma_entries_view(entries@);
            assert forall|j: int| 0 <= j < entries@.len() implies #[trigger] entries_view(entries@)[j]
                == ev.insert(i as int, (k@, vv))[j] by {
                if j < i {
                    assert(entries@[j] == old_entries[j]);
                } else if j > i {
                    assert(entries@[j] == old_entries[j - 1]);
                }
            }
            assert(entries_view(entries@) =~= ev.insert(i as int, (k@, vv)));
        }
    }
}

} // verus!
