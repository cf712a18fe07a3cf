//! The scopes that names are looked up in while a template renders, and the
//! scopes that loops open.

use vstd::prelude::*;

use crate::engine::eval::bare;
use crate::engine::value::{
    clone_value, entries_view, kind_name_of, lemma_entries_view, lemma_values_view, map_get,
    map_insert, map_lookup, map_put, value_view, values_view, Entry, Resolution, Value, ValueV,
};
use crate::error::{ErrorCode, RenderError};
use crate::media::MediaType;
use crate::messages::texts;
use crate::text::{push_str, str_eq};
use crate::engine::value::{law_put_keeps_other_names, law_put_then_lookup};

verus! {

/// What the renderer keeps while it walks a template.
pub struct RenderState {
    /// Innermost scope last.
    pub scopes: Vec<Value>,
    /// The scope that the `data:` namespace reads.
    pub root: usize,
    /// The templates (and `template$fragment` keys) being rendered, outermost first.
    pub include_stack: Vec<String>,
    pub media_type: MediaType,
    pub language: Option<String>,
}

/// `name` in the innermost map scope that has it.
pub open spec fn scope_lookup(scopes: Seq<ValueV>, name: Seq<char>) -> Option<ValueV>
    decreases scopes.len(),
{
    if scopes.len() == 0 {
        None
    } else {
        match scopes.last() {
            ValueV::Dict(es) => match map_lookup(es, name) {
                Some(v) => Some(v),
                None => scope_lookup(scopes.drop_last(), name),
            },
            _ => scope_lookup(scopes.drop_last(), name),
        }
    }
}

/// What an identifier names: `this` is the innermost scope itself; any other
/// name is looked up from the innermost scope outwards.
pub open spec fn name_lookup(scopes: Seq<ValueV>, name: Seq<char>) -> Option<ValueV> {
    if name == "this"@ {
        if scopes.len() > 0 {
            Some(scopes.last())
        } else {
            None
        }
    } else {
        scope_lookup(scopes, name)
    }
}

/// `name` in the root scope, when that scope is a map.
pub open spec fn root_lookup(scopes: Seq<ValueV>, root: int, name: Seq<char>) -> Option<ValueV> {
    if 0 <= root < scopes.len() {
        match scopes[root] {
            ValueV::Dict(es) => map_lookup(es, name),
            _ => None,
        }
    } else {
        None
    }
}

impl RenderState {
    /// The state at the start of rendering template `id` with `data` as its only scope.
    pub fn new(data: Value, id: String, media_type: MediaType, language: Option<String>) -> (r: RenderState)
        ensures
            values_view(r.scopes@) == seq![data@],
            r.root == 0,
            r.include_stack@.len() == 1,
            r.include_stack@[0]@ == id@,
            r.media_type == media_type,
            r.language == language,
    {
        let ghost d = data@;
        let mut scopes: Vec<Value> = Vec::new();
        scopes.push(data);
        let mut stack: Vec<String> = Vec::new();
        stack.push(id);
        proof {
            lemma_values_view(scopes@);
            assert(values_view(scopes@) =~= seq![d]);
        }
        RenderState { scopes, root: 0, include_stack: stack, media_type, language }
    }

    /// What an identifier names in the current scopes.
    pub fn lookup(&self, name: &str) -> (r: Resolution<Value>)
        ensures
            r@ == name_lookup(values_view(self.scopes@), name@),
    {
        let ghost sv = values_view(self.scopes@);
        proof {
            lemma_values_view(self.scopes@);
        }
        if str_eq(name, "this") {
            let n = self.scopes.len();
            if n == 0 {
                return Resolution::NotFound;
            }
            return Resolution::Value(clone_value(&self.scopes[n - 1]));
        }
        let mut k: usize = self.scopes.len();
        proof {
            assert(sv.take(k as int) =~= sv);
        }
        while k > 0
            invariant
                k <= self.scopes@.len(),
                sv == values_view(self.scopes@),
                sv.len() == self.scopes@.len(),
                forall|j: int| 0 <= j < self.scopes@.len() ==> #[trigger] sv[j] == value_view(self.scopes@[j]),
                scope_lookup(sv, name@) == scope_lookup(sv.take(k as int), name@),
                name@ != "this"@,
            decreases k,
        {
            let ghost t = sv.take(k as int);
            proof {
                assert(t.last() == sv[k - 1]);
                assert(t.drop_last() =~= sv.take(k - 1));
            }
            match &self.scopes[k - 1] {
                Value::Dict(es) => {
                    match map_get(es, name) {
                        Some(v) => {
                            return Resolution::Value(v);
                        },
                        None => {},
                    }
                },
                _ => {},
            }
            k = k - 1;
        }
        proof {
            assert(sv.take(0).len() == 0);
        }
        Resolution::NotFound
    }

    /// What `data:name` names: `name` in the root scope.
    pub fn lookup_root(&self, name: &str) -> (r: Resolution<Value>)
        ensures
            r@ == root_lookup(values_view(self.scopes@), self.root as int, name@),
    {
        proof {
            lemma_values_view(self.scopes@);
        }
        if self.root >= self.scopes.len() {
            return Resolution::NotFound;
        }
        match &self.scopes[self.root] {
            Value::Dict(es) => match map_get(es, name) {
                Some(v) => Resolution::Value(v),
                None => Resolution::NotFound,
            },
            _ => Resolution::NotFound,
        }
    }

    /// Opens a scope.
    pub fn push_scope(&mut self, scope: Value)
        ensures
            values_view(final(self).scopes@) == values_view(old(self).scopes@).push(scope@),
            final(self).root == old(self).root,
            final(self).include_stack == old(self).include_stack,
            final(self).media_type == old(self).media_type,
            final(self).language == old(self).language,
    {
        let ghost before = self.scopes@;
        let ghost sv = scope@;
        self.scopes.push(scope);
        proof {
            lemma_values_view(before);
            lemma_values_view(self.scopes@);
            assert(values_view(self.scopes@) =~= values_view(before).push(sv));
        }
    }

    /// Closes the innermost scope.
    pub fn pop_scope(&mut self)
        ensures
            values_view(final(self).scopes@) == if old(self).scopes@.len() > 0 {
                values_view(old(self).scopes@).drop_last()
            } else {
                values_view(old(self).scopes@)
            },
            final(self).root == old(self).root,
            final(self).include_stack == old(self).include_stack,
            final(self).media_type == old(self).media_type,
            final(self).language == old(self).language,
    {
        let ghost before = self.scopes@;
        if self.scopes.len() > 0 {
            let _ = self.scopes.pop();
            proof {
                lemma_values_view(before);
                lemma_values_view(self.scopes@);
                assert(values_view(self.scopes@) =~= values_view(before).drop_last());
            }
        }
    }
}

// ---------------------------------------------------------------------------
// Loops
// ---------------------------------------------------------------------------

/// The map `{key: name, value: value}` that a loop over a map yields for one entry.
pub open spec fn entry_item(name: Seq<char>, value: ValueV) -> ValueV {
    ValueV::Dict(seq![("key"@, ValueV::String(name)), ("value"@, value)])
}

/// What a loop iterates over: a sequence's items, a map's entries in order
/// of name, `1` to `n` for a positive integer `n`, nothing for `null`; any
/// other value cannot be iterated.
pub open spec fn loop_items_of(v: ValueV) -> Result<Seq<ValueV>, Seq<char>> {
    match v {
        ValueV::Sequence(vs) => Ok(vs),
        ValueV::Dict(es) => Ok(es.map_values(|e: (Seq<char>, ValueV)| entry_item(e.0, e.1))),
        ValueV::Null => Ok(Seq::empty()),
        ValueV::Integer(n) => if n > 0 {
            Ok(Seq::new(n as nat, |i: int| ValueV::Integer((i + 1) as i64)))
        } else {
            Err("cannot iterate over "@ + kind_name_of(v))
        },
        _ => Err("cannot iterate over "@ + kind_name_of(v)),
    }
}

/// The items a loop renders its body for.
pub fn loop_items(source: Value) -> (r: Result<Vec<Value>, RenderError>)
    ensures
        match (r, loop_items_of(source@)) {
            (Ok(items), Ok(expected)) => values_view(items@) == expected,
            (Err(e), Err(message)) => bare(e, ErrorCode::Type, message),
            _ => false,
        },
{
    let ghost sv = source@;
    match source {
        Value::Sequence(vs) => Ok(vs),
        Value::Dict(es) => {
            proof {
                lemma_entries_view(es@);
            }
            let ghost ev = entries_view(es@);
            let ghost expected = ev.map_values(|e: (Seq<char>, ValueV)| entry_item(e.0, e.1));
            let mut out: Vec<Value> = Vec::new();
            let mut i: usize = 0;
            while i < es.len()
                invariant
                    i <= es@.len(),
                    ev == entries_view(es@),
                    ev.len() == es@.len(),
                    forall|j: int| 0 <= j < es@.len() ==> #[trigger] ev[j] == (es@[j].name@, value_view(es@[j].value)),
                    expected == ev.map_values(|e: (Seq<char>, ValueV)| entry_item(e.0, e.1)),
                    out@.len() == i,
                    forall|j: int| 0 <= j < i ==> value_view(#[trigger] out@[j]) == expected[j],
                decreases es@.len() - i,
            {
                let mut pair: Vec<Entry> = Vec::new();
                pair.push(Entry { name: "key".to_string(), value: Value::String(es[i].name.clone()) });
                pair.push(Entry { name: "value".to_string(), value: clone_value(&es[i].value) });
                proof {
                    lemma_entries_view(pair@);
                    assert(entries_view(pair@) =~= seq![
                        ("key"@, ValueV::String(es@[i as int].name@)),
                        ("value"@, value_view(es@[i as int].value)),
                    ]);
                }
                out.push(Value::Dict(pair));
                i = i + 1;
            }
            proof {
                lemma_values_view(out@);
                assert(values_view(out@) =~= expected);
            }
            Ok(out)
        },
        Value::Null => {
            let out: Vec<Value> = Vec::new();
            proof {
                assert(values_view(out@) =~= Seq::<ValueV>::empty());
            }
            Ok(out)
        },
        Value::Integer(n) if n > 0 => {
            let ghost expected = Seq::new(n as nat, |i: int| ValueV::Integer((i + 1) as i64));
            let mut out: Vec<Value> = Vec::new();
            let mut k: i64 = 0;
            while k < n
                invariant
                    0 <= k <= n,
                    expected == Seq::new(n as nat, |i: int| ValueV::Integer((i + 1) as i64)),
                    out@.len() == k,
                    forall|j: int| 0 <= j < k ==> value_view(#[trigger] out@[j]) == expected[j],
                decreases n - k,
            {
                out.push(Value::Integer(k + 1));
                k = k + 1;
            }
            proof {
                lemma_values_view(out@);
                assert(values_view(out@) =~= expected);
            }
            Ok(out)
        },
        other => {
            let mut m = "cannot iterate over ".to_string();
            push_str(&mut m, other.kind_name());
            Err(RenderError::new(ErrorCode::Type, m))
        },
    }
}

/// The scope a loop opens for the item at `index` of `length` items: the item
/// under the alias, and its position under `<alias>_index`, `<alias>_count`,
/// `<alias>_isFirst`, `<alias>_isLast`, `<alias>_hasNext` and `<alias>_odd`
/// (whether the index is odd).
pub open spec fn loop_scope_of(alias: Seq<char>, item: ValueV, index: int, length: int) -> ValueV {
    let s0 = map_put(Seq::empty(), alias, item);
    let s1 = map_put(s0, alias + "_index"@, ValueV::Integer(index as i64));
    let s2 = map_put(s1, alias + "_count"@, ValueV::Integer((index + 1) as i64));
    let s3 = map_put(s2, alias + "_isFirst"@, ValueV::Bool(index == 0));
    let s4 = map_put(s3, alias + "_isLast"@, ValueV::Bool(index + 1 == length));
    let s5 = map_put(s4, alias + "_hasNext"@, ValueV::Bool(index + 1 < length));
    ValueV::Dict(map_put(s5, alias + "_odd"@, ValueV::Bool(index % 2 == 1)))
}

fn suffixed(alias: &str, suffix: &str) -> (r: String)
    ensures
        r@ == alias@ + suffix@,
{
    let mut s = alias.to_string();
    push_str(&mut s, suffix);
    s
}

/// Builds the scope of one loop iteration.
pub fn loop_scope(alias: &str, item: Value, index: usize, length: usize) -> (r: Value)
    requires
        index < length,
    ensures
        r@ == loop_scope_of(alias@, item@, index as int, length as int),
{
    let mut es: Vec<Entry> = Vec::new();
    proof {
        assert(entries_view(es@) =~= Seq::<(Seq<char>, ValueV)>::empty());
    }
    map_insert(&mut es, alias.to_string(), item);
    map_insert(&mut es, suffixed(alias, "_index"), Value::Integer(index as i64));
    map_insert(&mut es, suffixed(alias, "_count"), Value::Integer((index + 1) as i64));
    map_insert(&mut es, suffixed(alias, "_isFirst"), Value::Bool(index == 0));
    map_insert(&mut es, suffixed(alias, "_isLast"), Value::Bool(index + 1 == length));
    map_insert(&mut es, suffixed(alias, "_hasNext"), Value::Bool(index + 1 < length));
    map_insert(&mut es, suffixed(alias, "_odd"), Value::Bool(index % 2 == 1));
    Value::Dict(es)
}

// ---------------------------------------------------------------------------
// Entering and leaving included templates
// ---------------------------------------------------------------------------

/// The scopes inside an include: its arguments innermost, alone when isolated.
pub open spec fn scopes_after_enter(scopes: Seq<ValueV>, params: ValueV, isolated: bool) -> Seq<ValueV> {
    if isolated {
        seq![params]
    } else {
        scopes.push(params)
    }
}

/// The scopes put aside on entering an include: all of them when isolated.
pub open spec fn saved_on_enter(scopes: Seq<ValueV>, isolated: bool) -> Option<Seq<ValueV>> {
    if isolated {
        Some(scopes)
    } else {
        None
    }
}

/// The scopes after leaving an include: those put aside, or the ones inside
/// without the innermost.
pub open spec fn scopes_after_leave(scopes: Seq<ValueV>, saved: Option<Seq<ValueV>>) -> Seq<ValueV> {
    match saved {
        Some(s) => s,
        None => if scopes.len() > 0 {
            scopes.drop_last()
        } else {
            scopes
        },
    }
}

/// The include stack after leaving an include.
pub open spec fn stack_after_leave(stack: Seq<Seq<char>>) -> Seq<Seq<char>> {
    if stack.len() > 0 {
        stack.drop_last()
    } else {
        stack
    }
}

/// Leaving an include restores what entering it changed: the scopes and the
/// include stack are those from before.
pub proof fn law_include_restores_state(
    scopes: Seq<ValueV>,
    params: ValueV,
    isolated: bool,
    stack: Seq<Seq<char>>,
    key: Seq<char>,
)
    ensures
        scopes_after_leave(scopes_after_enter(scopes, params, isolated), saved_on_enter(scopes, isolated))
            == scopes,
        stack_after_leave(stack.push(key)) == stack,
{
    assert(scopes.push(params).drop_last() =~= scopes);
    assert(stack.push(key).drop_last() =~= stack);
}

fn copy_texts(v: &Vec<String>) -> (r: Vec<String>)
    ensures
        texts(r@) == texts(v@),
{
    let mut r: Vec<String> = Vec::new();
    let mut k: usize = 0;
    while k < v.len()
        invariant
            k <= v@.len(),
            texts(r@) == texts(v@).take(k as int),
        decreases v@.len() - k,
    {
        let ghost before = r@;
        let item = v[k].as_str().to_string();
        r.push(item);
        proof {
            assert(texts(r@) =~= texts(before).push(item@));
            assert(texts(v@).take(k + 1) =~= texts(v@).take(k as int).push(texts(v@)[k as int]));
        }
        k = k + 1;
    }
    proof {
        assert(texts(v@).take(v@.len() as int) =~= texts(v@));
    }
    r
}

impl RenderState {
    /// Enters an included template: its arguments become the innermost
    /// scope (the only one when the include is isolated) and `key` goes on
    /// the include stack. Returns the scopes put aside.
    pub fn enter_include(&mut self, params: Value, key: String, isolated: bool) -> (saved: Option<Vec<Value>>)
        ensures
            values_view(final(self).scopes@) == scopes_after_enter(values_view(old(self).scopes@), params@, isolated),
            texts(final(self).include_stack@) == texts(old(self).include_stack@).push(key@),
            match saved {
                Some(s) => saved_on_enter(values_view(old(self).scopes@), isolated) == Some(values_view(s@)),
                None => saved_on_enter(values_view(old(self).scopes@), isolated) is None,
            },
            final(self).root == old(self).root,
            final(self).media_type == old(self).media_type,
            final(self).language == old(self).language,
    {
        let saved = if isolated {
            let mut taken: Vec<Value> = Vec::new();
            std::mem::swap(&mut taken, &mut self.scopes);
            Some(taken)
        } else {
            None
        };
        proof {
            assert(values_view(Seq::<Value>::empty()) =~= Seq::<ValueV>::empty());
        }
        self.push_scope(params);
        let ghost before = self.include_stack@;
        self.include_stack.push(key);
        proof {
            assert(texts(self.include_stack@) =~= texts(before).push(key@));
            if isolated {
                assert(seq![params@] =~= Seq::<ValueV>::empty().push(params@));
            }
        }
        saved
    }

    /// Leaves an included template: the include stack loses its top and the
    /// scopes are those put aside (or lose the innermost). An error from a
    /// whole template carries the include stack that remains; one from a
    /// fragment is handed back as it is.
    pub fn leave_include(
        &mut self,
        saved: Option<Vec<Value>>,
        result: Result<(), RenderError>,
        fragment: bool,
    ) -> (r: Result<(), RenderError>)
        ensures
            values_view(final(self).scopes@) == scopes_after_leave(
                values_view(old(self).scopes@),
                match saved {
                    Some(s) => Some(values_view(s@)),
                    None => None,
                },
            ),
            texts(final(self).include_stack@) == stack_after_leave(texts(old(self).include_stack@)),
            final(self).root == old(self).root,
            final(self).media_type == old(self).media_type,
            final(self).language == old(self).language,
            match result {
                Ok(()) => r is Ok,
                Err(e) => r matches Err(x) && if fragment {
                    x == e
                } else {
                    x.code == e.code && x.message == e.message && x.template == e.template && x.span
                        == e.span && x.line == e.line && x.column == e.column && x.source == e.source
                        && texts(x.render_stack@) == texts(final(self).include_stack@)
                },
            },
    {
        let ghost before = self.include_stack@;
        if self.include_stack.len() > 0 {
            self.include_stack.pop();
            proof {
                assert(texts(self.include_stack@) =~= texts(before).drop_last());
            }
        }
        match saved {
            Some(scopes) => {
                self.scopes = scopes;
            },
            None => {
                self.pop_scope();
            },
        }
        match result {
            Ok(()) => Ok(()),
            Err(mut e) => {
                if !fragment {
                    e.render_stack = copy_texts(&self.include_stack);
                }
                Err(e)
            },
        }
    }
}

} // verus!

verus! {

proof fn lemma_suffixes_differ(alias: Seq<char>, a: Seq<char>, b: Seq<char>)
    requires
        a != b,
    ensures
        alias + a != alias + b,
{
    if alias + a == alias + b {
        assert(a =~= (alias + a).skip(alias.len() as int));
        assert(b =~= (alias + b).skip(alias.len() as int));
    }
}

/// The scope of one loop iteration, at position `index` of `length` items,
/// binds the item under the alias, and under `<alias>_index`, `_count`,
/// `_isFirst`, `_isLast`, `_hasNext` and `_odd` its position counted from 0,
/// counted from 1, whether it is the first, whether it is the last (so that
/// the last item of every loop is marked last), whether another follows, and
/// whether its position is odd.
pub proof fn law_loop_scope_metadata(alias: Seq<char>, item: ValueV, index: int, length: int)
    requires
        0 <= index < length,
        length <= i64::MAX,
    ensures
        loop_scope_of(alias, item, index, length) matches ValueV::Dict(es) && {
            &&& map_lookup(es, alias) == Some(item)
            &&& map_lookup(es, alias + "_index"@) == Some(ValueV::Integer(index as i64))
            &&& map_lookup(es, alias + "_count"@) == Some(ValueV::Integer((index + 1) as i64))
            &&& map_lookup(es, alias + "_isFirst"@) == Some(ValueV::Bool(index == 0))
            &&& map_lookup(es, alias + "_isLast"@) == Some(ValueV::Bool(index == length - 1))
            &&& map_lookup(es, alias + "_hasNext"@) == Some(ValueV::Bool(index < length - 1))
            &&& map_lookup(es, alias + "_odd"@) == Some(ValueV::Bool(index % 2 == 1))
        },
{
    reveal_strlit("_index");
    reveal_strlit("_count");
    reveal_strlit("_isFirst");
    reveal_strlit("_isLast");
    reveal_strlit("_hasNext");
    reveal_strlit("_odd");
    let names = seq![Seq::<char>::empty(), "_index"@, "_count"@, "_isFirst"@, "_isLast"@, "_hasNext"@, "_odd"@];
    assert forall|a: int, b: int| 0 <= a < b < 7 implies alias + #[trigger] names[a] != alias + #[trigger] names[b] by {
        if names[a].len() == names[b].len() {
            assert(names[a][1] != names[b][1] || names[a][2] != names[b][2] || names[a][3] != names[b][3]);
        }
        lemma_suffixes_differ(alias, names[a], names[b]);
    }
    assert(alias + names[0] =~= alias);
    let s0 = map_put(Seq::empty(), alias, item);
    let s1 = map_put(s0, alias + "_index"@, ValueV::Integer(index as i64));
    let s2 = map_put(s1, alias + "_count"@, ValueV::Integer((index + 1) as i64));
    let s3 = map_put(s2, alias + "_isFirst"@, ValueV::Bool(index == 0));
    let s4 = map_put(s3, alias + "_isLast"@, ValueV::Bool(index + 1 == length));
    let s5 = map_put(s4, alias + "_hasNext"@, ValueV::Bool(index + 1 < length));
    let s6 = map_put(s5, alias + "_odd"@, ValueV::Bool(index % 2 == 1));
    let k0 = alias + names[0];
    let k1 = alias + names[1];
    let k2 = alias + names[2];
    let k3 = alias + names[3];
    let k4 = alias + names[4];
    let k5 = alias + names[5];
    let k6 = alias + names[6];
    law_put_then_lookup(Seq::empty(), alias, item);
    law_put_then_lookup(s0, k1, ValueV::Integer(index as i64));
    law_put_then_lookup(s1, k2, ValueV::Integer((index + 1) as i64));
    law_put_then_lookup(s2, k3, ValueV::Bool(index == 0));
    law_put_then_lookup(s3, k4, ValueV::Bool(index + 1 == length));
    law_put_then_lookup(s4, k5, ValueV::Bool(index + 1 < length));
    law_put_then_lookup(s5, k6, ValueV::Bool(index % 2 == 1));
    // each later write leaves the earlier names alone
    law_put_keeps_other_names(s0, k1, ValueV::Integer(index as i64), k0);
    law_put_keeps_other_names(s1, k2, ValueV::Integer((index + 1) as i64), k0);
    law_put_keeps_other_names(s1, k2, ValueV::Integer((index + 1) as i64), k1);
    law_put_keeps_other_names(s2, k3, ValueV::Bool(index == 0), k0);
    law_put_keeps_other_names(s2, k3, ValueV::Bool(index == 0), k1);
    law_put_keeps_other_names(s2, k3, ValueV::Bool(index == 0), k2);
    law_put_keeps_other_names(s3, k4, ValueV::Bool(index + 1 == length), k0);
    law_put_keeps_other_names(s3, k4, ValueV::Bool(index + 1 == length), k1);
    law_put_keeps_other_names(s3, k4, ValueV::Bool(index + 1 == length), k2);
    law_put_keeps_other_names(s3, k4, ValueV::Bool(index + 1 == length), k3);
    law_put_keeps_other_names(s4, k5, ValueV::Bool(index + 1 < length), k0);
    law_put_keeps_other_names(s4, k5, ValueV::Bool(index + 1 < length), k1);
    law_put_keeps_other_names(s4, k5, ValueV::Bool(index + 1 < length), k2);
    law_put_keeps_other_names(s4, k5, ValueV::Bool(index + 1 < length), k3);
    law_put_keeps_other_names(s4, k5, ValueV::Bool(index + 1 < length), k4);
    law_put_keeps_other_names(s5, k6, ValueV::Bool(index % 2 == 1), k0);
    law_put_keeps_other_names(s5, k6, ValueV::Bool(index % 2 == 1), k1);
    law_put_keeps_other_names(s5, k6, ValueV::Bool(index % 2 == 1), k2);
    law_put_keeps_other_names(s5, k6, ValueV::Bool(index % 2 == 1), k3);
    law_put_keeps_other_names(s5, k6, ValueV::Bool(index % 2 == 1), k4);
    law_put_keeps_other_names(s5, k6, ValueV::Bool(index % 2 == 1), k5);
}

} // verus!
