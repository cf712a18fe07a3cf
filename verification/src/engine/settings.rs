//! The limits and allow-lists an engine renders under.

use vstd::prelude::*;

use crate::messages::texts;

verus! {

/// How strictly and how far an engine renders.
#[derive(Debug)]
pub struct EngineSettings {
    /// An expression that resolves to nothing is an error rather than empty output.
    pub strict: bool,
    /// How many templates may be on the include stack at once.
    pub max_include_depth: usize,
    /// How many bytes a rendering may produce.
    pub max_output_bytes: usize,
    /// The sections templates may use; any, when `None`.
    pub allowed_sections: Option<Vec<String>>,
    /// The namespaces expressions may call; any, when `None`.
    pub allowed_namespaces: Option<Vec<String>>,
}

impl Default for EngineSettings {
    /// Strict rendering, 64 nested includes, 8 MiB of output, every section
    /// and namespace allowed.
    fn default() -> (r: Self)
        ensures
            r.strict,
            r.max_include_depth == 64,
            r.max_output_bytes == 8 * 1024 * 1024,
            r.allowed_sections is None,
            r.allowed_namespaces is None,
    {
        EngineSettings {
            strict: true,
            max_include_depth: 64,
            max_output_bytes: 8 * 1024 * 1024,
            allowed_sections: None,
            allowed_namespaces: None,
        }
    }
}

fn strings(items: &[&str]) -> (r: Vec<String>)
    ensures
        texts(r@) == items@.map_values(|s: &str| s@),
{
    let mut out: Vec<String> = Vec::new();
    let mut i: usize = 0;
    while i < items.len()
        invariant
            i <= items@.len(),
            texts(out@) == items@.take(i as int).map_values(|s: &str| s@),
        decreases items@.len() - i,
    {
        let ghost before = out@;
        let s = items[i].to_string();
        out.push(s);
        proof {
            assert(texts(out@) =~= texts(before).push(s@));
            assert(items@.take(i + 1).map_values(|s: &str| s@) =~= items@.take(i as int).map_values(
                |s: &str| s@,
            ).push(items@[i as int]@));
        }
        i = i + 1;
    }
    proof {
        assert(items@.take(items@.len() as int) =~= items@);
    }
    out
}

/// `list` with `name` appended, starting from an empty list when there is none.
pub open spec fn with_name(list: Option<Seq<Seq<char>>>, name: Seq<char>) -> Seq<Seq<char>> {
    match list {
        Some(l) => l.push(name),
        None => seq![name],
    }
}

pub open spec fn opt_texts(o: Option<Vec<String>>) -> Option<Seq<Seq<char>>> {
    match o {
        Some(v) => Some(texts(v@)),
        None => None,
    }
}

fn appended(list: Option<Vec<String>>, name: &str) -> (r: Vec<String>)
    ensures
        texts(r@) == with_name(opt_texts(list), name@),
{
    let mut v = match list {
        Some(v) => v,
        None => Vec::new(),
    };
    let ghost before = v@;
    let s = name.to_string();
    v.push(s);
    proof {
        assert(texts(v@) =~= texts(before).push(name@));
    }
    v
}

impl EngineSettings {
    /// Conservative settings for templates that users supply: only the
    /// control-flow sections, only the `data` namespace, no includes and
    /// 1 MiB of output.
    pub fn restricted(self) -> (r: Self)
        ensures
            r.strict == self.strict,
            r.allowed_sections matches Some(l) && texts(l@) == seq![
                "if"@,
                "for"@,
                "each"@,
                "let"@,
                "set"@,
                "when"@,
                "switch"@,
            ],
            r.allowed_namespaces matches Some(l) && texts(l@) == seq!["data"@],
            r.max_include_depth == 0,
            r.max_output_bytes == 1024 * 1024,
    {
        let sections = strings(&["if", "for", "each", "let", "set", "when", "switch"]);
        let namespaces = strings(&["data"]);
        proof {
            let a: Seq<&str> = seq!["if", "for", "each", "let", "set", "when", "switch"];
            assert(a.map_values(|s: &str| s@) =~= seq!["if"@, "for"@, "each"@, "let"@, "set"@, "when"@, "switch"@]);
            let b: Seq<&str> = seq!["data"];
            assert(b.map_values(|s: &str| s@) =~= seq!["data"@]);
        }
        EngineSettings {
            strict: self.strict,
            max_include_depth: 0,
            max_output_bytes: 1024 * 1024,
            allowed_sections: Some(sections),
            allowed_namespaces: Some(namespaces),
        }
    }

    /// Adds a section to the allow-list, starting one if there is none.
    pub fn allow_section(self, name: &str) -> (r: Self)
        ensures
            r.allowed_sections matches Some(l) && texts(l@) == with_name(opt_texts(self.allowed_sections), name@),
            r.allowed_namespaces == self.allowed_namespaces,
            r.strict == self.strict,
            r.max_include_depth == self.max_include_depth,
            r.max_output_bytes == self.max_output_bytes,
    {
        let EngineSettings { strict, max_include_depth, max_output_bytes, allowed_sections, allowed_namespaces } = self;
        EngineSettings {
            strict,
            max_include_depth,
            max_output_bytes,
            allowed_sections: Some(appended(allowed_sections, name)),
            allowed_namespaces,
        }
    }

    /// Adds a namespace to the allow-list, starting one if there is none.
    pub fn allow_namespace(self, name: &str) -> (r: Self)
        ensures
            r.allowed_namespaces matches Some(l) && texts(l@) == with_name(opt_texts(self.allowed_namespaces), name@),
            r.allowed_sections == self.allowed_sections,
            r.strict == self.strict,
            r.max_include_depth == self.max_include_depth,
            r.max_output_bytes == self.max_output_bytes,
    {
        let EngineSettings { strict, max_include_depth, max_output_bytes, allowed_sections, allowed_namespaces } = self;
        EngineSettings {
            strict,
            max_include_depth,
            max_output_bytes,
            allowed_sections,
            allowed_namespaces: Some(appended(allowed_namespaces, name)),
        }
    }
}

// ---------------------------------------------------------------------------
// Resolver order
// ---------------------------------------------------------------------------

/// Resolver `a` is asked before resolver `b`: it has a higher priority, or
/// the same priority and was registered earlier.
pub open spec fn asked_before(priorities: Seq<i32>, a: int, b: int) -> bool {
    priorities[a] > priorities[b] || (priorities[a] == priorities[b] && a < b)
}

/// `order` lists each resolver once, in the order they are asked.
pub open spec fn priority_ordered(priorities: Seq<i32>, order: Seq<usize>) -> bool {
    &&& order.len() == priorities.len()
    &&& forall|k: int| 0 <= k < order.len() ==> #[trigger] order[k] < priorities.len()
    &&& forall|k: int, m: int|
        0 <= k < m < order.len() ==> asked_before(priorities, #[trigger] order[k] as int, #[trigger] order[m] as int)
}

/// The order in which resolvers are asked, given their priorities in the
/// order they were registered: highest priority first, and among equal
/// priorities the one registered first.
pub fn priority_order(priorities: &Vec<i32>) -> (r: Vec<usize>)
    ensures
        priority_ordered(priorities@, r@),
{
    let mut out: Vec<usize> = Vec::new();
    let mut i: usize = 0;
    while i < priorities.len()
        invariant
            i <= priorities@.len(),
            out@.len() == i,
            forall|k: int| 0 <= k < out@.len() ==> #[trigger] out@[k] < i,
            forall|k: int, m: int|
                0 <= k < m < out@.len() ==> asked_before(priorities@, #[trigger] out@[k] as int, #[trigger] out@[m] as int),
        decreases priorities@.len() - i,
    {
        let p = priorities[i];
        let mut pos: usize = 0;
        while pos < out.len() && priorities[out[pos]] >= p
            invariant
                pos <= out@.len(),
                i < priorities@.len(),
                p == priorities@[i as int],
                forall|k: int| 0 <= k < out@.len() ==> #[trigger] out@[k] < i,
                forall|k: int| 0 <= k < pos ==> priorities@[#[trigger] out@[k] as int] >= p,
            decreases out@.len() - pos,
        {
            pos = pos + 1;
        }
        let ghost before = out@;
        proof {
            assert forall|k: int| pos <= k < before.len() implies priorities@[#[trigger] before[k] as int] < p by {
                if pos < before.len() {
                    assert(priorities@[before[pos as int] as int] < p);
                    if k > pos {
                        assert(asked_before(priorities@, before[pos as int] as int, before[k] as int));
                    }
                }
            }
        }
        out.insert(pos, i);
        proof {
            assert forall|k: int| 0 <= k < out@.len() implies #[trigger] out@[k] < i + 1 by {
                if k < pos {
                    assert(out@[k] == before[k]);
                } else if k > pos {
                    assert(out@[k] == before[k - 1]);
                }
            }
            assert forall|k: int, m: int|
                0 <= k < m < out@.len() implies asked_before(priorities@, #[trigger] out@[k] as int, #[trigger] out@[m] as int) by {
                if k < pos && m < pos {
                    assert(out@[k] == before[k] && out@[m] == before[m]);
                } else if k < pos && m == pos {
                    assert(out@[k] == before[k]);
                } else if k < pos {
                    assert(out@[k] == before[k] && out@[m] == before[m - 1]);
                } else if k == pos {
                    assert(out@[m] == before[m - 1]);
                } else {
                    assert(out@[k] == before[k - 1] && out@[m] == before[m - 1]);
                }
            }
        }
        i = i + 1;
    }
    out
}

} // verus!
