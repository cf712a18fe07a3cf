//! What a parsed template declares and needs: its sections in document
//! order, the templates it includes, the user tags it uses and its fragments.

use vstd::prelude::*;

use crate::compiler::ast::{
    argument_view, block_view, blocks_view, node_view, nodes_view, section_view, Block, BlockV,
    Node, NodeV, Section, SectionV, Template,
};
use crate::compiler::parser::{lemma_blocks_view, lemma_nodes_view};
use crate::compiler::span::Span;
use crate::compiler::validate::{declares_fragment, static_text};
use crate::compiler::scan::is_word;
use crate::text::chars_of;

verus! {

/// Section names implemented by the engine itself.
pub const BUILT_IN_SECTIONS: [&'static str; 13] = [
    "if",
    "for",
    "each",
    "let",
    "set",
    "with",
    "when",
    "switch",
    "include",
    "insert",
    "nested-content",
    "fragment",
    "capture",
];

pub open spec fn is_built_in(name: Seq<char>) -> bool {
    name == "if"@ || name == "for"@ || name == "each"@ || name == "let"@ || name == "set"@ || name
        == "with"@ || name == "when"@ || name == "switch"@ || name == "include"@ || name == "insert"@
        || name == "nested-content"@ || name == "fragment"@ || name == "capture"@
}

/// The fixed block names a built-in section accepts (include blocks are
/// named by the included template, so none are listed for it).
pub open spec fn block_names_of(section: Seq<char>) -> Seq<Seq<char>> {
    if section == "if"@ || section == "for"@ {
        seq!["else"@]
    } else if section == "when"@ {
        seq!["is"@, "case"@, "else"@]
    } else {
        Seq::empty()
    }
}

/// Returns the fixed block names accepted by a built-in section.
pub fn built_in_block_names(section: &str) -> (r: Vec<&'static str>)
    ensures
        r@.map_values(|s: &str| s@) == block_names_of(section@),
{
    let s = chars_of(section);
    let mut r: Vec<&'static str> = Vec::new();
    if is_word(s.as_slice(), "if") || is_word(s.as_slice(), "for") {
        r.push("else");
        proof {
            assert(r@.map_values(|s: &str| s@) =~= seq!["else"@]);
        }
    } else if is_word(s.as_slice(), "when") {
        r.push("is");
        r.push("case");
        r.push("else");
        proof {
            assert(r@.map_values(|s: &str| s@) =~= seq!["is"@, "case"@, "else"@]);
        }
    } else {
        proof {
            assert(r@.map_values(|s: &str| s@) =~= Seq::<Seq<char>>::empty());
        }
    }
    r
}

/// The sections among `ns[i..]` and inside them, each before the sections it holds.
pub open spec fn sections_from(ns: Seq<NodeV>, i: int) -> Seq<SectionV>
    decreases ns, ns.len() - i,
{
    if i < 0 || i >= ns.len() {
        Seq::empty()
    } else {
        match ns[i] {
            NodeV::Section(s) => seq![s] + block_sections(s.blocks, 0) + sections_from(ns, i + 1),
            _ => sections_from(ns, i + 1),
        }
    }
}

/// The sections inside the blocks `bs[j..]`.
pub open spec fn block_sections(bs: Seq<BlockV>, j: int) -> Seq<SectionV>
    decreases bs, bs.len() - j,
{
    if j < 0 || j >= bs.len() {
        Seq::empty()
    } else {
        sections_from(bs[j].nodes, 0) + block_sections(bs, j + 1)
    }
}

/// Every section of a tree of nodes, in document order.
pub open spec fn sections_of(ns: Seq<NodeV>) -> Seq<SectionV> {
    sections_from(ns, 0)
}

/// `xs` with `x` appended unless it is already there.
pub open spec fn add_new(xs: Seq<Seq<char>>, x: Seq<char>) -> Seq<Seq<char>> {
    if xs.contains(x) {
        xs
    } else {
        xs.push(x)
    }
}

/// The template IDs that include sections name statically, first mentions first.
pub open spec fn include_ids(ss: Seq<SectionV>) -> Seq<Seq<char>>
    decreases ss.len(),
{
    if ss.len() == 0 {
        Seq::empty()
    } else {
        let rest = include_ids(ss.drop_last());
        let s = ss.last();
        if s.name == "include"@ && s.arguments.len() > 0 && static_text(s.arguments[0]) is Some {
            add_new(rest, static_text(s.arguments[0])->0)
        } else {
            rest
        }
    }
}

/// The templates `tags/<name>` of the sections that are not built in, first uses first.
pub open spec fn tag_ids(ss: Seq<SectionV>) -> Seq<Seq<char>>
    decreases ss.len(),
{
    if ss.len() == 0 {
        Seq::empty()
    } else {
        let rest = tag_ids(ss.drop_last());
        let s = ss.last();
        if is_built_in(s.name) {
            rest
        } else {
            add_new(rest, "tags/"@ + s.name)
        }
    }
}

/// The sections that declare fragments.
pub open spec fn fragment_sections(ss: Seq<SectionV>) -> Seq<SectionV>
    decreases ss.len(),
{
    if ss.len() == 0 {
        Seq::empty()
    } else {
        let rest = fragment_sections(ss.drop_last());
        if declares_fragment(ss.last().name) {
            rest.push(ss.last())
        } else {
            rest
        }
    }
}

pub open spec fn section_refs_view(v: Seq<&Section>) -> Seq<SectionV> {
    v.map_values(|s: &Section| section_view(*s))
}

proof fn lemma_section_refs_push(v: Seq<&Section>, s: &Section)
    ensures
        section_refs_view(v.push(s)) == section_refs_view(v).push(section_view(*s)),
{
    assert(section_refs_view(v.push(s)) =~= section_refs_view(v).push(section_view(*s)));
}

/// Appends the sections of `ns` and inside them, in document order.
fn collect_sections<'a>(ns: &'a Vec<Node>, out: &mut Vec<&'a Section>)
    ensures
        section_refs_view(final(out)@) == section_refs_view(old(out)@) + sections_from(nodes_view(ns@), 0),
    decreases ns@,
{
    let ghost nv = nodes_view(ns@);
    proof {
        lemma_nodes_view(ns@);
    }
    let mut i: usize = 0;
    let ghost start = section_refs_view(out@);
    while i < ns.len()
        invariant
            i <= ns@.len(),
            nv == nodes_view(ns@),
            nv.len() == ns@.len(),
            forall|k: int| 0 <= k < ns@.len() ==> #[trigger] nv[k] == node_view(ns@[k]),
            start + sections_from(nv, 0) == section_refs_view(out@) + sections_from(nv, i as int),
        decreases ns@.len() - i,
    {
        assert(nv[i as int] == node_view(ns@[i as int]));
        match &ns[i] {
            Node::Section(s) => {
                let ghost before = section_refs_view(out@);
                proof {
                    lemma_section_refs_push(out@, s);
                }
                out.push(s);
                collect_block_sections(&s.blocks, out);
                proof {
                    assert(before + (seq![section_view(*s)] + block_sections(section_view(*s).blocks, 0)
                        + sections_from(nv, i + 1)) =~= section_refs_view(out@) + sections_from(nv, i + 1));
                }
            },
            _ => {},
        }
        i = i + 1;
    }
    proof {
        assert(section_refs_view(out@) + Seq::<SectionV>::empty() =~= section_refs_view(out@));
    }
}

/// Appends the sections inside the blocks `bs`.
fn collect_block_sections<'a>(bs: &'a Vec<Block>, out: &mut Vec<&'a Section>)
    ensures
        section_refs_view(final(out)@) == section_refs_view(old(out)@) + block_sections(blocks_view(bs@), 0),
    decreases bs@,
{
    let ghost bv = blocks_view(bs@);
    proof {
        lemma_blocks_view(bs@);
    }
    let mut j: usize = 0;
    let ghost start = section_refs_view(out@);
    while j < bs.len()
        invariant
            j <= bs@.len(),
            bv == blocks_view(bs@),
            bv.len() == bs@.len(),
            forall|k: int| 0 <= k < bs@.len() ==> #[trigger] bv[k] == block_view(bs@[k]),
            start + block_sections(bv, 0) == section_refs_view(out@) + block_sections(bv, j as int),
        decreases bs@.len() - j,
    {
        assert(bv[j as int] == block_view(bs@[j as int]));
        let ghost before = section_refs_view(out@);
        collect_sections(&bs[j].nodes, out);
        proof {
            assert(before + (sections_from(bv[j as int].nodes, 0) + block_sections(bv, j + 1)) =~= section_refs_view(
                out@,
            ) + block_sections(bv, j + 1));
        }
        j = j + 1;
    }
    proof {
        assert(section_refs_view(out@) + Seq::<SectionV>::empty() =~= section_refs_view(out@));
    }
}

pub open spec fn strs_view(v: Seq<&str>) -> Seq<Seq<char>> {
    v.map_values(|s: &str| s@)
}

fn contains_str(v: &Vec<&str>, x: &str) -> (r: bool)
    ensures
        r == strs_view(v@).contains(x@),
{
    let mut i: usize = 0;
    while i < v.len()
        invariant
            i <= v@.len(),
            forall|j: int| 0 <= j < i ==> v@[j]@ != x@,
        decreases v@.len() - i,
    {
        if crate::text::str_eq(v[i], x) {
            proof {
                assert(strs_view(v@)[i as int] == x@);
            }
            return true;
        }
        i = i + 1;
    }
    proof {
        if strs_view(v@).contains(x@) {
            let j = choose|j: int| 0 <= j < strs_view(v@).len() && strs_view(v@)[j] == x@;
            assert(v@[j]@ == x@);
        }
    }
    false
}

impl Node {
    /// The byte range that the node covers.
    pub fn span(&self) -> (r: Span)
        ensures
            r == match node_view(*self) {
                NodeV::Text { span, .. } => span,
                NodeV::Unparsed { span, .. } => span,
                NodeV::Comment { span, .. } => span,
                NodeV::Output { span, .. } => span,
                NodeV::Parameter(p) => p.span,
                NodeV::Section(s) => s.span,
            },
    {
        match self {
            Node::Text { span, .. } => *span,
            Node::Unparsed { span, .. } => *span,
            Node::Comment { span, .. } => *span,
            Node::Output { span, .. } => *span,
            Node::Parameter(value) => value.span,
            Node::Section(value) => value.span,
        }
    }
}

impl Template {
    /// Every section of the template, in document order.
    pub(crate) fn sections(&self) -> (r: Vec<&Section>)
        ensures
            section_refs_view(r@) == sections_of(nodes_view(self.nodes@)),
    {
        let mut out: Vec<&Section> = Vec::new();
        proof {
            assert(section_refs_view(out@) =~= Seq::<SectionV>::empty());
        }
        collect_sections(&self.nodes, &mut out);
        proof {
            assert(Seq::<SectionV>::empty() + sections_of(nodes_view(self.nodes@)) =~= sections_of(
                nodes_view(self.nodes@),
            ));
        }
        out
    }

    /// The template IDs that include sections name statically, each once, in source order.
    pub fn dependencies(&self) -> (r: Vec<&str>)
        ensures
            strs_view(r@) == include_ids(sections_of(nodes_view(self.nodes@))),
    {
        let sections = self.sections();
        let ghost ss = section_refs_view(sections@);
        let mut out: Vec<&str> = Vec::new();
        let mut i: usize = 0;
        proof {
            assert(strs_view(out@) =~= Seq::<Seq<char>>::empty());
            assert(ss.take(0) =~= Seq::<SectionV>::empty());
        }
        while i < sections.len()
            invariant
                i <= sections@.len(),
                ss == section_refs_view(sections@),
                strs_view(out@) == include_ids(ss.take(i as int)),
            decreases sections@.len() - i,
        {
            let s = sections[i];
            proof {
                assert(ss.take(i + 1).drop_last() =~= ss.take(i as int));
                assert(ss.take(i + 1).last() == section_view(*s));
            }
            if is_word(chars_of(s.name.as_str()).as_slice(), "include") && s.arguments.len() > 0 {
                proof {
                    assert(section_view(*s).arguments[0] == argument_view(s.arguments@[0]));
                }
                match s.arguments[0].static_text() {
                    Some(id) => {
                        if !contains_str(&out, id) {
                            proof {
                                assert(strs_view(out@.push(id)) =~= strs_view(out@).push(id@));
                            }
                            out.push(id);
                        }
                    },
                    None => {},
                }
            }
            i = i + 1;
        }
        proof {
            assert(ss.take(ss.len() as int) =~= ss);
        }
        out
    }

    /// The templates `tags/<name>` of the user tags the template uses, each
    /// once, in source order.
    pub fn tag_dependencies(&self) -> (r: Vec<String>)
        ensures
            r@.map_values(|s: String| s@) == tag_ids(sections_of(nodes_view(self.nodes@))),
    {
        let sections = self.sections();
        let ghost ss = section_refs_view(sections@);
        let mut out: Vec<String> = Vec::new();
        let mut i: usize = 0;
        proof {
            assert(out@.map_values(|s: String| s@) =~= Seq::<Seq<char>>::empty());
            assert(ss.take(0) =~= Seq::<SectionV>::empty());
        }
        while i < sections.len()
            invariant
                i <= sections@.len(),
                ss == section_refs_view(sections@),
                out@.map_values(|s: String| s@) == tag_ids(ss.take(i as int)),
            decreases sections@.len() - i,
        {
            let s = sections[i];
            proof {
                assert(ss.take(i + 1).drop_last() =~= ss.take(i as int));
                assert(ss.take(i + 1).last() == section_view(*s));
            }
            if !is_built_in_name(s.name.as_str()) {
                let mut id = "tags/".to_owned();
                crate::text::push_str(&mut id, s.name.as_str());
                if !contains_string(&out, &id) {
                    proof {
                        assert(out@.push(id).map_values(|s: String| s@) =~= out@.map_values(
                            |s: String| s@,
                        ).push(id@));
                    }
                    out.push(id);
                }
            }
            i = i + 1;
        }
        proof {
            assert(ss.take(ss.len() as int) =~= ss);
        }
        out
    }

    /// The sections that declare fragments, nested ones included.
    pub fn fragments(&self) -> (r: Vec<&Section>)
        ensures
            section_refs_view(r@) == fragment_sections(sections_of(nodes_view(self.nodes@))),
    {
        let sections = self.sections();
        let ghost ss = section_refs_view(sections@);
        let mut out: Vec<&Section> = Vec::new();
        let mut i: usize = 0;
        proof {
            assert(section_refs_view(out@) =~= Seq::<SectionV>::empty());
            assert(ss.take(0) =~= Seq::<SectionV>::empty());
        }
        while i < sections.len()
            invariant
                i <= sections@.len(),
                ss == section_refs_view(sections@),
                section_refs_view(out@) == fragment_sections(ss.take(i as int)),
            decreases sections@.len() - i,
        {
            let s = sections[i];
            proof {
                assert(ss.take(i + 1).drop_last() =~= ss.take(i as int));
                assert(ss.take(i + 1).last() == section_view(*s));
            }
            let name = chars_of(s.name.as_str());
            if is_word(name.as_slice(), "fragment") || is_word(name.as_slice(), "capture") {
                proof {
                    lemma_section_refs_push(out@, s);
                }
                out.push(s);
            }
            i = i + 1;
        }
        proof {
            assert(ss.take(ss.len() as int) =~= ss);
        }
        out
    }
}

pub(crate) fn is_built_in_name(name: &str) -> (r: bool)
    ensures
        r == is_built_in(name@),
{
    let n = chars_of(name);
    let s = n.as_slice();
    is_word(s, "if") || is_word(s, "for") || is_word(s, "each") || is_word(s, "let") || is_word(s, "set")
        || is_word(s, "with") || is_word(s, "when") || is_word(s, "switch") || is_word(s, "include")
        || is_word(s, "insert") || is_word(s, "nested-content") || is_word(s, "fragment") || is_word(
        s,
        "capture",
    )
}

fn contains_string(v: &Vec<String>, x: &String) -> (r: bool)
    ensures
        r == v@.map_values(|s: String| s@).contains(x@),
{
    let mut i: usize = 0;
    while i < v.len()
        invariant
            i <= v@.len(),
            forall|j: int| 0 <= j < i ==> v@[j]@ != x@,
        decreases v@.len() - i,
    {
        if crate::text::str_eq(v[i].as_str(), x.as_str()) {
            proof {
                assert(v@.map_values(|s: String| s@)[i as int] == x@);
            }
            return true;
        }
        i = i + 1;
    }
    proof {
        let sv = v@.map_values(|s: String| s@);
        if sv.contains(x@) {
            let j = choose|j: int| 0 <= j < sv.len() && #[trigger] sv[j] == x@;
            assert(v@[j]@ == x@);
        }
    }
    false
}


/// No entry occurs twice.
pub open spec fn distinct(xs: Seq<Seq<char>>) -> bool {
    forall|i: int, j: int| 0 <= i < j < xs.len() ==> xs[i] != xs[j]
}

proof fn lemma_add_new_distinct(xs: Seq<Seq<char>>, x: Seq<char>)
    requires
        distinct(xs),
    ensures
        distinct(add_new(xs, x)),
        forall|y: Seq<char>| #[trigger] add_new(xs, x).contains(y) <==> (xs.contains(y) || y == x),
{
    let r = add_new(xs, x);
    if !xs.contains(x) {
        assert forall|i: int, j: int| 0 <= i < j < r.len() implies r[i] != r[j] by {
            if j == r.len() - 1 {
                assert(r[i] == xs[i]);
                assert(r[j] == x);
            } else {
                assert(r[i] == xs[i] && r[j] == xs[j]);
            }
        }
        assert forall|y: Seq<char>| #[trigger] r.contains(y) <==> (xs.contains(y) || y == x) by {
            if r.contains(y) {
                let k = choose|k: int| 0 <= k < r.len() && r[k] == y;
                if k < xs.len() {
                    assert(xs[k] == y);
                }
            }
            if xs.contains(y) {
                let k = choose|k: int| 0 <= k < xs.len() && xs[k] == y;
                assert(r[k] == y);
            }
            if y == x {
                assert(r[r.len() - 1] == x);
            }
        }
    }
}

/// The templates a template includes are listed once each, and each is named
/// statically by an include section of the template.
pub proof fn law_dependencies_are_distinct(ss: Seq<SectionV>)
    ensures
        distinct(include_ids(ss)),
        forall|id: Seq<char>|
            #[trigger] include_ids(ss).contains(id) ==> exists|k: int|
                0 <= k < ss.len() && ss[k].name == "include"@ && ss[k].arguments.len() > 0 && static_text(
                    #[trigger] ss[k].arguments[0],
                ) == Some(id),
    decreases ss.len(),
{
    if ss.len() > 0 {
        let init = ss.drop_last();
        law_dependencies_are_distinct(init);
        let s = ss.last();
        let rest = include_ids(init);
        if s.name == "include"@ && s.arguments.len() > 0 && static_text(s.arguments[0]) is Some {
            let x = static_text(s.arguments[0])->0;
            lemma_add_new_distinct(rest, x);
            assert forall|id: Seq<char>| #[trigger] include_ids(ss).contains(id) implies exists|k: int|
                0 <= k < ss.len() && ss[k].name == "include"@ && ss[k].arguments.len() > 0 && static_text(
                    #[trigger] ss[k].arguments[0],
                ) == Some(id) by {
                if rest.contains(id) {
                    let k = choose|k: int|
                        0 <= k < init.len() && init[k].name == "include"@ && init[k].arguments.len() > 0
                            && static_text(#[trigger] init[k].arguments[0]) == Some(id);
                    assert(ss[k] == init[k]);
                } else {
                    assert(ss[ss.len() - 1] == s);
                }
            }
        } else {
            assert forall|id: Seq<char>| #[trigger] include_ids(ss).contains(id) implies exists|k: int|
                0 <= k < ss.len() && ss[k].name == "include"@ && ss[k].arguments.len() > 0 && static_text(
                    #[trigger] ss[k].arguments[0],
                ) == Some(id) by {
                let k = choose|k: int|
                    0 <= k < init.len() && init[k].name == "include"@ && init[k].arguments.len() > 0
                        && static_text(#[trigger] init[k].arguments[0]) == Some(id);
                assert(ss[k] == init[k]);
            }
        }
    }
}

/// The user tags a template uses are listed once each, each as `tags/<name>`
/// of a section that is not built in.
pub proof fn law_tag_dependencies_are_distinct(ss: Seq<SectionV>)
    ensures
        distinct(tag_ids(ss)),
        forall|id: Seq<char>|
            #[trigger] tag_ids(ss).contains(id) ==> exists|k: int|
                0 <= k < ss.len() && !is_built_in(#[trigger] ss[k].name) && id == "tags/"@ + ss[k].name,
    decreases ss.len(),
{
    if ss.len() > 0 {
        let init = ss.drop_last();
        law_tag_dependencies_are_distinct(init);
        let s = ss.last();
        let rest = tag_ids(init);
        if !is_built_in(s.name) {
            lemma_add_new_distinct(rest, "tags/"@ + s.name);
        }
        assert forall|id: Seq<char>| #[trigger] tag_ids(ss).contains(id) implies exists|k: int|
            0 <= k < ss.len() && !is_built_in(#[trigger] ss[k].name) && id == "tags/"@ + ss[k].name by {
            if rest.contains(id) {
                let k = choose|k: int|
                    0 <= k < init.len() && !is_built_in(#[trigger] init[k].name) && id == "tags/"@ + init[k].name;
                assert(ss[k] == init[k]);
            } else {
                assert(ss[ss.len() - 1] == s);
            }
        }
    }
}

/// Every section that `fragments` returns declares a fragment, and every
/// fragment-declaring section is returned.
pub proof fn law_fragments_are_the_declaring_sections(ss: Seq<SectionV>)
    ensures
        forall|i: int| 0 <= i < fragment_sections(ss).len() ==> declares_fragment(#[trigger] fragment_sections(ss)[i].name),
        forall|k: int| 0 <= k < ss.len() && declares_fragment(#[trigger] ss[k].name) ==> fragment_sections(ss).contains(ss[k]),
    decreases ss.len(),
{
    if ss.len() > 0 {
        let init = ss.drop_last();
        law_fragments_are_the_declaring_sections(init);
        let rest = fragment_sections(init);
        let r = fragment_sections(ss);
        assert forall|i: int| 0 <= i < r.len() implies declares_fragment(#[trigger] r[i].name) by {
            if i < rest.len() {
                assert(r[i] == rest[i]);
            }
        }
        assert forall|k: int| 0 <= k < ss.len() && declares_fragment(#[trigger] ss[k].name) implies r.contains(ss[k]) by {
            if k < init.len() {
                assert(ss[k] == init[k]);
                let j = choose|j: int| 0 <= j < rest.len() && rest[j] == init[k];
                if declares_fragment(ss.last().name) {
                    assert(r[j] == rest[j]);
                } else {
                    assert(r[j] == rest[j]);
                }
            } else {
                assert(r[r.len() - 1] == ss.last());
            }
        }
    }
}

} // verus!
