use radiant::compiler::Span;
use radiant::tooling::documents::{DocumentSnapshot, DocumentStore};
use radiant::tooling::line_index::Position;
use radiant::tooling::navigation::{definition, hover, HoverText};
use radiant::tooling::semantic::{index_inputs_hold, SemanticIndex};

const URI: &str = "file:///workspace/templates/page.html";

fn snapshot(source: &str) -> DocumentStore {
    let mut documents = DocumentStore::new();
    documents.open(URI, 1, source.to_string());
    documents
}

fn index(snapshot: &DocumentSnapshot) -> SemanticIndex {
    let nodes = &snapshot.analysis.template.nodes;
    assert!(index_inputs_hold(nodes, &snapshot.text));
    SemanticIndex::new(nodes, &snapshot.text)
}

fn hover_at(snapshot: &DocumentSnapshot, position: Position) -> Option<HoverText> {
    let cursor = snapshot.line_index.position_to_byte(position);
    hover(&index(snapshot), cursor)
}

fn definition_at(snapshot: &DocumentSnapshot, position: Position) -> Option<Span> {
    let cursor = snapshot.line_index.position_to_byte(position);
    definition(&index(snapshot), cursor)
}

fn markdown(source: &str, byte: usize) -> Option<String> {
    let documents = snapshot(source);
    let snapshot = documents.get(URI).unwrap();
    let hover = hover_at(snapshot, snapshot.line_index.byte_to_position(byte))?;
    Some(hover.markdown)
}

#[test]
fn hovers_built_in_sections_and_blocks_with_markdown() {
    let source = "{#if shown}yes{#else}no{/if}";

    assert_eq!(
        markdown(source, source.find("if").unwrap()).unwrap(),
        "```radiant\n{#if condition}…{/if}\n```\n\nConditionally renders its body."
    );
    assert_eq!(
        markdown(source, source.find("else").unwrap()).unwrap(),
        "```radiant\n{#else}\n```\n\n`else` block in the `if` section."
    );
}

#[test]
fn hovers_declarations_and_shadowed_uses_with_types_and_exact_ranges() {
    let source = "😀{@String name}{#let name='local'}{name}{/let}{name}";
    let documents = snapshot(source);
    let snapshot = documents.get(URI).unwrap();
    let local_use = source.find("{name}").unwrap() + 1;
    let local = hover_at(
        snapshot,
        snapshot.line_index.byte_to_position(local_use + "nam".len()),
    )
    .unwrap();
    assert_eq!(local.markdown, "**local binding** `name`");
    assert_eq!(
        snapshot.line_index.span_to_range(local.span).start,
        Position::new(0, 36)
    );

    assert_eq!(
        markdown(source, source.rfind("{name}").unwrap() + 1).unwrap(),
        "**parameter** `name`\n\nType: `String`"
    );
}

#[test]
fn definitions_target_parameter_alias_and_named_binding_name_spans() {
    let source = "😀{@String items}{#for item in items}{#set label=item}{label}{/set}{item}{/for}";
    let documents = snapshot(source);
    let snapshot = documents.get(URI).unwrap();
    for (usage, declaration, length) in [
        ("items}", "items}", "items".len()),
        ("{item}", "item in", "item".len()),
        ("{label}", "label=", "label".len()),
    ] {
        let use_at = source.rfind(usage).unwrap() + usize::from(usage.starts_with('{'));
        let target = definition_at(snapshot, snapshot.line_index.byte_to_position(use_at)).unwrap();
        let expected = source.find(declaration).unwrap();
        assert_eq!(
            snapshot.line_index.span_to_range(target),
            snapshot
                .line_index
                .span_to_range(Span::new(expected, expected + length))
        );
    }
}

#[test]
fn definitions_cover_each_alias_and_let_bindings() {
    let source = "{#each items}{it}{/each}{#let answer=42}{answer}{/let}";
    let documents = snapshot(source);
    let snapshot = documents.get(URI).unwrap();

    for (usage, declaration, length) in [
        ("{it}", "each", "each".len()),
        ("{answer}", "answer=", "answer".len()),
    ] {
        let target = definition_at(
            snapshot,
            snapshot
                .line_index
                .byte_to_position(source.find(usage).unwrap() + 1),
        )
        .unwrap();
        let expected = source.find(declaration).unwrap();
        assert_eq!(
            snapshot.line_index.span_to_range(target),
            snapshot
                .line_index
                .span_to_range(Span::new(expected, expected + length))
        );
    }
}

#[test]
fn returns_none_for_unknown_member_and_out_of_scope_identifiers() {
    let source =
        "{@User user}name{user.name}{missing}{#for item in items}{item}{#else}{item}{/for}";
    assert!(markdown(source, source.find("name").unwrap()).is_none());
    for byte in [
        source.find(".name").unwrap() + 1,
        source.find("missing").unwrap(),
        source.rfind("{item}").unwrap() + 1,
    ] {
        assert!(markdown(source, byte).is_none());
        let documents = snapshot(source);
        let snapshot = documents.get(URI).unwrap();
        assert!(definition_at(snapshot, snapshot.line_index.byte_to_position(byte)).is_none());
    }
}

#[test]
fn identifier_boundaries_do_not_select_adjacent_punctuation() {
    let source = "{@String name}{name}";
    assert!(markdown(source, source.rfind("name").unwrap()).is_some());
    assert!(markdown(source, source.rfind("name").unwrap() + 3).is_some());
    assert!(markdown(source, source.len() - 1).is_none());
}

#[test]
fn definition_does_not_treat_a_built_in_as_the_implicit_each_alias() {
    let source = "{#each items}{it}{/each}";
    let documents = snapshot(source);
    let snapshot = documents.get(URI).unwrap();

    assert!(definition_at(
        snapshot,
        snapshot
            .line_index
            .byte_to_position(source.find("each").unwrap()),
    )
    .is_none());
}

#[test]
fn hovering_a_user_tag_name_shows_nothing() {
    let source = "{#card title='x' /}";
    assert!(markdown(source, source.find("card").unwrap()).is_none());
}

#[test]
fn a_declared_name_leads_to_itself() {
    let source = "{@String name}{name}";
    let documents = snapshot(source);
    let snapshot = documents.get(URI).unwrap();
    let at = source.find("name").unwrap();
    assert_eq!(
        definition_at(snapshot, snapshot.line_index.byte_to_position(at + 1)),
        Some(Span::new(at, at + "name".len()))
    );
}
