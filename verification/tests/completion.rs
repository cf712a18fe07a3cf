use radiant::tooling::completion::{completions, Candidate, CompletionKind};
use radiant::tooling::documents::{DocumentSnapshot, DocumentStore};
use radiant::tooling::line_index::Position;
use radiant::tooling::semantic::index_inputs_hold;

const URI: &str = "file:///workspace/templates/page.html";

fn complete(snapshot: &DocumentSnapshot, position: Position) -> Vec<Candidate> {
    let cursor = snapshot.line_index.position_to_byte(position);
    let nodes = &snapshot.analysis.template.nodes;
    assert!(index_inputs_hold(nodes, &snapshot.text));
    assert!(snapshot.text.is_char_boundary(cursor));
    completions(nodes, &snapshot.text, cursor)
}

fn labels(source: &str, marker: &str) -> Vec<String> {
    let cursor = source.find(marker).unwrap();
    let source = source.replacen(marker, "", 1);
    let mut documents = DocumentStore::default();
    let snapshot = documents.open(URI, 1, source);
    complete(snapshot, snapshot.line_index.byte_to_position(cursor))
        .into_iter()
        .map(|item| item.label)
        .collect()
}

#[test]
fn completes_built_in_sections_in_incomplete_tags() {
    let labels = labels("<main>{#i<CURSOR>", "<CURSOR>");

    assert!(labels.contains(&"if".into()));
    assert!(labels.contains(&"fragment".into()));
    assert!(!labels.contains(&"else".into()));
}

#[test]
fn adds_only_context_valid_blocks_inside_sections() {
    let labels = labels("{#when state}{#<CURSOR>{/when}", "<CURSOR>");

    assert!(labels.contains(&"if".into()));
    assert!(labels.contains(&"is".into()));
    assert!(labels.contains(&"case".into()));
    assert!(labels.contains(&"else".into()));
}

#[test]
fn completes_blocks_in_incomplete_nested_tags_at_end_of_file() {
    let labels = labels("{#if shown}{#<CURSOR>", "<CURSOR>");

    assert!(labels.contains(&"else".into()));
}

#[test]
fn completes_parameters_and_lexically_scoped_locals() {
    let source = "{@Vec<Item> items}{@String title}{#for item in items}{#let label=title}{la<CURSOR>}{/let}{/for}";
    let in_scope = labels(source, "<CURSOR>");

    assert_eq!(in_scope, ["items", "title", "item", "label"]);
    let outside = labels(
        "{@String title}{#let label=title}{label}{/let}{outside<CURSOR>}",
        "<CURSOR>",
    );
    assert!(!outside.contains(&"label".into()));
    assert!(labels("{@String title}{#let label = ti<CURSOR>", "<CURSOR>").contains(&"title".into()));
}

#[test]
fn suppresses_completion_outside_expression_and_tag_contexts() {
    for source in [
        "<div>plain<CURSOR> html</div>",
        "{! hidden {na<CURSOR>} !}",
        "{! unfinished {na<CURSOR>",
        "{| raw {na<CURSOR>} |}",
        "{|| raw {na<CURSOR> |}",
        "{#include 'na<CURSOR>me' /}",
    ] {
        assert!(labels(source, "<CURSOR>").is_empty(), "source: {source}");
    }
    assert!(
        labels("{@User user}{user.na<CURSOR>}", "<CURSOR>").is_empty(),
        "member completion needs Rust type information"
    );
}

#[test]
fn accepts_utf16_completion_positions() {
    let source = "😀{@String name}{na";
    let mut documents = DocumentStore::default();
    let snapshot = documents.open(URI, 1, source.into());

    assert_eq!(complete(snapshot, Position::new(0, 20))[0].label, "name");
}

#[test]
fn variables_carry_their_kind_and_type() {
    let mut documents = DocumentStore::default();
    let source = "{@String name}{";
    let snapshot = documents.open(URI, 1, source.into());
    let items = complete(snapshot, snapshot.line_index.byte_to_position(source.len()));
    assert_eq!(items.len(), 1);
    assert_eq!(items[0].kind, CompletionKind::Variable);
    assert_eq!(items[0].detail, "parameter: String");
}

#[test]
fn section_keywords_are_described_as_built_in() {
    let items = {
        let mut documents = DocumentStore::default();
        let source = "{#";
        let snapshot = documents.open(URI, 1, source.into());
        complete(snapshot, snapshot.line_index.byte_to_position(source.len()))
    };
    assert!(items.iter().all(|item| item.kind == CompletionKind::Keyword));
    assert_eq!(items[0].label, "if");
    assert_eq!(items[0].detail, "built-in section");
}
