use radiant::tooling::documents::DocumentStore;
use radiant::tooling::line_index::Position;
use radiant::tooling::symbols::{document_symbols, outline_inputs_hold, Symbol, SymbolKind};
use radiant::tooling::documents::DocumentSnapshot;

const URI: &str = "file:///workspace/templates/page.html";

fn symbols(snapshot: &DocumentSnapshot) -> Vec<Symbol> {
    let nodes = &snapshot.analysis.template.nodes;
    assert!(outline_inputs_hold(nodes, &snapshot.text));
    document_symbols(nodes, &snapshot.text)
}

#[test]
fn builds_hierarchical_symbols_with_utf16_ranges() {
    let source = "😀{@String title}\n{#if title}{#for item in items}{#fragment card}{#capture note}x{/capture}{/fragment}{#else}none{/for}{#else}off{/if}";
    let mut documents = DocumentStore::new();
    let snapshot = documents.open(URI, 1, source.into());
    let symbols = symbols(snapshot);
    let range = |symbol: &Symbol| snapshot.line_index.span_to_range(symbol.span);
    let selection = |symbol: &Symbol| snapshot.line_index.span_to_range(symbol.selection);

    assert_eq!(symbols.len(), 2);
    assert_eq!(symbols[0].name, "title");
    assert_eq!(symbols[0].detail.as_deref(), Some("String"));
    assert_eq!(selection(&symbols[0]).start, Position::new(0, 11));

    let if_section = &symbols[1];
    assert_eq!(if_section.name, "if");
    assert_eq!(if_section.kind, SymbolKind::Namespace);
    assert_eq!(if_section.children.len(), 2);
    let for_section = &if_section.children[0].children[0];
    assert_eq!(for_section.name, "for");
    assert_eq!(for_section.children.len(), 2);
    let fragment = &for_section.children[0].children[0];
    assert_eq!(fragment.name, "card");
    assert_eq!(fragment.detail.as_deref(), Some("fragment"));
    let capture = &fragment.children[0].children[0];
    assert_eq!(capture.name, "note");
    assert_eq!(capture.detail.as_deref(), Some("capture"));
    assert!(range(if_section).end.character > selection(if_section).end.character);
}

#[test]
fn retains_symbols_from_valid_regions_of_invalid_source() {
    let mut documents = DocumentStore::new();
    let snapshot = documents.open(URI, 1, "{#fragment good}{/fragment}{broken +}".into());

    assert_eq!(symbols(snapshot)[0].name, "good");
    assert!(!snapshot.analysis.diagnostics.is_empty());
}

#[test]
fn blocks_run_to_the_next_block_and_sections_select_their_names() {
    let source = "{#if a}x{#else}y{/if}";
    let mut documents = DocumentStore::new();
    let snapshot = documents.open(URI, 1, source.into());
    let symbols = symbols(snapshot);
    let section = &symbols[0];
    assert_eq!(section.detail.as_deref(), Some("section"));
    assert_eq!(section.selection.start, source.find("if").unwrap());
    assert_eq!(section.selection.end, source.find("if").unwrap() + 2);
    let first = &section.children[0];
    let second = &section.children[1];
    assert_eq!(first.kind, SymbolKind::Struct);
    assert_eq!(first.detail.as_deref(), Some("block"));
    assert_eq!(first.span.end, source.find("{#else}").unwrap());
    assert_eq!(second.name, "else");
    assert_eq!(second.span.end, source.len());
}

#[test]
fn a_fragment_without_an_identifier_keeps_its_section_name() {
    let source = "{#capture}x{/capture}";
    let mut documents = DocumentStore::new();
    let snapshot = documents.open(URI, 1, source.into());
    let symbols = symbols(snapshot);
    assert_eq!(symbols[0].name, "capture");
    assert_eq!(symbols[0].kind, SymbolKind::Object);
}
