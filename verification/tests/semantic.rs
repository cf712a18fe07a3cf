use radiant::compiler::analyze;
use radiant::tooling::semantic::{
    construct_markdown, index_inputs_hold, DeclarationKind, SemanticIndex, TemplateReference,
};

fn index(source: &str) -> SemanticIndex {
    let nodes = analyze("test", source).template.nodes;
    assert!(index_inputs_hold(&nodes, source));
    SemanticIndex::new(&nodes, source)
}

#[test]
fn resolves_shadowing_and_isolates_sibling_blocks() {
    let source = "{@String item}{#for item in items}{item}{#else}{item}{/for}";
    let semantic = index(source);
    let primary_use = source.find("{item}").unwrap() + 1;
    let sibling_use = source.rfind("{item}").unwrap() + 1;

    assert_eq!(
        semantic.resolve("item", primary_use).unwrap().kind,
        DeclarationKind::LoopAlias
    );
    assert_eq!(
        semantic.resolve("item", sibling_use).unwrap().kind,
        DeclarationKind::Parameter
    );
}

#[test]
fn records_exact_unicode_declaration_name_spans_and_scope_boundaries() {
    let source = "😀{@String café=café}{#let café=café}{café}{/let}{café}";
    let semantic = index(source);
    let parameter = semantic
        .declarations
        .iter()
        .find(|declaration| declaration.kind == DeclarationKind::Parameter)
        .unwrap();
    let local = semantic
        .declarations
        .iter()
        .find(|declaration| declaration.kind == DeclarationKind::LocalBinding)
        .unwrap();

    assert_eq!(parameter.name_span.start, source.find("café").unwrap());
    assert_eq!(&source[local.name_span.start..local.name_span.end], "café");
    assert_eq!(
        semantic
            .resolve("café", source.find("{café}").unwrap() + 1)
            .unwrap()
            .kind,
        DeclarationKind::LocalBinding
    );
    assert_eq!(
        semantic
            .resolve("café", source.rfind("{café}").unwrap() + 1)
            .unwrap()
            .kind,
        DeclarationKind::Parameter
    );
}

#[test]
fn each_declares_the_implicit_alias_and_visibility_keeps_one_per_name() {
    let source = "{@String it}{#each items}{it}{/each}";
    let semantic = index(source);
    let inside = source.find("{it}").unwrap() + 1;
    let visible = semantic.visible_declarations(inside);
    assert_eq!(visible.len(), 1);
    assert_eq!(visible[0].kind, DeclarationKind::LoopAlias);
    assert_eq!(visible[0].detail(), "loop alias");
    let outside = semantic.visible_declarations(source.len());
    assert_eq!(outside.len(), 1);
    assert_eq!(outside[0].detail(), "parameter: String");
}

#[test]
fn references_and_template_symbols_are_collected() {
    let source = "{#include parts$card /}{#card /}{#fragment note}{a.b + c}{/fragment}";
    let semantic = index(source);
    let names: Vec<&str> = semantic.references.iter().map(|r| r.name.as_str()).collect();
    assert_eq!(names, vec!["a", "c"]);
    assert_eq!(semantic.fragments.len(), 1);
    assert_eq!(semantic.fragments[0].name, "note");
    match &semantic.template_references[0] {
        TemplateReference::Include { target, target_span, fragment } => {
            assert_eq!(target, "parts");
            assert_eq!(&source[target_span.start..target_span.end], "parts");
            let (name, span) = fragment.as_ref().unwrap();
            assert_eq!(name, "card");
            assert_eq!(&source[span.start..span.end], "card");
        }
        _ => panic!("expected an include"),
    }
    match &semantic.template_references[1] {
        TemplateReference::Tag { target, span } => {
            assert_eq!(target, "tags/card");
            assert_eq!(&source[span.start..span.end], "card");
        }
        _ => panic!("expected a tag"),
    }
    let at = source.find("card /}").unwrap();
    assert!(matches!(semantic.template_reference_at(at), Some(TemplateReference::Include { .. })));
}

#[test]
fn hovers_describe_built_in_sections_and_blocks() {
    assert_eq!(
        construct_markdown("if", None).unwrap(),
        "```radiant\n{#if condition}…{/if}\n```\n\nConditionally renders its body."
    );
    assert_eq!(
        construct_markdown("else", Some("if")).unwrap(),
        "```radiant\n{#else}\n```\n\n`else` block in the `if` section."
    );
    assert_eq!(
        construct_markdown("is", Some("when")).unwrap(),
        "```radiant\n{#is value}\n```\n\n`is` block in the `when` section."
    );
    assert!(construct_markdown("card", None).is_none());
    assert!(construct_markdown("title", Some("include")).is_none());
}

#[test]
fn references_to_a_declaration_follow_shadowing() {
    let source = "{@String name}{name}{#let name='x'}{name}{/let}{name}";
    let semantic = index(source);
    let parameter = semantic
        .declarations
        .iter()
        .find(|d| d.kind == DeclarationKind::Parameter)
        .unwrap();
    let uses = semantic.references_to(parameter);
    assert_eq!(uses.len(), 2);
    assert_eq!(parameter.markdown(), "**parameter** `name`\n\nType: `String`");
}
