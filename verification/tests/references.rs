use radiant::compiler::{analyze, Analysis};
use radiant::tooling::references::cross_diagnostics;

fn codes(source: &str, templates: &[(&str, &str)]) -> Vec<(&'static str, String, (usize, usize))> {
    let current = analyze("page", source);
    let parsed: Vec<(String, Analysis)> = templates
        .iter()
        .map(|(id, text)| (id.to_string(), analyze(id, text)))
        .collect();
    let mut analyses: Vec<(String, &Analysis)> = parsed
        .iter()
        .map(|(id, analysis)| (id.clone(), analysis))
        .filter(|(id, _)| id != "page")
        .collect();
    analyses.push(("page".to_string(), &current));
    analyses.sort_by(|a, b| a.0.cmp(&b.0));
    cross_diagnostics("page", &current, source, &analyses)
        .into_iter()
        .map(|diagnostic| {
            (
                diagnostic.code,
                diagnostic.message,
                (diagnostic.span.start, diagnostic.span.end),
            )
        })
        .collect()
}

#[test]
fn reports_missing_static_targets_tags_and_fragments_at_reference_spans() {
    let source = "😀 {#include 'missing' /}{#lost /}{#include card$absent /}";
    assert_eq!(
        codes(source, &[("card", "{#fragment present /}")]),
        [
            (
                "E_TEMPLATE_NOT_FOUND",
                "template `missing` was not found".to_string(),
                (
                    source.find("missing").unwrap(),
                    source.find("missing").unwrap() + 7
                )
            ),
            (
                "E_TAG_NOT_FOUND",
                "user tag `lost` was not found".to_string(),
                (
                    source.find("lost").unwrap(),
                    source.find("lost").unwrap() + 4
                )
            ),
            (
                "E_FRAGMENT_NOT_FOUND",
                "fragment `absent` was not found in template `card`".to_string(),
                (
                    source.find("absent").unwrap(),
                    source.find("absent").unwrap() + 6
                )
            ),
        ]
    );
}

#[test]
fn ignores_dynamic_includes_and_accepts_existing_fragments() {
    let source = "{#include _id=chosen /}{#include card$present /}{#card /}";
    assert!(codes(source, &[("card", "{#capture present /}"), ("tags/card", "")]).is_empty());
}

#[test]
fn reports_each_static_include_edge_that_closes_a_workspace_cycle() {
    let source = "{#include middle /}";
    assert_eq!(
        codes(
            source,
            &[("middle", "{#include end /}"), ("end", "{#include page /}")]
        ),
        [(
            "E_INCLUDE_CYCLE",
            "static include cycle: page -> middle -> end -> page".to_string(),
            (10, 16)
        )]
    );
}

#[test]
fn a_template_without_references_has_no_cross_findings() {
    assert!(codes("plain text {name}", &[("other", "{#include page /}")]).is_empty());
}

#[test]
fn includes_that_never_lead_back_report_no_cycle() {
    let source = "{#include middle /}";
    assert!(codes(source, &[("middle", "{#include end /}"), ("end", "{#include middle /}")]).is_empty());
}
