use std::collections::HashMap;

use radiant::include_loader::{load_start, load_step, LoadAction, LoadEvent};

/// Runs the walk against an in-memory template root; `None` marks a file
/// that exists but cannot be read.
fn walk(files: &[(&str, Option<&str>)], requested: &str) -> (Vec<String>, Vec<String>, Vec<String>) {
    let files: HashMap<String, Option<String>> = files
        .iter()
        .map(|(path, text)| (path.to_string(), text.map(|t| t.to_string())))
        .collect();
    let mut reads = Vec::new();
    let (mut state, mut action) = load_start("root".to_string(), requested);
    loop {
        let event = match action {
            LoadAction::Probe(path) => LoadEvent::Probed(files.contains_key(&path)),
            LoadAction::Read(path) => {
                reads.push(path.clone());
                match files.get(&path) {
                    Some(Some(text)) => LoadEvent::Loaded(text.clone()),
                    _ => LoadEvent::Unreadable(format!("root/{path}"), "bad bytes".to_string()),
                }
            }
            LoadAction::Done => break,
        };
        let (next_state, next_action) = load_step(state, event);
        state = next_state;
        action = next_action;
    }
    let loaded = state.sources.iter().map(|s| s.id.clone()).collect();
    (loaded, reads, state.errors)
}

#[test]
fn loads_every_static_include_once_in_order() {
    let (loaded, reads, errors) = walk(
        &[
            ("page.html", Some("{#include header /}{#include footer$links /}")),
            ("header.html", Some("{#include footer /}")),
            ("footer.html", Some("{#fragment links}x{/fragment}")),
        ],
        "page",
    );
    assert_eq!(loaded, ["page.html", "header.html", "footer.html"]);
    assert_eq!(reads, ["page.html", "header.html", "footer.html"]);
    assert!(errors.is_empty());
}

#[test]
fn files_with_an_extension_are_taken_as_named() {
    let (loaded, _, errors) = walk(&[("page.txt", Some("plain")), ("page", Some("bare"))], "./page.txt");
    assert_eq!(loaded, ["page.txt"]);
    assert!(errors.is_empty());
    let (loaded, _, _) = walk(&[("page", Some("bare")), ("page.html", Some("html"))], "page");
    assert_eq!(loaded, ["page"]);
}

#[test]
fn reports_include_cycles_on_the_load_stack() {
    let (loaded, reads, errors) = walk(
        &[("a.html", Some("{#include b /}")), ("b.html", Some("{#include a /}"))],
        "a",
    );
    assert_eq!(loaded, ["a.html", "b.html"]);
    assert_eq!(reads, ["a.html", "b.html"]);
    assert_eq!(errors, ["template include cycle: a.html -> b.html -> a.html"]);
}

#[test]
fn reports_missing_invalid_and_unreadable_includes_and_goes_on() {
    let (loaded, _, errors) = walk(
        &[
            ("page.html", Some("{#include nope /}{#include ../x /}{#include broken /}{#include ok /}")),
            ("broken.html", None),
            ("ok.html", Some("fine")),
        ],
        "page",
    );
    assert_eq!(loaded, ["page.html", "ok.html"]);
    assert_eq!(
        errors,
        [
            "template `nope` was not found under `root`",
            "invalid template include `../x`",
            "cannot read template `root/broken.html` as UTF-8: bad bytes",
        ]
    );
}

#[test]
fn reports_syntax_errors_of_included_templates() {
    let (loaded, _, errors) = walk(&[("page.html", Some("{#include bad /}")), ("bad.html", Some("{#if x}"))], "page");
    assert_eq!(loaded, ["page.html"]);
    assert!(!errors.is_empty());
    assert!(errors.iter().all(|e| e.starts_with("bad.html:1:")));
}

#[test]
fn an_invalid_root_is_reported_and_ends_the_walk() {
    let (loaded, reads, errors) = walk(&[], "/etc/passwd");
    assert!(loaded.is_empty() && reads.is_empty());
    assert_eq!(errors, ["invalid template include `/etc/passwd`"]);
}
