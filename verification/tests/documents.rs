use radiant::paths::safe_id;
use radiant::tooling::documents::{template_root, DocumentStore};

#[test]
fn open_change_reject_stale_and_close_documents() {
    let uri = "file:///workspace/templates/pages/index.html";
    let mut documents = DocumentStore::default();

    let opened = documents.open(uri, 1, "{broken +}".into());
    assert_eq!(opened.version, 1);
    assert_eq!(opened.analysis.diagnostics.len(), 1);
    assert_eq!(opened.template_root.as_deref(), Some("/workspace/templates"));

    let changed = documents.change(uri, 2, "valid {name}".into()).unwrap();
    assert_eq!(changed.version, 2);
    assert!(changed.analysis.diagnostics.is_empty());

    assert!(documents.change(uri, 2, "{stale +}".into()).is_none());
    assert_eq!(documents.get(uri).unwrap().text, "valid {name}");

    assert!(documents.close(uri).is_some());
    assert!(documents.get(uri).is_none());
}

#[test]
fn ignores_changes_for_documents_that_are_not_open() {
    let uri = "file:///workspace/outside.html";
    let mut documents = DocumentStore::default();

    assert!(documents.change(uri, 1, "text".into()).is_none());
    assert!(documents.get(uri).is_none());
}

#[test]
fn documents_outside_a_templates_directory_have_no_root() {
    let mut documents = DocumentStore::new();
    let opened = documents.open("file:///workspace/outside.html", 1, "text".into());
    assert!(opened.template_root.is_none());
}

#[test]
fn reopening_replaces_the_snapshot_and_keeps_other_documents() {
    let mut documents = DocumentStore::new();
    documents.open("file:///a/templates/one.html", 3, "one".into());
    documents.open("file:///a/templates/two.html", 1, "two".into());
    documents.open("file:///a/templates/one.html", 1, "again".into());
    assert_eq!(documents.open_documents().len(), 2);
    assert_eq!(documents.get("file:///a/templates/one.html").unwrap().text, "again");
    assert_eq!(documents.get("file:///a/templates/one.html").unwrap().version, 1);
    assert_eq!(documents.get("file:///a/templates/two.html").unwrap().text, "two");
    let closed = documents.close("file:///a/templates/two.html").unwrap();
    assert_eq!(closed.text, "two");
    assert!(documents.close("file:///a/templates/two.html").is_none());
    assert_eq!(documents.get("file:///a/templates/one.html").unwrap().text, "again");
}

#[test]
fn template_roots_are_the_deepest_templates_directory() {
    assert_eq!(
        template_root("/w/templates/x/templates/page.html").as_deref(),
        Some("/w/templates/x/templates")
    );
    assert_eq!(template_root("/w/templates").as_deref(), Some("/w/templates"));
    assert_eq!(template_root("/w/templates//").as_deref(), Some("/w/templates//"));
    assert_eq!(template_root("/w/my-templates/page.html"), None);
    assert_eq!(template_root("/w/templatesx/page.html"), None);
    assert_eq!(template_root("templates/page.html").as_deref(), Some("templates"));
}

#[test]
fn navigation_looks_up_only_ids_below_the_root() {
    assert!(safe_id("nested/card"));
    assert!(safe_id("tags/admin/badge"));
    assert!(safe_id("a/./b"));
    assert!(!safe_id("../outside"));
    assert!(!safe_id("/outside"));
    assert!(!safe_id("./card"));
    assert!(!safe_id("nested/../card"));
    assert!(!safe_id("nested\\card"));
    assert!(!safe_id(""));
}
