use radiant::derive::{normalize_id, RenameRule};

#[test]
fn normalizes_paths() {
    assert_eq!(normalize_id("./a/b.html"), Ok("a/b.html".into()));
    assert!(normalize_id("../x").is_err());
}

#[test]
fn applies_rename_rules() {
    assert_eq!(RenameRule::Camel.apply("first_name"), "firstName");
    assert_eq!(RenameRule::Kebab.apply("first_name"), "first-name");
}
