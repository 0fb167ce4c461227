//! Writing groups back into a file that a person maintains.

use bgone::config::{save_groups, Existing, SaveError};
use bgone::graph::Group;
use toml_edit::DocumentMut;

fn groups_of(pairs: &[(&str, &[&str])]) -> Vec<Group> {
    pairs
        .iter()
        .map(|(name, members)| Group {
            name: name.to_string(),
            members: members.iter().map(|m| m.to_string()).collect(),
        })
        .collect()
}

fn reloaded(written: &str) -> DocumentMut {
    written.parse().unwrap()
}

fn members(doc: &DocumentMut, group: &str) -> Vec<String> {
    doc["groups"][group]
        .as_array()
        .unwrap()
        .iter()
        .map(|v| v.as_str().unwrap().to_string())
        .collect()
}

const ORIGINAL: &str = "\
# Where poudriere reads options from for the HEAD tree
options_dir = \"/usr/local/etc/poudriere.d/HEAD-options\"

# The list I actually build
file = \"/usr/local/etc/poudriere.d/port-list\"
ignore_missing = true
";

/// Saving a group must not cost the user their comments, their key order, or
/// any setting unrelated to groups.
#[test]
fn test_saving_groups_leaves_the_rest_of_the_file_alone() {
    let written = save_groups(
        "bgone.toml",
        &Existing::Text(ORIGINAL.to_string()),
        &groups_of(&[(
            "php-extensions",
            &["lang/php83-extensions", "lang/php84-extensions"],
        )]),
    )
    .unwrap();

    assert!(
        written.contains("# Where poudriere reads options from for the HEAD tree"),
        "comments were lost:\n{written}"
    );
    assert!(written.contains("# The list I actually build"));
    assert!(written.contains(r#"options_dir = "/usr/local/etc/poudriere.d/HEAD-options""#));
    assert!(written.contains("ignore_missing = true"));
    assert!(written.contains("[groups]"));

    // ...and it still loads, with everything intact
    let doc = reloaded(&written);
    assert_eq!(doc["ignore_missing"].as_bool(), Some(true));
    assert_eq!(
        members(&doc, "php-extensions"),
        vec!["lang/php83-extensions", "lang/php84-extensions"]
    );
}

/// Saving when there is no config yet creates one holding just the groups.
#[test]
fn test_saving_groups_creates_a_config_from_nothing() {
    let written = save_groups(
        "new.toml",
        &Existing::Missing,
        &groups_of(&[("db", &["databases/redis"])]),
    )
    .unwrap();

    let doc = reloaded(&written);
    assert_eq!(members(&doc, "db"), vec!["databases/redis"]);
    assert!(doc.get("options_dir").is_none(), "nothing else invented");
    assert_eq!(doc.iter().count(), 1);
}

/// An existing config that cannot be read must not be rewritten as
/// groups-only: what is there is unknown, not absent. Only a genuinely
/// missing file starts from nothing.
#[test]
fn saving_groups_refuses_an_unreadable_config() {
    let result = save_groups(
        "bgone.toml",
        &Existing::Unreadable,
        &groups_of(&[("db", &["databases/redis"])]),
    );
    let error = result.unwrap_err();
    assert_eq!(error, SaveError::Unreadable { path: "bgone.toml".to_string() });
    assert!(error.message().contains("bgone.toml"), "{}", error.message());
}

/// A file that is not TOML is not rewritten either.
#[test]
fn saving_groups_refuses_a_file_that_is_not_toml() {
    let result = save_groups(
        "bgone.toml",
        &Existing::Text("options_dir = [".to_string()),
        &groups_of(&[("db", &["databases/redis"])]),
    );
    let error = result.unwrap_err();
    assert_eq!(error, SaveError::NotToml { path: "bgone.toml".to_string() });
    assert!(error.message().contains("bgone.toml"), "{}", error.message());
    let unwritable = SaveError::Unwritable { path: "/ro/bgone.toml".to_string() };
    assert!(unwritable.message().contains("/ro/bgone.toml"), "{}", unwritable.message());
}

/// Re-saving replaces the groups rather than accumulating them, and dropping the
/// last group takes the table with it.
#[test]
fn test_saving_replaces_the_groups_table() {
    let first = save_groups(
        "bgone.toml",
        &Existing::Missing,
        &groups_of(&[("a", &["www/one"]), ("b", &["www/two"])]),
    )
    .unwrap();
    let second = save_groups(
        "bgone.toml",
        &Existing::Text(first),
        &groups_of(&[("a", &["www/one", "www/three"])]),
    )
    .unwrap();

    let doc = reloaded(&second);
    assert_eq!(
        doc["groups"].as_table().unwrap().iter().count(),
        1,
        "the dropped group must be gone"
    );
    assert_eq!(members(&doc, "a"), vec!["www/one", "www/three"]);

    let written = save_groups("bgone.toml", &Existing::Text(second), &groups_of(&[])).unwrap();
    assert!(
        !written.contains("[groups]"),
        "an empty table should not linger:\n{written}"
    );
    assert!(reloaded(&written).get("groups").is_none());
}

/// A group in a file of its own settings, and names that TOML has to quote.
#[test]
fn a_name_that_needs_quotes_reads_back() {
    let written = save_groups(
        "bgone.toml",
        &Existing::Text(ORIGINAL.to_string()),
        &groups_of(&[("php 8.x", &["lang/php83-extensions"]), ("ssl", &[])]),
    )
    .unwrap();
    let doc = reloaded(&written);
    assert_eq!(members(&doc, "php 8.x"), vec!["lang/php83-extensions"]);
    assert!(members(&doc, "ssl").is_empty());
    assert_eq!(doc["file"].as_str(), Some("/usr/local/etc/poudriere.d/port-list"));
}
