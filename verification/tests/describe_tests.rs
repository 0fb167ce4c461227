//! What a port's own description is read as.

use bgone::describe::{freshness, parse_describe_json, DescribeError, Freshness};

const PLAIN: &str = r#"{
    "pkgname": " nginx-1.24.0,3 ",
    "pkgbase": "nginx",
    "complete_options_list": ["HTTP2", " DOCS ", "", 7],
    "options_default": ["HTTP2"]
}"#;

#[test]
fn a_description_gives_the_options_and_their_defaults() {
    let d = parse_describe_json(PLAIN, "www/nginx", 12).unwrap();
    assert_eq!(d.origin, "www/nginx");
    assert_eq!(d.pkgname, "nginx-1.24.0,3");
    assert_eq!(d.pkgbase, "nginx");
    assert_eq!(d.complete_options_list, vec!["HTTP2", "DOCS"]);
    assert_eq!(d.options_default, vec!["HTTP2"]);
    assert_eq!(d.source_mtime, 12);
}

/// A port with flavours describes each; the first is taken.
#[test]
fn the_first_flavour_speaks_for_the_port() {
    let text = r#"{
        "note": "none",
        "py311-six": { "pkgname": "py311-six-1.16", "options_default": [""] },
        "py312-six": { "pkgname": "py312-six-1.16" }
    }"#;
    let d = parse_describe_json(text, "devel/py-six", 0).unwrap();
    assert_eq!(d.pkgname, "py311-six-1.16");
    assert_eq!(d.pkgbase, "py311-six", "the version is cut off");
    assert!(d.complete_options_list.is_empty());
    assert!(d.options_default.is_empty());
}

#[test]
fn a_name_without_a_version_is_its_own_base() {
    let d = parse_describe_json(r#"{"pkgname": "tool", "pkgbase": " "}"#, "x/tool", 0).unwrap();
    assert_eq!(d.pkgbase, "tool");
}

#[test]
fn each_way_a_description_can_be_unusable_is_told() {
    let origin = || "x/y".to_string();
    let cases = [
        ("{", DescribeError::NotJson { origin: origin() }, "x/y: unparseable describe-json"),
        ("[1]", DescribeError::NotObject { origin: origin() }, "x/y: describe-json was not an object"),
        (
            r#"{"a": {"b": 1}}"#,
            DescribeError::NoPkgname { origin: origin() },
            "x/y: describe-json had no pkgname",
        ),
        (
            r#"{"pkgname": "  "}"#,
            DescribeError::EmptyPkgname { origin: origin() },
            "x/y: describe-json reported an empty pkgname",
        ),
        (
            r#"{"pkgname": 3}"#,
            DescribeError::EmptyPkgname { origin: origin() },
            "x/y: describe-json reported an empty pkgname",
        ),
    ];
    for (text, error, message) in cases {
        let e = parse_describe_json(text, "x/y", 0).unwrap_err();
        assert_eq!(e, error);
        assert_eq!(e.message(), message);
    }
}

/// A description is kept until the port's Makefiles change.
#[test]
fn a_description_is_fresh_until_the_makefiles_change() {
    assert_eq!(freshness(Some(3), Some(3)), Freshness::Fresh);
    assert_eq!(freshness(Some(3), Some(4)), Freshness::Stale);
    assert_eq!(freshness(None, Some(4)), Freshness::Stale);
    assert_eq!(freshness(Some(3), None), Freshness::Missing);
}
