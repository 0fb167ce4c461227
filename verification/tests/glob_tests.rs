use bgone::glob::glob_matches;

/// A star takes any run of characters, a question mark any one.
#[test]
fn stars_and_question_marks_match_as_before() {
    assert!(glob_matches("www/py-*", "www/py-django"));
    assert!(glob_matches("*postgres*", "databases/postgresql16-server"));
    assert!(glob_matches("www/py-?ango", "www/py-dango"));
    assert!(!glob_matches("www/py-?", "www/py-django"));
}

/// A class takes one character: of a set, of a range, or of neither.
#[test]
fn character_classes_match_sets_ranges_and_complements() {
    assert!(glob_matches("www/py-[dr]*", "www/py-django"));
    assert!(glob_matches("www/py-[dr]*", "www/py-requests"));
    assert!(!glob_matches("www/py-[dr]*", "www/py-abc"));

    assert!(glob_matches("www/py-[a-c]*", "www/py-abc"));
    assert!(!glob_matches("www/py-[a-c]*", "www/py-django"));

    assert!(glob_matches("www/py-[!dr]*", "www/py-abc"));
    assert!(!glob_matches("www/py-[!dr]*", "www/py-django"));
    assert!(glob_matches("www/py-[^dr]*", "www/py-abc"));
}

/// The sh corner cases: a `]` first in a class is a member, a trailing `-`
/// is a member, and an unclosed `[` is a literal bracket.
#[test]
fn class_corner_cases_follow_sh() {
    assert!(glob_matches("a[]x]b", "a]b"));
    assert!(glob_matches("a[]x]b", "axb"));
    assert!(!glob_matches("a[]x]b", "ayb"));

    assert!(glob_matches("a[x-]b", "a-b"));
    assert!(glob_matches("a[x-]b", "axb"));

    assert!(glob_matches("a[b", "a[b"));
    assert!(!glob_matches("a[b", "acb"));
}
