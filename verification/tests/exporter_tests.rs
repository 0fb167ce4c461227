use bgone::exporter::splice_managed_block;

const BLOCK: &str = "# BEGIN bgone\nOPTIONS_SET+=SSL\n# END bgone\n";

/// Nothing to preserve: the block is the file.
#[test]
fn splicing_into_nothing_is_just_the_block() {
    assert_eq!(splice_managed_block("", BLOCK), BLOCK);
}

/// The user's content survives on both sides, byte for byte.
#[test]
fn splicing_preserves_everything_outside_the_markers() {
    let existing =
        "CFLAGS+=-O2\n\n# BEGIN bgone\nOPTIONS_SET+=OLD\n# END bgone\nMAKE_JOBS_NUMBER=4\n";
    let merged = splice_managed_block(existing, BLOCK);
    assert_eq!(
        merged,
        "CFLAGS+=-O2\n\n# BEGIN bgone\nOPTIONS_SET+=SSL\n# END bgone\nMAKE_JOBS_NUMBER=4\n"
    );
}

/// With no block present, the block is appended after a separating blank,
/// and a final line missing its newline gains one.
#[test]
fn splicing_appends_when_no_block_exists() {
    let merged = splice_managed_block("CFLAGS+=-O2", BLOCK);
    assert_eq!(merged, format!("CFLAGS+=-O2\n\n{BLOCK}"));
}

/// Splicing twice changes nothing: the block replaces itself in place.
#[test]
fn splicing_is_idempotent() {
    let once = splice_managed_block("CFLAGS+=-O2\n", BLOCK);
    let twice = splice_managed_block(&once, BLOCK);
    assert_eq!(once, twice);
}

/// A BEGIN with no END swallows to end of file — everything after an
/// unterminated marker is this program's own truncated output — and the
/// next splice recovers cleanly.
#[test]
fn a_missing_end_marker_truncates_and_recovers() {
    let existing = "CFLAGS+=-O2\n# BEGIN bgone\nOPTIONS_SET+=HALF";
    let merged = splice_managed_block(existing, BLOCK);
    assert_eq!(merged, format!("CFLAGS+=-O2\n{BLOCK}"));
}

/// Two blocks collapse to one at the first position; assignments must not
/// survive in a second block for the reader's last-wins order to pick up.
#[test]
fn duplicate_blocks_collapse_to_one() {
    let existing = "# BEGIN bgone\nOPTIONS_SET+=A\n# END bgone\nCFLAGS+=-O2\n# BEGIN bgone\nOPTIONS_SET+=B\n# END bgone\n";
    let merged = splice_managed_block(existing, BLOCK);
    assert_eq!(merged, format!("{BLOCK}CFLAGS+=-O2\n"));
}

/// Whatever is spliced into, the block stands in it once and the file ends in a
/// newline.
#[test]
fn the_block_stands_once() {
    let block = "# BEGIN bgone\nOPTIONS_SET+=A\n# END bgone\n";
    for existing in [
        "",
        "X=1",
        "X=1\n",
        "# BEGIN bgone\nold\n# END bgone\nX=1\n# BEGIN bgone\nold\n# END bgone\n",
        "X=1\n# BEGIN bgone\nnever closed\n",
    ] {
        let s = splice_managed_block(existing, block);
        assert!(s.ends_with('\n') && s.contains(block), "{s:?}");
        assert_eq!(s.lines().filter(|l| l.trim() == "# BEGIN bgone").count(), 1, "{s:?}");
        assert_eq!(splice_managed_block(&s, block), s);
    }
}
