use bgone::oracle::{Options, Oracle};

/// The key separates every distinct question, and joins every identical one.
#[test]
fn the_memo_key_is_the_option_set_and_nothing_else() {
    let set = |names: &[&str]| Options::Exactly(names.iter().map(|s| s.to_string()).collect());

    assert_eq!(set(&["SSL", "DOCS"]).key(), set(&["DOCS", "SSL"]).key());
    assert_eq!(set(&["SSL", "SSL"]).key(), set(&["SSL"]).key());
    assert_ne!(set(&["SSL"]).key(), set(&["DOCS"]).key());

    // 'as the port ships' is a different question from 'with nothing set',
    // and they must not share a row
    assert_ne!(Options::AsShipped.key(), set(&[]).key());
    assert_eq!(Options::AsShipped.key(), "");
}

/// A dozen ports must spread across a dozen threads, not sit eight-deep on
/// one core while the rest idle — a cache-miss chunk is a make invocation
/// per port, and the interactive resettle path feels every serialised one.
#[test]
fn small_batches_spread_across_threads() {
    // A level of a dozen on eight threads: two per chunk, all cores busy
    assert_eq!(Oracle::chunk_size(12, 8), 2);
    // Fewer questions than threads: one each
    assert_eq!(Oracle::chunk_size(3, 8), 1);
    // A preheat of thousands still amortises the connection opens
    assert_eq!(Oracle::chunk_size(10_000, 8), 8);
    // Degenerate inputs stay valid chunk sizes
    assert_eq!(Oracle::chunk_size(0, 8), 1);
    assert_eq!(Oracle::chunk_size(5, 0), 5);
}
