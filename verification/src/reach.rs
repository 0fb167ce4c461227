//! What can be reached along the edges of a relation, and what a worklist
//! that follows every edge has collected once it runs out.
use vstd::prelude::*;

verus! {

/// The start that is `k` alone.
pub open spec fn only(k: int) -> spec_fn(int) -> bool {
    |x: int| x == k
}

/// Whether `x` can be reached from a start in at most `n` steps.
pub open spec fn reach_in(
    start: spec_fn(int) -> bool,
    edge: spec_fn(int, int) -> bool,
    x: int,
    n: nat,
) -> bool
    decreases n,
{
    if n == 0 {
        start(x)
    } else {
        ||| reach_in(start, edge, x, (n - 1) as nat)
        ||| exists|w: int| reach_in(start, edge, w, (n - 1) as nat) && #[trigger] edge(w, x)
    }
}

/// Whether `x` can be reached from a start.
pub open spec fn reaches(
    start: spec_fn(int) -> bool,
    edge: spec_fn(int, int) -> bool,
    x: int,
) -> bool {
    exists|n: nat| reach_in(start, edge, x, n)
}

/// A start is reached.
pub proof fn lemma_start_reached(
    start: spec_fn(int) -> bool,
    edge: spec_fn(int, int) -> bool,
    x: int,
)
    requires
        start(x),
    ensures
        reaches(start, edge, x),
{
    assert(reach_in(start, edge, x, 0));
}

/// What an edge leads to from something reached is reached.
pub proof fn lemma_edge_reached(
    start: spec_fn(int) -> bool,
    edge: spec_fn(int, int) -> bool,
    w: int,
    x: int,
)
    requires
        reaches(start, edge, w),
        edge(w, x),
    ensures
        reaches(start, edge, x),
{
    let n = choose|n: nat| reach_in(start, edge, w, n);
    assert(reach_in(start, edge, w, (n + 1 - 1) as nat));
    assert(reach_in(start, edge, x, n + 1));
}

/// A set that holds every start and follows every edge holds all that is
/// reached.
pub proof fn lemma_closed_holds(
    start: spec_fn(int) -> bool,
    edge: spec_fn(int, int) -> bool,
    inside: spec_fn(int) -> bool,
    x: int,
)
    requires
        forall|y: int| #[trigger] start(y) ==> inside(y),
        forall|w: int, y: int| inside(w) && #[trigger] edge(w, y) ==> inside(y),
        reaches(start, edge, x),
    ensures
        inside(x),
{
    let n = choose|n: nat| reach_in(start, edge, x, n);
    lemma_closed_holds_in(start, edge, inside, x, n);
}

proof fn lemma_closed_holds_in(
    start: spec_fn(int) -> bool,
    edge: spec_fn(int, int) -> bool,
    inside: spec_fn(int) -> bool,
    x: int,
    n: nat,
)
    requires
        forall|y: int| #[trigger] start(y) ==> inside(y),
        forall|w: int, y: int| inside(w) && #[trigger] edge(w, y) ==> inside(y),
        reach_in(start, edge, x, n),
    ensures
        inside(x),
    decreases n,
{
    if n > 0 {
        if reach_in(start, edge, x, (n - 1) as nat) {
            lemma_closed_holds_in(start, edge, inside, x, (n - 1) as nat);
        } else {
            let w = choose|w: int|
                reach_in(start, edge, w, (n - 1) as nat) && #[trigger] edge(w, x);
            lemma_closed_holds_in(start, edge, inside, w, (n - 1) as nat);
        }
    }
}

/// A list of distinct numbers below `n` holds no more than `n` of them.
pub proof fn lemma_distinct_bounded(s: Seq<usize>, n: nat)
    requires
        s.no_duplicates(),
        forall|i: int| 0 <= i < s.len() ==> #[trigger] s[i] < n,
    ensures
        s.len() <= n,
{
    let t = s.map_values(|x: usize| x as int);
    assert(t.no_duplicates());
    t.unique_seq_to_set();
    let all = vstd::set_lib::set_int_range(0, n as int);
    vstd::set_lib::lemma_int_range(0, n as int);
    assert(t.to_set().subset_of(all)) by {
        assert forall|x: int| t.to_set().contains(x) implies all.contains(x) by {
            let i = choose|i: int| 0 <= i < t.len() && t[i] == x;
            assert(s[i] < n);
        }
    }
    vstd::set_lib::lemma_len_subset(t.to_set(), all);
}

/// A list of distinct items of another list is no longer than it.
pub proof fn lemma_distinct_within(s: Seq<usize>, all: Seq<usize>)
    requires
        s.no_duplicates(),
        forall|i: int| 0 <= i < s.len() ==> all.contains(#[trigger] s[i]),
    ensures
        s.len() <= all.len(),
{
    s.unique_seq_to_set();
    assert(s.to_set().subset_of(all.to_set())) by {
        assert forall|x: usize| s.to_set().contains(x) implies all.to_set().contains(x) by {
            let i = choose|i: int| 0 <= i < s.len() && s[i] == x;
            assert(all.contains(s[i]));
        }
    }
    vstd::seq_lib::seq_to_set_is_finite(all);
    vstd::set_lib::lemma_len_subset(s.to_set(), all.to_set());
    all.lemma_cardinality_of_set();
}

} // verus!
