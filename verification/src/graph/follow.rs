//! What a choice leaves set. Turning an option on sets it and all that it
//! implies, turns off what has to go for that, and leaves the rest alone;
//! turning one off takes what implies it along.
use super::harmony;
use super::harmony::{among, entails, implied_edge, named_apart, on_it};
use super::relations::{implies_it, is_one, prevents_it};
use super::rules;
use super::OptionView;
use crate::graph;
use crate::reach;
use vstd::prelude::*;

verus! {

/// Whether two options are of one kind of group, and of one group of it.
pub open spec fn share_group(a: OptionView, b: OptionView) -> bool {
    a.group_type == b.group_type && a.group_name == b.group_name
}

/// Whether at most one member of the option's group can be set.
pub open spec fn is_one_of(o: OptionView) -> bool {
    o.group_type == "SINGLE"@ || o.group_type == "RADIO"@
}

/// Whether the option's group has to keep a member set.
pub open spec fn has_to_keep(o: OptionView) -> bool {
    o.group_type == "SINGLE"@
}

/// An edge from an option to one that is set and implies it.
pub open spec fn lean_edge(opts: Seq<OptionView>, ids: Seq<usize>) -> spec_fn(int, int) -> bool {
    |w: int, j: int|
        is_one(opts, ids, w) && is_one(opts, ids, j) && opts[j].enabled && implies_it(opts, j, w)
}

/// Whether option `j` is option `x`, or is set and implies it, directly or
/// through others that are set.
pub open spec fn leans_on(opts: Seq<OptionView>, ids: Seq<usize>, x: int, j: int) -> bool {
    reach::reaches(reach::only(x), lean_edge(opts, ids), j)
}

/// Whether option `x` takes a place that option `k`, or something that `k`
/// implies, needs: it is a member of the same exclusive group.
pub open spec fn displaced(opts: Seq<OptionView>, ids: Seq<usize>, k: int, x: int) -> bool {
    exists|e: int| #[trigger]
        entails(opts, ids, k, e) && is_one_of(opts[e]) && share_group(opts[x], opts[e])
}

/// Whether option `x` cannot be set beside option `e`: they are members of one
/// exclusive group, or one of them prevents the other. What a `SINGLE` keeps set
/// is not turned off for being prevented.
pub open spec fn at_odds(opts: Seq<OptionView>, e: int, x: int) -> bool {
    ||| is_one_of(opts[e]) && share_group(opts[x], opts[e])
    ||| prevents_it(opts, x, e)
    ||| prevents_it(opts, e, x) && !has_to_keep(opts[x])
}

/// Whether option `x` is set and cannot be set beside option `k` and all that
/// `k` implies.
pub open spec fn is_ousted(opts: Seq<OptionView>, ids: Seq<usize>, k: int, x: int) -> bool {
    &&& is_one(opts, ids, x)
    &&& opts[x].enabled
    &&& !entails(opts, ids, k, x)
    &&& exists|e: int| #[trigger] entails(opts, ids, k, e) && at_odds(opts, e, x)
}

/// Whether option `j` has to go where option `k` is turned on: it cannot be set
/// beside `k` and what `k` implies, or implies something that cannot.
pub open spec fn has_to_go(opts: Seq<OptionView>, ids: Seq<usize>, k: int, j: int) -> bool {
    exists|x: int| #[trigger] is_ousted(opts, ids, k, x) && leans_on(opts, ids, x, j)
}

/// Whether option `k` can be turned on: nothing that it implies prevents, or
/// shares an exclusive group with, anything else that it implies; and nothing
/// that has to go is what a `SINGLE` keeps set, unless another member of that
/// very group takes its place.
pub open spec fn can_follow(opts: Seq<OptionView>, ids: Seq<usize>, k: int) -> bool {
    &&& forall|a: int, b: int| #[trigger]
        entails(opts, ids, k, a) && #[trigger] entails(opts, ids, k, b) ==> !prevents_it(
            opts,
            a,
            b,
        )
    &&& forall|a: int, b: int| #[trigger]
        entails(opts, ids, k, a) && #[trigger] entails(opts, ids, k, b) && a != b ==> !(is_one_of(
            opts[a],
        ) && share_group(opts[a], opts[b]))
    &&& forall|x: int, j: int| #[trigger]
        is_ousted(opts, ids, k, x) && #[trigger] leans_on(opts, ids, x, j) && has_to_keep(opts[j])
            ==> j == x && displaced(opts, ids, k, x)
}

/// The options of a port, one of which can be turned on.
spec fn is_fit(d: Seq<OptionView>, ids: Seq<usize>, k: int) -> bool {
    &&& graph::in_range(ids, d.len())
    &&& named_apart(d, ids)
    &&& is_one(d, ids, k)
    &&& can_follow(d, ids, k)
}

/// How the options are set while a choice is carried out: nothing is set that
/// was not and is not implied, and what does not have to go stays.
spec fn is_between(d: Seq<OptionView>, s: Seq<OptionView>, ids: Seq<usize>, k: int) -> bool {
    &&& rules::same_but_state(s, d)
    &&& forall|j: int|
        #![trigger s[j]]
        0 <= j < d.len() && s[j].enabled ==> d[j].enabled || entails(d, ids, k, j)
    &&& forall|j: int|
        #![trigger s[j]]
        0 <= j < d.len() && d[j].enabled && !has_to_go(d, ids, k, j) ==> s[j].enabled
}

/// What is set and not implied has what it implies as it had it.
spec fn is_whole(d: Seq<OptionView>, s: Seq<OptionView>, ids: Seq<usize>, k: int) -> bool {
    forall|i: int, j: int|
        is_one(d, ids, i) && is_one(d, ids, j) && s[i].enabled && !entails(d, ids, k, i)
            && #[trigger] implies_it(d, i, j) && d[j].enabled ==> s[j].enabled
}

/// Nothing that is not implied has been turned on, and nothing that is, off.
spec fn goes_on(
    d: Seq<OptionView>,
    r: Seq<OptionView>,
    s: Seq<OptionView>,
    ids: Seq<usize>,
    k: int,
) -> bool {
    &&& r.len() == s.len()
    &&& forall|x: int|
        #![trigger r[x]]
        0 <= x < s.len() && !entails(d, ids, k, x) && r[x].enabled ==> s[x].enabled
    &&& forall|x: int|
        #![trigger r[x]]
        0 <= x < s.len() && entails(d, ids, k, x) && s[x].enabled ==> r[x].enabled
}

proof fn lemma_goes_on(
    d: Seq<OptionView>,
    a: Seq<OptionView>,
    b: Seq<OptionView>,
    c: Seq<OptionView>,
    ids: Seq<usize>,
    k: int,
)
    requires
        goes_on(d, a, b, ids, k),
        goes_on(d, b, c, ids, k),
    ensures
        goes_on(d, a, c, ids, k),
{
    assert forall|x: int|
        #![trigger a[x]]
        0 <= x < c.len() && !entails(d, ids, k, x) && a[x].enabled implies c[x].enabled by {
        assert(b[x].enabled);
    }
    assert forall|x: int|
        #![trigger a[x]]
        0 <= x < c.len() && entails(d, ids, k, x) && c[x].enabled implies a[x].enabled by {
        assert(b[x].enabled);
    }
}

/// What an option implies is one of its port's options.
pub proof fn lemma_entailed_one(d: Seq<OptionView>, ids: Seq<usize>, k: int, j: int)
    requires
        is_one(d, ids, k),
        entails(d, ids, k, j),
    ensures
        is_one(d, ids, j),
{
    let inside = |x: int| is_one(d, ids, x);
    reach::lemma_closed_holds(reach::only(k), implied_edge(d, ids), inside, j);
}

/// What something implied implies is implied.
proof fn lemma_entailed_on(d: Seq<OptionView>, ids: Seq<usize>, k: int, i: int, j: int)
    requires
        is_one(d, ids, k),
        entails(d, ids, k, i),
        is_one(d, ids, j),
        implies_it(d, i, j),
    ensures
        entails(d, ids, k, j),
{
    lemma_entailed_one(d, ids, k, i);
    assert(implied_edge(d, ids)(i, j));
    reach::lemma_edge_reached(reach::only(k), implied_edge(d, ids), i, j);
}

/// What leads to an ousted option while a choice is carried out leaned on it
/// before, and is not implied.
proof fn lemma_leads(
    d: Seq<OptionView>,
    s: Seq<OptionView>,
    ids: Seq<usize>,
    k: int,
    x: int,
    j: int,
)
    requires
        is_fit(d, ids, k),
        is_between(d, s, ids, k),
        is_ousted(d, ids, k, x),
        rules::leads_to(s, ids, x, j),
    ensures
        is_one(d, ids, j),
        !entails(d, ids, k, j),
        leans_on(d, ids, x, j),
        has_to_go(d, ids, k, j),
{
    let edge = rules::implier_edge(s, ids);
    let old_edge = lean_edge(d, ids);
    let inside = |y: int| is_one(d, ids, y) && !entails(d, ids, k, y) && leans_on(d, ids, x, y);
    reach::lemma_start_reached(reach::only(x), old_edge, x);
    assert forall|w: int, y: int| inside(w) && #[trigger] edge(w, y) implies inside(y) by {
        harmony::lemma_same(s, d, w);
        harmony::lemma_same(s, d, y);
        assert(is_one(d, ids, y) && implies_it(d, y, w));
        if entails(d, ids, k, y) {
            lemma_entailed_on(d, ids, k, y, w);
        }
        assert(s[y].enabled);
        assert(d[y].enabled);
        assert(old_edge(w, y));
        reach::lemma_edge_reached(reach::only(x), old_edge, w, y);
    }
    reach::lemma_closed_holds(reach::only(x), edge, inside, j);
}

/// Turning off an option that is ousted, with what leads to it.
proof fn lemma_off(d: Seq<OptionView>, s: Seq<OptionView>, ids: Seq<usize>, k: int, x: int)
    requires
        is_fit(d, ids, k),
        is_between(d, s, ids, k),
        is_ousted(d, ids, k, x),
    ensures
        is_between(d, rules::switched_off(s, ids, x), ids, k),
        goes_on(d, rules::switched_off(s, ids, x), s, ids, k),
        is_whole(d, s, ids, k) ==> is_whole(d, rules::switched_off(s, ids, x), ids, k),
        rules::switched_off(s, ids, x)[x].enabled ==> s[x].enabled && has_to_keep(d[x])
            && displaced(d, ids, k, x),
        !(s[x].enabled && has_to_keep(d[x])) ==> forall|i: int, j: int|
            is_one(d, ids, i) && is_one(d, ids, j) && rules::switched_off(s, ids, x)[i].enabled
                && !entails(d, ids, k, i) && #[trigger] implies_it(d, i, j) && (s[j].enabled || j
                == x) ==> rules::switched_off(s, ids, x)[j].enabled && j != x,
{
    let r = rules::switched_off(s, ids, x);
    let edge = rules::implier_edge(s, ids);
    rules::lemma_switched_state(s, ids, x);
    rules::lemma_state_trans(r, s, d);
    reach::lemma_start_reached(reach::only(x), edge, x);
    assert(rules::leads_to(s, ids, x, x));
    assert forall|j: int| #[trigger] rules::leads_to(s, ids, x, j) implies is_one(d, ids, j)
        && !entails(d, ids, k, j) && leans_on(d, ids, x, j) && has_to_go(d, ids, k, j) by {
        lemma_leads(d, s, ids, k, x, j);
    }
    harmony::lemma_same(s, d, x);
    if rules::held(s, ids, x) {
        let j = choose|j: int|
            0 <= j < s.len() && #[trigger] rules::leads_to(s, ids, x, j) && s[j].enabled
                && rules::is_single(s[j].group_type);
        harmony::lemma_same(s, d, j);
        assert(leans_on(d, ids, x, j));
        assert(has_to_keep(d[j]));
        assert(j == x);
    } else {
        assert forall|i: int, j: int|
            is_one(d, ids, i) && is_one(d, ids, j) && r[i].enabled && !entails(d, ids, k, i)
                && #[trigger] implies_it(d, i, j) && (s[j].enabled || j == x) implies r[j].enabled
            && j != x by {
            harmony::lemma_same(s, d, i);
            harmony::lemma_same(s, d, j);
            if rules::leads_to(s, ids, x, j) {
                assert(edge(j, i));
                reach::lemma_edge_reached(reach::only(x), edge, j, i);
                assert(rules::leads_to(s, ids, x, i));
            }
        }
        if is_whole(d, s, ids, k) {
            assert forall|i: int, j: int|
                is_one(d, ids, i) && is_one(d, ids, j) && r[i].enabled && !entails(d, ids, k, i)
                    && #[trigger] implies_it(d, i, j) && d[j].enabled implies r[j].enabled by {
                assert(s[i].enabled);
                assert(s[j].enabled);
            }
        }
    }
}

/// An option that is set, of a port's, and at odds with one that is implied is
/// ousted.
proof fn lemma_ousted(
    d: Seq<OptionView>,
    s: Seq<OptionView>,
    ids: Seq<usize>,
    k: int,
    e: int,
    x: int,
)
    requires
        is_fit(d, ids, k),
        is_between(d, s, ids, k),
        entails(d, ids, k, e),
        is_one(d, ids, x),
        s[x].enabled,
        x != e || prevents_it(d, e, x),
        at_odds(d, e, x),
    ensures
        is_ousted(d, ids, k, x),
{
    if entails(d, ids, k, x) {
        assert(!prevents_it(d, x, e) && !prevents_it(d, e, x));
        assert(!(is_one_of(d[e]) && share_group(d[e], d[x])));
    }
}

/// A member of an exclusive group takes its place.
proof fn lemma_displaced(d: Seq<OptionView>, s: Seq<OptionView>, ids: Seq<usize>, k: int, e: int)
    requires
        is_fit(d, ids, k),
        is_between(d, s, ids, k),
        entails(d, ids, k, e),
        is_one_of(d[e]),
    ensures
        is_between(d, rules::displace(s, ids, e), ids, k),
        goes_on(d, rules::displace(s, ids, e), s, ids, k),
        rules::displace(s, ids, e)[e].enabled,
{
    let r = rules::displace(s, ids, e);
    lemma_entailed_one(d, ids, k, e);
    harmony::lemma_same(s, d, e);
    assert(rules::same_but_state(r, s));
    rules::lemma_state_trans(r, s, d);
    assert forall|j: int|
        #![trigger r[j]]
        0 <= j < d.len() && s[j].enabled && j != e && graph::listed(ids, j) && rules::same_group(
            s[j],
            s[e],
        ) implies is_ousted(d, ids, k, j) && has_to_go(d, ids, k, j) by {
        harmony::lemma_same(s, d, j);
        lemma_ousted(d, s, ids, k, e, j);
        reach::lemma_start_reached(reach::only(j), lean_edge(d, ids), j);
        assert(leans_on(d, ids, j, j));
    }
    assert forall|j: int|
        #![trigger r[j]]
        0 <= j < d.len() && d[j].enabled && !has_to_go(d, ids, k, j) implies r[j].enabled by {
        assert(s[j].enabled);
    }
    assert forall|x: int|
        #![trigger r[x]]
        0 <= x < s.len() && entails(d, ids, k, x) && s[x].enabled implies r[x].enabled by {
        if x != e && graph::listed(ids, x) && rules::same_group(s[x], s[e]) {
            assert(is_ousted(d, ids, k, x));
        }
    }
}

/// What leads to those that gave way goes off with them.
proof fn lemma_siblings(
    d: Seq<OptionView>,
    s: Seq<OptionView>,
    ids: Seq<usize>,
    k: int,
    e: int,
    n: int,
)
    requires
        is_fit(d, ids, k),
        is_between(d, s, ids, k),
        entails(d, ids, k, e),
        is_one_of(d[e]),
        0 <= n <= ids.len(),
    ensures
        is_between(d, rules::siblings_off(s, ids, e, n), ids, k),
        goes_on(
            d,
            rules::siblings_off(s, ids, e, n),
            rules::displace(s, ids, e),
            ids,
            k,
        ),
        forall|m: int, i: int|
            0 <= m < n && rules::gives_way(s, e, #[trigger] ids[m] as int) && is_one(d, ids, i)
                && rules::siblings_off(s, ids, e, n)[i].enabled && !entails(d, ids, k, i)
                ==> !#[trigger] implies_it(d, i, ids[m] as int),
        forall|i: int, j: int|
            is_one(d, ids, i) && is_one(d, ids, j) && rules::siblings_off(s, ids, e, n)[i].enabled
                && !entails(d, ids, k, i) && #[trigger] implies_it(d, i, j) && rules::displace(
                s,
                ids,
                e,
            )[j].enabled ==> rules::siblings_off(s, ids, e, n)[j].enabled,
    decreases n,
{
    let base = rules::displace(s, ids, e);
    lemma_displaced(d, s, ids, k, e);
    lemma_entailed_one(d, ids, k, e);
    harmony::lemma_same(s, d, e);
    if n > 0 {
        lemma_siblings(d, s, ids, k, e, n - 1);
        let a = rules::siblings_off(s, ids, e, n - 1);
        let r = rules::siblings_off(s, ids, e, n);
        let q = ids[n - 1] as int;
        assert(graph::listed(ids, q));
        harmony::lemma_same(s, d, q);
        if rules::gives_way(s, e, q) {
            lemma_ousted(d, s, ids, k, e, q);
            assert(!base[q].enabled);
            assert(!a[q].enabled) by {
                assert(is_ousted(d, ids, k, q));
            }
            lemma_off(d, a, ids, k, q);
            lemma_goes_on(d, r, a, base, ids, k);
        }
        assert forall|m: int, i: int|
            0 <= m < n && rules::gives_way(s, e, #[trigger] ids[m] as int) && is_one(d, ids, i)
                && r[i].enabled && !entails(d, ids, k, i) implies !#[trigger] implies_it(
            d,
            i,
            ids[m] as int,
        ) by {
            assert(graph::listed(ids, ids[m] as int));
            assert(a[i].enabled);
            if m == n - 1 && implies_it(d, i, q) {
                assert(false);
            }
        }
        assert forall|i: int, j: int|
            is_one(d, ids, i) && is_one(d, ids, j) && r[i].enabled && !entails(d, ids, k, i)
                && #[trigger] implies_it(d, i, j) && base[j].enabled implies r[j].enabled by {
            assert(a[i].enabled);
            assert(a[j].enabled);
        }
    }
}

/// Nothing that is set and not implied is a member of the exclusive group of
/// option `e`, or prevents `e`, unless another member is to take its place.
spec fn is_clear(
    d: Seq<OptionView>,
    s: Seq<OptionView>,
    ids: Seq<usize>,
    k: int,
    e: int,
) -> bool {
    forall|x: int|
        #![trigger s[x]]
        is_one(d, ids, x) && !entails(d, ids, k, x) && s[x].enabled ==> !(is_one_of(d[e])
            && share_group(d[x], d[e])) && (prevents_it(d, x, e) ==> has_to_keep(d[x])
            && displaced(d, ids, k, x))
}

/// Option `e` prevents nothing that is set and not implied, unless a `SINGLE`
/// keeps it.
spec fn is_quiet(
    d: Seq<OptionView>,
    s: Seq<OptionView>,
    ids: Seq<usize>,
    k: int,
    e: int,
) -> bool {
    forall|x: int|
        #![trigger s[x]]
        is_one(d, ids, x) && !entails(d, ids, k, x) && s[x].enabled && prevents_it(d, e, x)
            ==> has_to_keep(d[x])
}

proof fn lemma_stays(
    d: Seq<OptionView>,
    r: Seq<OptionView>,
    s: Seq<OptionView>,
    ids: Seq<usize>,
    k: int,
    e: int,
)
    requires
        s.len() == d.len(),
        goes_on(d, r, s, ids, k),
    ensures
        is_clear(d, s, ids, k, e) ==> is_clear(d, r, ids, k, e),
        is_quiet(d, s, ids, k, e) ==> is_quiet(d, r, ids, k, e),
{
    assert forall|x: int|
        #![trigger r[x]]
        is_one(d, ids, x) && !entails(d, ids, k, x) && r[x].enabled implies s[x].enabled by {}
}

/// An option that is implied goes on, and its siblings go off.
proof fn lemma_placed(d: Seq<OptionView>, s: Seq<OptionView>, ids: Seq<usize>, k: int, e: int)
    requires
        is_fit(d, ids, k),
        is_between(d, s, ids, k),
        is_whole(d, s, ids, k),
        entails(d, ids, k, e),
    ensures
        ({
            let r = rules::siblings_off(s, ids, e, ids.len() as int);
            &&& is_between(d, r, ids, k)
            &&& is_whole(d, r, ids, k)
            &&& goes_on(d, r, s, ids, k)
            &&& r[e].enabled
            &&& forall|x: int|
                #![trigger r[x]]
                is_one(d, ids, x) && !entails(d, ids, k, x) && r[x].enabled ==> !(is_one_of(d[e])
                    && share_group(d[x], d[e]))
        }),
{
    let n = ids.len() as int;
    let r = rules::siblings_off(s, ids, e, n);
    lemma_entailed_one(d, ids, k, e);
    harmony::lemma_same(s, d, e);
    if is_one_of(d[e]) {
        let base = rules::displace(s, ids, e);
        lemma_siblings(d, s, ids, k, e, n);
        lemma_displaced(d, s, ids, k, e);
        lemma_goes_on(d, r, base, s, ids, k);
        assert forall|i: int, j: int|
            is_one(d, ids, i) && is_one(d, ids, j) && r[i].enabled && !entails(d, ids, k, i)
                && #[trigger] implies_it(d, i, j) && d[j].enabled implies r[j].enabled by {
            assert(s[i].enabled);
            assert(s[j].enabled);
            harmony::lemma_same(s, d, j);
            if !base[j].enabled {
                let m = choose|m: int| 0 <= m < ids.len() && #[trigger] ids[m] == j;
                assert(rules::gives_way(s, e, ids[m] as int));
                assert(!implies_it(d, i, ids[m] as int));
            }
        }
        assert forall|x: int|
            #![trigger r[x]]
            is_one(d, ids, x) && !entails(d, ids, k, x) && r[x].enabled implies !(is_one_of(d[e])
            && share_group(d[x], d[e])) by {
            assert(base[x].enabled);
            harmony::lemma_same(s, d, x);
        }
    } else {
        harmony::lemma_no_siblings(s, ids, e, n);
        assert(rules::same_but_state(r, s));
        rules::lemma_state_trans(r, s, d);
    }
}

/// What prevents an option that is implied goes off.
proof fn lemma_freed(
    d: Seq<OptionView>,
    s: Seq<OptionView>,
    ids: Seq<usize>,
    k: int,
    e: int,
    n: int,
)
    requires
        is_fit(d, ids, k),
        is_between(d, s, ids, k),
        is_whole(d, s, ids, k),
        entails(d, ids, k, e),
        0 <= n <= ids.len(),
    ensures
        is_between(d, rules::preventers_off(s, ids, e, n), ids, k),
        is_whole(d, rules::preventers_off(s, ids, e, n), ids, k),
        goes_on(d, rules::preventers_off(s, ids, e, n), s, ids, k),
        forall|m: int|
            0 <= m < n && rules::prevents_now(s, e, #[trigger] ids[m] as int)
                && rules::preventers_off(s, ids, e, n)[ids[m] as int].enabled ==> has_to_keep(
                d[ids[m] as int],
            ) && displaced(d, ids, k, ids[m] as int),
    decreases n,
{
    lemma_entailed_one(d, ids, k, e);
    harmony::lemma_same(s, d, e);
    if n > 0 {
        lemma_freed(d, s, ids, k, e, n - 1);
        let a = rules::preventers_off(s, ids, e, n - 1);
        let r = rules::preventers_off(s, ids, e, n);
        let q = ids[n - 1] as int;
        assert(graph::listed(ids, q));
        harmony::lemma_same(s, d, q);
        if rules::prevents_now(s, e, q) {
            assert(prevents_it(d, q, e));
            lemma_ousted(d, s, ids, k, e, q);
            lemma_off(d, a, ids, k, q);
            lemma_goes_on(d, r, a, s, ids, k);
        }
        assert forall|m: int|
            0 <= m < n && rules::prevents_now(s, e, #[trigger] ids[m] as int) && r[ids[m]
                as int].enabled implies has_to_keep(d[ids[m] as int]) && displaced(
            d,
            ids,
            k,
            ids[m] as int,
        ) by {
            let x = ids[m] as int;
            assert(graph::listed(ids, x));
            harmony::lemma_same(s, d, x);
            assert(prevents_it(d, x, e));
            lemma_ousted(d, s, ids, k, e, x);
            if m < n - 1 {
                assert(a[x].enabled);
            }
        }
    }
}

/// An option that is implied is turned on.
proof fn lemma_on(d: Seq<OptionView>, s: Seq<OptionView>, ids: Seq<usize>, k: int, e: int)
    requires
        is_fit(d, ids, k),
        is_between(d, s, ids, k),
        is_whole(d, s, ids, k),
        entails(d, ids, k, e),
    ensures
        is_between(d, rules::turned_on(s, ids, e), ids, k),
        is_whole(d, rules::turned_on(s, ids, e), ids, k),
        goes_on(d, rules::turned_on(s, ids, e), s, ids, k),
        rules::turned_on(s, ids, e)[e].enabled,
        is_clear(d, rules::turned_on(s, ids, e), ids, k, e),
{
    let n = ids.len() as int;
    let a = rules::siblings_off(s, ids, e, n);
    let r = rules::turned_on(s, ids, e);
    lemma_entailed_one(d, ids, k, e);
    lemma_placed(d, s, ids, k, e);
    lemma_freed(d, a, ids, k, e, n);
    lemma_goes_on(d, r, a, s, ids, k);
    assert forall|x: int|
        #![trigger r[x]]
        is_one(d, ids, x) && !entails(d, ids, k, x) && r[x].enabled implies !(is_one_of(d[e])
        && share_group(d[x], d[e])) && (prevents_it(d, x, e) ==> has_to_keep(d[x]) && displaced(
        d,
        ids,
        k,
        x,
    )) by {
        assert(a[x].enabled);
        if prevents_it(d, x, e) {
            let m = choose|m: int| 0 <= m < ids.len() && #[trigger] ids[m] == x;
            harmony::lemma_same(a, d, x);
            harmony::lemma_same(a, d, e);
            assert(x != e);
            assert(rules::prevents_now(a, e, ids[m] as int));
        }
    }
}

/// What an implied option implies goes on.
proof fn lemma_implied(
    d: Seq<OptionView>,
    s: Seq<OptionView>,
    ids: Seq<usize>,
    k: int,
    e: int,
    n: int,
)
    requires
        is_fit(d, ids, k),
        is_between(d, s, ids, k),
        is_whole(d, s, ids, k),
        entails(d, ids, k, e),
        0 <= n <= d[e].implies.len(),
    ensures
        ({
            let r = rules::implied_on(s, ids, d[e].implies, n);
            &&& is_between(d, r, ids, k)
            &&& is_whole(d, r, ids, k)
            &&& goes_on(d, r, s, ids, k)
            &&& forall|j: int|
                is_one(d, ids, j) && #[trigger] among(d[e].implies, n, d[j].name) ==> r[j].enabled
                    && is_clear(d, r, ids, k, j)
        }),
    decreases n,
{
    let names = d[e].implies;
    let r = rules::implied_on(s, ids, names, n);
    lemma_entailed_one(d, ids, k, e);
    if n > 0 {
        lemma_implied(d, s, ids, k, e, n - 1);
        let a = rules::implied_on(s, ids, names, n - 1);
        let name = names[n - 1];
        rules::lemma_named_state(a, d, ids, name, 0);
        harmony::lemma_named_one(d, ids, name, e);
        if let Some(id) = rules::named(a, ids, name) {
            assert(implies_it(d, e, id as int));
            lemma_entailed_on(d, ids, k, e, id as int);
            lemma_on(d, a, ids, k, id as int);
            lemma_goes_on(d, r, a, s, ids, k);
        }
        assert forall|j: int| is_one(d, ids, j) && #[trigger] among(
            names,
            n,
            d[j].name,
        ) implies r[j].enabled && is_clear(d, r, ids, k, j) by {
            harmony::lemma_named_one(d, ids, name, j);
            assert(names.contains(d[j].name)) by {
                let m = choose|m: int| 0 <= m < n && #[trigger] names[m] == d[j].name;
                assert(names[m] == d[j].name);
            }
            assert(implies_it(d, e, j));
            lemma_entailed_on(d, ids, k, e, j);
            if d[j].name != name {
                let m = choose|m: int| 0 <= m < n && #[trigger] names[m] == d[j].name;
                assert(m < n - 1);
                assert(among(names, n - 1, d[j].name));
                lemma_stays(d, r, a, ids, k, j);
            }
        }
    }
}

/// What an implied option prevents goes off, unless a `SINGLE` keeps it.
proof fn lemma_prevented(
    d: Seq<OptionView>,
    s: Seq<OptionView>,
    ids: Seq<usize>,
    k: int,
    e: int,
    n: int,
)
    requires
        is_fit(d, ids, k),
        is_between(d, s, ids, k),
        is_whole(d, s, ids, k),
        entails(d, ids, k, e),
        0 <= n <= d[e].prevents.len(),
    ensures
        ({
            let r = rules::prevented_off(s, ids, d[e].prevents, n);
            &&& is_between(d, r, ids, k)
            &&& is_whole(d, r, ids, k)
            &&& goes_on(d, r, s, ids, k)
            &&& forall|j: int|
                is_one(d, ids, j) && #[trigger] among(d[e].prevents, n, d[j].name) && r[j].enabled
                    ==> has_to_keep(d[j])
        }),
    decreases n,
{
    let names = d[e].prevents;
    let r = rules::prevented_off(s, ids, names, n);
    lemma_entailed_one(d, ids, k, e);
    if n > 0 {
        lemma_prevented(d, s, ids, k, e, n - 1);
        let a = rules::prevented_off(s, ids, names, n - 1);
        let name = names[n - 1];
        rules::lemma_named_state(a, d, ids, name, 0);
        harmony::lemma_named_one(d, ids, name, e);
        if let Some(id) = rules::named(a, ids, name) {
            let x = id as int;
            assert(prevents_it(d, e, x));
            harmony::lemma_same(a, d, x);
            if a[x].enabled {
                if has_to_keep(d[x]) {
                    let edge = rules::implier_edge(a, ids);
                    reach::lemma_start_reached(reach::only(x), edge, x);
                    assert(rules::leads_to(a, ids, x, x));
                    assert(rules::held(a, ids, x));
                    assert(r == a);
                } else {
                    lemma_ousted(d, a, ids, k, e, x);
                    lemma_off(d, a, ids, k, x);
                }
                assert(goes_on(d, r, a, ids, k));
                lemma_goes_on(d, r, a, s, ids, k);
            }
        }
        assert forall|j: int|
            is_one(d, ids, j) && #[trigger] among(names, n, d[j].name)
                && r[j].enabled implies has_to_keep(d[j]) by {
            harmony::lemma_named_one(d, ids, name, j);
            if d[j].name != name {
                let m = choose|m: int| 0 <= m < n && #[trigger] names[m] == d[j].name;
                assert(m < n - 1);
                assert(among(names, n - 1, d[j].name));
                assert(names[m] == d[j].name);
                assert(prevents_it(d, e, j));
                assert(!entails(d, ids, k, j));
                assert(a[j].enabled);
            }
        }
    }
}

/// What the declarations of the first `n` options of a worklist have done.
spec fn worked_off(
    d: Seq<OptionView>,
    r: Seq<OptionView>,
    ids: Seq<usize>,
    k: int,
    work: Seq<usize>,
    n: int,
) -> bool {
    &&& forall|h: int, j: int|
        0 <= h < n && is_one(d, ids, j) && #[trigger] implies_it(d, work[h] as int, j)
            ==> r[j].enabled && is_clear(d, r, ids, k, j)
    &&& forall|h: int| 0 <= h < n ==> is_quiet(d, r, ids, k, #[trigger] work[h] as int)
}

proof fn lemma_worked_off(
    d: Seq<OptionView>,
    t: Seq<OptionView>,
    ids: Seq<usize>,
    k: int,
    work: Seq<usize>,
    n: int,
)
    requires
        is_fit(d, ids, k),
        is_between(d, t, ids, k),
        is_whole(d, t, ids, k),
        forall|h: int| 0 <= h < work.len() ==> entails(d, ids, k, #[trigger] work[h] as int),
        0 <= n <= work.len(),
    ensures
        is_between(d, rules::declared_upto(t, ids, work, n), ids, k),
        is_whole(d, rules::declared_upto(t, ids, work, n), ids, k),
        goes_on(d, rules::declared_upto(t, ids, work, n), t, ids, k),
        worked_off(d, rules::declared_upto(t, ids, work, n), ids, k, work, n),
    decreases n,
{
    if n > 0 {
        lemma_worked_off(d, t, ids, k, work, n - 1);
        let a = rules::declared_upto(t, ids, work, n - 1);
        let e = work[n - 1] as int;
        lemma_entailed_one(d, ids, k, e);
        harmony::lemma_same(a, d, e);
        let x = d[e].implies.len() as int;
        let y = d[e].prevents.len() as int;
        let b = rules::implied_on(a, ids, d[e].implies, x);
        let r = rules::declared_upto(t, ids, work, n);
        lemma_implied(d, a, ids, k, e, x);
        lemma_prevented(d, b, ids, k, e, y);
        assert(r == rules::prevented_off(b, ids, d[e].prevents, y));
        lemma_goes_on(d, r, b, a, ids, k);
        lemma_goes_on(d, r, a, t, ids, k);
        assert forall|h: int, j: int|
            0 <= h < n && is_one(d, ids, j) && #[trigger] implies_it(
                d,
                work[h] as int,
                j,
            ) implies r[j].enabled && is_clear(d, r, ids, k, j) by {
            lemma_entailed_on(d, ids, k, work[h] as int, j);
            if h < n - 1 {
                assert(a[j].enabled && is_clear(d, a, ids, k, j));
                lemma_stays(d, r, a, ids, k, j);
            } else {
                let m = choose|m: int| 0 <= m < d[e].implies.len() && d[e].implies[m] == d[j].name;
                assert(among(d[e].implies, x, d[j].name));
                lemma_stays(d, r, b, ids, k, j);
            }
        }
        assert forall|h: int| 0 <= h < n implies is_quiet(
            d,
            r,
            ids,
            k,
            #[trigger] work[h] as int,
        ) by {
            if h < n - 1 {
                lemma_stays(d, r, a, ids, k, work[h] as int);
            } else {
                assert forall|j: int|
                    #![trigger r[j]]
                    is_one(d, ids, j) && !entails(d, ids, k, j) && r[j].enabled && prevents_it(
                        d,
                        e,
                        j,
                    ) implies has_to_keep(d[j]) by {
                    let m = choose|m: int|
                        0 <= m < d[e].prevents.len() && d[e].prevents[m] == d[j].name;
                    assert(among(d[e].prevents, y, d[j].name));
                }
            }
        }
    }
}

/// The worklist of an option holds what it implies, and nothing else.
proof fn lemma_order(d: Seq<OptionView>, ids: Seq<usize>, k: usize, x: int)
    requires
        graph::in_range(ids, d.len()),
        named_apart(d, ids),
        is_one(d, ids, k as int),
    ensures
        harmony::is_rooted(d, ids, seq![k], k),
        harmony::is_rooted(d, ids, rules::implied_order(d, ids, k), k),
        entails(d, ids, k as int, x) ==> on_it(rules::implied_order(d, ids, k), x) && (x == k
            || exists|h: int|
            0 <= h < rules::implied_order(d, ids, k).len() && #[trigger] implies_it(
                d,
                rules::implied_order(d, ids, k)[h] as int,
                x,
            )),
{
    let start = seq![k];
    let work = rules::implied_order(d, ids, k);
    let edge = implied_edge(d, ids);
    reach::lemma_start_reached(reach::only(k as int), edge, k as int);
    assert(start[0] == k);
    assert(ids.contains(k)) by {
        let m = choose|m: int| 0 <= m < ids.len() && #[trigger] ids[m] == k as int;
        assert(ids[m] == k);
    }
    harmony::lemma_worked(d, ids, start, k, 0);
    let inside = |y: int|
        is_one(d, ids, y) && on_it(work, y) && (y == k || exists|h: int|
            0 <= h < work.len() && #[trigger] implies_it(d, work[h] as int, y));
    assert forall|w: int, y: int| inside(w) && #[trigger] edge(w, y) implies inside(y) by {
        let h = choose|h: int| 0 <= h < work.len() && work[h] == w as usize;
        assert(work[h] as int == w);
        assert(implies_it(d, work[h] as int, y));
        let m = choose|m: int| 0 <= m < ids.len() && #[trigger] ids[m] == y;
        assert(work.contains(y as usize));
    }
    if entails(d, ids, k as int, x) {
        reach::lemma_closed_holds(reach::only(k as int), edge, inside, x);
    }
}

/// All that is implied is set, and what is not and is set makes room for it.
spec fn is_settled(d: Seq<OptionView>, r: Seq<OptionView>, ids: Seq<usize>, k: int) -> bool {
    forall|e: int| #[trigger]
        entails(d, ids, k, e) ==> r[e].enabled && is_clear(d, r, ids, k, e) && is_quiet(
            d,
            r,
            ids,
            k,
            e,
        )
}

/// What is ousted is not set in the end.
proof fn lemma_gone(d: Seq<OptionView>, r: Seq<OptionView>, ids: Seq<usize>, k: int, x: int)
    requires
        is_settled(d, r, ids, k),
        is_ousted(d, ids, k, x),
    ensures
        !r[x].enabled,
{
    if r[x].enabled {
        let e = choose|e: int| #[trigger] entails(d, ids, k, e) && at_odds(d, e, x);
        assert(is_clear(d, r, ids, k, e) && is_quiet(d, r, ids, k, e));
        if prevents_it(d, x, e) {
            assert(displaced(d, ids, k, x));
            let f = choose|f: int| #[trigger]
                entails(d, ids, k, f) && is_one_of(d[f]) && share_group(d[x], d[f]);
            assert(is_clear(d, r, ids, k, f));
        }
    }
}

/// What has to go is not set in the end.
proof fn lemma_went(d: Seq<OptionView>, r: Seq<OptionView>, ids: Seq<usize>, k: int, j: int)
    requires
        is_fit(d, ids, k),
        is_settled(d, r, ids, k),
        is_whole(d, r, ids, k),
        has_to_go(d, ids, k, j),
    ensures
        !r[j].enabled,
        !entails(d, ids, k, j),
{
    let x = choose|x: int| #[trigger] is_ousted(d, ids, k, x) && leans_on(d, ids, x, j);
    let edge = lean_edge(d, ids);
    let inside = |y: int|
        is_one(d, ids, y) && d[y].enabled && !r[y].enabled && !entails(d, ids, k, y);
    lemma_gone(d, r, ids, k, x);
    assert forall|w: int, y: int| inside(w) && #[trigger] edge(w, y) implies inside(y) by {
        if entails(d, ids, k, y) {
            lemma_entailed_on(d, ids, k, y, w);
        }
        assert(implies_it(d, y, w));
    }
    reach::lemma_closed_holds(reach::only(x), edge, inside, j);
}

/// Once all has followed from option `k`, all is settled.
proof fn lemma_settles(d: Seq<OptionView>, ids: Seq<usize>, k: usize)
    requires
        is_fit(d, ids, k as int),
    ensures
        is_between(d, rules::with_on(d, ids, k), ids, k as int),
        is_whole(d, rules::with_on(d, ids, k), ids, k as int),
        is_settled(d, rules::with_on(d, ids, k), ids, k as int),
{
    let c = k as int;
    let work = rules::implied_order(d, ids, k);
    let t = rules::turned_on(d, ids, c);
    let r = rules::with_on(d, ids, k);
    let n = work.len() as int;
    lemma_order(d, ids, k, c);
    reach::lemma_start_reached(reach::only(c), implied_edge(d, ids), c);
    assert(is_between(d, d, ids, c));
    assert(is_whole(d, d, ids, c));
    lemma_on(d, d, ids, c, c);
    harmony::lemma_worked_same(t, d, ids, seq![k], k, 0);
    assert(rules::implied_order(t, ids, k) == work);
    lemma_worked_off(d, t, ids, c, work, n);
    assert(r == rules::declared_upto(t, ids, work, n));
    lemma_stays(d, r, t, ids, c, c);
    assert forall|e: int| #[trigger] entails(d, ids, c, e) implies r[e].enabled && is_clear(
        d,
        r,
        ids,
        c,
        e,
    ) && is_quiet(d, r, ids, c, e) by {
        lemma_entailed_one(d, ids, c, e);
        lemma_order(d, ids, k, e);
        let g = choose|g: int| 0 <= g < work.len() && work[g] == e as usize;
        assert(work[g] as int == e);
        assert(is_quiet(d, r, ids, c, work[g] as int));
        if e != c {
            let h = choose|h: int|
                0 <= h < work.len() && #[trigger] implies_it(d, work[h] as int, e);
            assert(implies_it(d, work[h] as int, e));
        } else {
            assert(t[e].enabled);
        }
    }
}

/// What is left set once option `k` has been turned on and all has followed.
proof fn lemma_with_on(d: Seq<OptionView>, ids: Seq<usize>, k: usize)
    requires
        is_fit(d, ids, k as int),
    ensures
        rules::same_but_state(rules::with_on(d, ids, k), d),
        forall|j: int|
            0 <= j < d.len() ==> (#[trigger] rules::with_on(d, ids, k)[j]).enabled == (entails(
                d,
                ids,
                k as int,
                j,
            ) || d[j].enabled && !has_to_go(d, ids, k as int, j)),
{
    let c = k as int;
    let r = rules::with_on(d, ids, k);
    lemma_settles(d, ids, k);
    assert forall|j: int| 0 <= j < d.len() implies (#[trigger] r[j]).enabled == (entails(
        d,
        ids,
        c,
        j,
    ) || d[j].enabled && !has_to_go(d, ids, c, j)) by {
        if has_to_go(d, ids, c, j) {
            lemma_went(d, r, ids, c, j);
        }
    }
}

/// Turning an option on is met where it can be: afterwards it is set, and so is
/// all that it implies, directly or through others; whatever cannot be set
/// beside these, the other members of their exclusive groups among it, is not
/// set, nor is what implies such an option; and every other option is as it was.
/// This holds whatever groups the options are in.
pub proof fn turning_on_sets_what_follows(opts: Seq<OptionView>, ids: Seq<usize>, k: usize)
    requires
        graph::in_range(ids, opts.len()),
        named_apart(opts, ids),
        is_one(opts, ids, k as int),
        can_follow(opts, ids, k as int),
    ensures
        ({
            let after = rules::chosen(opts, ids, opts[k as int].name, true);
            &&& rules::same_but_state(after, opts)
            &&& after[k as int].enabled
            &&& forall|j: int| #[trigger]
                entails(opts, ids, k as int, j) ==> after[j].enabled
            &&& forall|j: int|
                is_one(opts, ids, j) && j != k && is_one_of(opts[k as int]) && share_group(
                    #[trigger] opts[j],
                    opts[k as int],
                ) ==> !after[j].enabled
            &&& forall|j: int|
                0 <= j < opts.len() ==> (#[trigger] after[j]).enabled == (entails(
                    opts,
                    ids,
                    k as int,
                    j,
                ) || opts[j].enabled && !has_to_go(opts, ids, k as int, j))
        }),
{
    let c = k as int;
    let r = rules::with_on(opts, ids, k);
    lemma_with_on(opts, ids, k);
    harmony::lemma_named_one(opts, ids, opts[c].name, c);
    assert(rules::named(opts, ids, opts[c].name) == Some(k));
    reach::lemma_start_reached(reach::only(c), implied_edge(opts, ids), c);
    assert(entails(opts, ids, c, c));
    assert forall|x: int| #[trigger] is_ousted(opts, ids, c, x) implies has_to_go(
        opts,
        ids,
        c,
        x,
    ) by {
        reach::lemma_start_reached(reach::only(x), lean_edge(opts, ids), x);
        assert(leans_on(opts, ids, x, x));
    }
    assert forall|m: int, q: int|
        0 <= m < ids.len() && 0 <= q < ids.len() && #[trigger] rules::breaks(
            r,
            ids[m] as int,
            ids[q] as int,
        ) implies rules::breaks(opts, ids[m] as int, ids[q] as int) by {
        let i = ids[m] as int;
        let j = ids[q] as int;
        assert(graph::listed(ids, i) && graph::listed(ids, j));
        assert(is_one(opts, ids, i) && is_one(opts, ids, j));
        harmony::lemma_same(r, opts, i);
        harmony::lemma_same(r, opts, j);
        assert(r[i].enabled);
        if r[j].enabled {
            assert(prevents_it(opts, i, j));
            lemma_beside(opts, ids, c, i, j);
        } else {
            assert(implies_it(opts, i, j));
            if entails(opts, ids, c, i) {
                lemma_entailed_on(opts, ids, c, i, j);
            } else if opts[j].enabled {
                let x = choose|x: int| #[trigger]
                    is_ousted(opts, ids, c, x) && leans_on(opts, ids, x, j);
                assert(lean_edge(opts, ids)(j, i));
                reach::lemma_edge_reached(reach::only(x), lean_edge(opts, ids), j, i);
                assert(leans_on(opts, ids, x, i));
            }
        }
    }
    assert(rules::can_be_on(opts, ids, k));
    assert(rules::chosen(opts, ids, opts[c].name, true) == r);
    assert forall|j: int| #[trigger] entails(opts, ids, c, j) implies r[j].enabled by {
        lemma_entailed_one(opts, ids, c, j);
    }
    assert forall|j: int|
        is_one(opts, ids, j) && j != k && is_one_of(opts[c]) && share_group(
            #[trigger] opts[j],
            opts[c],
        ) implies !r[j].enabled by {
        if entails(opts, ids, c, j) {
            assert(!(is_one_of(opts[c]) && share_group(opts[c], opts[j])));
        } else if opts[j].enabled {
            assert(at_odds(opts, c, j));
            assert(is_ousted(opts, ids, c, j));
        }
    }
}

/// Of two options that stay set and one of which prevents the other, neither is
/// implied.
proof fn lemma_beside(opts: Seq<OptionView>, ids: Seq<usize>, c: int, i: int, j: int)
    requires
        can_follow(opts, ids, c),
        is_one(opts, ids, i),
        is_one(opts, ids, j),
        prevents_it(opts, i, j),
        !has_to_keep(opts[j]),
        entails(opts, ids, c, i) || opts[i].enabled && !has_to_go(opts, ids, c, i),
        entails(opts, ids, c, j) || opts[j].enabled && !has_to_go(opts, ids, c, j),
    ensures
        opts[i].enabled && opts[j].enabled,
{
    reach::lemma_start_reached(reach::only(i), lean_edge(opts, ids), i);
    reach::lemma_start_reached(reach::only(j), lean_edge(opts, ids), j);
    assert(leans_on(opts, ids, i, i) && leans_on(opts, ids, j, j));
    if entails(opts, ids, c, i) && !entails(opts, ids, c, j) {
        assert(at_odds(opts, i, j));
        assert(is_ousted(opts, ids, c, j));
    }
    if entails(opts, ids, c, j) && !entails(opts, ids, c, i) {
        assert(at_odds(opts, j, i));
        assert(is_ousted(opts, ids, c, i));
    }
}

/// What leads to an option is what leans on it.
proof fn lemma_leans(opts: Seq<OptionView>, ids: Seq<usize>, k: int, j: int)
    requires
        graph::in_range(ids, opts.len()),
        is_one(opts, ids, k),
    ensures
        rules::leads_to(opts, ids, k, j) == leans_on(opts, ids, k, j),
{
    let a = rules::implier_edge(opts, ids);
    let b = lean_edge(opts, ids);
    if rules::leads_to(opts, ids, k, j) {
        let inside = |y: int| is_one(opts, ids, y) && leans_on(opts, ids, k, y);
        reach::lemma_start_reached(reach::only(k), b, k);
        assert forall|w: int, y: int| inside(w) && #[trigger] a(w, y) implies inside(y) by {
            assert(b(w, y));
            reach::lemma_edge_reached(reach::only(k), b, w, y);
        }
        reach::lemma_closed_holds(reach::only(k), a, inside, j);
    }
    if leans_on(opts, ids, k, j) {
        let inside = |y: int| rules::leads_to(opts, ids, k, y);
        reach::lemma_start_reached(reach::only(k), a, k);
        assert forall|w: int, y: int| inside(w) && #[trigger] b(w, y) implies inside(y) by {
            assert(a(w, y));
            reach::lemma_edge_reached(reach::only(k), a, w, y);
        }
        reach::lemma_closed_holds(reach::only(k), b, inside, j);
    }
}

/// Turning an option off turns it off, with every set option that implies it,
/// directly or through others that are set, and leaves every other option as it
/// was; unless one of them is what a `SINGLE` keeps set, and then nothing
/// changes.
pub proof fn turning_off_takes_what_implies_it(opts: Seq<OptionView>, ids: Seq<usize>, k: usize)
    requires
        graph::in_range(ids, opts.len()),
        named_apart(opts, ids),
        is_one(opts, ids, k as int),
    ensures
        ({
            let after = rules::chosen(opts, ids, opts[k as int].name, false);
            let kept = exists|j: int| #[trigger]
                leans_on(opts, ids, k as int, j) && opts[j].enabled && has_to_keep(opts[j]);
            &&& kept ==> after == opts
            &&& !kept ==> rules::same_but_state(after, opts) && !after[k as int].enabled
                && forall|j: int|
                0 <= j < opts.len() ==> (#[trigger] after[j]).enabled == (opts[j].enabled
                    && !leans_on(opts, ids, k as int, j))
        }),
{
    let c = k as int;
    harmony::lemma_named_one(opts, ids, opts[c].name, c);
    assert(rules::named(opts, ids, opts[c].name) == Some(k));
    assert forall|j: int| #[trigger] rules::leads_to(opts, ids, c, j) == leans_on(
        opts,
        ids,
        c,
        j,
    ) by {
        lemma_leans(opts, ids, c, j);
    }
    reach::lemma_start_reached(reach::only(c), lean_edge(opts, ids), c);
    assert(leans_on(opts, ids, c, c));
    if exists|j: int| #[trigger]
        leans_on(opts, ids, c, j) && opts[j].enabled && has_to_keep(opts[j]) {
        let j = choose|j: int| #[trigger]
            leans_on(opts, ids, c, j) && opts[j].enabled && has_to_keep(opts[j]);
        lemma_leaning_one(opts, ids, c, j);
        assert(rules::leads_to(opts, ids, c, j));
        assert(rules::held(opts, ids, c));
    } else {
        if rules::held(opts, ids, c) {
            let j = choose|j: int|
                0 <= j < opts.len() && #[trigger] rules::leads_to(opts, ids, c, j)
                    && opts[j].enabled && rules::is_single(opts[j].group_type);
            assert(leans_on(opts, ids, c, j));
        }
        assert(rules::leads_to(opts, ids, c, c));
    }
}

/// What leans on an option is one of its port's options.
pub proof fn lemma_leaning_one(opts: Seq<OptionView>, ids: Seq<usize>, k: int, j: int)
    requires
        is_one(opts, ids, k),
        leans_on(opts, ids, k, j),
    ensures
        is_one(opts, ids, j),
{
    let inside = |y: int| is_one(opts, ids, y);
    reach::lemma_closed_holds(reach::only(k), lean_edge(opts, ids), inside, j);
}

} // verus!
