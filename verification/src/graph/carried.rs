//! That a choice is carried to every port of the groups of the port it is made
//! on, and to no other: on each it does what it would do there alone.
use super::choice;
use super::exclusive;
use super::follow;
use super::follow::{can_follow, has_to_go, has_to_keep, is_ousted, leans_on};
use super::harmony::{entails, implied_edge, named_apart};
use super::relations::{implies_it, is_one, prevents_it};
use super::rules;
use super::{GraphView, GroupView, OptionView};
use crate::graph;
use crate::order;
use vstd::prelude::*;

verus! {

/// Whether a choice made on one port is made for another: it is that port, or
/// there is a group with both in it.
pub open spec fn goes_together(groups: Seq<GroupView>, origin: Seq<char>, other: Seq<char>) -> bool {
    other == origin || exists|i: int|
        0 <= i < groups.len() && (#[trigger] groups[i]).members.contains(origin)
            && groups[i].members.contains(other)
}

proof fn lemma_with_members(
    targets: Seq<Seq<char>>,
    members: Seq<Seq<char>>,
    n: int,
    x: Seq<char>,
)
    requires
        0 <= n <= members.len(),
    ensures
        choice::with_members(targets, members, n).contains(x) <==> targets.contains(x)
            || members.take(n).contains(x),
    decreases n,
{
    if n > 0 {
        lemma_with_members(targets, members, n - 1, x);
        let t = choice::with_members(targets, members, n - 1);
        let r = choice::with_members(targets, members, n);
        assert(members.take(n).drop_last() =~= members.take(n - 1));
        order::lemma_contains_last(members.take(n), x);
        if !t.contains(members[n - 1]) {
            assert(r.drop_last() =~= t);
            order::lemma_contains_last(r, x);
        }
    } else {
        assert(members.take(n) =~= seq![]);
    }
}

proof fn lemma_targets(groups: Seq<GroupView>, origin: Seq<char>, n: int, x: Seq<char>)
    requires
        0 <= n <= groups.len(),
    ensures
        choice::targets_of(groups, origin, n).contains(x) <==> goes_together(
            groups.take(n),
            origin,
            x,
        ),
    decreases n,
{
    let now = groups.take(n);
    if n > 0 {
        lemma_targets(groups, origin, n - 1, x);
        let before = groups.take(n - 1);
        let t = choice::targets_of(groups, origin, n - 1);
        let members = groups[n - 1].members;
        lemma_with_members(t, members, members.len() as int, x);
        assert(members.take(members.len() as int) =~= members);
        assert(now[n - 1] == groups[n - 1]);
        if goes_together(before, origin, x) && x != origin {
            let i = choose|i: int|
                0 <= i < before.len() && (#[trigger] before[i]).members.contains(origin)
                    && before[i].members.contains(x);
            assert(now[i] == before[i]);
        }
        if goes_together(now, origin, x) && x != origin {
            let i = choose|i: int|
                0 <= i < now.len() && (#[trigger] now[i]).members.contains(origin)
                    && now[i].members.contains(x);
            if i < n - 1 {
                assert(before[i] == now[i]);
            }
        }
    } else {
        assert(choice::targets_of(groups, origin, n)[0] == origin);
    }
}

/// The ports that a choice is made for are the port it is made on and those in a
/// group with it.
pub proof fn a_choice_is_made_for_the_groups(
    groups: Seq<GroupView>,
    origin: Seq<char>,
    x: Seq<char>,
)
    ensures
        choice::targets_of(groups, origin, groups.len() as int).contains(x) <==> goes_together(
            groups,
            origin,
            x,
        ),
{
    lemma_targets(groups, origin, groups.len() as int, x);
    assert(groups.take(groups.len() as int) =~= groups);
}

/// Two lists of options agree on the options of a port.
spec fn agree(a: Seq<OptionView>, b: Seq<OptionView>, ids: Seq<usize>) -> bool {
    &&& a.len() == b.len()
    &&& forall|j: int| 0 <= j < a.len() && #[trigger] graph::listed(ids, j) ==> a[j] == b[j]
}

proof fn lemma_agree_edges(a: Seq<OptionView>, b: Seq<OptionView>, ids: Seq<usize>)
    requires
        agree(a, b, ids),
    ensures
        implied_edge(a, ids) == implied_edge(b, ids),
        follow::lean_edge(a, ids) == follow::lean_edge(b, ids),
        named_apart(a, ids) ==> named_apart(b, ids),
{
    assert forall|i: int, j: int| implied_edge(a, ids)(i, j) == #[trigger] implied_edge(b, ids)(
        i,
        j,
    ) by {
        if is_one(a, ids, i) && is_one(a, ids, j) {
            assert(a[i] == b[i] && a[j] == b[j]);
            assert(implies_it(a, i, j) == implies_it(b, i, j));
        }
    }
    assert(implied_edge(a, ids) =~= implied_edge(b, ids));
    assert forall|i: int, j: int| follow::lean_edge(a, ids)(i, j) == #[trigger] follow::lean_edge(
        b,
        ids,
    )(i, j) by {
        if is_one(a, ids, i) && is_one(a, ids, j) {
            assert(a[i] == b[i] && a[j] == b[j]);
            assert(implies_it(a, j, i) == implies_it(b, j, i));
        }
    }
    assert(follow::lean_edge(a, ids) =~= follow::lean_edge(b, ids));
    if named_apart(a, ids) {
        assert forall|i: int, j: int|
            is_one(b, ids, i) && is_one(b, ids, j) && #[trigger] b[i].name
                == #[trigger] b[j].name implies i == j by {
            assert(is_one(a, ids, i) && is_one(a, ids, j));
            assert(a[i] == b[i] && a[j] == b[j]);
            assert(a[i].name == a[j].name);
        }
    }
}

proof fn lemma_agree_ousted(a: Seq<OptionView>, b: Seq<OptionView>, ids: Seq<usize>, k: int, x: int)
    requires
        agree(a, b, ids),
        is_one(a, ids, k),
    ensures
        is_ousted(a, ids, k, x) == is_ousted(b, ids, k, x),
        is_one(a, ids, x) ==> follow::displaced(a, ids, k, x) == follow::displaced(b, ids, k, x),
{
    lemma_agree_edges(a, b, ids);
    assert forall|e: int| #[trigger] entails(a, ids, k, e) == entails(b, ids, k, e) by {}
    assert forall|e: int| #[trigger] entails(a, ids, k, e) implies is_one(a, ids, e) && a[e]
        == b[e] by {
        follow::lemma_entailed_one(a, ids, k, e);
    }
    if is_one(a, ids, x) {
        assert(a[x] == b[x]);
        assert forall|e: int| #[trigger] entails(a, ids, k, e) implies follow::at_odds(a, e, x)
            == follow::at_odds(b, e, x) by {
            assert(prevents_it(a, x, e) == prevents_it(b, x, e));
            assert(prevents_it(a, e, x) == prevents_it(b, e, x));
        }
        if is_ousted(a, ids, k, x) {
            let e = choose|e: int| #[trigger] entails(a, ids, k, e) && follow::at_odds(a, e, x);
            assert(entails(b, ids, k, e) && follow::at_odds(b, e, x));
        }
        if is_ousted(b, ids, k, x) {
            let e = choose|e: int| #[trigger] entails(b, ids, k, e) && follow::at_odds(b, e, x);
            assert(entails(a, ids, k, e));
            assert(follow::at_odds(a, e, x) == follow::at_odds(b, e, x));
        }
        if follow::displaced(a, ids, k, x) {
            let e = choose|e: int| #[trigger]
                entails(a, ids, k, e) && follow::is_one_of(a[e]) && follow::share_group(a[x], a[e]);
            assert(entails(b, ids, k, e));
        }
        if follow::displaced(b, ids, k, x) {
            let e = choose|e: int| #[trigger]
                entails(b, ids, k, e) && follow::is_one_of(b[e]) && follow::share_group(b[x], b[e]);
            assert(entails(a, ids, k, e));
        }
    }
}

proof fn lemma_agree_follow(a: Seq<OptionView>, b: Seq<OptionView>, ids: Seq<usize>, k: int)
    requires
        agree(a, b, ids),
        is_one(a, ids, k),
        can_follow(a, ids, k),
    ensures
        can_follow(b, ids, k),
        forall|j: int| #[trigger] has_to_go(a, ids, k, j) == has_to_go(b, ids, k, j),
{
    lemma_agree_edges(a, b, ids);
    assert forall|x: int| #[trigger] is_ousted(b, ids, k, x) == is_ousted(a, ids, k, x) by {
        lemma_agree_ousted(a, b, ids, k, x);
    }
    assert forall|e: int| #[trigger] entails(b, ids, k, e) implies entails(a, ids, k, e) && is_one(
        a,
        ids,
        e,
    ) && a[e] == b[e] by {
        follow::lemma_entailed_one(a, ids, k, e);
    }
    assert forall|x: int, y: int| #[trigger] entails(b, ids, k, x) && #[trigger] entails(
        b,
        ids,
        k,
        y,
    ) implies !prevents_it(b, x, y) by {
        assert(entails(a, ids, k, x) && entails(a, ids, k, y));
        assert(!prevents_it(a, x, y));
    }
    assert forall|x: int, y: int| #[trigger] entails(b, ids, k, x) && #[trigger] entails(
        b,
        ids,
        k,
        y,
    ) && x != y implies !(follow::is_one_of(b[x]) && follow::share_group(b[x], b[y])) by {
        assert(entails(a, ids, k, x) && entails(a, ids, k, y));
    }
    assert forall|x: int, j: int| #[trigger] is_ousted(b, ids, k, x) && #[trigger] leans_on(
        b,
        ids,
        x,
        j,
    ) && has_to_keep(b[j]) implies j == x && follow::displaced(b, ids, k, x) by {
        lemma_agree_ousted(a, b, ids, k, x);
        follow::lemma_leaning_one(b, ids, x, j);
        assert(a[j] == b[j]);
        assert(is_ousted(a, ids, k, x) && leans_on(a, ids, x, j));
    }
    assert forall|j: int| #[trigger] has_to_go(a, ids, k, j) == has_to_go(b, ids, k, j) by {
        if has_to_go(a, ids, k, j) {
            let x = choose|x: int| #[trigger] is_ousted(a, ids, k, x) && leans_on(a, ids, x, j);
            assert(is_ousted(b, ids, k, x) && leans_on(b, ids, x, j));
        }
        if has_to_go(b, ids, k, j) {
            let x = choose|x: int| #[trigger] is_ousted(b, ids, k, x) && leans_on(b, ids, x, j);
            assert(is_ousted(a, ids, k, x) && leans_on(a, ids, x, j));
        }
    }
}

/// What a choice has done once it is made for the first `n` of some ports: where
/// port `p` is one of them, what it does on that port; and nothing there where
/// it is not.
proof fn lemma_made(
    g: GraphView,
    targets: Seq<Seq<char>>,
    n: int,
    name: Seq<char>,
    on: bool,
    p: int,
) -> (s: Seq<OptionView>)
    requires
        graph::shape_ok(g.ports, g.options),
        graph::index_ok(g.ports, g.by_origin),
        targets.no_duplicates(),
        0 <= n <= targets.len(),
        0 <= p < g.ports.len(),
    ensures
        rules::same_but_state(choice::choice_on(g, targets, n, name, on), g.options),
        agree(s, g.options, g.ports[p].options),
        targets.take(n).contains(g.ports[p].origin) ==> agree(
            choice::choice_on(g, targets, n, name, on),
            rules::chosen(s, g.ports[p].options, name, on),
            g.ports[p].options,
        ),
        !targets.take(n).contains(g.ports[p].origin) ==> agree(
            choice::choice_on(g, targets, n, name, on),
            g.options,
            g.ports[p].options,
        ),
    decreases n,
{
    let ids = g.ports[p].options;
    let origin = g.ports[p].origin;
    assert(graph::port_ok(g.ports, g.options, p));
    if n > 0 {
        let s = lemma_made(g, targets, n - 1, name, on, p);
        let a = choice::choice_on(g, targets, n - 1, name, on);
        let r = choice::choice_on(g, targets, n, name, on);
        assert(targets.take(n).drop_last() =~= targets.take(n - 1));
        order::lemma_contains_last(targets.take(n), origin);
        match graph::index_of(g, targets[n - 1]) {
            Some(i) => {
                let q = i as int;
                let other = g.ports[q].options;
                assert(graph::port_ok(g.ports, g.options, q));
                assert(graph::in_range(other, a.len()));
                exclusive::a_choice_stays_on_its_port(a, other, name, on);
                rules::lemma_state_trans(r, a, g.options);
                if q == p {
                    assert(targets[n - 1] == origin);
                    assert(!targets.take(n - 1).contains(origin)) by {
                        let front = targets.take(n - 1);
                        if front.contains(origin) {
                            let m = choose|m: int| 0 <= m < front.len() && front[m] == origin;
                            assert(targets[m] == targets[n - 1]);
                        }
                    }
                    a
                } else {
                    assert(targets[n - 1] != origin);
                    assert forall|j: int| 0 <= j < r.len() && #[trigger] graph::listed(
                        ids,
                        j,
                    ) implies r[j] == a[j] by {
                        exclusive::lemma_disjoint(g, p, q, j);
                    }
                    exclusive::a_choice_stays_on_its_port(s, ids, name, on);
                    s
                }
            },
            None => {
                assert(targets[n - 1] != origin);
                s
            },
        }
    } else {
        assert(targets.take(n) =~= seq![]);
        g.options
    }
}

/// Turning an option on is carried to every port that goes together with the one
/// it is made on: on each that has an option of that name which can be turned
/// on, that option and all that it implies are set afterwards, what has to go
/// for that is not, and the rest is as it was.
pub proof fn turning_on_is_carried_to_the_groups(
    g: GraphView,
    origin: Seq<char>,
    p: int,
    k: usize,
)
    requires
        graph::shape_ok(g.ports, g.options),
        graph::index_ok(g.ports, g.by_origin),
        0 <= p < g.ports.len(),
        goes_together(g.groups, origin, g.ports[p].origin),
        named_apart(g.options, g.ports[p].options),
        is_one(g.options, g.ports[p].options, k as int),
        can_follow(g.options, g.ports[p].options, k as int),
    ensures
        ({
            let ids = g.ports[p].options;
            let after = choice::choice_made(g, origin, g.options[k as int].name, true);
            forall|j: int|
                0 <= j < g.options.len() && #[trigger] graph::listed(ids, j) ==> after[j].enabled
                    == (entails(g.options, ids, k as int, j) || g.options[j].enabled && !has_to_go(
                    g.options,
                    ids,
                    k as int,
                    j,
                ))
        }),
{
    let ids = g.ports[p].options;
    let d = g.options;
    let name = d[k as int].name;
    let targets = choice::targets_of(g.groups, origin, g.groups.len() as int);
    let n = targets.len() as int;
    choice::lemma_targets_once(g.groups, origin, g.groups.len() as int);
    a_choice_is_made_for_the_groups(g.groups, origin, g.ports[p].origin);
    assert(targets.take(n) =~= targets);
    assert(graph::port_ok(g.ports, d, p));
    let s = lemma_made(g, targets, n, name, true, p);
    lemma_agree_edges(d, s, ids);
    lemma_agree_follow(d, s, ids, k as int);
    assert(s[k as int] == d[k as int]);
    follow::turning_on_sets_what_follows(s, ids, k);
}

/// Turning an option off is carried to every port that goes together with the
/// one it is made on: on each that has an option of that name, it goes off with
/// what implies it, unless one of these is what a `SINGLE` keeps set.
pub proof fn turning_off_is_carried_to_the_groups(
    g: GraphView,
    origin: Seq<char>,
    p: int,
    k: usize,
)
    requires
        graph::shape_ok(g.ports, g.options),
        graph::index_ok(g.ports, g.by_origin),
        0 <= p < g.ports.len(),
        goes_together(g.groups, origin, g.ports[p].origin),
        named_apart(g.options, g.ports[p].options),
        is_one(g.options, g.ports[p].options, k as int),
        forall|j: int| #[trigger]
            leans_on(g.options, g.ports[p].options, k as int, j) && g.options[j].enabled
                ==> !has_to_keep(g.options[j]),
    ensures
        ({
            let ids = g.ports[p].options;
            let after = choice::choice_made(g, origin, g.options[k as int].name, false);
            forall|j: int|
                0 <= j < g.options.len() && #[trigger] graph::listed(ids, j) ==> after[j].enabled
                    == (g.options[j].enabled && !leans_on(g.options, ids, k as int, j))
        }),
{
    let ids = g.ports[p].options;
    let d = g.options;
    let name = d[k as int].name;
    let targets = choice::targets_of(g.groups, origin, g.groups.len() as int);
    let n = targets.len() as int;
    choice::lemma_targets_once(g.groups, origin, g.groups.len() as int);
    a_choice_is_made_for_the_groups(g.groups, origin, g.ports[p].origin);
    assert(targets.take(n) =~= targets);
    assert(graph::port_ok(g.ports, d, p));
    let s = lemma_made(g, targets, n, name, false, p);
    lemma_agree_edges(d, s, ids);
    assert(s[k as int] == d[k as int]);
    follow::turning_off_takes_what_implies_it(s, ids, k);
    assert forall|j: int| #[trigger] leans_on(s, ids, k as int, j) && s[j].enabled implies
        !has_to_keep(s[j]) by {
        follow::lemma_leaning_one(s, ids, k as int, j);
        assert(s[j] == d[j]);
        assert(leans_on(d, ids, k as int, j));
    }
}

/// A choice leaves every port alone that does not go together with the one it is
/// made on.
pub proof fn a_choice_leaves_the_others_alone(
    g: GraphView,
    origin: Seq<char>,
    name: Seq<char>,
    on: bool,
    p: int,
)
    requires
        graph::shape_ok(g.ports, g.options),
        graph::index_ok(g.ports, g.by_origin),
        0 <= p < g.ports.len(),
        !goes_together(g.groups, origin, g.ports[p].origin),
    ensures
        forall|j: int|
            0 <= j < g.options.len() && #[trigger] graph::listed(g.ports[p].options, j)
                ==> choice::choice_made(g, origin, name, on)[j] == g.options[j],
{
    let targets = choice::targets_of(g.groups, origin, g.groups.len() as int);
    let n = targets.len() as int;
    choice::lemma_targets_once(g.groups, origin, g.groups.len() as int);
    a_choice_is_made_for_the_groups(g.groups, origin, g.ports[p].origin);
    assert(targets.take(n) =~= targets);
    lemma_made(g, targets, n, name, on, p);
}

} // verus!
