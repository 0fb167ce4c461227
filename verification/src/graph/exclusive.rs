//! What every choice keeps: no two members of an exclusive group are set
//! together, and a `SINGLE` that has a member set never loses its last.
use super::choice;
use super::rules;
use super::{GraphView, OptionView, PortView};
use crate::graph;
use crate::reach;
use vstd::prelude::*;

verus! {

/// Of each exclusive group among the options `ids`, at most one member is set.
pub open spec fn one_at_most(opts: Seq<OptionView>, ids: Seq<usize>) -> bool {
    forall|i: int, j: int|
        0 <= i < opts.len() && 0 <= j < opts.len() && i != j && #[trigger] graph::listed(ids, i)
            && #[trigger] graph::listed(ids, j) && rules::is_exclusive(opts[i].group_type)
            && rules::same_group(opts[i], opts[j]) ==> !(opts[i].enabled && opts[j].enabled)
}

/// Whether the group of option `i` has a member among the options `ids` that
/// is set.
pub open spec fn has_set(opts: Seq<OptionView>, ids: Seq<usize>, i: int) -> bool {
    exists|j: int|
        0 <= j < opts.len() && #[trigger] graph::listed(ids, j) && rules::same_group(
            opts[i],
            opts[j],
        ) && opts[j].enabled
}

/// Of each `SINGLE` among the options `ids`, at least one member is set.
pub open spec fn one_at_least(opts: Seq<OptionView>, ids: Seq<usize>) -> bool {
    forall|i: int|
        0 <= i < opts.len() && #[trigger] graph::listed(ids, i) && rules::is_single(
            opts[i].group_type,
        ) ==> has_set(opts, ids, i)
}

/// A change of the options `ids` that nothing else takes part in, and that
/// keeps what holds of exclusive groups.
spec fn step(a: Seq<OptionView>, b: Seq<OptionView>, ids: Seq<usize>) -> bool {
    &&& rules::same_but_state(a, b)
    &&& forall|j: int|
        0 <= j < a.len() && !#[trigger] graph::listed(ids, j) ==> a[j] == b[j]
    &&& one_at_most(b, ids) ==> one_at_most(a, ids)
    &&& one_at_least(b, ids) ==> one_at_least(a, ids)
}

proof fn lemma_step_trans(a: Seq<OptionView>, b: Seq<OptionView>, c: Seq<OptionView>, ids: Seq<usize>)
    requires
        step(a, b, ids),
        step(b, c, ids),
    ensures
        step(a, c, ids),
{
    rules::lemma_state_trans(a, b, c);
    assert forall|j: int| 0 <= j < a.len() && !#[trigger] graph::listed(ids, j) implies a[j]
        == c[j] by {
        assert(a[j] == b[j]);
    }
}

proof fn lemma_step_same(a: Seq<OptionView>, ids: Seq<usize>)
    ensures
        step(a, a, ids),
{
}

/// What a state applied to option `k` leaves of option `j`: its group, and its
/// own state unless it is `k` or gives way to it.
proof fn lemma_respect_at(opts: Seq<OptionView>, ids: Seq<usize>, k: int, on: bool, j: int)
    requires
        0 <= k < opts.len(),
        0 <= j < opts.len(),
        graph::listed(ids, k),
    ensures
        ({
            let r = rules::respect(opts, ids, k, on);
            let displaces = on && rules::is_exclusive(opts[k].group_type);
            &&& r.len() == opts.len()
            &&& r[j].group_type == opts[j].group_type
            &&& r[j].group_name == opts[j].group_name
            &&& j != k && !(displaces && graph::listed(ids, j) && rules::same_group(
                opts[j],
                opts[k],
            )) ==> r[j] == opts[j]
            &&& j != k && displaces && graph::listed(ids, j) && rules::same_group(opts[j], opts[k])
                ==> !r[j].enabled
            &&& j == k && on ==> r[j].enabled
            &&& j == k && !on ==> r[j].enabled == (rules::is_single(opts[k].group_type)
                && opts[k].enabled)
        }),
{
}

proof fn lemma_respect_most(opts: Seq<OptionView>, ids: Seq<usize>, k: int, on: bool)
    requires
        0 <= k < opts.len(),
        graph::listed(ids, k),
        one_at_most(opts, ids),
    ensures
        one_at_most(rules::respect(opts, ids, k, on), ids),
{
    let r = rules::respect(opts, ids, k, on);
    lemma_respect_at(opts, ids, k, on, k);
    assert forall|i: int, j: int|
        0 <= i < r.len() && 0 <= j < r.len() && i != j && #[trigger] graph::listed(ids, i)
            && #[trigger] graph::listed(ids, j) && rules::is_exclusive(r[i].group_type)
            && rules::same_group(r[i], r[j]) implies !(r[i].enabled && r[j].enabled) by {
        lemma_respect_at(opts, ids, k, on, i);
        lemma_respect_at(opts, ids, k, on, j);
        assert(!(opts[i].enabled && opts[j].enabled));
    }
}

proof fn lemma_respect_least(opts: Seq<OptionView>, ids: Seq<usize>, k: int, on: bool)
    requires
        0 <= k < opts.len(),
        graph::listed(ids, k),
        one_at_least(opts, ids),
    ensures
        one_at_least(rules::respect(opts, ids, k, on), ids),
{
    let r = rules::respect(opts, ids, k, on);
    lemma_respect_at(opts, ids, k, on, k);
    assert forall|i: int|
        0 <= i < r.len() && #[trigger] graph::listed(ids, i) && rules::is_single(
            r[i].group_type,
        ) implies has_set(r, ids, i) by {
        lemma_respect_at(opts, ids, k, on, i);
        assert(has_set(opts, ids, i));
        let j = choose|j: int|
            0 <= j < opts.len() && #[trigger] graph::listed(ids, j) && rules::same_group(
                opts[i],
                opts[j],
            ) && opts[j].enabled;
        lemma_respect_at(opts, ids, k, on, j);
        let w = if on && rules::is_exclusive(opts[k].group_type) && rules::same_group(
            opts[i],
            opts[k],
        ) {
            k
        } else {
            j
        };
        assert(graph::listed(ids, w) && rules::same_group(r[i], r[w]) && r[w].enabled);
    }
}

/// One state applied under the rules of a group.
proof fn lemma_respect(opts: Seq<OptionView>, ids: Seq<usize>, k: int, on: bool)
    requires
        0 <= k < opts.len(),
        graph::listed(ids, k),
    ensures
        step(rules::respect(opts, ids, k, on), opts, ids),
{
    let r = rules::respect(opts, ids, k, on);
    rules::lemma_respect_state(opts, ids, k, on);
    assert forall|j: int| 0 <= j < r.len() && !#[trigger] graph::listed(ids, j) implies r[j]
        == opts[j] by {
        lemma_respect_at(opts, ids, k, on, j);
    }
    if one_at_most(opts, ids) {
        lemma_respect_most(opts, ids, k, on);
    }
    if one_at_least(opts, ids) {
        lemma_respect_least(opts, ids, k, on);
    }
}

/// What is reached by edges that lead only to the options `ids` is one of
/// them.
proof fn lemma_leads_listed(opts: Seq<OptionView>, ids: Seq<usize>, k: int, j: int)
    requires
        graph::listed(ids, k),
        rules::leads_to(opts, ids, k, j),
    ensures
        graph::listed(ids, j),
{
    let within = |i: int| graph::listed(ids, i);
    reach::lemma_closed_holds(reach::only(k), rules::implier_edge(opts, ids), within, j);
}

/// An option turned off with what leads to it.
proof fn lemma_switched(opts: Seq<OptionView>, ids: Seq<usize>, k: int)
    requires
        0 <= k < opts.len(),
        graph::listed(ids, k),
    ensures
        step(rules::switched_off(opts, ids, k), opts, ids),
{
    let r = rules::switched_off(opts, ids, k);
    assert forall|j: int| 0 <= j < r.len() && !#[trigger] graph::listed(ids, j) implies r[j]
        == opts[j] by {
        if rules::leads_to(opts, ids, k, j) {
            lemma_leads_listed(opts, ids, k, j);
        }
    }
    if one_at_most(opts, ids) {
        assert forall|i: int, j: int|
            0 <= i < r.len() && 0 <= j < r.len() && i != j && #[trigger] graph::listed(ids, i)
                && #[trigger] graph::listed(ids, j) && rules::is_exclusive(r[i].group_type)
                && rules::same_group(r[i], r[j]) implies !(r[i].enabled && r[j].enabled) by {
            assert(!(opts[i].enabled && opts[j].enabled));
        }
    }
    if one_at_least(opts, ids) {
        assert forall|i: int|
            0 <= i < r.len() && #[trigger] graph::listed(ids, i) && rules::is_single(
                r[i].group_type,
            ) implies has_set(r, ids, i) by {
            assert(has_set(opts, ids, i));
            let j = choose|j: int|
                0 <= j < opts.len() && #[trigger] graph::listed(ids, j) && rules::same_group(
                    opts[i],
                    opts[j],
                ) && opts[j].enabled;
            assert(rules::is_single(opts[j].group_type));
            if rules::leads_to(opts, ids, k, j) {
                assert(rules::held(opts, ids, k));
            }
            assert(r[j].enabled);
            assert(graph::listed(ids, j) && rules::same_group(r[i], r[j]));
        }
    }
}

proof fn lemma_siblings(opts: Seq<OptionView>, ids: Seq<usize>, k: int, n: int)
    requires
        0 <= k < opts.len(),
        graph::listed(ids, k),
        n <= ids.len(),
        graph::in_range(ids, opts.len()),
    ensures
        step(rules::siblings_off(opts, ids, k, n), opts, ids),
    decreases n,
{
    if n > 0 {
        lemma_siblings(opts, ids, k, n - 1);
        let s = rules::siblings_off(opts, ids, k, n - 1);
        let id = ids[n - 1] as int;
        assert(graph::listed(ids, id));
        lemma_switched(s, ids, id);
        lemma_step_trans(rules::switched_off(s, ids, id), s, opts, ids);
    } else {
        lemma_respect(opts, ids, k, true);
    }
}

proof fn lemma_preventers(opts: Seq<OptionView>, ids: Seq<usize>, k: int, n: int)
    requires
        n <= ids.len(),
        graph::in_range(ids, opts.len()),
    ensures
        step(rules::preventers_off(opts, ids, k, n), opts, ids),
    decreases n,
{
    if n > 0 {
        lemma_preventers(opts, ids, k, n - 1);
        let s = rules::preventers_off(opts, ids, k, n - 1);
        let id = ids[n - 1] as int;
        assert(graph::listed(ids, id));
        lemma_switched(s, ids, id);
        lemma_step_trans(rules::switched_off(s, ids, id), s, opts, ids);
    } else {
        lemma_step_same(opts, ids);
    }
}

proof fn lemma_turned_on(opts: Seq<OptionView>, ids: Seq<usize>, k: int)
    requires
        0 <= k < opts.len(),
        graph::listed(ids, k),
        graph::in_range(ids, opts.len()),
    ensures
        step(rules::turned_on(opts, ids, k), opts, ids),
{
    let s = rules::siblings_off(opts, ids, k, ids.len() as int);
    lemma_siblings(opts, ids, k, ids.len() as int);
    lemma_preventers(s, ids, k, ids.len() as int);
    lemma_step_trans(rules::turned_on(opts, ids, k), s, opts, ids);
}

proof fn lemma_implied(opts: Seq<OptionView>, ids: Seq<usize>, names: Seq<Seq<char>>, n: int)
    requires
        graph::in_range(ids, opts.len()),
    ensures
        step(rules::implied_on(opts, ids, names, n), opts, ids),
    decreases n,
{
    if n > 0 {
        lemma_implied(opts, ids, names, n - 1);
        let s = rules::implied_on(opts, ids, names, n - 1);
        rules::lemma_named(s, ids, names[n - 1], 0);
        if let Some(id) = rules::named(s, ids, names[n - 1]) {
            lemma_turned_on(s, ids, id as int);
            lemma_step_trans(rules::turned_on(s, ids, id as int), s, opts, ids);
        }
    } else {
        lemma_step_same(opts, ids);
    }
}

proof fn lemma_prevented(opts: Seq<OptionView>, ids: Seq<usize>, names: Seq<Seq<char>>, n: int)
    requires
        graph::in_range(ids, opts.len()),
    ensures
        step(rules::prevented_off(opts, ids, names, n), opts, ids),
    decreases n,
{
    if n > 0 {
        lemma_prevented(opts, ids, names, n - 1);
        let s = rules::prevented_off(opts, ids, names, n - 1);
        rules::lemma_named(s, ids, names[n - 1], 0);
        if let Some(id) = rules::named(s, ids, names[n - 1]) {
            lemma_switched(s, ids, id as int);
            lemma_step_same(s, ids);
            lemma_step_trans(rules::prevent(s, ids, id as int), s, opts, ids);
        }
    } else {
        lemma_step_same(opts, ids);
    }
}

proof fn lemma_declared(opts: Seq<OptionView>, ids: Seq<usize>, work: Seq<usize>, n: int)
    requires
        graph::in_range(ids, opts.len()),
    ensures
        step(rules::declared_upto(opts, ids, work, n), opts, ids),
    decreases n,
{
    if n > 0 {
        lemma_declared(opts, ids, work, n - 1);
        let s = rules::declared_upto(opts, ids, work, n - 1);
        let k = work[n - 1] as int;
        let t = rules::implied_on(s, ids, s[k].implies, s[k].implies.len() as int);
        lemma_implied(s, ids, s[k].implies, s[k].implies.len() as int);
        lemma_prevented(t, ids, s[k].prevents, s[k].prevents.len() as int);
        lemma_step_trans(rules::declared(s, ids, k), t, s, ids);
        lemma_step_trans(rules::declared(s, ids, k), s, opts, ids);
    } else {
        lemma_step_same(opts, ids);
    }
}

/// A choice made on a port.
proof fn lemma_chosen(opts: Seq<OptionView>, ids: Seq<usize>, name: Seq<char>, on: bool)
    requires
        graph::in_range(ids, opts.len()),
    ensures
        step(rules::chosen(opts, ids, name, on), opts, ids),
{
    rules::lemma_named(opts, ids, name, 0);
    lemma_step_same(opts, ids);
    if let Some(id) = rules::named(opts, ids, name) {
        let k = id as int;
        if on {
            let t = rules::turned_on(opts, ids, k);
            lemma_turned_on(opts, ids, k);
            let work = rules::implied_order(t, ids, id);
            lemma_declared(t, ids, work, work.len() as int);
            lemma_step_trans(rules::with_on(opts, ids, id), t, opts, ids);
        } else {
            lemma_switched(opts, ids, k);
        }
    }
}

/// A choice that a port has made keeps its exclusive groups: with at most one
/// member of each set before it, there is at most one after it, and a `SINGLE`
/// that had a member set has one.
pub proof fn a_choice_keeps_exclusive_groups(
    opts: Seq<OptionView>,
    ids: Seq<usize>,
    name: Seq<char>,
    on: bool,
)
    requires
        graph::in_range(ids, opts.len()),
    ensures
        one_at_most(opts, ids) ==> one_at_most(rules::chosen(opts, ids, name, on), ids),
        one_at_least(opts, ids) ==> one_at_least(rules::chosen(opts, ids, name, on), ids),
{
    lemma_chosen(opts, ids, name, on);
}

/// A choice made on a port leaves the options of every other port alone.
pub proof fn a_choice_stays_on_its_port(
    opts: Seq<OptionView>,
    ids: Seq<usize>,
    name: Seq<char>,
    on: bool,
)
    requires
        graph::in_range(ids, opts.len()),
    ensures
        rules::same_but_state(rules::chosen(opts, ids, name, on), opts),
        forall|j: int|
            0 <= j < opts.len() && !#[trigger] graph::listed(ids, j) ==> rules::chosen(
                opts,
                ids,
                name,
                on,
            )[j] == opts[j],
{
    lemma_chosen(opts, ids, name, on);
}

/// Every port has at most one member of each exclusive group set.
pub open spec fn all_at_most(ports: Seq<PortView>, opts: Seq<OptionView>) -> bool {
    forall|p: int| 0 <= p < ports.len() ==> one_at_most(opts, (#[trigger] ports[p]).options)
}

/// Every port has at least one member of each `SINGLE` set.
pub open spec fn all_at_least(ports: Seq<PortView>, opts: Seq<OptionView>) -> bool {
    forall|p: int| 0 <= p < ports.len() ==> one_at_least(opts, (#[trigger] ports[p]).options)
}

/// What does not change keeps what holds of it.
proof fn lemma_untouched(a: Seq<OptionView>, b: Seq<OptionView>, ids: Seq<usize>)
    requires
        a.len() == b.len(),
        forall|j: int| 0 <= j < a.len() && #[trigger] graph::listed(ids, j) ==> a[j] == b[j],
    ensures
        one_at_most(b, ids) ==> one_at_most(a, ids),
        one_at_least(b, ids) ==> one_at_least(a, ids),
{
    if one_at_most(b, ids) {
        assert forall|i: int, j: int|
            0 <= i < a.len() && 0 <= j < a.len() && i != j && #[trigger] graph::listed(ids, i)
                && #[trigger] graph::listed(ids, j) && rules::is_exclusive(a[i].group_type)
                && rules::same_group(a[i], a[j]) implies !(a[i].enabled && a[j].enabled) by {
            assert(a[i] == b[i] && a[j] == b[j]);
        }
    }
    if one_at_least(b, ids) {
        assert forall|i: int|
            0 <= i < a.len() && #[trigger] graph::listed(ids, i) && rules::is_single(
                a[i].group_type,
            ) implies has_set(a, ids, i) by {
            assert(a[i] == b[i]);
            assert(has_set(b, ids, i));
            let j = choose|j: int|
                0 <= j < b.len() && #[trigger] graph::listed(ids, j) && rules::same_group(
                    b[i],
                    b[j],
                ) && b[j].enabled;
            assert(a[j] == b[j]);
            assert(graph::listed(ids, j) && rules::same_group(a[i], a[j]));
        }
    }
}

/// No option is an option of two ports.
pub proof fn lemma_disjoint(g: GraphView, p: int, q: int, j: int)
    requires
        graph::shape_ok(g.ports, g.options),
        0 <= p < g.ports.len(),
        0 <= q < g.ports.len(),
        p != q,
        graph::listed(g.ports[p].options, j),
    ensures
        !graph::listed(g.ports[q].options, j),
{
    assert(graph::port_ok(g.ports, g.options, p));
    assert(graph::port_ok(g.ports, g.options, q));
    let a = g.ports[p].options;
    let b = g.ports[q].options;
    let m = choose|m: int| 0 <= m < a.len() && #[trigger] a[m] == j;
    assert(g.options[a[m] as int].parent_port == p);
    if graph::listed(b, j) {
        let n = choose|n: int| 0 <= n < b.len() && #[trigger] b[n] == j;
        assert(g.options[b[n] as int].parent_port == q);
    }
}

/// A choice made on some ports keeps the exclusive groups of every port.
proof fn lemma_choice_on(g: GraphView, targets: Seq<Seq<char>>, n: int, name: Seq<char>, on: bool)
    requires
        graph::shape_ok(g.ports, g.options),
        graph::index_ok(g.ports, g.by_origin),
    ensures
        choice::choice_on(g, targets, n, name, on).len() == g.options.len(),
        all_at_most(g.ports, g.options) ==> all_at_most(
            g.ports,
            choice::choice_on(g, targets, n, name, on),
        ),
        all_at_least(g.ports, g.options) ==> all_at_least(
            g.ports,
            choice::choice_on(g, targets, n, name, on),
        ),
    decreases n,
{
    if n > 0 {
        lemma_choice_on(g, targets, n - 1, name, on);
        let s = choice::choice_on(g, targets, n - 1, name, on);
        if let Some(i) = graph::index_of(g, targets[n - 1]) {
            let p = i as int;
            let ids = g.ports[p].options;
            let t = rules::chosen(s, ids, name, on);
            assert(graph::port_ok(g.ports, g.options, p));
            assert(graph::in_range(ids, s.len()));
            lemma_chosen(s, ids, name, on);
            assert forall|q: int| 0 <= q < g.ports.len() implies (one_at_most(
                s,
                (#[trigger] g.ports[q]).options,
            ) ==> one_at_most(t, g.ports[q].options)) && (one_at_least(s, g.ports[q].options)
                ==> one_at_least(t, g.ports[q].options)) by {
                if q != p {
                    assert forall|j: int|
                        0 <= j < t.len() && #[trigger] graph::listed(
                            g.ports[q].options,
                            j,
                        ) implies t[j] == s[j] by {
                        lemma_disjoint(g, q, p, j);
                    }
                    lemma_untouched(t, s, g.ports[q].options);
                }
            }
        }
    }
}

/// A press keeps the exclusive groups of every port: where each had at most one
/// member set, each still has at most one, and where each `SINGLE` had one set,
/// each still has.
pub proof fn a_press_keeps_exclusive_groups(g: GraphView, row: int)
    requires
        g.wf(),
    ensures
        all_at_most(g.ports, g.options) ==> all_at_most(
            g.ports,
            choice::toggled(g, row).options,
        ),
        all_at_least(g.ports, g.options) ==> all_at_least(
            g.ports,
            choice::toggled(g, row).options,
        ),
{
    if let Some(k) = choice::pressed(g, row) {
        let targets = choice::targets_of(g.groups, g.options[k].port_origin, g.groups.len() as int);
        lemma_choice_on(
            g,
            targets,
            targets.len() as int,
            g.options[k].name,
            !g.options[k].enabled,
        );
    }
}

/// Pressing the member of a `SINGLE` that is set changes no option.
pub proof fn the_last_of_a_single_is_kept(g: GraphView, row: int, id: usize)
    requires
        g.wf(),
        0 <= row < g.rows.len(),
        g.rows[row].node_id == graph::NodeId::Option(id),
        rules::is_single(g.options[id as int].group_type),
        g.options[id as int].enabled,
    ensures
        choice::toggled(g, row).options == g.options,
{
}

/// A press changes nothing but which options are set: every port keeps its
/// options, its dependencies and what is known of it, in the list or out of it.
pub proof fn a_press_changes_only_states(g: GraphView, row: int)
    requires
        g.wf(),
    ensures
        rules::same_but_state(choice::toggled(g, row).options, g.options),
        choice::toggled(g, row).ports == g.ports,
        choice::toggled(g, row).by_origin == g.by_origin,
        choice::toggled(g, row).groups == g.groups,
{
    if let Some(k) = choice::pressed(g, row) {
        let targets = choice::targets_of(g.groups, g.options[k].port_origin, g.groups.len() as int);
        choice::lemma_choice_state(
            g,
            targets,
            targets.len() as int,
            g.options[k].name,
            !g.options[k].enabled,
        );
    }
}

} // verus!
