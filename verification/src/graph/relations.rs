//! What every choice keeps of what options declare about each other: nothing
//! that is set implies something that is not, and nothing that is set prevents
//! something that is, unless a `SINGLE` keeps it.
use super::choice;
use super::exclusive;
use super::rules;
use super::{GraphView, OptionView, PortView};
use crate::graph;
use crate::reach;
use vstd::prelude::*;

verus! {

/// Whether option `i` is one of the options `ids`.
pub open spec fn is_one(opts: Seq<OptionView>, ids: Seq<usize>, i: int) -> bool {
    0 <= i < opts.len() && graph::listed(ids, i)
}

/// Whether option `i` declares that it implies option `j`.
pub open spec fn implies_it(opts: Seq<OptionView>, i: int, j: int) -> bool {
    opts[i].implies.contains(opts[j].name)
}

/// Whether option `i` declares that it prevents option `j`.
pub open spec fn prevents_it(opts: Seq<OptionView>, i: int, j: int) -> bool {
    opts[i].prevents.contains(opts[j].name)
}

/// What is set agrees with what the options of a port declare.
pub open spec fn rules_kept(opts: Seq<OptionView>, ids: Seq<usize>) -> bool {
    &&& forall|i: int, j: int|
        is_one(opts, ids, i) && is_one(opts, ids, j) && opts[i].enabled && #[trigger] implies_it(
            opts,
            i,
            j,
        ) ==> opts[j].enabled
    &&& forall|i: int, j: int|
        is_one(opts, ids, i) && is_one(opts, ids, j) && opts[i].enabled && opts[j].enabled
            && #[trigger] prevents_it(opts, i, j) ==> rules::is_single(opts[j].group_type)
}

/// Where nothing is set against a declaration that was not before, and nothing
/// was, nothing is.
pub proof fn lemma_no_worse(a: Seq<OptionView>, b: Seq<OptionView>, ids: Seq<usize>)
    requires
        rules::same_but_state(a, b),
        rules::no_worse(a, b, ids),
        rules_kept(b, ids),
    ensures
        rules_kept(a, ids),
{
    assert forall|i: int, j: int| is_one(a, ids, i) && is_one(a, ids, j) implies !#[trigger]
    rules::breaks(a, i, j) by {
        assert(is_one(b, ids, i) && is_one(b, ids, j));
        let m = choose|m: int| 0 <= m < ids.len() && #[trigger] ids[m] == i;
        let n = choose|n: int| 0 <= n < ids.len() && #[trigger] ids[n] == j;
        if rules::breaks(a, i, j) {
            assert(rules::breaks(a, ids[m] as int, ids[n] as int));
            assert(rules::breaks(b, ids[m] as int, ids[n] as int));
            assert(implies_it(b, i, j) && b[i].enabled ==> b[j].enabled);
            assert(prevents_it(b, i, j) && b[i].enabled && b[j].enabled ==> rules::is_single(
                b[j].group_type,
            ));
        }
    }
    assert forall|i: int, j: int|
        is_one(a, ids, i) && is_one(a, ids, j) && a[i].enabled && #[trigger] implies_it(
            a,
            i,
            j,
        ) implies a[j].enabled by {
        assert(!rules::breaks(a, i, j));
    }
    assert forall|i: int, j: int|
        is_one(a, ids, i) && is_one(a, ids, j) && a[i].enabled && a[j].enabled
            && #[trigger] prevents_it(a, i, j) implies rules::is_single(a[j].group_type) by {
        assert(!rules::breaks(a, i, j));
    }
}

/// Turning an option off with what leads to it sets nothing against a
/// declaration.
pub proof fn lemma_off_no_worse(opts: Seq<OptionView>, ids: Seq<usize>, k: int)
    requires
        graph::in_range(ids, opts.len()),
    ensures
        rules::no_worse(rules::switched_off(opts, ids, k), opts, ids),
{
    let r = rules::switched_off(opts, ids, k);
    assert forall|m: int, n: int|
        0 <= m < ids.len() && 0 <= n < ids.len() && #[trigger] rules::breaks(
            r,
            ids[m] as int,
            ids[n] as int,
        ) implies rules::breaks(opts, ids[m] as int, ids[n] as int) by {
        let i = ids[m] as int;
        let j = ids[n] as int;
        assert(graph::listed(ids, i) && graph::listed(ids, j));
        if !r[j].enabled && opts[j].enabled {
            let edge = rules::implier_edge(opts, ids);
            assert(rules::leads_to(opts, ids, k, j));
            assert(edge(j, i));
            reach::lemma_edge_reached(reach::only(k), edge, j, i);
        }
    }
}

/// A choice keeps what the options of a port declare: where nothing that was
/// set implied something that was not, or prevented something that was, the
/// same holds of what is set after it.
pub proof fn a_choice_keeps_the_rules(
    opts: Seq<OptionView>,
    ids: Seq<usize>,
    name: Seq<char>,
    on: bool,
)
    requires
        graph::in_range(ids, opts.len()),
        rules_kept(opts, ids),
    ensures
        rules_kept(rules::chosen(opts, ids, name, on), ids),
{
    let r = rules::chosen(opts, ids, name, on);
    rules::lemma_chosen_state(opts, ids, name, on);
    if let Some(id) = rules::named(opts, ids, name) {
        lemma_off_no_worse(opts, ids, id as int);
        if r != opts {
            lemma_no_worse(r, opts, ids);
        }
    }
}

/// What is set agrees with what the options of every port declare.
pub open spec fn all_kept(ports: Seq<PortView>, opts: Seq<OptionView>) -> bool {
    forall|p: int| 0 <= p < ports.len() ==> rules_kept(opts, (#[trigger] ports[p]).options)
}

/// What does not change keeps what holds of it.
proof fn lemma_untouched(a: Seq<OptionView>, b: Seq<OptionView>, ids: Seq<usize>)
    requires
        a.len() == b.len(),
        forall|j: int| 0 <= j < a.len() && #[trigger] graph::listed(ids, j) ==> a[j] == b[j],
        rules_kept(b, ids),
    ensures
        rules_kept(a, ids),
{
    assert forall|i: int, j: int|
        is_one(a, ids, i) && is_one(a, ids, j) && a[i].enabled && #[trigger] implies_it(
            a,
            i,
            j,
        ) implies a[j].enabled by {
        assert(a[i] == b[i] && a[j] == b[j]);
        assert(is_one(b, ids, i) && is_one(b, ids, j) && implies_it(b, i, j));
    }
    assert forall|i: int, j: int|
        is_one(a, ids, i) && is_one(a, ids, j) && a[i].enabled && a[j].enabled
            && #[trigger] prevents_it(a, i, j) implies rules::is_single(a[j].group_type) by {
        assert(a[i] == b[i] && a[j] == b[j]);
        assert(is_one(b, ids, i) && is_one(b, ids, j) && prevents_it(b, i, j));
    }
}

proof fn lemma_choice_on(g: GraphView, targets: Seq<Seq<char>>, n: int, name: Seq<char>, on: bool)
    requires
        graph::shape_ok(g.ports, g.options),
        graph::index_ok(g.ports, g.by_origin),
        all_kept(g.ports, g.options),
    ensures
        rules::same_but_state(choice::choice_on(g, targets, n, name, on), g.options),
        all_kept(g.ports, choice::choice_on(g, targets, n, name, on)),
    decreases n,
{
    if n > 0 {
        lemma_choice_on(g, targets, n - 1, name, on);
        let s = choice::choice_on(g, targets, n - 1, name, on);
        if let Some(i) = graph::index_of(g, targets[n - 1]) {
            let p = i as int;
            let ids = g.ports[p].options;
            let t = rules::chosen(s, ids, name, on);
            assert(graph::port_ok(g.ports, g.options, p));
            assert(graph::in_range(ids, s.len()));
            exclusive::a_choice_stays_on_its_port(s, ids, name, on);
            rules::lemma_state_trans(t, s, g.options);
            a_choice_keeps_the_rules(s, ids, name, on);
            assert forall|q: int| 0 <= q < g.ports.len() implies rules_kept(
                t,
                (#[trigger] g.ports[q]).options,
            ) by {
                if q != p {
                    assert forall|j: int|
                        0 <= j < t.len() && #[trigger] graph::listed(
                            g.ports[q].options,
                            j,
                        ) implies t[j] == s[j] by {
                        exclusive::lemma_disjoint(g, q, p, j);
                    }
                    lemma_untouched(t, s, g.ports[q].options);
                }
            }
        }
    }
}

/// A press keeps what the options of every port declare, on the port it is made
/// on and on every port of its groups: what is set implies nothing that is not,
/// and prevents nothing that is, unless a `SINGLE` keeps it. So no press leads
/// to a combination that the framework would override.
pub proof fn a_press_keeps_the_rules(g: GraphView, row: int)
    requires
        g.wf(),
        all_kept(g.ports, g.options),
    ensures
        all_kept(g.ports, choice::toggled(g, row).options),
{
    if let Some(k) = choice::pressed(g, row) {
        let targets = choice::targets_of(g.groups, g.options[k].port_origin, g.groups.len() as int);
        lemma_choice_on(
            g,
            targets,
            targets.len() as int,
            g.options[k].name,
            !g.options[k].enabled,
        );
    }
}

} // verus!
