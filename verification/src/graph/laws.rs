//! What follows from a choice, and what undoes it.
use super::choice;
use super::exclusive;
use super::fold;
use super::live;
use super::query;
use super::relations;
use super::rows;
use super::rules;
use super::{GraphView, GroupView, NodeId, OptionView, Provenance};
use crate::graph;
use crate::reach;
use vstd::prelude::*;

verus! {

/// An option that nothing on its port has a say in: it is in no exclusive
/// group, and no rule names it or is its own.
pub open spec fn is_plain(opts: Seq<OptionView>, ids: Seq<usize>, k: int) -> bool {
    &&& 0 <= k < opts.len()
    &&& graph::listed(ids, k)
    &&& rules::named(opts, ids, opts[k].name) == Some(k as usize)
    &&& !rules::is_exclusive(opts[k].group_type)
    &&& opts[k].implies.len() == 0
    &&& opts[k].prevents.len() == 0
    &&& forall|j: int|
        0 <= j < opts.len() && #[trigger] graph::listed(ids, j) ==> !opts[j].implies.contains(
            opts[k].name,
        ) && !opts[j].prevents.contains(opts[k].name)
}

/// A plain option stays plain.
proof fn lemma_plain_kept(opts: Seq<OptionView>, ids: Seq<usize>, k: int, on: bool)
    requires
        is_plain(opts, ids, k),
        graph::in_range(ids, opts.len()),
    ensures
        is_plain(rules::set_at(opts, k, on), ids, k),
{
    rules::lemma_named_state(rules::set_at(opts, k, on), opts, ids, opts[k].name, 0);
}

/// Nothing but a plain option itself leads to it.
proof fn lemma_plain_leads(opts: Seq<OptionView>, ids: Seq<usize>, k: int, j: int)
    requires
        is_plain(opts, ids, k),
        rules::leads_to(opts, ids, k, j),
    ensures
        j == k,
{
    let inside = |i: int| i == k;
    assert forall|w: int, y: int|
        inside(w) && #[trigger] rules::implier_edge(opts, ids)(w, y) implies inside(y) by {
        assert(graph::listed(ids, y));
    }
    reach::lemma_closed_holds(reach::only(k), rules::implier_edge(opts, ids), inside, j);
}

proof fn lemma_plain_off(opts: Seq<OptionView>, ids: Seq<usize>, k: int)
    requires
        is_plain(opts, ids, k),
    ensures
        rules::switched_off(opts, ids, k) == rules::set_at(opts, k, false),
{
    let r = rules::turned_off(opts, ids, k);
    if rules::held(opts, ids, k) {
        let j = choose|j: int|
            0 <= j < opts.len() && #[trigger] rules::leads_to(opts, ids, k, j) && opts[j].enabled
                && rules::is_single(opts[j].group_type);
        lemma_plain_leads(opts, ids, k, j);
    }
    reach::lemma_start_reached(reach::only(k), rules::implier_edge(opts, ids), k);
    assert forall|j: int| 0 <= j < opts.len() implies #[trigger] r[j] == rules::set_at(
        opts,
        k,
        false,
    )[j] by {
        if rules::leads_to(opts, ids, k, j) {
            lemma_plain_leads(opts, ids, k, j);
        }
    }
    assert(r =~= rules::set_at(opts, k, false));
}

proof fn lemma_plain_siblings(opts: Seq<OptionView>, ids: Seq<usize>, k: int, n: int)
    requires
        is_plain(opts, ids, k),
    ensures
        rules::siblings_off(opts, ids, k, n) == rules::set_at(opts, k, true),
    decreases n,
{
    if n > 0 {
        lemma_plain_siblings(opts, ids, k, n - 1);
    }
}

proof fn lemma_plain_unprevented(opts: Seq<OptionView>, ids: Seq<usize>, k: int, n: int)
    requires
        is_plain(opts, ids, k),
        graph::in_range(ids, opts.len()),
        n <= ids.len(),
    ensures
        rules::preventers_off(opts, ids, k, n) == opts,
    decreases n,
{
    if n > 0 {
        lemma_plain_unprevented(opts, ids, k, n - 1);
        assert(graph::listed(ids, ids[n - 1] as int));
    }
}

proof fn lemma_plain_on(opts: Seq<OptionView>, ids: Seq<usize>, k: int)
    requires
        is_plain(opts, ids, k),
        graph::in_range(ids, opts.len()),
        opts.len() <= usize::MAX,
    ensures
        rules::chosen(opts, ids, opts[k].name, true) == rules::set_at(opts, k, true),
{
    let s = rules::set_at(opts, k, true);
    lemma_plain_kept(opts, ids, k, true);
    lemma_plain_siblings(opts, ids, k, ids.len() as int);
    lemma_plain_unprevented(s, ids, k, ids.len() as int);
    assert(rules::turned_on(opts, ids, k) == s);
    let work = seq![k as usize];
    let names = s[k].implies;
    assert(rules::grown(s, ids, work, names, names.len() as int) == work);
    assert(rules::worked(s, ids, work, 1) == work);
    assert(rules::implied_order(s, ids, k as usize) == work);
    assert(rules::declared_upto(s, ids, work, 0) == s);
    assert(rules::implied_on(s, ids, s[k].implies, 0) == s);
    assert(rules::prevented_off(s, ids, s[k].prevents, 0) == s);
    assert(rules::declared(s, ids, k) == s);
    assert(rules::declared_upto(s, ids, work, 1) == s);
    assert(rules::with_on(opts, ids, k as usize) == s);
    assert forall|m: int, n: int|
        0 <= m < ids.len() && 0 <= n < ids.len() && #[trigger] rules::breaks(
            s,
            ids[m] as int,
            ids[n] as int,
        ) implies rules::breaks(opts, ids[m] as int, ids[n] as int) by {
        assert(graph::listed(ids, ids[m] as int));
        assert(graph::listed(ids, ids[n] as int));
    }
    assert(rules::can_be_on(opts, ids, k as usize));
}

/// A choice about a plain option sets that option, and nothing else.
pub proof fn a_plain_option_moves_alone(opts: Seq<OptionView>, ids: Seq<usize>, k: int, on: bool)
    requires
        is_plain(opts, ids, k),
        graph::in_range(ids, opts.len()),
        opts.len() <= usize::MAX,
    ensures
        rules::chosen(opts, ids, opts[k].name, on) == rules::set_at(opts, k, on),
{
    if on {
        lemma_plain_on(opts, ids, k);
    } else {
        lemma_plain_off(opts, ids, k);
    }
}

/// Setting a plain option and setting it back leaves every option as it was.
pub proof fn a_plain_choice_can_be_undone(opts: Seq<OptionView>, ids: Seq<usize>, k: int)
    requires
        is_plain(opts, ids, k),
        graph::in_range(ids, opts.len()),
        opts.len() <= usize::MAX,
    ensures
        rules::chosen(
            rules::chosen(opts, ids, opts[k].name, !opts[k].enabled),
            ids,
            opts[k].name,
            opts[k].enabled,
        ) == opts,
{
    let once = rules::set_at(opts, k, !opts[k].enabled);
    a_plain_option_moves_alone(opts, ids, k, !opts[k].enabled);
    lemma_plain_kept(opts, ids, k, !opts[k].enabled);
    a_plain_option_moves_alone(once, ids, k, opts[k].enabled);
    assert(rules::set_at(once, k, opts[k].enabled) =~= opts);
}

/// A refused choice changes nothing. Turning off is refused where the option
/// stays set. Turning on is refused where what follows would set something
/// against a declaration: whatever a choice changes, nothing is set against a
/// declaration that was not before.
pub proof fn a_refused_choice_changes_nothing(
    opts: Seq<OptionView>,
    ids: Seq<usize>,
    name: Seq<char>,
    on: bool,
)
    requires
        graph::in_range(ids, opts.len()),
    ensures
        !on ==> (rules::named(opts, ids, name) matches Some(k) ==> rules::chosen(
            opts,
            ids,
            name,
            on,
        )[k as int].enabled ==> rules::chosen(opts, ids, name, on) == opts),
        on ==> (rules::named(opts, ids, name) matches Some(k) ==> !rules::no_worse(
            rules::with_on(opts, ids, k),
            opts,
            ids,
        ) ==> rules::chosen(opts, ids, name, on) == opts),
        rules::chosen(opts, ids, name, on) != opts ==> rules::no_worse(
            rules::chosen(opts, ids, name, on),
            opts,
            ids,
        ),
{
    rules::lemma_named(opts, ids, name, 0);
    if let Some(k) = rules::named(opts, ids, name) {
        reach::lemma_start_reached(
            reach::only(k as int),
            rules::implier_edge(opts, ids),
            k as int,
        );
        relations::lemma_off_no_worse(opts, ids, k as int);
    }
}

/// An option is turned off unless something that leads to it, or itself, is the
/// set member of a `SINGLE`.
pub proof fn only_a_single_keeps_an_option(opts: Seq<OptionView>, ids: Seq<usize>, name: Seq<char>)
    requires
        graph::in_range(ids, opts.len()),
    ensures
        rules::named(opts, ids, name) matches Some(k) ==> (rules::chosen(
            opts,
            ids,
            name,
            false,
        )[k as int].enabled <==> opts[k as int].enabled && rules::held(opts, ids, k as int)),
{
    rules::lemma_named(opts, ids, name, 0);
    if let Some(k) = rules::named(opts, ids, name) {
        reach::lemma_start_reached(
            reach::only(k as int),
            rules::implier_edge(opts, ids),
            k as int,
        );
    }
}

/// Turning off the set member of a `RADIO` that nothing else implies leaves the
/// `RADIO` without any.
pub proof fn a_radio_can_be_cleared(opts: Seq<OptionView>, ids: Seq<usize>, k: int)
    requires
        graph::in_range(ids, opts.len()),
        0 <= k < opts.len(),
        graph::listed(ids, k),
        rules::named(opts, ids, opts[k].name) == Some(k as usize),
        k <= usize::MAX,
        rules::is_radio(opts[k].group_type),
        opts[k].enabled,
        exclusive::one_at_most(opts, ids),
        forall|j: int|
            0 <= j < opts.len() && j != k && #[trigger] graph::listed(ids, j)
                ==> !opts[j].implies.contains(opts[k].name),
    ensures
        forall|j: int|
            0 <= j < opts.len() && #[trigger] graph::listed(ids, j) && rules::same_group(
                opts[j],
                opts[k],
            ) ==> !rules::chosen(opts, ids, opts[k].name, false)[j].enabled,
        forall|j: int|
            0 <= j < opts.len() && j != k ==> #[trigger] rules::chosen(
                opts,
                ids,
                opts[k].name,
                false,
            )[j] == opts[j],
{
    rules::lemma_kinds_differ();
    let edge = rules::implier_edge(opts, ids);
    let inside = |i: int| i == k;
    assert forall|w: int, y: int| inside(w) && #[trigger] edge(w, y) implies inside(y) by {
        assert(graph::listed(ids, y));
    }
    assert forall|j: int| #[trigger] rules::leads_to(opts, ids, k, j) implies j == k by {
        reach::lemma_closed_holds(reach::only(k), edge, inside, j);
    }
    reach::lemma_start_reached(reach::only(k), edge, k);
    assert(!rules::held(opts, ids, k));
    let r = rules::chosen(opts, ids, opts[k].name, false);
    assert forall|j: int|
        0 <= j < opts.len() && #[trigger] graph::listed(ids, j) && rules::same_group(
            opts[j],
            opts[k],
        ) implies !r[j].enabled by {
        if j != k {
            assert(!(opts[j].enabled && opts[k].enabled));
        }
    }
}

/// A list of targets keeps what it has and gains every member.
proof fn lemma_with_members(targets: Seq<Seq<char>>, members: Seq<Seq<char>>, n: int)
    requires
        0 <= n <= members.len(),
    ensures
        forall|t: Seq<char>| #[trigger] targets.contains(t) ==> choice::with_members(
            targets,
            members,
            n,
        ).contains(t),
        forall|m: int| 0 <= m < n ==> choice::with_members(targets, members, n).contains(
            #[trigger] members[m],
        ),
    decreases n,
{
    if n > 0 {
        lemma_with_members(targets, members, n - 1);
        let t = choice::with_members(targets, members, n - 1);
        let r = choice::with_members(targets, members, n);
        assert forall|x: Seq<char>| #[trigger] t.contains(x) implies r.contains(x) by {
            let i = choose|i: int| 0 <= i < t.len() && t[i] == x;
            assert(r[i] == x);
        }
        if !t.contains(members[n - 1]) {
            assert(r[r.len() - 1] == members[n - 1]);
        }
        assert forall|m: int| 0 <= m < n implies r.contains(#[trigger] members[m]) by {
            if m < n - 1 {
                assert(t.contains(members[m]));
            }
        }
        assert forall|x: Seq<char>| #[trigger] targets.contains(x) implies r.contains(x) by {
            assert(t.contains(x));
        }
    }
}

/// The ports that a choice on one port is made for are the port itself and
/// every member of every group it is in.
pub proof fn a_choice_reaches_the_whole_group(
    groups: Seq<GroupView>,
    origin: Seq<char>,
    n: int,
    k: int,
    m: int,
)
    requires
        0 <= k < n <= groups.len(),
        groups[k].members.contains(origin),
        0 <= m < groups[k].members.len(),
    ensures
        choice::targets_of(groups, origin, n).contains(origin),
        choice::targets_of(groups, origin, n).contains(groups[k].members[m]),
    decreases n,
{
    let t = choice::targets_of(groups, origin, n - 1);
    let members = groups[n - 1].members;
    lemma_origin_kept(groups, origin, n);
    lemma_with_members(t, members, members.len() as int);
    if k < n - 1 {
        a_choice_reaches_the_whole_group(groups, origin, n - 1, k, m);
    }
}

proof fn lemma_origin_kept(groups: Seq<GroupView>, origin: Seq<char>, n: int)
    requires
        0 <= n <= groups.len(),
    ensures
        choice::targets_of(groups, origin, n).contains(origin),
    decreases n,
{
    if n > 0 {
        lemma_origin_kept(groups, origin, n - 1);
        let t = choice::targets_of(groups, origin, n - 1);
        let members = groups[n - 1].members;
        lemma_with_members(t, members, members.len() as int);
    } else {
        assert(choice::targets_of(groups, origin, n)[0] == origin);
    }
}

/// A port in no group is decided about alone.
pub proof fn a_lone_port_moves_alone(groups: Seq<GroupView>, origin: Seq<char>, n: int)
    requires
        0 <= n <= groups.len(),
        forall|k: int|
            0 <= k < groups.len() ==> !(#[trigger] groups[k]).members.contains(origin),
    ensures
        choice::targets_of(groups, origin, n) == seq![origin],
    decreases n,
{
    if n > 0 {
        a_lone_port_moves_alone(groups, origin, n - 1);
    }
}

/// A choice made on some ports leaves the options of every other as they are.
pub proof fn lemma_choice_elsewhere(
    g: GraphView,
    targets: Seq<Seq<char>>,
    n: int,
    name: Seq<char>,
    on: bool,
    p: int,
    j: int,
)
    requires
        graph::shape_ok(g.ports, g.options),
        graph::index_ok(g.ports, g.by_origin),
        0 <= n <= targets.len(),
        0 <= p < g.ports.len(),
        0 <= j < g.options.len(),
        graph::listed(g.ports[p].options, j),
        !targets.contains(g.ports[p].origin),
    ensures
        choice::choice_on(g, targets, n, name, on)[j] == g.options[j],
    decreases n,
{
    if n > 0 {
        lemma_choice_elsewhere(g, targets, n - 1, name, on, p, j);
        choice::lemma_choice_state(g, targets, n - 1, name, on);
        let s = choice::choice_on(g, targets, n - 1, name, on);
        if let Some(i) = graph::index_of(g, targets[n - 1]) {
            assert(g.ports[i as int].origin == targets[n - 1]);
            assert(targets.contains(targets[n - 1]));
            exclusive::lemma_disjoint(g, p, i as int, j);
            assert(graph::port_ok(g.ports, g.options, i as int));
            exclusive::a_choice_stays_on_its_port(s, g.ports[i as int].options, name, on);
        }
    }
}

/// A press leaves alone every option of a port that is neither the one pressed
/// on nor in a group with it.
pub proof fn a_press_leaves_other_ports_alone(g: GraphView, row: int, p: int, j: int)
    requires
        g.wf(),
        0 <= p < g.ports.len(),
        0 <= j < g.options.len(),
        graph::listed(g.ports[p].options, j),
        choice::pressed(g, row) matches Some(k) ==> !choice::targets_of(
            g.groups,
            g.options[k].port_origin,
            g.groups.len() as int,
        ).contains(g.ports[p].origin),
    ensures
        choice::toggled(g, row).options[j] == g.options[j],
{
    if let Some(k) = choice::pressed(g, row) {
        let targets = choice::targets_of(g.groups, g.options[k].port_origin, g.groups.len() as int);
        lemma_choice_elsewhere(
            g,
            targets,
            targets.len() as int,
            g.options[k].name,
            !g.options[k].enabled,
            p,
            j,
        );
    }
}

/// Pressing the set member of a `RADIO` that nothing else of its port implies
/// leaves that `RADIO` without any, whatever groups the port is in.
pub proof fn a_press_clears_a_radio(g: GraphView, row: int, id: usize)
    requires
        g.wf(),
        0 <= row < g.rows.len(),
        g.rows[row].node_id == NodeId::Option(id),
        g.by_origin.contains_key(g.options[id as int].port_origin),
        ({
            let ids = g.ports[g.by_origin[g.options[id as int].port_origin] as int].options;
            let o = g.options[id as int];
            &&& graph::listed(ids, id as int)
            &&& rules::named(g.options, ids, o.name) == Some(id)
            &&& rules::is_radio(o.group_type)
            &&& o.enabled
            &&& exclusive::one_at_most(g.options, ids)
            &&& forall|j: int|
                0 <= j < g.options.len() && j != id && #[trigger] graph::listed(ids, j)
                    ==> !g.options[j].implies.contains(o.name)
        }),
    ensures
        ({
            let ids = g.ports[g.by_origin[g.options[id as int].port_origin] as int].options;
            forall|j: int|
                0 <= j < g.options.len() && #[trigger] graph::listed(ids, j) && rules::same_group(
                    g.options[j],
                    g.options[id as int],
                ) ==> !choice::toggled(g, row).options[j].enabled
        }),
{
    let o = g.options[id as int];
    let p = g.by_origin[o.port_origin] as int;
    let ids = g.ports[p].options;
    let targets = choice::targets_of(g.groups, o.port_origin, g.groups.len() as int);
    let n = targets.len() as int;
    rules::lemma_kinds_differ();
    assert(graph::row_ok(g.rows[row], g.ports.len(), g.options.len()));
    assert(graph::port_ok(g.ports, g.options, p));
    a_radio_can_be_cleared(g.options, ids, id as int);
    lemma_first_target(g.groups, o.port_origin, g.groups.len() as int);
    assert forall|j: int|
        0 <= j < g.options.len() && #[trigger] graph::listed(ids, j) && rules::same_group(
            g.options[j],
            o,
        ) implies !choice::choice_on(g, targets, n, o.name, false)[j].enabled by {
        lemma_choice_settled(g, targets, n, o.name, false, p, j);
    }
}

/// The first target of a choice is the port it is made on, and it is no other.
proof fn lemma_first_target(groups: Seq<GroupView>, origin: Seq<char>, n: int)
    ensures
        choice::targets_of(groups, origin, n).len() > 0,
        choice::targets_of(groups, origin, n)[0] == origin,
        choice::targets_of(groups, origin, n).no_duplicates(),
    decreases n,
{
    choice::lemma_targets_once(groups, origin, n);
    if n > 0 {
        lemma_first_target(groups, origin, n - 1);
        let members = groups[n - 1].members;
        lemma_first_kept(
            choice::targets_of(groups, origin, n - 1),
            members,
            members.len() as int,
        );
    }
}

proof fn lemma_first_kept(targets: Seq<Seq<char>>, members: Seq<Seq<char>>, n: int)
    requires
        targets.len() > 0,
    ensures
        choice::with_members(targets, members, n).len() > 0,
        choice::with_members(targets, members, n)[0] == targets[0],
    decreases n,
{
    if n > 0 {
        lemma_first_kept(targets, members, n - 1);
    }
}

/// What a choice has made of the first target, none of the others changes.
proof fn lemma_choice_settled(
    g: GraphView,
    targets: Seq<Seq<char>>,
    n: int,
    name: Seq<char>,
    on: bool,
    p: int,
    j: int,
)
    requires
        graph::shape_ok(g.ports, g.options),
        graph::index_ok(g.ports, g.by_origin),
        targets.no_duplicates(),
        1 <= n <= targets.len(),
        0 <= p < g.ports.len(),
        0 <= j < g.options.len(),
        graph::listed(g.ports[p].options, j),
        g.ports[p].origin == targets[0],
    ensures
        choice::choice_on(g, targets, n, name, on)[j] == rules::chosen(
            g.options,
            g.ports[p].options,
            name,
            on,
        )[j],
    decreases n,
{
    assert(g.by_origin.contains_key(g.ports[p].origin) && g.by_origin[g.ports[p].origin] == p);
    if n > 1 {
        lemma_choice_settled(g, targets, n - 1, name, on, p, j);
        choice::lemma_choice_state(g, targets, n - 1, name, on);
        let s = choice::choice_on(g, targets, n - 1, name, on);
        if let Some(i) = graph::index_of(g, targets[n - 1]) {
            assert(g.ports[i as int].origin == targets[n - 1]);
            assert(targets[0] != targets[n - 1]);
            exclusive::lemma_disjoint(g, p, i as int, j);
            assert(graph::port_ok(g.ports, g.options, i as int));
            exclusive::a_choice_stays_on_its_port(s, g.ports[i as int].options, name, on);
        }
    } else {
        assert(choice::choice_on(g, targets, 0, name, on) == g.options);
    }
}

/// Whether the row at a place is that of a plain option of a port that is in no
/// group and was asked for by name.
pub open spec fn is_plain_row(g: GraphView, row: int, id: usize) -> bool {
    let o = g.options[id as int];
    &&& 0 <= row < g.rows.len()
    &&& g.rows[row].node_id == NodeId::Option(id)
    &&& g.by_origin.contains_key(o.port_origin)
    &&& is_plain(g.options, g.ports[g.by_origin[o.port_origin] as int].options, id as int)
    &&& g.ports[g.by_origin[o.port_origin] as int].provenance == Provenance::Requested
    &&& forall|k: int|
        0 <= k < g.groups.len() ==> !(#[trigger] g.groups[k]).members.contains(o.port_origin)
}

proof fn lemma_plain_press(g: GraphView, row: int, id: usize)
    requires
        g.wf(),
        is_plain_row(g, row, id),
        g.options.len() <= usize::MAX,
    ensures
        choice::toggled(g, row).options == rules::set_at(
            g.options,
            id as int,
            !g.options[id as int].enabled,
        ),
{
    let o = g.options[id as int];
    let p = g.by_origin[o.port_origin] as int;
    assert(graph::row_ok(g.rows[row], g.ports.len(), g.options.len()));
    assert(graph::port_ok(g.ports, g.options, p));
    a_lone_port_moves_alone(g.groups, o.port_origin, g.groups.len() as int);
    a_plain_option_moves_alone(g.options, g.ports[p].options, id as int, !o.enabled);
    let targets = seq![o.port_origin];
    assert(targets[0] == o.port_origin);
    assert(choice::choice_on(g, targets, 0, o.name, !o.enabled) == g.options);
}

/// Pressing a plain option of a port that was asked for makes a list without
/// changes one with changes. Pressing it again, wherever its row then is, leaves
/// none: every option is set as it was, and the same ports are pulled in.
pub proof fn pressing_again_undoes_the_change(g: GraphView, row: int, again: int, id: usize)
    requires
        g.wf(),
        g.live == live::live_of(g.ports, g.options),
        !query::dirty(g),
        is_plain_row(g, row, id),
        g.ports.len() <= usize::MAX,
        g.options.len() <= usize::MAX,
        0 <= again < choice::toggled(g, row).rows.len(),
        choice::toggled(g, row).rows[again].node_id == NodeId::Option(id),
    ensures
        query::dirty(choice::toggled(g, row)),
        !query::dirty(choice::toggled(choice::toggled(g, row), again)),
        choice::toggled(choice::toggled(g, row), again).options == g.options,
        choice::toggled(choice::toggled(g, row), again).live == g.live,
{
    let h = choice::toggled(g, row);
    let o = g.options[id as int];
    let p = g.by_origin[o.port_origin] as int;
    assert(graph::row_ok(g.rows[row], g.ports.len(), g.options.len()));
    lemma_plain_press(g, row, id);
    reach::lemma_start_reached(live::requested(h.ports), live::pulls(h.ports, h.options), p);
    assert(h.live[p]);
    reach::lemma_start_reached(live::requested(g.ports), live::pulls(g.ports, g.options), p);
    assert(g.live[p]);
    assert(live::live_at(g, o.port_origin));
    assert(!query::is_changed(g.options[id as int]));
    assert(query::is_changed(h.options[id as int]) && live::live_at(
        h,
        h.options[id as int].port_origin,
    ));
    assert(graph::port_ok(g.ports, g.options, p));
    lemma_plain_kept(g.options, g.ports[p].options, id as int, !o.enabled);
    lemma_press_wf(g, row);
    lemma_plain_press(h, again, id);
    let r = choice::toggled(h, again);
    assert(r.options =~= g.options);
    assert(r.ports == g.ports);
    if query::dirty(r) {
        let k = choose|k: int|
            0 <= k < r.options.len() && query::is_changed(#[trigger] r.options[k])
                && live::live_at(r, r.options[k].port_origin);
        assert(query::is_changed(g.options[k]) && live::live_at(g, g.options[k].port_origin));
    }
}

/// What a press leaves is a graph.
proof fn lemma_press_wf(g: GraphView, row: int)
    requires
        g.wf(),
        g.ports.len() <= usize::MAX,
        g.options.len() <= usize::MAX,
    ensures
        choice::toggled(g, row).wf(),
        choice::toggled(g, row).ports == g.ports,
        choice::toggled(g, row).by_origin == g.by_origin,
        choice::toggled(g, row).groups == g.groups,
{
    exclusive::a_press_changes_only_states(g, row);
    let h = choice::toggled(g, row);
    let bare = live::relive(GraphView { options: h.options, ..g });
    choice::lemma_state_alike(h.options, g.options);
    fold::lemma_alike(bare, g);
    rows::lemma_rerowed_wf(bare);
}

/// Options set otherwise on ports that nothing pulls in are no change.
pub proof fn what_is_not_pulled_in_is_no_change(g: GraphView)
    requires
        forall|k: int|
            0 <= k < g.options.len() && query::is_changed(#[trigger] g.options[k])
                ==> !live::live_at(g, g.options[k].port_origin),
    ensures
        !query::dirty(g),
{
}

/// Pressing a plain option of a port in no group, and pressing it again,
/// leaves every option of every port as it was.
pub proof fn pressing_twice_changes_nothing(g: GraphView, id: int)
    requires
        g.wf(),
        0 <= id < g.options.len(),
        g.by_origin.contains_key(g.options[id].port_origin),
        is_plain(
            g.options,
            g.ports[g.by_origin[g.options[id].port_origin] as int].options,
            id,
        ),
        g.options.len() <= usize::MAX,
        forall|k: int|
            0 <= k < g.groups.len() ==> !(#[trigger] g.groups[k]).members.contains(
                g.options[id].port_origin,
            ),
    ensures
        ({
            let o = g.options[id];
            let once = GraphView {
                options: choice::choice_made(g, o.port_origin, o.name, !o.enabled),
                ..g
            };
            choice::choice_made(once, o.port_origin, o.name, o.enabled) == g.options
        }),
{
    let o = g.options[id];
    let p = g.by_origin[o.port_origin] as int;
    let ids = g.ports[p].options;
    let once = GraphView {
        options: choice::choice_made(g, o.port_origin, o.name, !o.enabled),
        ..g
    };
    a_lone_port_moves_alone(g.groups, o.port_origin, g.groups.len() as int);
    assert(graph::port_ok(g.ports, g.options, p));
    a_plain_choice_can_be_undone(g.options, ids, id);
    let targets = seq![o.port_origin];
    assert(targets[0] == o.port_origin);
    assert(choice::choice_on(g, targets, 0, o.name, !o.enabled) == g.options);
    assert(once.options == rules::chosen(g.options, ids, o.name, !o.enabled));
    assert(choice::choice_on(once, targets, 0, o.name, o.enabled) == once.options);
    assert(graph::index_of(once, o.port_origin) == graph::index_of(g, o.port_origin));
}

/// Only a choice that would set something against a declaration is refused: any
/// other is let through, with all that follows from it.
pub proof fn nothing_else_is_refused(
    opts: Seq<OptionView>,
    ids: Seq<usize>,
    name: Seq<char>,
    k: usize,
)
    requires
        rules::named(opts, ids, name) == Some(k),
        forall|m: int, n: int|
            0 <= m < ids.len() && 0 <= n < ids.len() && #[trigger] rules::breaks(
                rules::with_on(opts, ids, k),
                ids[m] as int,
                ids[n] as int,
            ) ==> rules::breaks(opts, ids[m] as int, ids[n] as int),
    ensures
        rules::chosen(opts, ids, name, true) == rules::with_on(opts, ids, k),
{
}

} // verus!
