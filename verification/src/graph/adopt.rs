//! A port that joins a group takes on the choices of the members in it.
use super::choice;
use super::exclusive;
use super::fold;
use super::live;
use super::rules;
use super::rules::find_named;
use super::{DependencyGraph, GraphView, GroupView, OptionNode, OptionView};
use crate::graph;
use crate::order;
use crate::text;
use crate::text::same;
use vstd::prelude::*;

verus! {

/// The place of the group of this name from `i` on.
pub open spec fn group_from(groups: Seq<GroupView>, name: Seq<char>, i: int) -> Option<int>
    decreases groups.len() - i,
{
    if i < 0 || i >= groups.len() {
        None
    } else if groups[i].name == name {
        Some(i)
    } else {
        group_from(groups, name, i + 1)
    }
}

/// The members of the group of this name, none where there is no such group.
pub open spec fn members_of(groups: Seq<GroupView>, name: Seq<char>) -> Seq<Seq<char>> {
    match group_from(groups, name, 0) {
        Some(i) => groups[i].members,
        None => seq![],
    }
}

/// The port that a new member takes its choices from: the first of the members
/// from `i` on that is another one and in the list.
pub open spec fn source_from(
    g: GraphView,
    members: Seq<Seq<char>>,
    origin: Seq<char>,
    i: int,
) -> Option<usize>
    decreases members.len() - i,
{
    if i < 0 || i >= members.len() {
        None
    } else if members[i] != origin && g.by_origin.contains_key(members[i]) {
        Some(g.by_origin[members[i]])
    } else {
        source_from(g, members, origin, i + 1)
    }
}

/// The options with those of the port `to` set as the options of the same name
/// of the port `from`.
pub open spec fn copied(opts: Seq<OptionView>, from: Seq<usize>, to: Seq<usize>) -> Seq<OptionView> {
    Seq::new(
        opts.len(),
        |k: int|
            if graph::listed(to, k) && rules::named(opts, from, opts[k].name) is Some {
                OptionView {
                    enabled: opts[rules::named(opts, from, opts[k].name)->0 as int].enabled,
                    ..opts[k]
                }
            } else {
                opts[k]
            },
    )
}

/// Whether option `k` has its state from the port whose options are `from`.
pub open spec fn taken(now: Seq<OptionView>, from: Seq<usize>, k: int) -> bool {
    rules::named(now, from, now[k].name) is Some
}

/// Whether option `j` is set and comes before option `k`, of whose group it is:
/// what was taken from the other port comes before what was not, and of two
/// such the one that was defined first.
pub open spec fn comes_before(now: Seq<OptionView>, from: Seq<usize>, j: int, k: int) -> bool {
    &&& j != k
    &&& now[j].enabled
    &&& rules::same_group(now[j], now[k])
    &&& if taken(now, from, j) == taken(now, from, k) {
        j < k
    } else {
        taken(now, from, j)
    }
}

/// Whether option `k` has to give way to another of the options `ids`, of whose
/// exclusive group it is.
pub open spec fn loses(now: Seq<OptionView>, from: Seq<usize>, ids: Seq<usize>, k: int) -> bool {
    &&& rules::is_exclusive(now[k].group_type)
    &&& exists|j: int|
        0 <= j < now.len() && #[trigger] graph::listed(ids, j) && comes_before(now, from, j, k)
}

/// The options with one member at most of each exclusive group of the port `to`
/// left set.
pub open spec fn trimmed(now: Seq<OptionView>, from: Seq<usize>, to: Seq<usize>) -> Seq<OptionView> {
    Seq::new(
        now.len(),
        |k: int|
            OptionView {
                enabled: now[k].enabled && !(graph::listed(to, k) && loses(now, from, to, k)),
                ..now[k]
            },
    )
}

/// Whether the option at place `m` of a port is the first of its group that was
/// set in `opts`, and the group must keep one and has none in `now`.
pub open spec fn restored_at(
    opts: Seq<OptionView>,
    now: Seq<OptionView>,
    ids: Seq<usize>,
    m: int,
) -> bool {
    let o = opts[ids[m] as int];
    &&& rules::is_single(o.group_type)
    &&& o.enabled
    &&& forall|q: int|
        0 <= q < ids.len() && rules::same_group(opts[#[trigger] ids[q] as int], o)
            ==> !now[ids[q] as int].enabled
    &&& forall|q: int|
        0 <= q < m && rules::same_group(opts[#[trigger] ids[q] as int], o)
            ==> !opts[ids[q] as int].enabled
}

/// Whether an option is put back on for being at one of the first `n` places.
pub open spec fn restored(
    opts: Seq<OptionView>,
    now: Seq<OptionView>,
    ids: Seq<usize>,
    n: int,
    k: int,
) -> bool {
    exists|m: int| 0 <= m < n && #[trigger] ids[m] == k && restored_at(opts, now, ids, m)
}

/// The options with those of the first `n` places put back on that are to be.
pub open spec fn repaired(
    opts: Seq<OptionView>,
    now: Seq<OptionView>,
    ids: Seq<usize>,
    n: int,
) -> Seq<OptionView> {
    Seq::new(
        now.len(),
        |k: int|
            if restored(opts, now, ids, n, k) {
                OptionView { enabled: true, ..now[k] }
            } else {
                now[k]
            },
    )
}

/// The options after a port has taken on another's choices: those of the same
/// name are set alike, of each exclusive group one member at most stays set, and
/// a group that must keep one and would have none keeps the one it had.
pub open spec fn adopted(opts: Seq<OptionView>, from: Seq<usize>, to: Seq<usize>) -> Seq<
    OptionView,
> {
    repaired(opts, trimmed(copied(opts, from, to), from, to), to, to.len() as int)
}

/// How many of the first `n` options of a list are set otherwise in `b` than in
/// `a`.
pub open spec fn changed_count(
    a: Seq<OptionView>,
    b: Seq<OptionView>,
    ids: Seq<usize>,
    n: int,
) -> nat
    decreases n,
{
    if n <= 0 {
        0
    } else {
        changed_count(a, b, ids, n - 1) + if a[ids[n - 1] as int].enabled != b[ids[n
            - 1] as int].enabled {
            1nat
        } else {
            0nat
        }
    }
}

/// The ports that take part when `origin` joins a group: the one it copies and
/// itself, where both are in the list.
pub open spec fn adopt_pair(g: GraphView, group: Seq<char>, origin: Seq<char>) -> Option<
    (usize, usize),
> {
    match graph::index_of(g, origin) {
        None => None,
        Some(to) => match source_from(g, members_of(g.groups, group), origin, 0) {
            None => None,
            Some(from) => Some((from, to)),
        },
    }
}

/// A graph after `origin` has taken on the choices of a group.
pub open spec fn joined(g: GraphView, group: Seq<char>, origin: Seq<char>) -> GraphView {
    match adopt_pair(g, group, origin) {
        None => g,
        Some((from, to)) => choice::refreshed(
            GraphView {
                options: adopted(
                    g.options,
                    g.ports[from as int].options,
                    g.ports[to as int].options,
                ),
                ..g
            },
        ),
    }
}

/// How many options `origin` sets otherwise when it takes on the choices of a
/// group.
pub open spec fn joined_count(g: GraphView, group: Seq<char>, origin: Seq<char>) -> nat {
    match adopt_pair(g, group, origin) {
        None => 0,
        Some((from, to)) => {
            let ids = g.ports[to as int].options;
            changed_count(
                g.options,
                adopted(g.options, g.ports[from as int].options, ids),
                ids,
                ids.len() as int,
            )
        },
    }
}

/// Taking on choices changes nothing but which options are set.
pub proof fn lemma_adopted_state(opts: Seq<OptionView>, from: Seq<usize>, to: Seq<usize>)
    ensures
        rules::same_but_state(adopted(opts, from, to), opts),
{
}

/// What is left of a group once it is trimmed and repaired.
proof fn lemma_one_left(
    opts: Seq<OptionView>,
    from: Seq<usize>,
    to: Seq<usize>,
    i: int,
    j: int,
)
    requires
        graph::in_range(to, opts.len()),
        0 <= i < opts.len(),
        0 <= j < opts.len(),
        i != j,
        graph::listed(to, i),
        graph::listed(to, j),
        rules::is_exclusive(opts[i].group_type),
        rules::same_group(opts[i], opts[j]),
    ensures
        !(adopted(opts, from, to)[i].enabled && adopted(opts, from, to)[j].enabled),
{
    let now = copied(opts, from, to);
    let t = trimmed(now, from, to);
    let r = adopted(opts, from, to);
    let n = to.len() as int;
    let p = choose|p: int| 0 <= p < to.len() && #[trigger] to[p] == i;
    let q = choose|q: int| 0 <= q < to.len() && #[trigger] to[q] == j;
    assert(now[i].group_type == opts[i].group_type && now[j].group_type == opts[j].group_type);
    assert(now[i].group_name == opts[i].group_name && now[j].group_name == opts[j].group_name);
    assert(!(t[i].enabled && t[j].enabled)) by {
        if now[i].enabled && now[j].enabled {
            if comes_before(now, from, i, j) {
                assert(loses(now, from, to, j));
            } else {
                assert(comes_before(now, from, j, i));
                assert(loses(now, from, to, i));
            }
        }
    }
    if restored(opts, t, to, n, i) {
        let m = choose|m: int| 0 <= m < n && #[trigger] to[m] == i && restored_at(opts, t, to, m);
        assert(!t[to[q] as int].enabled);
        if restored(opts, t, to, n, j) {
            let w = choose|w: int|
                0 <= w < n && #[trigger] to[w] == j && restored_at(opts, t, to, w);
            if m < w {
                assert(!opts[to[m] as int].enabled);
            } else {
                assert(!opts[to[w] as int].enabled);
            }
        }
    } else if restored(opts, t, to, n, j) {
        let w = choose|w: int| 0 <= w < n && #[trigger] to[w] == j && restored_at(opts, t, to, w);
        assert(!t[to[p] as int].enabled);
    }
}

/// A `SINGLE` that had a member set has one.
proof fn lemma_one_kept(opts: Seq<OptionView>, from: Seq<usize>, to: Seq<usize>, i: int, j: int)
    requires
        graph::in_range(to, opts.len()),
        0 <= i < opts.len(),
        0 <= j < opts.len(),
        graph::listed(to, j),
        rules::is_single(opts[i].group_type),
        rules::same_group(opts[i], opts[j]),
        opts[j].enabled,
    ensures
        exclusive::has_set(adopted(opts, from, to), to, i),
{
    let t = trimmed(copied(opts, from, to), from, to);
    let r = adopted(opts, from, to);
    let q = choose|q: int| 0 <= q < to.len() && #[trigger] to[q] == j;
    let f = lemma_first_enabled(opts, to, opts[i], q);
    assert(graph::listed(to, to[f] as int));
    if restored_at(opts, t, to, f) {
        assert(restored(opts, t, to, to.len() as int, to[f] as int));
        assert(r[to[f] as int].enabled);
        assert(rules::same_group(r[i], r[to[f] as int]));
    } else {
        let w = choose|w: int|
            0 <= w < to.len() && rules::same_group(
                opts[#[trigger] to[w] as int],
                opts[to[f] as int],
            ) && t[to[w] as int].enabled;
        assert(graph::listed(to, to[w] as int));
        assert(r[to[w] as int].enabled);
        assert(rules::same_group(r[i], r[to[w] as int]));
    }
}

/// A port that takes on another's choices has at most one member of each
/// exclusive group set, and one of each `SINGLE` that had one.
pub proof fn joining_keeps_exclusive_groups(
    opts: Seq<OptionView>,
    from: Seq<usize>,
    to: Seq<usize>,
)
    requires
        graph::in_range(to, opts.len()),
    ensures
        exclusive::one_at_most(adopted(opts, from, to), to),
        exclusive::one_at_least(opts, to) ==> exclusive::one_at_least(adopted(opts, from, to), to),
{
    let r = adopted(opts, from, to);
    lemma_adopted_state(opts, from, to);
    assert forall|i: int, j: int|
        0 <= i < r.len() && 0 <= j < r.len() && i != j && #[trigger] graph::listed(to, i)
            && #[trigger] graph::listed(to, j) && rules::is_exclusive(r[i].group_type)
            && rules::same_group(r[i], r[j]) implies !(r[i].enabled && r[j].enabled) by {
        assert(r[i] == (OptionView { enabled: r[i].enabled, ..opts[i] }));
        assert(r[j] == (OptionView { enabled: r[j].enabled, ..opts[j] }));
        lemma_one_left(opts, from, to, i, j);
    }
    if exclusive::one_at_least(opts, to) {
        assert forall|i: int|
            0 <= i < r.len() && #[trigger] graph::listed(to, i) && rules::is_single(
                r[i].group_type,
            ) implies exclusive::has_set(r, to, i) by {
            assert(r[i] == (OptionView { enabled: r[i].enabled, ..opts[i] }));
            assert(exclusive::has_set(opts, to, i));
            let j = choose|j: int|
                0 <= j < opts.len() && #[trigger] graph::listed(to, j) && rules::same_group(
                    opts[i],
                    opts[j],
                ) && opts[j].enabled;
            lemma_one_kept(opts, from, to, i, j);
        }
    }
}

/// Whether all options of the group of option `k` among `ids` are off.
fn group_off(nodes: &Vec<OptionNode>, ids: &Vec<usize>, k: usize) -> (r: bool)
    requires
        k < nodes@.len(),
        graph::in_range(ids@, nodes@.len()),
    ensures
        ({
            let now = order::views(nodes@);
            r == forall|q: int|
                0 <= q < ids@.len() && rules::same_group(
                    now[#[trigger] ids@[q] as int],
                    now[k as int],
                ) ==> !now[ids@[q] as int].enabled
        }),
{
    let ghost now = order::views(nodes@);
    let mut q: usize = 0;
    while q < ids.len()
        invariant
            q <= ids@.len(),
            k < nodes@.len(),
            now == order::views(nodes@),
            graph::in_range(ids@, nodes@.len()),
            forall|p: int|
                0 <= p < q && rules::same_group(now[#[trigger] ids@[p] as int], now[k as int])
                    ==> !now[ids@[p] as int].enabled,
        decreases ids@.len() - q,
    {
        let id = ids[q];
        proof {
            assert(now[id as int] == nodes@[id as int]@);
            assert(now[k as int] == nodes@[k as int]@);
            assert(ids@[q as int] == id);
        }
        if nodes[id].enabled && same(nodes[id].group_type.as_str(), nodes[k].group_type.as_str())
            && same(nodes[id].group_name.as_str(), nodes[k].group_name.as_str()) {
            return false;
        }
        q += 1;
    }
    true
}

/// Sets the options of the port `to` as those of the same name of `from`.
fn copy_choices(nodes: &mut Vec<OptionNode>, from: &Vec<usize>, to: &Vec<usize>)
    requires
        graph::in_range(from@, old(nodes)@.len()),
        graph::in_range(to@, old(nodes)@.len()),
        to@.no_duplicates(),
        forall|k: int| graph::listed(from@, k) ==> !#[trigger] graph::listed(to@, k),
    ensures
        order::views(final(nodes)@) == copied(order::views(old(nodes)@), from@, to@),
{
    let ghost opts = order::views(nodes@);
    let mut m: usize = 0;
    proof {
        assert(order::views(nodes@) =~= copied(opts, from@, to@.take(0)));
    }
    while m < to.len()
        invariant
            m <= to@.len(),
            nodes@.len() == opts.len(),
            graph::in_range(from@, opts.len()),
            graph::in_range(to@, opts.len()),
            to@.no_duplicates(),
            forall|k: int| graph::listed(from@, k) ==> !#[trigger] graph::listed(to@, k),
            order::views(nodes@) == copied(opts, from@, to@.take(m as int)),
        decreases to@.len() - m,
    {
        let k = to[m];
        let ghost before = order::views(nodes@);
        proof {
            assert(before[k as int] == nodes@[k as int]@);
            if graph::listed(to@.take(m as int), k as int) {
                let q = choose|q: int|
                    0 <= q < m && #[trigger] to@.take(m as int)[q] == k as int;
                assert(to@[q] == to@[m as int]);
            }
            assert(before[k as int] == opts[k as int]);
            rules::lemma_named_state(before, opts, from@, opts[k as int].name, 0);
            rules::lemma_named(opts, from@, opts[k as int].name, 0);
        }
        let name = nodes[k].name.clone();
        if let Some(s) = find_named(nodes, from, name.as_str()) {
            proof {
                assert(before[s as int] == nodes@[s as int]@);
                if graph::listed(to@.take(m as int), s as int) {
                    let q = choose|q: int|
                        0 <= q < m && #[trigger] to@.take(m as int)[q] == s as int;
                    assert(to@[q] == s as int);
                    assert(graph::listed(to@, s as int));
                }
                assert(before[s as int] == opts[s as int]);
            }
            let state = nodes[s].enabled;
            nodes[k].enabled = state;
        }
        proof {
            let a = to@.take(m as int);
            let b = to@.take(m + 1);
            let now = copied(opts, from@, b);
            assert forall|j: int| 0 <= j < opts.len() implies #[trigger] order::views(nodes@)[j]
                == now[j] by {
                assert(b[m as int] == k);
                assert(before[j] == copied(opts, from@, a)[j]);
                if graph::listed(a, j) {
                    let q = choose|q: int| 0 <= q < a.len() && #[trigger] a[q] == j;
                    assert(b[q] == j);
                }
                if graph::listed(b, j) && j != k {
                    let q = choose|q: int| 0 <= q < b.len() && #[trigger] b[q] == j;
                    assert(a[q] == j);
                }
            }
            assert(order::views(nodes@) =~= now);
        }
        m += 1;
    }
    proof {
        assert(to@.take(to@.len() as int) =~= to@);
    }
}

/// Whether an option has to give way to another of its exclusive group.
fn has_to_go(nodes: &Vec<OptionNode>, from: &Vec<usize>, to: &Vec<usize>, k: usize) -> (r: bool)
    requires
        k < nodes@.len(),
        graph::in_range(from@, nodes@.len()),
        graph::in_range(to@, nodes@.len()),
    ensures
        r == loses(order::views(nodes@), from@, to@, k as int),
{
    let ghost now = order::views(nodes@);
    proof {
        assert(now[k as int] == nodes@[k as int]@);
    }
    if !same(nodes[k].group_type.as_str(), "SINGLE") && !same(
        nodes[k].group_type.as_str(),
        "RADIO",
    ) {
        return false;
    }
    let mine = find_named(nodes, from, nodes[k].name.as_str()).is_some();
    let mut m: usize = 0;
    while m < to.len()
        invariant
            m <= to@.len(),
            k < nodes@.len(),
            now == order::views(nodes@),
            now[k as int] == nodes@[k as int]@,
            graph::in_range(from@, nodes@.len()),
            graph::in_range(to@, nodes@.len()),
            rules::is_exclusive(now[k as int].group_type),
            mine == taken(now, from@, k as int),
            forall|q: int|
                0 <= q < m ==> !comes_before(now, from@, #[trigger] to@[q] as int, k as int),
        decreases to@.len() - m,
    {
        let j = to[m];
        proof {
            assert(now[j as int] == nodes@[j as int]@);
            assert(graph::listed(to@, j as int));
        }
        if j != k && nodes[j].enabled && same(
            nodes[j].group_type.as_str(),
            nodes[k].group_type.as_str(),
        ) && same(nodes[j].group_name.as_str(), nodes[k].group_name.as_str()) {
            let theirs = find_named(nodes, from, nodes[j].name.as_str()).is_some();
            if theirs == mine {
                if j < k {
                    return true;
                }
            } else if theirs {
                return true;
            }
        }
        m += 1;
    }
    proof {
        if loses(now, from@, to@, k as int) {
            let j = choose|j: int|
                0 <= j < now.len() && #[trigger] graph::listed(to@, j) && comes_before(
                    now,
                    from@,
                    j,
                    k as int,
                );
            let q = choose|q: int| 0 <= q < to@.len() && #[trigger] to@[q] == j;
            assert(!comes_before(now, from@, to@[q] as int, k as int));
        }
    }
    false
}

/// Leaves at most one member of each exclusive group of the port `to` set.
fn trim_groups(nodes: &mut Vec<OptionNode>, from: &Vec<usize>, to: &Vec<usize>)
    requires
        graph::in_range(from@, old(nodes)@.len()),
        graph::in_range(to@, old(nodes)@.len()),
    ensures
        order::views(final(nodes)@) == trimmed(order::views(old(nodes)@), from@, to@),
{
    let ghost now = order::views(nodes@);
    let mut goes: Vec<bool> = Vec::new();
    let mut m: usize = 0;
    while m < to.len()
        invariant
            m <= to@.len(),
            goes@.len() == m,
            now == order::views(nodes@),
            graph::in_range(from@, nodes@.len()),
            graph::in_range(to@, nodes@.len()),
            forall|q: int|
                0 <= q < m ==> #[trigger] goes@[q] == loses(now, from@, to@, to@[q] as int),
        decreases to@.len() - m,
    {
        let go = has_to_go(nodes, from, to, to[m]);
        goes.push(go);
        m += 1;
    }
    m = 0;
    while m < to.len()
        invariant
            m <= to@.len(),
            goes@.len() == to@.len(),
            nodes@.len() == now.len(),
            graph::in_range(to@, now.len()),
            forall|q: int|
                0 <= q < to@.len() ==> #[trigger] goes@[q] == loses(
                    now,
                    from@,
                    to@,
                    to@[q] as int,
                ),
            forall|j: int|
                0 <= j < now.len() ==> #[trigger] order::views(nodes@)[j] == (OptionView {
                    enabled: now[j].enabled && !(graph::listed(to@.take(m as int), j) && loses(
                        now,
                        from@,
                        to@,
                        j,
                    )),
                    ..now[j]
                }),
        decreases to@.len() - m,
    {
        let k = to[m];
        let ghost before = order::views(nodes@);
        proof {
            assert(before[k as int] == nodes@[k as int]@);
        }
        if goes[m] {
            nodes[k].enabled = false;
        }
        proof {
            let a = to@.take(m as int);
            let b = to@.take(m + 1);
            assert forall|j: int| 0 <= j < now.len() implies #[trigger] order::views(nodes@)[j]
                == (OptionView {
                enabled: now[j].enabled && !(graph::listed(b, j) && loses(now, from@, to@, j)),
                ..now[j]
            }) by {
                assert(b[m as int] == k);
                assert(before[j] == (OptionView {
                    enabled: now[j].enabled && !(graph::listed(a, j) && loses(
                        now,
                        from@,
                        to@,
                        j,
                    )),
                    ..now[j]
                }));
                if graph::listed(a, j) {
                    let q = choose|q: int| 0 <= q < a.len() && #[trigger] a[q] == j;
                    assert(b[q] == j);
                }
                if graph::listed(b, j) && j != k {
                    let q = choose|q: int| 0 <= q < b.len() && #[trigger] b[q] == j;
                    assert(a[q] == j);
                }
            }
        }
        m += 1;
    }
    proof {
        assert(to@.take(to@.len() as int) =~= to@);
        assert(order::views(nodes@) =~= trimmed(now, from@, to@));
    }
}

/// Puts back on, in each group that must keep one and has none, the member
/// that was set before.
fn repair_groups(
    nodes: &mut Vec<OptionNode>,
    ids: &Vec<usize>,
    was: &Vec<bool>,
    Ghost(opts): Ghost<Seq<OptionView>>,
)
    requires
        graph::in_range(ids@, old(nodes)@.len()),
        ids@.no_duplicates(),
        rules::same_but_state(order::views(old(nodes)@), opts),
        was@.len() == ids@.len(),
        forall|m: int| 0 <= m < ids@.len() ==> #[trigger] was@[m] == opts[ids@[m] as int].enabled,
    ensures
        order::views(final(nodes)@) == repaired(
            opts,
            order::views(old(nodes)@),
            ids@,
            ids@.len() as int,
        ),
{
    let ghost now = order::views(nodes@);
    let mut m: usize = 0;
    proof {
        assert(order::views(nodes@) =~= repaired(opts, now, ids@, 0));
    }
    while m < ids.len()
        invariant
            m <= ids@.len(),
            nodes@.len() == opts.len(),
            graph::in_range(ids@, opts.len()),
            ids@.no_duplicates(),
            rules::same_but_state(now, opts),
            was@.len() == ids@.len(),
            forall|m: int|
                0 <= m < ids@.len() ==> #[trigger] was@[m] == opts[ids@[m] as int].enabled,
            order::views(nodes@) == repaired(opts, now, ids@, m as int),
        decreases ids@.len() - m,
    {
        let k = ids[m];
        let ghost before = order::views(nodes@);
        let ghost o = opts[k as int];
        proof {
            assert(before[k as int] == nodes@[k as int]@);
            assert(now[k as int] == (OptionView { enabled: now[k as int].enabled, ..o }));
            assert(was@[m as int] == o.enabled);
            assert forall|q: int| 0 <= q < ids@.len() implies rules::same_group(
                before[#[trigger] ids@[q] as int],
                before[k as int],
            ) == rules::same_group(opts[ids@[q] as int], o) by {
                assert(now[ids@[q] as int] == (OptionView {
                    enabled: now[ids@[q] as int].enabled,
                    ..opts[ids@[q] as int]
                }));
            }
        }
        let single = same(nodes[k].group_type.as_str(), "SINGLE");
        let off = group_off(nodes, ids, k);
        proof {
            if single && o.enabled {
                lemma_off_means_restored(opts, now, ids@, m as int);
                assert(off == restored_at(opts, now, ids@, m as int));
            }
        }
        if was[m] && single && off {
            nodes[k].enabled = true;
        }
        proof {
            let want = repaired(opts, now, ids@, m + 1);
            assert forall|j: int| 0 <= j < opts.len() implies #[trigger] order::views(nodes@)[j]
                == want[j] by {
                if restored(opts, now, ids@, m as int, j) {
                    let q = choose|q: int|
                        0 <= q < m && #[trigger] ids@[q] == j && restored_at(opts, now, ids@, q);
                    assert(ids@[q] == j);
                }
                if restored(opts, now, ids@, m + 1, j) && j != k {
                    let q = choose|q: int|
                        0 <= q < m + 1 && #[trigger] ids@[q] == j && restored_at(
                            opts,
                            now,
                            ids@,
                            q,
                        );
                    assert(q < m);
                }
                if j == k && restored(opts, now, ids@, m + 1, j) {
                    let q = choose|q: int|
                        0 <= q < m + 1 && #[trigger] ids@[q] == j && restored_at(
                            opts,
                            now,
                            ids@,
                            q,
                        );
                    assert(ids@[q] == ids@[m as int]);
                }
                if j == k {
                    assert(ids@[m as int] == j);
                }
                assert(before[j] == repaired(opts, now, ids@, m as int)[j]);
            }
            assert(order::views(nodes@) =~= want);
        }
        m += 1;
    }
}

/// A group that is off once the places before `m` are done has had no member
/// put back on, and so none set before.
proof fn lemma_off_means_restored(
    opts: Seq<OptionView>,
    now: Seq<OptionView>,
    ids: Seq<usize>,
    m: int,
)
    requires
        0 <= m < ids.len(),
        graph::in_range(ids, opts.len()),
        ids.no_duplicates(),
        rules::same_but_state(now, opts),
        rules::is_single(opts[ids[m] as int].group_type),
        opts[ids[m] as int].enabled,
    ensures
        (forall|q: int|
            0 <= q < ids.len() && rules::same_group(
                opts[#[trigger] ids[q] as int],
                opts[ids[m] as int],
            ) ==> !repaired(opts, now, ids, m)[ids[q] as int].enabled) == restored_at(
            opts,
            now,
            ids,
            m,
        ),
{
    let o = opts[ids[m] as int];
    let cur = repaired(opts, now, ids, m);
    let all_off = forall|q: int|
        0 <= q < ids.len() && rules::same_group(opts[#[trigger] ids[q] as int], o)
            ==> !cur[ids[q] as int].enabled;
    if all_off {
        assert forall|q: int|
            0 <= q < ids.len() && rules::same_group(
                opts[#[trigger] ids[q] as int],
                o,
            ) implies !now[ids[q] as int].enabled by {
            assert(!cur[ids[q] as int].enabled);
        }
        if exists|q: int|
            0 <= q < m && rules::same_group(opts[#[trigger] ids[q] as int], o)
                && opts[ids[q] as int].enabled {
            let q = choose|q: int|
                0 <= q < m && rules::same_group(opts[#[trigger] ids[q] as int], o)
                    && opts[ids[q] as int].enabled;
            let f = lemma_first_enabled(opts, ids, o, q);
            assert(restored_at(opts, now, ids, f));
            assert(restored(opts, now, ids, m, ids[f] as int));
            assert(cur[ids[f] as int].enabled);
            assert(false);
        }
    }
    if restored_at(opts, now, ids, m) {
        assert forall|q: int|
            0 <= q < ids.len() && rules::same_group(
                opts[#[trigger] ids[q] as int],
                o,
            ) implies !cur[ids[q] as int].enabled by {
            if restored(opts, now, ids, m, ids[q] as int) {
                let w = choose|w: int|
                    0 <= w < m && #[trigger] ids[w] == ids[q] && restored_at(opts, now, ids, w);
                assert(rules::same_group(opts[ids[w] as int], o));
                assert(!opts[ids[w] as int].enabled);
            }
        }
    }
}

/// The first option of a group up to a place that is set.
proof fn lemma_first_enabled(
    opts: Seq<OptionView>,
    ids: Seq<usize>,
    o: OptionView,
    q: int,
) -> (f: int)
    requires
        0 <= q < ids.len(),
        rules::same_group(opts[ids[q] as int], o),
        opts[ids[q] as int].enabled,
    ensures
        0 <= f <= q,
        rules::same_group(opts[ids[f] as int], o),
        opts[ids[f] as int].enabled,
        forall|w: int|
            0 <= w < f && rules::same_group(opts[#[trigger] ids[w] as int], o)
                ==> !opts[ids[w] as int].enabled,
    decreases q,
{
    if exists|w: int|
        0 <= w < q && rules::same_group(opts[#[trigger] ids[w] as int], o)
            && opts[ids[w] as int].enabled {
        let w = choose|w: int|
            0 <= w < q && rules::same_group(opts[#[trigger] ids[w] as int], o)
                && opts[ids[w] as int].enabled;
        lemma_first_enabled(opts, ids, o, w)
    } else {
        q
    }
}

impl DependencyGraph {
    /// The place of the group of this name.
    pub fn group_place(&self, name: &str) -> (r: Option<usize>)
        ensures
            match r {
                Some(i) => group_from(self@.groups, name@, 0) == Some(i as int) && i
                    < self.groups@.len(),
                None => group_from(self@.groups, name@, 0) is None,
            },
    {
        let mut i: usize = 0;
        while i < self.groups.len()
            invariant
                i <= self.groups@.len(),
                group_from(self@.groups, name@, 0) == group_from(self@.groups, name@, i as int),
            decreases self.groups@.len() - i,
        {
            proof {
                assert(self@.groups[i as int] == self.groups@[i as int]@);
            }
            if same(self.groups[i].name.as_str(), name) {
                return Some(i);
            }
            i += 1;
        }
        None
    }

    /// The port that `origin` takes its choices from when it joins a group.
    fn adopt_source(&self, group: &str, origin: &str) -> (r: Option<usize>)
        ensures
            r == source_from(self@, members_of(self@.groups, group@), origin@, 0),
    {
        let at = match self.group_place(group) {
            Some(i) => i,
            None => {
                return None;
            },
        };
        let ghost members = self@.groups[at as int].members;
        proof {
            assert(self@.groups[at as int] == self.groups@[at as int]@);
        }
        let mut i: usize = 0;
        while i < self.groups[at].members.len()
            invariant
                at < self.groups@.len(),
                members == self.groups@[at as int]@.members,
                members == members_of(self@.groups, group@),
                i <= members.len(),
                source_from(self@, members, origin@, 0) == source_from(
                    self@,
                    members,
                    origin@,
                    i as int,
                ),
            decreases members.len() - i,
        {
            proof {
                assert(members[i as int] == self.groups@[at as int].members@[i as int]@);
            }
            if !same(self.groups[at].members[i].as_str(), origin) {
                if let Some(p) = self.port_index(self.groups[at].members[i].as_str()) {
                    return Some(p);
                }
            }
            i += 1;
        }
        None
    }

    /// Brings a port that has just joined `group` into line with the members
    /// already in it, reporting how many options it set otherwise.
    ///
    /// The first member of a group has nobody to copy, so this does nothing. A
    /// name the joining port does not define is skipped, and one it defines that
    /// nobody else does is left as it was, unless it has to give way to another
    /// of its exclusive group. A `SINGLE` that the copy would leave empty keeps
    /// the member it had.
    pub fn adopt_group_options(&mut self, group: &str, origin: &str) -> (r: usize)
        requires
            old(self)@.wf(),
        ensures
            final(self)@ == joined(old(self)@, group@, origin@),
            r == joined_count(old(self)@, group@, origin@),
            final(self)@.wf(),
    {
        let ghost g = self@;
        let to = match self.port_index(origin) {
            Some(i) => i,
            None => {
                return 0;
            },
        };
        let from = match self.adopt_source(group, origin) {
            Some(i) => i,
            None => {
                return 0;
            },
        };
        let ghost opts = g.options;
        let ghost from_ids = g.ports[from as int].options;
        let ghost to_ids = g.ports[to as int].options;
        proof {
            lemma_source(g, members_of(g.groups, group@), origin@, 0);
            assert(g.ports[from as int] == self.ports@[from as int]@);
            assert(g.ports[to as int] == self.ports@[to as int]@);
            assert(graph::port_ok(g.ports, opts, from as int));
            assert(graph::port_ok(g.ports, opts, to as int));
            assert forall|k: int| graph::listed(from_ids, k) implies !#[trigger] graph::listed(
                to_ids,
                k,
            ) by {
                let a = choose|a: int| 0 <= a < from_ids.len() && #[trigger] from_ids[a] == k;
                if graph::listed(to_ids, k) {
                    let b = choose|b: int| 0 <= b < to_ids.len() && #[trigger] to_ids[b] == k;
                    assert(opts[from_ids[a] as int].parent_port == from);
                    assert(opts[to_ids[b] as int].parent_port == to);
                }
            }
        }
        let n: usize = self.ports[to].options.len();
        let mut was: Vec<bool> = Vec::new();
        let mut m: usize = 0;
        while m < n
            invariant
                m <= n,
                n == to_ids.len(),
                to < self.ports@.len(),
                *self == *old(self),
                g == self@,
                opts == g.options,
                to_ids == self.ports@[to as int].options@,
                graph::in_range(to_ids, opts.len()),
                was@.len() == m,
                forall|q: int|
                    0 <= q < m ==> #[trigger] was@[q] == opts[to_ids[q] as int].enabled,
            decreases n - m,
        {
            let k = self.ports[to].options[m];
            proof {
                assert(to_ids[m as int] == k);
                assert(opts[k as int] == self.option_nodes@[k as int]@);
            }
            was.push(self.option_nodes[k].enabled);
            m += 1;
        }
        copy_choices(
            &mut self.option_nodes,
            &self.ports[from].options,
            &self.ports[to].options,
        );
        proof {
            assert(self@.options.len() == opts.len());
        }
        trim_groups(
            &mut self.option_nodes,
            &self.ports[from].options,
            &self.ports[to].options,
        );
        proof {
            assert(self@.options.len() == opts.len());
        }
        repair_groups(&mut self.option_nodes, &self.ports[to].options, &was, Ghost(opts));
        let ghost now = adopted(opts, from_ids, to_ids);
        proof {
            assert(self@.options == now);
            lemma_adopted_state(opts, from_ids, to_ids);
        }
        let mut count: usize = 0;
        m = 0;
        while m < n
            invariant
                m <= n,
                count <= m,
                n == to_ids.len(),
                to < self.ports@.len(),
                was@.len() == n,
                self@ == (GraphView { options: now, ..g }),
                to_ids == self.ports@[to as int].options@,
                graph::in_range(to_ids, now.len()),
                forall|q: int|
                    0 <= q < n ==> #[trigger] was@[q] == opts[to_ids[q] as int].enabled,
                count == changed_count(opts, now, to_ids, m as int),
            decreases n - m,
        {
            let k = self.ports[to].options[m];
            proof {
                assert(to_ids[m as int] == k);
                assert(self@.options.len() == self.option_nodes@.len());
                assert(now[k as int] == self.option_nodes@[k as int]@);
                assert(was@[m as int] == opts[k as int].enabled);
            }
            if self.option_nodes[k].enabled != was[m] {
                count += 1;
            }
            m += 1;
        }
        proof {
            choice::lemma_state_alike(self@.options, g.options);
            fold::lemma_alike(self@, g);
            fold::lemma_alike(live::relive(self@), g);
        }
        self.recompute_live_set();
        self.rebuild_visible_rows();
        count
    }

    /// Sets one option directly, without its group's rules and without reaching
    /// any group.
    pub fn set_option_state(&mut self, port_origin: &str, option_name: &str, enabled: bool)
        ensures
            final(self)@ == (GraphView {
                options: set_named(old(self)@.options, port_origin@, option_name@, enabled),
                ..old(self)@
            }),
    {
        let ghost g = self@;
        let n: usize = self.option_nodes.len();
        let mut k: usize = 0;
        while k < n
            invariant
                k <= n,
                n == g.options.len(),
                self.option_nodes@.len() == n,
                self@ == (GraphView { options: self@.options, ..g }),
                forall|j: int|
                    0 <= j < k ==> #[trigger] self@.options[j] == set_named(
                        g.options,
                        port_origin@,
                        option_name@,
                        enabled,
                    )[j],
                forall|j: int| k <= j < n ==> #[trigger] self@.options[j] == g.options[j],
            decreases n - k,
        {
            let ghost before = self@.options;
            proof {
                assert(before[k as int] == self.option_nodes@[k as int]@);
            }
            if same(self.option_nodes[k].port_origin.as_str(), port_origin) && same(
                self.option_nodes[k].name.as_str(),
                option_name,
            ) {
                self.option_nodes[k].enabled = enabled;
            }
            proof {
                assert(self@.options[k as int] == set_named(
                    g.options,
                    port_origin@,
                    option_name@,
                    enabled,
                )[k as int]);
                assert forall|j: int| 0 <= j < n && j != k implies #[trigger] self@.options[j]
                    == before[j] by {}
            }
            k += 1;
        }
        proof {
            assert(self@.options =~= set_named(g.options, port_origin@, option_name@, enabled));
        }
    }
}

/// The options with that of this port and name set.
pub open spec fn set_named(
    options: Seq<OptionView>,
    port_origin: Seq<char>,
    name: Seq<char>,
    on: bool,
) -> Seq<OptionView> {
    Seq::new(
        options.len(),
        |k: int|
            if options[k].port_origin == port_origin && options[k].name == name {
                OptionView { enabled: on, ..options[k] }
            } else {
                options[k]
            },
    )
}

/// What choices are taken from is another port of the list.
proof fn lemma_source(g: GraphView, members: Seq<Seq<char>>, origin: Seq<char>, i: int)
    requires
        graph::index_ok(g.ports, g.by_origin),
    ensures
        match source_from(g, members, origin, i) {
            Some(p) => p < g.ports.len() && g.ports[p as int].origin != origin,
            None => true,
        },
    decreases members.len() - i,
{
    if 0 <= i < members.len() && !(members[i] != origin && g.by_origin.contains_key(members[i])) {
        lemma_source(g, members, origin, i + 1);
    }
}

/// Whether `from` is the place of the port that a new member of a group takes
/// its choices from: of the members that are in the list and another port, the
/// one that the group names first.
pub open spec fn is_model(
    g: GraphView,
    group: GroupView,
    origin: Seq<char>,
    from: int,
) -> bool {
    exists|m: int|
        0 <= m < group.members.len() && is_other(g, origin, #[trigger] group.members[m])
            && g.by_origin[group.members[m]] == from && forall|q: int|
            0 <= q < m ==> !is_other(g, origin, #[trigger] group.members[q])
}

/// Whether a port is in the list and another one.
pub open spec fn is_other(g: GraphView, origin: Seq<char>, member: Seq<char>) -> bool {
    member != origin && g.by_origin.contains_key(member)
}

/// Whether `group` is the group of this name.
pub open spec fn is_group(g: GraphView, name: Seq<char>, group: GroupView) -> bool {
    exists|i: int|
        0 <= i < g.groups.len() && #[trigger] g.groups[i] == group && group.name == name
            && forall|q: int| 0 <= q < i ==> (#[trigger] g.groups[q]).name != name
}

proof fn lemma_group_from(groups: Seq<GroupView>, name: Seq<char>, i: int, at: int)
    requires
        0 <= i <= at < groups.len(),
        groups[at].name == name,
        forall|q: int| 0 <= q < at ==> (#[trigger] groups[q]).name != name,
    ensures
        group_from(groups, name, i) == Some(at),
    decreases groups.len() - i,
{
    if i < at {
        lemma_group_from(groups, name, i + 1, at);
    }
}

proof fn lemma_source_from(
    g: GraphView,
    members: Seq<Seq<char>>,
    origin: Seq<char>,
    i: int,
    at: int,
)
    requires
        0 <= i <= at < members.len(),
        is_other(g, origin, members[at]),
        forall|q: int| 0 <= q < at ==> !is_other(g, origin, #[trigger] members[q]),
    ensures
        source_from(g, members, origin, i) == Some(g.by_origin[members[at]]),
    decreases members.len() - i,
{
    if i < at {
        assert(!is_other(g, origin, members[i]));
        lemma_source_from(g, members, origin, i + 1, at);
    }
}

/// An option in no exclusive group is set as the one it is named like, and where
/// there is none, as it was.
proof fn lemma_plain_adopted(opts: Seq<OptionView>, from: Seq<usize>, to: Seq<usize>, k: int)
    requires
        graph::in_range(to, opts.len()),
        0 <= k < opts.len(),
        !rules::is_exclusive(opts[k].group_type),
    ensures
        adopted(opts, from, to)[k].enabled == copied(opts, from, to)[k].enabled,
{
    let now = copied(opts, from, to);
    let t = trimmed(now, from, to);
    let n = to.len() as int;
    if restored(opts, t, to, n, k) {
        let m = choose|m: int| 0 <= m < n && #[trigger] to[m] == k && restored_at(opts, t, to, m);
        assert(rules::is_single(opts[to[m] as int].group_type));
    }
}

/// A port that joins a group falls into step. Every option in no exclusive group
/// that it shares by name with the port it takes its choices from is set exactly
/// as it is there, on or off; every such option that only it has is as it was;
/// and the options of all other ports are as they were.
pub proof fn joining_brings_into_step(
    g: GraphView,
    name: Seq<char>,
    group: GroupView,
    origin: Seq<char>,
    from: int,
    to: int,
)
    requires
        graph::shape_ok(g.ports, g.options),
        graph::index_ok(g.ports, g.by_origin),
        is_group(g, name, group),
        is_model(g, group, origin, from),
        g.by_origin.contains_key(origin),
        g.by_origin[origin] == to,
    ensures
        ({
            let after = joined(g, name, origin).options;
            let mine = g.ports[to].options;
            let theirs = g.ports[from].options;
            &&& rules::same_but_state(after, g.options)
            &&& forall|k: int|
                0 <= k < g.options.len() && !graph::listed(mine, k) ==> #[trigger] after[k]
                    == g.options[k]
            &&& forall|m: int, n: int|
                0 <= m < mine.len() && 0 <= n < theirs.len() && is_free(
                    g.options[#[trigger] mine[m] as int],
                ) && g.options[#[trigger] theirs[n] as int].name == g.options[mine[m] as int].name
                    && stands_alone(g.options, theirs, n) ==> after[mine[m] as int].enabled
                    == g.options[theirs[n] as int].enabled
            &&& forall|m: int|
                0 <= m < mine.len() && is_free(g.options[#[trigger] mine[m] as int]) && (forall|
                    n: int,
                |
                    0 <= n < theirs.len() ==> g.options[#[trigger] theirs[n] as int].name
                        != g.options[mine[m] as int].name) ==> after[mine[m] as int].enabled
                    == g.options[mine[m] as int].enabled
        }),
{
    let at = choose|i: int|
        0 <= i < g.groups.len() && #[trigger] g.groups[i] == group && group.name == name
            && forall|q: int| 0 <= q < i ==> (#[trigger] g.groups[q]).name != name;
    lemma_group_from(g.groups, name, 0, at);
    let w = choose|m: int|
        0 <= m < group.members.len() && is_other(g, origin, #[trigger] group.members[m])
            && g.by_origin[group.members[m]] == from && forall|q: int|
            0 <= q < m ==> !is_other(g, origin, #[trigger] group.members[q]);
    lemma_source_from(g, group.members, origin, 0, w);
    let opts = g.options;
    let mine = g.ports[to].options;
    let theirs = g.ports[from].options;
    let after = joined(g, name, origin).options;
    assert(g.by_origin.contains_key(group.members[w]));
    assert(graph::port_ok(g.ports, opts, to));
    assert(graph::port_ok(g.ports, opts, from));
    assert(after == adopted(opts, theirs, mine));
    lemma_adopted_state(opts, theirs, mine);
    assert forall|k: int| 0 <= k < opts.len() && !graph::listed(
        mine,
        k,
    ) implies #[trigger] after[k] == opts[k] by {
        assert(copied(opts, theirs, mine)[k] == opts[k]);
        let t = trimmed(copied(opts, theirs, mine), theirs, mine);
        assert(t[k] == opts[k]);
    }
    assert forall|m: int, n: int|
        0 <= m < mine.len() && 0 <= n < theirs.len() && is_free(
            opts[#[trigger] mine[m] as int],
        ) && opts[#[trigger] theirs[n] as int].name == opts[mine[m] as int].name && stands_alone(
            opts,
            theirs,
            n,
        ) implies after[mine[m] as int].enabled == opts[theirs[n] as int].enabled by {
        let k = mine[m] as int;
        assert(graph::listed(mine, k));
        lemma_plain_adopted(opts, theirs, mine, k);
        rules::lemma_named(opts, theirs, opts[k].name, 0);
        if let Some(id) = rules::named(opts, theirs, opts[k].name) {
            let q = choose|q: int| 0 <= q < theirs.len() && #[trigger] theirs[q] == id as int;
            assert(theirs[q] == theirs[n]);
        } else {
            assert(opts[theirs[n] as int].name != opts[k].name);
        }
    }
    assert forall|m: int|
        0 <= m < mine.len() && is_free(opts[#[trigger] mine[m] as int]) && (forall|n: int|
            0 <= n < theirs.len() ==> opts[#[trigger] theirs[n] as int].name != opts[mine[m]
                as int].name) implies after[mine[m] as int].enabled == opts[mine[m] as int].enabled by {
        let k = mine[m] as int;
        lemma_plain_adopted(opts, theirs, mine, k);
        rules::lemma_named(opts, theirs, opts[k].name, 0);
        if let Some(id) = rules::named(opts, theirs, opts[k].name) {
            let q = choose|q: int| 0 <= q < theirs.len() && #[trigger] theirs[q] == id as int;
            assert(opts[theirs[q] as int].name != opts[k].name);
        }
    }
}

/// Whether an option is in no exclusive group.
pub open spec fn is_free(o: OptionView) -> bool {
    o.group_type != "SINGLE"@ && o.group_type != "RADIO"@
}

/// Whether no other option of a list has the name of its `n`th.
pub open spec fn stands_alone(opts: Seq<OptionView>, ids: Seq<usize>, n: int) -> bool {
    forall|q: int|
        0 <= q < ids.len() && opts[#[trigger] ids[q] as int].name == opts[ids[n] as int].name
            ==> ids[q] == ids[n]
}

/// How many options a port that joins a group is said to have set otherwise is
/// how many are.
pub proof fn joining_counts_what_it_changes(
    g: GraphView,
    group: Seq<char>,
    origin: Seq<char>,
    to: int,
)
    requires
        graph::index_ok(g.ports, g.by_origin),
        g.by_origin.contains_key(origin),
        g.by_origin[origin] == to,
    ensures
        joined_count(g, group, origin) == g.ports[to].options.filter(
            |id: usize|
                joined(g, group, origin).options[id as int].enabled != g.options[id as int].enabled,
        ).len(),
{
    let ids = g.ports[to].options;
    let now = joined(g, group, origin).options;
    let f = |id: usize| now[id as int].enabled != g.options[id as int].enabled;
    match adopt_pair(g, group, origin) {
        None => {
            lemma_counted_same(g.options, ids, ids.len() as int, f);
            assert(ids.take(ids.len() as int) =~= ids);
        },
        Some((from, at)) => {
            lemma_counted(g.options, now, ids, ids.len() as int, f);
            assert(ids.take(ids.len() as int) =~= ids);
        },
    }
    assert(f =~= (|id: usize|
        joined(g, group, origin).options[id as int].enabled != g.options[id as int].enabled));
}

proof fn lemma_counted_same(
    a: Seq<OptionView>,
    ids: Seq<usize>,
    n: int,
    f: spec_fn(usize) -> bool,
)
    requires
        0 <= n <= ids.len(),
        forall|id: usize| !#[trigger] f(id),
    ensures
        ids.take(n).filter(f).len() == 0,
    decreases n,
{
    reveal(Seq::filter);
    if n > 0 {
        lemma_counted_same(a, ids, n - 1, f);
        assert(ids.take(n).drop_last() =~= ids.take(n - 1));
        assert(!f(ids.take(n).last()));
    }
}

proof fn lemma_counted(
    a: Seq<OptionView>,
    b: Seq<OptionView>,
    ids: Seq<usize>,
    n: int,
    f: spec_fn(usize) -> bool,
)
    requires
        0 <= n <= ids.len(),
        forall|id: usize| #[trigger] f(id) == (b[id as int].enabled != a[id as int].enabled),
    ensures
        changed_count(a, b, ids, n) == ids.take(n).filter(f).len(),
    decreases n,
{
    reveal(Seq::filter);
    if n > 0 {
        lemma_counted(a, b, ids, n - 1, f);
        assert(ids.take(n).drop_last() =~= ids.take(n - 1));
        assert(f(ids[n - 1]) == (b[ids[n - 1] as int].enabled != a[ids[n - 1] as int].enabled));
    }
}

/// A port that joins a group takes the member of an exclusive group that is set
/// where it takes its choices from, as long as no other member of the group that
/// the two share is set there.
pub proof fn joining_takes_the_member_that_is_set(
    opts: Seq<OptionView>,
    from: Seq<usize>,
    to: Seq<usize>,
    m: int,
    n: int,
)
    requires
        graph::in_range(from, opts.len()),
        graph::in_range(to, opts.len()),
        0 <= m < to.len(),
        0 <= n < from.len(),
        opts[from[n] as int].name == opts[to[m] as int].name,
        stands_alone(opts, from, n),
        opts[from[n] as int].enabled,
        forall|j: int, q: int|
            0 <= j < to.len() && 0 <= q < from.len() && to[j] != to[m] && rules::same_group(
                opts[#[trigger] to[j] as int],
                opts[to[m] as int],
            ) && opts[#[trigger] from[q] as int].name == opts[to[j] as int].name
                ==> !opts[from[q] as int].enabled,
    ensures
        adopted(opts, from, to)[to[m] as int].enabled,
{
    let now = copied(opts, from, to);
    let t = trimmed(now, from, to);
    let k = to[m] as int;
    assert(graph::listed(to, k));
    assert(rules::same_but_state(now, opts));
    rules::lemma_named(opts, from, opts[k].name, 0);
    match rules::named(opts, from, opts[k].name) {
        Some(id) => {
            let q = choose|q: int| 0 <= q < from.len() && #[trigger] from[q] == id as int;
            assert(from[q] == from[n]);
        },
        None => {
            assert(opts[from[n] as int].name != opts[k].name);
        },
    }
    assert(now[k].enabled);
    rules::lemma_named_state(now, opts, from, opts[k].name, 0);
    assert(taken(now, from, k));
    if loses(now, from, to, k) {
        let j = choose|j: int|
            0 <= j < now.len() && #[trigger] graph::listed(to, j) && comes_before(now, from, j, k);
        rules::lemma_named_state(now, opts, from, opts[j].name, 0);
        assert(now[j] == (OptionView { enabled: now[j].enabled, ..opts[j] }));
        assert(now[k] == (OptionView { enabled: now[k].enabled, ..opts[k] }));
        assert(taken(now, from, j));
        rules::lemma_named(opts, from, opts[j].name, 0);
        let id = rules::named(opts, from, opts[j].name)->0;
        let q = choose|q: int| 0 <= q < from.len() && #[trigger] from[q] == id as int;
        let w = choose|w: int| 0 <= w < to.len() && #[trigger] to[w] == j;
        assert(rules::same_group(opts[to[w] as int], opts[to[m] as int]));
        assert(opts[from[q] as int].name == opts[to[w] as int].name);
    }
    assert(t[k].enabled);
}

} // verus!
