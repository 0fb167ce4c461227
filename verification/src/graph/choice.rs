//! The choices a user makes: on the port they are made on, and on every port
//! grouped with it.
use super::fold;
use super::laws;
use super::live;
use super::rows;
use super::rules;
use super::rules::set_choice;
use super::{DependencyGraph, GraphView, GroupView, NodeId, OptionView};
use crate::graph;
use crate::order;
use crate::text;
use crate::text::{holds, same};
use vstd::prelude::*;

verus! {

/// The first `n` members that are not targets yet, behind the targets.
pub open spec fn with_members(
    targets: Seq<Seq<char>>,
    members: Seq<Seq<char>>,
    n: int,
) -> Seq<Seq<char>>
    decreases n,
{
    if n <= 0 {
        targets
    } else {
        let t = with_members(targets, members, n - 1);
        if t.contains(members[n - 1]) {
            t
        } else {
            t.push(members[n - 1])
        }
    }
}

/// The ports that a choice made on `origin` reaches: itself, and the members
/// of the first `n` groups that it belongs to.
pub open spec fn targets_of(groups: Seq<GroupView>, origin: Seq<char>, n: int) -> Seq<Seq<char>>
    decreases n,
{
    if n <= 0 {
        seq![origin]
    } else {
        let t = targets_of(groups, origin, n - 1);
        let members = groups[n - 1].members;
        if members.contains(origin) {
            with_members(t, members, members.len() as int)
        } else {
            t
        }
    }
}

/// A choice applied to those of the first `n` targets that are in the list.
pub open spec fn choice_on(
    g: GraphView,
    targets: Seq<Seq<char>>,
    n: int,
    name: Seq<char>,
    on: bool,
) -> Seq<OptionView>
    decreases n,
{
    if n <= 0 {
        g.options
    } else {
        let s = choice_on(g, targets, n - 1, name, on);
        match graph::index_of(g, targets[n - 1]) {
            Some(i) => rules::chosen(s, g.ports[i as int].options, name, on),
            None => s,
        }
    }
}

/// The options after a choice made on `origin`.
pub open spec fn choice_made(
    g: GraphView,
    origin: Seq<char>,
    name: Seq<char>,
    on: bool,
) -> Seq<OptionView> {
    let targets = targets_of(g.groups, origin, g.groups.len() as int);
    choice_on(g, targets, targets.len() as int, name, on)
}

/// Whether an option of a port is set otherwise in `after` than in `before`.
pub open spec fn moved(before: Seq<OptionView>, after: Seq<OptionView>, ids: Seq<usize>) -> bool {
    exists|m: int|
        0 <= m < ids.len() && before[(#[trigger] ids[m]) as int].enabled
            != after[ids[m] as int].enabled
}

/// Those of the first `n` targets that are in the list and have an option set
/// otherwise in `after`.
pub open spec fn moved_targets(
    g: GraphView,
    after: Seq<OptionView>,
    targets: Seq<Seq<char>>,
    n: int,
) -> Seq<Seq<char>>
    decreases n,
{
    if n <= 0 {
        seq![]
    } else {
        let t = moved_targets(g, after, targets, n - 1);
        match graph::index_of(g, targets[n - 1]) {
            Some(i) => if moved(g.options, after, g.ports[i as int].options) {
                t.push(targets[n - 1])
            } else {
                t
            },
            None => t,
        }
    }
}

/// The ports in the list whose options a choice made on `origin` changes.
pub open spec fn touched_by(g: GraphView, origin: Seq<char>, name: Seq<char>, on: bool) -> Seq<
    Seq<char>,
> {
    let targets = targets_of(g.groups, origin, g.groups.len() as int);
    moved_targets(g, choice_made(g, origin, name, on), targets, targets.len() as int)
}

/// Whether an option of the port of this origin is set otherwise in `after` than
/// in `before`.
pub open spec fn has_changed(
    before: Seq<OptionView>,
    after: Seq<OptionView>,
    origin: Seq<char>,
) -> bool {
    exists|k: int|
        0 <= k < before.len() && (#[trigger] before[k]).port_origin == origin && before[k].enabled
            != after[k].enabled
}

/// A list of targets holds each once.
proof fn lemma_members_once(targets: Seq<Seq<char>>, members: Seq<Seq<char>>, n: int)
    requires
        targets.no_duplicates(),
    ensures
        with_members(targets, members, n).no_duplicates(),
    decreases n,
{
    if n > 0 {
        lemma_members_once(targets, members, n - 1);
    }
}

pub proof fn lemma_targets_once(groups: Seq<GroupView>, origin: Seq<char>, n: int)
    ensures
        targets_of(groups, origin, n).no_duplicates(),
    decreases n,
{
    if n > 0 {
        lemma_targets_once(groups, origin, n - 1);
        let members = groups[n - 1].members;
        lemma_members_once(targets_of(groups, origin, n - 1), members, members.len() as int);
    }
}

proof fn lemma_moved_targets(
    g: GraphView,
    after: Seq<OptionView>,
    targets: Seq<Seq<char>>,
    n: int,
    o: Seq<char>,
)
    requires
        targets.no_duplicates(),
        0 <= n <= targets.len(),
    ensures
        moved_targets(g, after, targets, n).no_duplicates(),
        moved_targets(g, after, targets, n).contains(o) <==> (exists|m: int|
            0 <= m < n && #[trigger] targets[m] == o) && g.by_origin.contains_key(o) && moved(
            g.options,
            after,
            g.ports[g.by_origin[o] as int].options,
        ),
        forall|i: int|
            0 <= i < moved_targets(g, after, targets, n).len() ==> exists|m: int|
                0 <= m < n && #[trigger] targets[m] == #[trigger] moved_targets(
                    g,
                    after,
                    targets,
                    n,
                )[i],
    decreases n,
{
    if n > 0 {
        lemma_moved_targets(g, after, targets, n - 1, o);
        let t = moved_targets(g, after, targets, n - 1);
        let r = moved_targets(g, after, targets, n);
        assert forall|i: int| 0 <= i < t.len() implies #[trigger] t[i] != targets[n - 1] by {
            let m = choose|m: int| 0 <= m < n - 1 && #[trigger] targets[m] == t[i];
            assert(targets[m] != targets[n - 1]);
        }
        if r != t {
            assert(r.drop_last() =~= t);
            order::lemma_contains_last(r, o);
        }
        if exists|m: int| 0 <= m < n && #[trigger] targets[m] == o {
            let m = choose|m: int| 0 <= m < n && #[trigger] targets[m] == o;
            assert(m < n - 1 || m == n - 1);
        }
        if exists|m: int| 0 <= m < n - 1 && #[trigger] targets[m] == o {
            let m = choose|m: int| 0 <= m < n - 1 && #[trigger] targets[m] == o;
            assert(m < n);
        }
        assert(targets[n - 1] == targets[n - 1]);
        assert forall|i: int| 0 <= i < r.len() implies exists|m: int|
            0 <= m < n && #[trigger] targets[m] == #[trigger] r[i] by {
            if i < t.len() {
                let m = choose|m: int| 0 <= m < n - 1 && #[trigger] targets[m] == t[i];
                assert(targets[m] == r[i]);
            } else {
                assert(targets[n - 1] == r[i]);
            }
        }
    }
}

/// The ports that a choice touches are those in the list that have an option it
/// set otherwise, each once.
pub proof fn what_is_touched_has_changed(
    g: GraphView,
    origin: Seq<char>,
    name: Seq<char>,
    on: bool,
    o: Seq<char>,
)
    requires
        graph::shape_ok(g.ports, g.options),
        graph::index_ok(g.ports, g.by_origin),
    ensures
        touched_by(g, origin, name, on).no_duplicates(),
        touched_by(g, origin, name, on).contains(o) <==> g.by_origin.contains_key(o) && has_changed(
            g.options,
            choice_made(g, origin, name, on),
            o,
        ),
{
    let targets = targets_of(g.groups, origin, g.groups.len() as int);
    let n = targets.len() as int;
    let after = choice_made(g, origin, name, on);
    lemma_targets_once(g.groups, origin, g.groups.len() as int);
    lemma_moved_targets(g, after, targets, n, o);
    if g.by_origin.contains_key(o) {
        let p = g.by_origin[o] as int;
        let ids = g.ports[p].options;
        assert(g.ports[p].origin == o);
        assert(graph::port_ok(g.ports, g.options, p));
        if moved(g.options, after, ids) {
            let m = choose|m: int|
                0 <= m < ids.len() && g.options[(#[trigger] ids[m]) as int].enabled
                    != after[ids[m] as int].enabled;
            let k = ids[m] as int;
            assert(graph::option_ok(g.ports, g.options, k));
            assert(g.options[k].port_origin == o);
        }
        if has_changed(g.options, after, o) {
            let k = choose|k: int|
                0 <= k < g.options.len() && (#[trigger] g.options[k]).port_origin == o
                    && g.options[k].enabled != after[k].enabled;
            assert(graph::option_ok(g.ports, g.options, k));
            let q = g.options[k].parent_port as int;
            assert(g.ports[q].origin == o);
            assert(g.by_origin[g.ports[q].origin] == q);
            assert(graph::listed(ids, k));
            let m = choose|m: int| 0 <= m < ids.len() && #[trigger] ids[m] == k;
            assert(g.options[ids[m] as int].enabled != after[ids[m] as int].enabled);
            assert(moved(g.options, after, ids));
            if !targets.contains(o) {
                laws::lemma_choice_elsewhere(g, targets, n, name, on, p, k);
            }
            let w = choose|w: int| 0 <= w < targets.len() && targets[w] == o;
            assert(targets[w] == o);
        }
    }
}

/// The option that pressing the row at a place changes: none where the row is
/// not an option, or is the set member of a group that must keep one.
pub open spec fn pressed(g: GraphView, row: int) -> Option<int> {
    if 0 <= row < g.rows.len() {
        match g.rows[row].node_id {
            NodeId::Option(id) => if rules::is_single(g.options[id as int].group_type)
                && g.options[id as int].enabled {
                None
            } else {
                Some(id as int)
            },
            _ => None,
        }
    } else {
        None
    }
}

/// A graph with its live set and its rows recomputed.
pub open spec fn refreshed(g: GraphView) -> GraphView {
    rows::rerowed(live::relive(g))
}

/// A graph after the row at a place has been pressed.
pub open spec fn toggled(g: GraphView, row: int) -> GraphView {
    refreshed(
        match pressed(g, row) {
            Some(k) => GraphView {
                options: choice_made(
                    g,
                    g.options[k].port_origin,
                    g.options[k].name,
                    !g.options[k].enabled,
                ),
                ..g
            },
            None => g,
        },
    )
}

/// The ports whose options pressing the row at a place changes.
pub open spec fn toggle_touches(g: GraphView, row: int) -> Seq<Seq<char>> {
    match pressed(g, row) {
        Some(k) => touched_by(
            g,
            g.options[k].port_origin,
            g.options[k].name,
            !g.options[k].enabled,
        ),
        None => seq![],
    }
}

/// What nothing but which options are set has changed in is alike.
pub proof fn lemma_state_alike(a: Seq<OptionView>, b: Seq<OptionView>)
    requires
        rules::same_but_state(a, b),
    ensures
        fold::options_alike(a, b),
{
    assert forall|k: int| 0 <= k < a.len() implies (#[trigger] a[k]).id == b[k].id && a[k].parent_port
        == b[k].parent_port && a[k].port_origin == b[k].port_origin && a[k].dep_idx == b[k].dep_idx
        && a[k].dep_idx_off == b[k].dep_idx_off by {
        assert(a[k] == (OptionView { enabled: a[k].enabled, ..b[k] }));
    }
}

/// A choice on targets changes nothing but which options are set.
pub proof fn lemma_choice_state(
    g: GraphView,
    targets: Seq<Seq<char>>,
    n: int,
    name: Seq<char>,
    on: bool,
)
    requires
        graph::shape_ok(g.ports, g.options),
        graph::index_ok(g.ports, g.by_origin),
    ensures
        rules::same_but_state(choice_on(g, targets, n, name, on), g.options),
    decreases n,
{
    if n > 0 {
        lemma_choice_state(g, targets, n - 1, name, on);
        let s = choice_on(g, targets, n - 1, name, on);
        if let Some(i) = graph::index_of(g, targets[n - 1]) {
            assert(graph::port_ok(g.ports, g.options, i as int));
            rules::lemma_chosen_state(s, g.ports[i as int].options, name, on);
            rules::lemma_state_trans(
                rules::chosen(s, g.ports[i as int].options, name, on),
                s,
                g.options,
            );
        }
    }
}

impl DependencyGraph {
    /// Applies a choice to one port, resolved against *that* port's own option
    /// set: its grouping may differ from the port the choice came from.
    pub fn set_choice_on(&mut self, port_id: usize, name: &str, enabled: bool)
        requires
            graph::shape_ok(old(self)@.ports, old(self)@.options),
            port_id < old(self)@.ports.len(),
        ensures
            final(self)@ == (GraphView {
                options: rules::chosen(
                    old(self)@.options,
                    old(self)@.ports[port_id as int].options,
                    name@,
                    enabled,
                ),
                ..old(self)@
            }),
    {
        proof {
            assert(self@.ports[port_id as int] == self.ports@[port_id as int]@);
            assert(graph::port_ok(self@.ports, self@.options, port_id as int));
        }
        set_choice(&mut self.option_nodes, &self.ports[port_id].options, name, enabled);
    }

    /// The ports that a choice made on `origin` reaches.
    fn choice_targets(&self, origin: &str) -> (r: Vec<String>)
        ensures
            text::texts(r@) == targets_of(self@.groups, origin@, self@.groups.len() as int),
    {
        broadcast use text::lemma_texts_push;

        let ghost groups = self@.groups;
        let mut targets: Vec<String> = Vec::new();
        targets.push(origin.to_owned());
        proof {
            assert(text::texts(targets@) =~= seq![origin@]);
        }
        let mut n: usize = 0;
        while n < self.groups.len()
            invariant
                n <= groups.len(),
                groups == self@.groups,
                text::texts(targets@) == targets_of(groups, origin@, n as int),
            decreases groups.len() - n,
        {
            let ghost members = groups[n as int].members;
            proof {
                assert(groups[n as int] == self.groups@[n as int]@);
            }
            if holds(&self.groups[n].members, origin) {
                let ghost t = text::texts(targets@);
                let mut m: usize = 0;
                while m < self.groups[n].members.len()
                    invariant
                        n < groups.len(),
                        groups == self@.groups,
                        members == groups[n as int].members,
                        members == text::texts(self.groups@[n as int].members@),
                        m <= members.len(),
                        text::texts(targets@) == with_members(t, members, m as int),
                    decreases members.len() - m,
                {
                    proof {
                        assert(members[m as int] == self.groups@[n as int].members@[m as int]@);
                    }
                    if !holds(&targets, self.groups[n].members[m].as_str()) {
                        targets.push(self.groups[n].members[m].clone());
                    }
                    m += 1;
                }
            }
            n += 1;
        }
        targets
    }

    /// Records a choice the user made, on the port they made it on and on every
    /// port grouped with it.
    ///
    /// A member that has no option by that name is left alone rather than
    /// guessed at. Returns the ports in the current list whose options this
    /// actually changed, which is what has to be asked about again.
    pub fn apply_choice(&mut self, origin: &str, name: &str, enabled: bool) -> (r: Vec<String>)
        requires
            graph::shape_ok(old(self)@.ports, old(self)@.options),
            graph::index_ok(old(self)@.ports, old(self)@.by_origin),
        ensures
            final(self)@ == (GraphView {
                options: choice_made(old(self)@, origin@, name@, enabled),
                ..old(self)@
            }),
            text::texts(r@) == touched_by(old(self)@, origin@, name@, enabled),
            text::texts(r@).no_duplicates(),
            forall|o: Seq<char>| #[trigger]
                text::texts(r@).contains(o) <==> old(self)@.by_origin.contains_key(o)
                    && has_changed(old(self)@.options, final(self)@.options, o),
    {
        broadcast use text::lemma_texts_push;

        let ghost g = self@;
        let before = self.states();
        let targets = self.choice_targets(origin);
        let ghost tv = text::texts(targets@);
        let mut n: usize = 0;
        while n < targets.len()
            invariant
                n <= targets@.len(),
                tv == text::texts(targets@),
                graph::shape_ok(g.ports, g.options),
                graph::index_ok(g.ports, g.by_origin),
                self@ == (GraphView {
                    options: choice_on(g, tv, n as int, name@, enabled),
                    ..g
                }),
            decreases targets@.len() - n,
        {
            proof {
                assert(tv[n as int] == targets@[n as int]@);
                lemma_choice_state(g, tv, n as int, name@, enabled);
                lemma_state_alike(self@.options, g.options);
                fold::lemma_alike_shape(self@, g);
            }
            if let Some(port_id) = self.port_index(targets[n].as_str()) {
                self.set_choice_on(port_id, name, enabled);
            }
            n += 1;
        }
        let ghost after = self@.options;
        proof {
            lemma_choice_state(g, tv, tv.len() as int, name@, enabled);
        }
        let mut touched: Vec<String> = Vec::new();
        n = 0;
        proof {
            assert(text::texts(touched@) =~= seq![]);
        }
        while n < targets.len()
            invariant
                n <= targets@.len(),
                tv == text::texts(targets@),
                graph::shape_ok(g.ports, g.options),
                graph::index_ok(g.ports, g.by_origin),
                self@ == (GraphView { options: after, ..g }),
                after.len() == g.options.len(),
                before@.len() == g.options.len(),
                forall|k: int| 0 <= k < before@.len() ==> #[trigger] before@[k]
                    == g.options[k].enabled,
                text::texts(touched@) == moved_targets(g, after, tv, n as int),
            decreases targets@.len() - n,
        {
            proof {
                assert(tv[n as int] == targets@[n as int]@);
            }
            if let Some(port_id) = self.port_index(targets[n].as_str()) {
                if self.has_moved(port_id, &before, Ghost(g.options)) {
                    touched.push(targets[n].clone());
                }
            }
            n += 1;
        }
        proof {
            assert forall|o: Seq<char>| #[trigger]
                text::texts(touched@).contains(o) <==> g.by_origin.contains_key(o) && has_changed(
                    g.options,
                    after,
                    o,
                ) by {
                what_is_touched_has_changed(g, origin@, name@, enabled, o);
            }
            what_is_touched_has_changed(g, origin@, name@, enabled, origin@);
        }
        touched
    }

    /// Which options are set.
    fn states(&self) -> (r: Vec<bool>)
        ensures
            r@.len() == self@.options.len(),
            forall|k: int| 0 <= k < r@.len() ==> #[trigger] r@[k] == self@.options[k].enabled,
    {
        let mut r: Vec<bool> = Vec::new();
        let mut k: usize = 0;
        while k < self.option_nodes.len()
            invariant
                k <= self.option_nodes@.len(),
                r@.len() == k,
                forall|j: int| 0 <= j < k ==> #[trigger] r@[j] == self@.options[j].enabled,
            decreases self.option_nodes@.len() - k,
        {
            proof {
                assert(self@.options[k as int] == self.option_nodes@[k as int]@);
            }
            r.push(self.option_nodes[k].enabled);
            k += 1;
        }
        r
    }

    /// Whether an option of a port is set otherwise than it was.
    fn has_moved(&self, port_id: usize, before: &Vec<bool>, Ghost(was): Ghost<
        Seq<OptionView>,
    >) -> (r: bool)
        requires
            port_id < self@.ports.len(),
            before@.len() == was.len(),
            self@.options.len() == was.len(),
            graph::shape_ok(self@.ports, was),
            forall|k: int| 0 <= k < before@.len() ==> #[trigger] before@[k] == was[k].enabled,
        ensures
            r == moved(was, self@.options, self@.ports[port_id as int].options),
    {
        let ghost ids = self@.ports[port_id as int].options;
        let mut m: usize = 0;
        proof {
            assert(self@.ports[port_id as int] == self.ports@[port_id as int]@);
            assert(graph::port_ok(self@.ports, was, port_id as int));
        }
        while m < self.ports[port_id].options.len()
            invariant
                m <= ids.len(),
                port_id < self.ports@.len(),
                ids == self.ports@[port_id as int].options@,
                graph::in_range(ids, was.len()),
                before@.len() == was.len(),
                self@.options.len() == was.len(),
                forall|k: int| 0 <= k < before@.len() ==> #[trigger] before@[k] == was[k].enabled,
                forall|q: int|
                    0 <= q < m ==> was[(#[trigger] ids[q]) as int].enabled
                        == self@.options[ids[q] as int].enabled,
            decreases ids.len() - m,
        {
            let k = self.ports[port_id].options[m];
            proof {
                assert(k == ids[m as int]);
                assert(self@.options.len() == self.option_nodes@.len());
                assert(self@.options[k as int] == self.option_nodes@[k as int]@);
                assert(before@[k as int] == was[k as int].enabled);
            }
            if self.option_nodes[k].enabled != before[k] {
                return true;
            }
            m += 1;
        }
        false
    }

    /// Turns the option under the cursor on or off, reporting every port whose
    /// options that changed: the one under the cursor, and any grouped with it.
    pub fn toggle_option(&mut self, row_index: usize) -> (r: Vec<String>)
        requires
            old(self)@.wf(),
        ensures
            final(self)@ == toggled(old(self)@, row_index as int),
            text::texts(r@) == toggle_touches(old(self)@, row_index as int),
            text::texts(r@).no_duplicates(),
            forall|o: Seq<char>| #[trigger]
                text::texts(r@).contains(o) <==> old(self)@.by_origin.contains_key(o)
                    && has_changed(old(self)@.options, final(self)@.options, o),
            final(self)@.wf(),
    {
        let ghost g = self@;
        let mut touched: Vec<String> = Vec::new();
        proof {
            assert(text::texts(touched@) =~= seq![]);
        }
        if row_index < self.visible_rows.len() {
            proof {
                assert(g.rows[row_index as int] == self.visible_rows@[row_index as int]@);
                assert(graph::row_ok(
                    g.rows[row_index as int],
                    g.ports.len(),
                    g.options.len(),
                ));
            }
            if let NodeId::Option(id) = self.visible_rows[row_index].node_id {
                proof {
                    assert(g.options[id as int] == self.option_nodes@[id as int]@);
                }
                let origin = self.option_nodes[id].port_origin.clone();
                let name = self.option_nodes[id].name.clone();
                let enabled = self.option_nodes[id].enabled;
                if !(same(self.option_nodes[id].group_type.as_str(), "SINGLE") && enabled) {
                    touched = self.apply_choice(origin.as_str(), name.as_str(), !enabled);
                    proof {
                        let targets = targets_of(g.groups, origin@, g.groups.len() as int);
                        lemma_choice_state(g, targets, targets.len() as int, name@, !enabled);
                    }
                }
            }
        }
        proof {
            lemma_state_alike(self@.options, g.options);
            fold::lemma_alike(self@, g);
            fold::lemma_alike(live::relive(self@), g);
        }
        self.recompute_live_set();
        self.rebuild_visible_rows();
        touched
    }
}

} // verus!
