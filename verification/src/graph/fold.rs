//! Expanding and collapsing, and finding a row again afterwards.
use super::rows;
use super::{
    DependencyGraph, GraphView, Mode, NodeId, OptionView, PortView, RowAnchor, RowView,
    SectionKind, SectionState,
};
use crate::graph;
use crate::order;
use vstd::prelude::*;

verus! {

/// The place that `Shift + Down` lands on: the next row at the depth of `from`
/// or shallower, or `from` where there is none.
pub open spec fn next_at(depths: Seq<usize>, from: int, i: int) -> int
    decreases depths.len() - i,
{
    if i < 0 || i >= depths.len() {
        from
    } else if depths[i] <= depths[from] {
        i
    } else {
        next_at(depths, from, i + 1)
    }
}

/// The place that `Shift + Up` lands on: the last row before `i` at the depth
/// of `from` or shallower, or `from` where there is none.
pub open spec fn prev_at(depths: Seq<usize>, from: int, i: int) -> int
    decreases i,
{
    if i <= 0 {
        from
    } else if depths[i - 1] <= depths[from] {
        i - 1
    } else {
        prev_at(depths, from, i - 1)
    }
}

/// Row a `Shift + Down` should land on: the next sibling of `from`, or, when
/// `from` is the last child of its parent, the next row shallower than it.
/// Returns `from` unchanged when neither exists.
pub fn next_sibling_index(depths: &[usize], from: usize) -> (r: usize)
    ensures
        r == if from < depths@.len() {
            next_at(depths@, from as int, from + 1)
        } else {
            from as int
        },
{
    if from >= depths.len() {
        return from;
    }
    let depth = depths[from];
    let mut i: usize = from + 1;
    while i < depths.len()
        invariant
            from < i <= depths@.len(),
            depth == depths@[from as int],
            next_at(depths@, from as int, from + 1) == next_at(depths@, from as int, i as int),
        decreases depths@.len() - i,
    {
        if depths[i] <= depth {
            return i;
        }
        i += 1;
    }
    from
}

/// Mirror of [`next_sibling_index`] for `Shift + Up`: the previous sibling, or
/// the parent when `from` is the first child.
pub fn prev_sibling_index(depths: &[usize], from: usize) -> (r: usize)
    ensures
        r == if from < depths@.len() {
            prev_at(depths@, from as int, from as int)
        } else {
            from as int
        },
{
    if from >= depths.len() {
        return from;
    }
    let depth = depths[from];
    let mut i: usize = from;
    while i > 0
        invariant
            i <= from < depths@.len(),
            depth == depths@[from as int],
            prev_at(depths@, from as int, from as int) == prev_at(depths@, from as int, i as int),
        decreases i,
    {
        if depths[i - 1] <= depth {
            return i - 1;
        }
        i -= 1;
    }
    from
}

/// The number that follows in the count of changes.
pub open spec fn next_seq(seq: u64) -> u64 {
    vstd::wrapping::u64_specs::wrapping_add(seq, 1)
}

/// A graph with one change more counted.
pub open spec fn counted(g: GraphView) -> GraphView {
    GraphView { current_seq: next_seq(g.current_seq), ..g }
}

/// A graph with one port replaced.
pub open spec fn with_port(g: GraphView, i: int, p: PortView) -> GraphView {
    GraphView { ports: g.ports.update(i, p), ..g }
}

/// A graph with one option replaced.
pub open spec fn with_option(g: GraphView, k: int, o: OptionView) -> GraphView {
    GraphView { options: g.options.update(k, o), ..g }
}

/// A port opened or closed by itself.
pub open spec fn port_folded(p: PortView, expanded: bool, seq: u64) -> PortView {
    PortView { last_single_seq: seq, is_expanded: expanded, ..p }
}

/// An option opened or closed by itself.
pub open spec fn option_folded(o: OptionView, expanded: bool, seq: u64) -> OptionView {
    OptionView { last_single_seq: seq, is_expanded: expanded, ..o }
}

/// An option opened or closed with the port it belongs to, or by itself with
/// what is beneath it.
pub open spec fn option_subtree(o: OptionView, mode: Mode, seq: u64) -> OptionView {
    OptionView {
        subtree_seq: seq,
        subtree_mode: mode,
        is_expanded: mode == Mode::Expand,
        ..o
    }
}

/// A port opened or closed with its sections.
pub open spec fn port_subtree(p: PortView, mode: Mode, seq: u64) -> PortView {
    let state = SectionState { is_expanded: mode == Mode::Expand, last_single_seq: seq };
    PortView {
        subtree_seq: seq,
        subtree_mode: mode,
        is_expanded: mode == Mode::Expand,
        requires_section: state,
        required_by_section: state,
        ..p
    }
}

/// A section of a port opened or closed.
pub open spec fn section_folded(p: PortView, kind: SectionKind, expanded: bool, seq: u64) -> PortView {
    let state = SectionState { is_expanded: expanded, last_single_seq: seq };
    match kind {
        SectionKind::Requires => PortView { requires_section: state, ..p },
        SectionKind::RequiredBy => PortView { required_by_section: state, ..p },
    }
}

/// The options of a list opened or closed.
pub open spec fn options_subtree(
    options: Seq<OptionView>,
    ids: Seq<usize>,
    mode: Mode,
    seq: u64,
) -> Seq<OptionView> {
    Seq::new(
        options.len(),
        |k: int|
            if graph::listed(ids, k) {
                option_subtree(options[k], mode, seq)
            } else {
                options[k]
            },
    )
}

/// A port opened or closed with all that is beneath it.
pub open spec fn port_tree(g: GraphView, i: int, mode: Mode, seq: u64) -> GraphView {
    GraphView {
        options: options_subtree(g.options, g.ports[i].options, mode, seq),
        ..with_port(g, i, port_subtree(g.ports[i], mode, seq))
    }
}

/// What a row stands for opened or closed with all that is beneath it.
pub open spec fn node_tree(g: GraphView, node: NodeId, mode: Mode, seq: u64) -> GraphView {
    match node {
        NodeId::Port(id) => port_tree(g, id as int, mode, seq),
        NodeId::Option(id) => with_option(
            g,
            id as int,
            option_subtree(g.options[id as int], mode, seq),
        ),
        NodeId::Section { port, kind } => with_port(
            g,
            port as int,
            section_folded(g.ports[port as int], kind, mode == Mode::Expand, seq),
        ),
        _ => g,
    }
}

/// What a row stands for opened or closed by itself.
pub open spec fn node_folded(g: GraphView, node: NodeId, expanded: bool, seq: u64) -> GraphView {
    match node {
        NodeId::Port(id) => with_port(
            g,
            id as int,
            port_folded(g.ports[id as int], expanded, seq),
        ),
        NodeId::Option(id) => with_option(
            g,
            id as int,
            option_folded(g.options[id as int], expanded, seq),
        ),
        NodeId::Section { port, kind } => with_port(
            g,
            port as int,
            section_folded(g.ports[port as int], kind, expanded, seq),
        ),
        _ => g,
    }
}

/// The row at a place opened or closed with all that is beneath it.
pub open spec fn tree_at(g: GraphView, row: int, mode: Mode) -> GraphView {
    rows::rerowed(
        if 0 <= row < g.rows.len() {
            node_tree(counted(g), g.rows[row].node_id, mode, next_seq(g.current_seq))
        } else {
            g
        },
    )
}

/// The row at a place opened or closed by itself.
pub open spec fn node_at(g: GraphView, row: int, expanded: bool) -> GraphView {
    rows::rerowed(
        if 0 <= row < g.rows.len() {
            node_folded(counted(g), g.rows[row].node_id, expanded, next_seq(g.current_seq))
        } else {
            g
        },
    )
}

/// A port with all of it opened or closed.
pub open spec fn port_all(p: PortView, expanded: bool) -> PortView {
    PortView {
        is_expanded: expanded,
        requires_section: SectionState { is_expanded: expanded, ..p.requires_section },
        required_by_section: SectionState { is_expanded: expanded, ..p.required_by_section },
        ..p
    }
}

/// Everything opened or closed.
pub open spec fn all_folded(g: GraphView, mode: Mode) -> GraphView {
    let expanded = mode == Mode::Expand;
    let seq = next_seq(g.current_seq);
    rows::rerowed(
        GraphView {
            ports: Seq::new(g.ports.len(), |i: int| port_all(g.ports[i], expanded)),
            options: Seq::new(
                g.options.len(),
                |k: int| OptionView { is_expanded: expanded, ..g.options[k] },
            ),
            global_mode: mode,
            last_global_seq: seq,
            current_seq: seq,
            ..g
        },
    )
}

/// A port opened, where there is one.
pub open spec fn port_opened(g: GraphView, i: int) -> GraphView {
    let c = counted(g);
    rows::rerowed(
        if 0 <= i < g.ports.len() {
            with_port(c, i, port_folded(g.ports[i], true, next_seq(g.current_seq)))
        } else {
            c
        },
    )
}

/// Ports alike in all by which the graph's parts refer to each other.
pub open spec fn ports_alike(a: Seq<PortView>, b: Seq<PortView>) -> bool {
    &&& a.len() == b.len()
    &&& forall|i: int|
        0 <= i < a.len() ==> (#[trigger] a[i]).id == b[i].id && a[i].origin == b[i].origin
            && a[i].options == b[i].options && a[i].requires_idx == b[i].requires_idx
}

/// Options alike in all by which the graph's parts refer to each other.
pub open spec fn options_alike(a: Seq<OptionView>, b: Seq<OptionView>) -> bool {
    &&& a.len() == b.len()
    &&& forall|k: int|
        0 <= k < a.len() ==> (#[trigger] a[k]).id == b[k].id && a[k].parent_port
            == b[k].parent_port && a[k].port_origin == b[k].port_origin && a[k].dep_idx
            == b[k].dep_idx && a[k].dep_idx_off == b[k].dep_idx_off
}

/// What is alike in all by which its parts refer to each other has its numbers
/// in range as the other has.
pub proof fn lemma_alike(a: GraphView, b: GraphView)
    requires
        ports_alike(a.ports, b.ports),
        options_alike(a.options, b.options),
        a.by_origin == b.by_origin,
        a.order == b.order,
        a.live.len() == b.live.len(),
        rows::drawable(b),
    ensures
        rows::drawable(a),
{
    lemma_alike_shape(a, b);
}

/// What is alike in all by which its parts refer to each other agrees in them
/// as the other does.
pub proof fn lemma_alike_shape(a: GraphView, b: GraphView)
    requires
        ports_alike(a.ports, b.ports),
        options_alike(a.options, b.options),
        a.by_origin == b.by_origin,
        graph::shape_ok(b.ports, b.options),
        graph::index_ok(b.ports, b.by_origin),
    ensures
        graph::shape_ok(a.ports, a.options),
        graph::index_ok(a.ports, a.by_origin),
{
    assert forall|i: int| 0 <= i < a.ports.len() implies #[trigger] graph::port_ok(
        a.ports,
        a.options,
        i,
    ) by {
        assert(graph::port_ok(b.ports, b.options, i));
        assert(a.ports[i].options == b.ports[i].options);
        assert forall|j: int| 0 <= j < a.ports[i].options.len() implies (
        #[trigger] a.ports[i].options[j]) < a.options.len() && a.options[a.ports[i].options[j] as int].parent_port
            == i by {
            let k = a.ports[i].options[j];
            assert(b.ports[i].options[j] == k);
            assert(a.options[k as int].parent_port == b.options[k as int].parent_port);
        }
    }
    assert forall|k: int| 0 <= k < a.options.len() implies #[trigger] graph::option_ok(
        a.ports,
        a.options,
        k,
    ) by {
        assert(graph::option_ok(b.ports, b.options, k));
        assert(a.options[k].id == b.options[k].id);
        let p = a.options[k].parent_port as int;
        assert(a.ports[p].origin == b.ports[p].origin);
    }
    assert(graph::index_ok(a.ports, a.by_origin)) by {
        assert forall|i: int| 0 <= i < a.ports.len() implies a.by_origin.contains_key(
            (#[trigger] a.ports[i]).origin,
        ) && a.by_origin[a.ports[i].origin] == i by {
            assert(b.by_origin.contains_key(b.ports[i].origin));
        }
        assert forall|o: Seq<char>| #[trigger] a.by_origin.contains_key(o) implies a.by_origin[o]
            < a.ports.len() && a.ports[a.by_origin[o] as int].origin == o by {
            assert(b.by_origin.contains_key(o));
            assert(a.ports[a.by_origin[o] as int].origin == b.ports[a.by_origin[o] as int].origin);
        }
    }
}

impl DependencyGraph {
    /// Opens or closes an option with what is beneath it.
    pub fn apply_option_subtree_mode(&mut self, opt_id: usize, mode: Mode, seq: u64)
        ensures
            final(self)@ == if opt_id < old(self)@.options.len() {
                with_option(
                    old(self)@,
                    opt_id as int,
                    option_subtree(old(self)@.options[opt_id as int], mode, seq),
                )
            } else {
                old(self)@
            },
    {
        let ghost g = self@;
        if opt_id < self.option_nodes.len() {
            proof {
                assert(g.options[opt_id as int] == self.option_nodes@[opt_id as int]@);
            }
            self.option_nodes[opt_id].subtree_seq = seq;
            self.option_nodes[opt_id].subtree_mode = mode;
            self.option_nodes[opt_id].is_expanded = mode == Mode::Expand;
            proof {
                assert(self@.options =~= g.options.update(
                    opt_id as int,
                    option_subtree(g.options[opt_id as int], mode, seq),
                ));
            }
        }
    }

    /// Opens or closes a port with all that is beneath it.
    pub fn apply_port_subtree_mode(&mut self, port_id: usize, mode: Mode, seq: u64)
        requires
            graph::shape_ok(old(self)@.ports, old(self)@.options),
        ensures
            final(self)@ == if port_id < old(self)@.ports.len() {
                port_tree(old(self)@, port_id as int, mode, seq)
            } else {
                old(self)@
            },
    {
        let ghost g = self@;
        if port_id >= self.ports.len() {
            return;
        }
        let ghost p = g.ports[port_id as int];
        proof {
            assert(p == self.ports@[port_id as int]@);
            assert(graph::port_ok(g.ports, g.options, port_id as int));
        }
        let expanded = mode == Mode::Expand;
        self.ports[port_id].subtree_seq = seq;
        self.ports[port_id].subtree_mode = mode;
        self.ports[port_id].is_expanded = expanded;
        self.ports[port_id].requires_section = SectionState {
            is_expanded: expanded,
            last_single_seq: seq,
        };
        self.ports[port_id].required_by_section = SectionState {
            is_expanded: expanded,
            last_single_seq: seq,
        };
        let ghost ports = g.ports.update(port_id as int, port_subtree(p, mode, seq));
        proof {
            assert(self@.ports =~= ports);
            assert(g.options =~= options_subtree(g.options, p.options.take(0), mode, seq));
        }
        let n: usize = self.ports[port_id].options.len();
        let mut m: usize = 0;
        while m < n
            invariant
                m <= n,
                n == p.options.len(),
                port_id < g.ports.len(),
                p == g.ports[port_id as int],
                graph::port_ok(g.ports, g.options, port_id as int),
                ports == g.ports.update(port_id as int, port_subtree(p, mode, seq)),
                self@ == (GraphView {
                    ports,
                    options: options_subtree(g.options, p.options.take(m as int), mode, seq),
                    ..g
                }),
            decreases n - m,
        {
            proof {
                assert(self@.ports.len() == self.ports@.len());
                assert(self@.ports[port_id as int] == self.ports@[port_id as int]@);
            }
            let opt_id = self.ports[port_id].options[m];
            let ghost before = self@.options;
            proof {
                assert(p.options[m as int] == opt_id);
            }
            self.apply_option_subtree_mode(opt_id, mode, seq);
            proof {
                let a = p.options.take(m as int);
                let b = p.options.take(m + 1);
                assert forall|k: int| 0 <= k < g.options.len() implies #[trigger] self@.options[k]
                    == options_subtree(g.options, b, mode, seq)[k] by {
                    assert(b[m as int] == opt_id);
                    if graph::listed(a, k) {
                        let q = choose|q: int| 0 <= q < a.len() && #[trigger] a[q] == k;
                        assert(b[q] == k);
                        assert(p.options[q] == k && p.options[m as int] == opt_id);
                    }
                    if graph::listed(b, k) && k != opt_id {
                        let q = choose|q: int| 0 <= q < b.len() && #[trigger] b[q] == k;
                        assert(a[q] == k);
                    }
                }
                assert(self@.options =~= options_subtree(g.options, b, mode, seq));
            }
            m += 1;
        }
        proof {
            assert(p.options.take(n as int) =~= p.options);
        }
    }

    /// Opens or closes a relationship section of a port.
    pub fn set_section(&mut self, port_id: usize, kind: SectionKind, mode: Mode, seq: u64)
        ensures
            final(self)@ == if port_id < old(self)@.ports.len() {
                with_port(
                    old(self)@,
                    port_id as int,
                    section_folded(
                        old(self)@.ports[port_id as int],
                        kind,
                        mode == Mode::Expand,
                        seq,
                    ),
                )
            } else {
                old(self)@
            },
    {
        let ghost g = self@;
        if port_id < self.ports.len() {
            proof {
                assert(g.ports[port_id as int] == self.ports@[port_id as int]@);
            }
            let state = SectionState { is_expanded: mode == Mode::Expand, last_single_seq: seq };
            match kind {
                SectionKind::Requires => {
                    self.ports[port_id].requires_section = state;
                },
                SectionKind::RequiredBy => {
                    self.ports[port_id].required_by_section = state;
                },
            }
            proof {
                assert(self@.ports =~= g.ports.update(
                    port_id as int,
                    section_folded(g.ports[port_id as int], kind, mode == Mode::Expand, seq),
                ));
            }
        }
    }

    /// Opens or closes the row at a place with all that is beneath it.
    pub fn apply_subtree_mode(&mut self, row_index: usize, mode: Mode)
        requires
            old(self)@.wf(),
        ensures
            final(self)@ == tree_at(old(self)@, row_index as int, mode),
            final(self)@.wf(),
    {
        let ghost g = self@;
        if row_index < self.visible_rows.len() {
            let node = self.visible_rows[row_index].node_id;
            proof {
                assert(g.rows[row_index as int] == self.visible_rows@[row_index as int]@);
                assert(graph::row_ok(
                    g.rows[row_index as int],
                    g.ports.len(),
                    g.options.len(),
                ));
            }
            self.current_seq = self.current_seq.wrapping_add(1);
            let seq = self.current_seq;
            match node {
                NodeId::Port(id) => self.apply_port_subtree_mode(id, mode, seq),
                NodeId::Option(id) => self.apply_option_subtree_mode(id, mode, seq),
                NodeId::Section { port, kind } => self.set_section(port, kind, mode, seq),
                _ => {},
            }
        }
        proof {
            lemma_alike(self@, g);
        }
        self.rebuild_visible_rows();
    }

    /// Opens the row at a place with all that is beneath it.
    pub fn expand_subtree(&mut self, row_index: usize)
        requires
            old(self)@.wf(),
        ensures
            final(self)@ == tree_at(old(self)@, row_index as int, Mode::Expand),
            final(self)@.wf(),
    {
        self.apply_subtree_mode(row_index, Mode::Expand);
    }

    /// Closes the row at a place with all that is beneath it.
    pub fn collapse_subtree(&mut self, row_index: usize)
        requires
            old(self)@.wf(),
        ensures
            final(self)@ == tree_at(old(self)@, row_index as int, Mode::Collapse),
            final(self)@.wf(),
    {
        self.apply_subtree_mode(row_index, Mode::Collapse);
    }

    /// Opens or closes a single row, leaving what is beneath it as it was.
    pub fn set_node_expanded(&mut self, row_index: usize, expanded: bool)
        requires
            old(self)@.wf(),
        ensures
            final(self)@ == node_at(old(self)@, row_index as int, expanded),
            final(self)@.wf(),
    {
        let ghost g = self@;
        if row_index < self.visible_rows.len() {
            let node = self.visible_rows[row_index].node_id;
            proof {
                assert(g.rows[row_index as int] == self.visible_rows@[row_index as int]@);
                assert(graph::row_ok(
                    g.rows[row_index as int],
                    g.ports.len(),
                    g.options.len(),
                ));
            }
            self.current_seq = self.current_seq.wrapping_add(1);
            let seq = self.current_seq;
            match node {
                NodeId::Port(id) => {
                    proof {
                        assert(g.ports[id as int] == self.ports@[id as int]@);
                    }
                    self.ports[id].last_single_seq = seq;
                    self.ports[id].is_expanded = expanded;
                    proof {
                        assert(self@.ports =~= g.ports.update(
                            id as int,
                            port_folded(g.ports[id as int], expanded, seq),
                        ));
                    }
                },
                NodeId::Option(id) => {
                    proof {
                        assert(g.options[id as int] == self.option_nodes@[id as int]@);
                    }
                    self.option_nodes[id].last_single_seq = seq;
                    self.option_nodes[id].is_expanded = expanded;
                    proof {
                        assert(self@.options =~= g.options.update(
                            id as int,
                            option_folded(g.options[id as int], expanded, seq),
                        ));
                    }
                },
                NodeId::Section { port, kind } => {
                    let mode = if expanded {
                        Mode::Expand
                    } else {
                        Mode::Collapse
                    };
                    self.set_section(port, kind, mode, seq);
                },
                _ => {},
            }
        }
        proof {
            lemma_alike(self@, g);
        }
        self.rebuild_visible_rows();
    }

    /// Opens a single row.
    pub fn expand_node(&mut self, row_index: usize)
        requires
            old(self)@.wf(),
        ensures
            final(self)@ == node_at(old(self)@, row_index as int, true),
            final(self)@.wf(),
    {
        self.set_node_expanded(row_index, true);
    }

    /// Closes a single row.
    pub fn collapse_node(&mut self, row_index: usize)
        requires
            old(self)@.wf(),
        ensures
            final(self)@ == node_at(old(self)@, row_index as int, false),
            final(self)@.wf(),
    {
        self.set_node_expanded(row_index, false);
    }

    /// Opens or closes everything.
    pub fn set_all(&mut self, mode: Mode)
        requires
            old(self)@.wf(),
        ensures
            final(self)@ == all_folded(old(self)@, mode),
            final(self)@.wf(),
    {
        let ghost g = self@;
        self.current_seq = self.current_seq.wrapping_add(1);
        self.last_global_seq = self.current_seq;
        self.global_mode = mode;
        let expanded = mode == Mode::Expand;
        let ghost h = self@;
        let n: usize = self.ports.len();
        let mut i: usize = 0;
        while i < n
            invariant
                i <= n,
                n == g.ports.len(),
                g.ports == h.ports,
                self.ports@.len() == n,
                self@ == (GraphView { ports: self@.ports, ..h }),
                forall|j: int|
                    0 <= j < i ==> #[trigger] self@.ports[j] == port_all(g.ports[j], expanded),
                forall|j: int| i <= j < n ==> #[trigger] self@.ports[j] == g.ports[j],
            decreases n - i,
        {
            let ghost before = self@.ports;
            proof {
                assert(before[i as int] == self.ports@[i as int]@);
            }
            self.ports[i].is_expanded = expanded;
            self.ports[i].requires_section.is_expanded = expanded;
            self.ports[i].required_by_section.is_expanded = expanded;
            proof {
                assert(self@.ports[i as int] == port_all(g.ports[i as int], expanded));
                assert forall|j: int| 0 <= j < n && j != i implies #[trigger] self@.ports[j]
                    == before[j] by {}
            }
            i += 1;
        }
        let ghost ports = Seq::new(g.ports.len(), |i: int| port_all(g.ports[i], expanded));
        proof {
            assert(self@.ports =~= ports);
        }
        let count: usize = self.option_nodes.len();
        let mut k: usize = 0;
        while k < count
            invariant
                k <= count,
                count == g.options.len(),
                g.options == h.options,
                self.option_nodes@.len() == count,
                self@ == (GraphView { ports, options: self@.options, ..h }),
                forall|j: int|
                    0 <= j < k ==> #[trigger] self@.options[j] == (OptionView {
                        is_expanded: expanded,
                        ..g.options[j]
                    }),
                forall|j: int| k <= j < count ==> #[trigger] self@.options[j] == g.options[j],
            decreases count - k,
        {
            let ghost before = self@.options;
            proof {
                assert(before[k as int] == self.option_nodes@[k as int]@);
            }
            self.option_nodes[k].is_expanded = expanded;
            proof {
                assert(self@.options[k as int] == (OptionView {
                    is_expanded: expanded,
                    ..g.options[k as int]
                }));
                assert forall|j: int| 0 <= j < count && j != k implies #[trigger] self@.options[j]
                    == before[j] by {}
            }
            k += 1;
        }
        proof {
            assert(self@.options =~= Seq::new(
                g.options.len(),
                |k: int| OptionView { is_expanded: expanded, ..g.options[k] },
            ));
            lemma_alike(self@, g);
        }
        self.rebuild_visible_rows();
    }

    /// Opens everything.
    pub fn expand_all(&mut self)
        requires
            old(self)@.wf(),
        ensures
            final(self)@ == all_folded(old(self)@, Mode::Expand),
            final(self)@.wf(),
    {
        self.set_all(Mode::Expand);
    }

    /// Closes everything.
    pub fn collapse_all(&mut self)
        requires
            old(self)@.wf(),
        ensures
            final(self)@ == all_folded(old(self)@, Mode::Collapse),
            final(self)@.wf(),
    {
        self.set_all(Mode::Collapse);
    }

    /// Opens a port, so a jump lands on something readable rather than a bare
    /// closed row.
    pub fn open_port(&mut self, port_id: usize)
        requires
            old(self)@.wf(),
        ensures
            final(self)@ == port_opened(old(self)@, port_id as int),
            final(self)@.wf(),
    {
        let ghost g = self@;
        self.current_seq = self.current_seq.wrapping_add(1);
        let seq = self.current_seq;
        if port_id < self.ports.len() {
            proof {
                assert(g.ports[port_id as int] == self.ports@[port_id as int]@);
            }
            self.ports[port_id].last_single_seq = seq;
            self.ports[port_id].is_expanded = true;
            proof {
                assert(self@.ports =~= g.ports.update(
                    port_id as int,
                    port_folded(g.ports[port_id as int], true, seq),
                ));
            }
        }
        proof {
            lemma_alike(self@, g);
        }
        self.rebuild_visible_rows();
    }

    /// The port whose block the row at `index` belongs to.
    pub fn enclosing_port(&self, index: usize) -> (r: Option<usize>)
        ensures
            r == if index < self@.rows.len() {
                enclosing(self@.rows, index as int)
            } else {
                None
            },
    {
        if index >= self.visible_rows.len() {
            return None;
        }
        let mut i: usize = index;
        loop
            invariant
                i <= index < self.visible_rows@.len(),
                enclosing(self@.rows, index as int) == enclosing(self@.rows, i as int),
            decreases i,
        {
            proof {
                assert(self@.rows[i as int] == self.visible_rows@[i as int]@);
            }
            match self.visible_rows[i].node_id {
                NodeId::Port(id) => {
                    return Some(id);
                },
                _ => {},
            }
            if i == 0 {
                proof {
                    assert(enclosing(self@.rows, -1) is None);
                }
                return None;
            }
            i -= 1;
        }
    }

    /// Names the row at `index` so it can be found again after a rebuild.
    ///
    /// Relationship entries and notes anchor to the port whose block they sit
    /// in.
    pub fn anchor_at(&self, index: usize) -> (r: Option<RowAnchor>)
        ensures
            r == anchor_of(self@, index as int),
    {
        if index >= self.visible_rows.len() {
            return None;
        }
        proof {
            assert(self@.rows[index as int] == self.visible_rows@[index as int]@);
        }
        match self.visible_rows[index].node_id {
            NodeId::Port(id) => Some(RowAnchor::Port(id)),
            NodeId::Option(id) => Some(RowAnchor::Option(id)),
            NodeId::Section { port, kind } => Some(RowAnchor::Section { port, kind }),
            _ => match self.enclosing_port(index) {
                Some(id) => Some(RowAnchor::Port(id)),
                None => None,
            },
        }
    }

    /// The first row that stands for a node.
    fn find_node(&self, want: NodeId) -> (r: Option<usize>)
        ensures
            match r {
                Some(i) => node_from(self@.rows, want, 0) == Some(i as int),
                None => node_from(self@.rows, want, 0) is None,
            },
            r is Some ==> r->0 < self@.rows.len(),
    {
        let mut i: usize = 0;
        while i < self.visible_rows.len()
            invariant
                i <= self.visible_rows@.len(),
                node_from(self@.rows, want, 0) == node_from(self@.rows, want, i as int),
            decreases self.visible_rows@.len() - i,
        {
            proof {
                assert(self@.rows[i as int] == self.visible_rows@[i as int]@);
            }
            if self.visible_rows[i].node_id == want {
                return Some(i);
            }
            i += 1;
        }
        None
    }

    /// Where `anchor` is now, falling outwards to its port when the row it named
    /// is no longer shown.
    pub fn row_of_anchor(&self, anchor: &RowAnchor) -> (r: Option<usize>)
        requires
            anchor_ok(self@, *anchor),
        ensures
            match r {
                Some(i) => row_of(self@, *anchor) == Some(i as int),
                None => row_of(self@, *anchor) is None,
            },
            r is Some ==> r->0 < self@.rows.len(),
    {
        match *anchor {
            RowAnchor::Port(id) => self.find_node(NodeId::Port(id)),
            RowAnchor::Option(id) => {
                proof {
                    assert(self@.options[id as int] == self.option_nodes@[id as int]@);
                }
                match self.find_node(NodeId::Option(id)) {
                    Some(i) => Some(i),
                    None => self.find_node(NodeId::Port(self.option_nodes[id].parent_port)),
                }
            },
            RowAnchor::Section { port, kind } => match self.find_node(
                NodeId::Section { port, kind },
            ) {
                Some(i) => Some(i),
                None => self.find_node(NodeId::Port(port)),
            },
        }
    }
}

/// The port whose block the row at a place belongs to: that of the last port
/// row up to it.
pub open spec fn enclosing(rows: Seq<RowView>, i: int) -> Option<usize>
    decreases i + 1,
{
    if i < 0 || i >= rows.len() {
        None
    } else {
        match rows[i].node_id {
            NodeId::Port(id) => Some(id),
            _ => enclosing(rows, i - 1),
        }
    }
}

/// A name for the row at a place that survives a rebuild.
pub open spec fn anchor_of(g: GraphView, i: int) -> Option<RowAnchor> {
    if i < 0 || i >= g.rows.len() {
        None
    } else {
        match g.rows[i].node_id {
            NodeId::Port(id) => Some(RowAnchor::Port(id)),
            NodeId::Option(id) => Some(RowAnchor::Option(id)),
            NodeId::Section { port, kind } => Some(RowAnchor::Section { port, kind }),
            _ => match enclosing(g.rows, i) {
                Some(id) => Some(RowAnchor::Port(id)),
                None => None,
            },
        }
    }
}

/// The first row from `i` on that stands for a node.
pub open spec fn node_from(rows: Seq<RowView>, want: NodeId, i: int) -> Option<int>
    decreases rows.len() - i,
{
    if i < 0 || i >= rows.len() {
        None
    } else if rows[i].node_id == want {
        Some(i)
    } else {
        node_from(rows, want, i + 1)
    }
}

/// An anchor names an option that there is.
pub open spec fn anchor_ok(g: GraphView, anchor: RowAnchor) -> bool {
    match anchor {
        RowAnchor::Option(id) => id < g.options.len(),
        _ => true,
    }
}

/// Where the row that an anchor names is, or the row of its port where that
/// row is not shown.
pub open spec fn row_of(g: GraphView, anchor: RowAnchor) -> Option<int> {
    match anchor {
        RowAnchor::Port(id) => node_from(g.rows, NodeId::Port(id), 0),
        RowAnchor::Option(id) => match node_from(g.rows, NodeId::Option(id), 0) {
            Some(i) => Some(i),
            None => node_from(g.rows, NodeId::Port(g.options[id as int].parent_port), 0),
        },
        RowAnchor::Section { port, kind } => match node_from(
            g.rows,
            NodeId::Section { port, kind },
            0,
        ) {
            Some(i) => Some(i),
            None => node_from(g.rows, NodeId::Port(port), 0),
        },
    }
}

} // verus!
