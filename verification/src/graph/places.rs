//! Where each port, option and section has its row, and that it is found there
//! again.
use super::fold;
use super::listing;
use super::rows;
use super::{GraphView, Mode, NodeId, RowAnchor, RowView, SectionKind};
use crate::graph;
use vstd::prelude::*;

verus! {

/// Whether a row stands for a port, an option or a section.
pub open spec fn is_node(row: RowView) -> bool {
    match row.node_id {
        NodeId::Port(id) => true,
        NodeId::Option(id) => true,
        NodeId::Section { port, kind } => true,
        _ => false,
    }
}

/// The port among whose rows that of a node is.
pub open spec fn owner(g: GraphView, node: NodeId) -> int {
    match node {
        NodeId::Port(id) => id as int,
        NodeId::Option(id) => g.options[id as int].parent_port as int,
        NodeId::Section { port, kind } => port as int,
        _ => -1,
    }
}

/// Whether a node is among the rows of a port.
pub open spec fn in_block(g: GraphView, id: int, node: NodeId) -> bool {
    let p = g.ports[id];
    &&& owner(g, node) == id
    &&& g.live[id]
    &&& match node {
        NodeId::Port(_) => true,
        NodeId::Option(k) => p.is_expanded && graph::listed(p.options, k as int),
        NodeId::Section { port, kind } => p.is_expanded && match kind {
            SectionKind::Requires => p.requires.len() > 0,
            SectionKind::RequiredBy => rows::live_parents(g, p).len() > 0,
        },
        _ => false,
    }
}

/// No two rows stand for one node.
pub open spec fn apart(r: Seq<RowView>) -> bool {
    forall|i: int, j: int|
        0 <= i < j < r.len() && #[trigger] is_node(r[i]) && #[trigger] is_node(r[j])
            ==> r[i].node_id != r[j].node_id
}

proof fn lemma_apart_concat(a: Seq<RowView>, b: Seq<RowView>)
    requires
        apart(a),
        apart(b),
        forall|i: int, j: int|
            0 <= i < a.len() && 0 <= j < b.len() && #[trigger] is_node(a[i]) && #[trigger] is_node(
                b[j],
            ) ==> a[i].node_id != b[j].node_id,
    ensures
        apart(a + b),
{
    let r = a + b;
    assert forall|i: int, j: int|
        0 <= i < j < r.len() && #[trigger] is_node(r[i]) && #[trigger] is_node(
            r[j],
        ) implies r[i].node_id != r[j].node_id by {
        if j < a.len() {
            assert(is_node(a[i]) && is_node(a[j]));
        } else if i >= a.len() {
            assert(is_node(b[i - a.len()]) && is_node(b[j - a.len()]));
        } else {
            assert(is_node(a[i]) && is_node(b[j - a.len()]));
        }
    }
}

/// The rows of options stand for them, each once.
proof fn lemma_options(g: GraphView, ids: Seq<usize>, m: int)
    requires
        0 <= m <= ids.len(),
        ids.no_duplicates(),
    ensures
        apart(rows::option_blocks(g, ids, m)),
        forall|i: int|
            0 <= i < rows::option_blocks(g, ids, m).len() && #[trigger] is_node(
                rows::option_blocks(g, ids, m)[i],
            ) ==> exists|q: int|
                0 <= q < m && rows::option_blocks(g, ids, m)[i].node_id == NodeId::Option(
                    #[trigger] ids[q],
                ),
    decreases m,
{
    if m > 0 {
        lemma_options(g, ids, m - 1);
        let a = rows::option_blocks(g, ids, m - 1);
        let b = rows::option_block(g, ids[m - 1] as int);
        let r = rows::option_blocks(g, ids, m);
        assert forall|j: int| 0 < j < b.len() implies !is_node(#[trigger] b[j]) by {}
        assert(apart(b));
        assert forall|i: int, j: int|
            0 <= i < a.len() && 0 <= j < b.len() && #[trigger] is_node(a[i]) && #[trigger] is_node(
                b[j],
            ) implies a[i].node_id != b[j].node_id by {
            let q = choose|q: int|
                0 <= q < m - 1 && a[i].node_id == NodeId::Option(#[trigger] ids[q]);
            assert(ids[q] != ids[m - 1]);
        }
        lemma_apart_concat(a, b);
        assert forall|i: int| 0 <= i < r.len() && #[trigger] is_node(r[i]) implies exists|q: int|
            0 <= q < m && r[i].node_id == NodeId::Option(#[trigger] ids[q]) by {
            if i < a.len() {
                assert(r[i] == a[i]);
                assert(is_node(a[i]));
                let q = choose|q: int|
                    0 <= q < m - 1 && a[i].node_id == NodeId::Option(#[trigger] ids[q]);
                assert(r[i].node_id == NodeId::Option(ids[q]));
            } else {
                assert(r[i] == b[i - a.len()]);
                assert(r[i].node_id == NodeId::Option(ids[m - 1]));
            }
        }
    }
}

/// The rows of a port stand for it and for what is its own, each once.
proof fn lemma_block(g: GraphView, id: int)
    requires
        graph::shape_ok(g.ports, g.options),
        0 <= id < g.ports.len() <= usize::MAX,
    ensures
        apart(rows::port_block(g, id)),
        forall|i: int|
            0 <= i < rows::port_block(g, id).len() && #[trigger] is_node(
                rows::port_block(g, id)[i],
            ) ==> in_block(g, id, rows::port_block(g, id)[i].node_id),
{
    let p = g.ports[id];
    let ids = p.options;
    assert(graph::port_ok(g.ports, g.options, id));
    let h = seq![rows::head_row(g, id)];
    let ob = rows::option_blocks(g, ids, ids.len() as int);
    let rb = rows::requires_block(g, id);
    let pb = rows::parents_block(g, id);
    lemma_options(g, ids, ids.len() as int);
    assert forall|i: int| 0 < i < rb.len() implies !is_node(#[trigger] rb[i]) by {}
    assert forall|i: int| 0 < i < pb.len() implies !is_node(#[trigger] pb[i]) by {}
    if g.live[id] && p.is_expanded && rows::has_children(g, p) {
        assert(apart(h) && apart(rb) && apart(pb));
        assert forall|i: int, j: int|
            0 <= i < h.len() && 0 <= j < ob.len() && #[trigger] is_node(h[i]) && #[trigger] is_node(
                ob[j],
            ) implies h[i].node_id != ob[j].node_id by {}
        lemma_apart_concat(h, ob);
        let a = h + ob;
        assert forall|i: int| 0 <= i < a.len() && #[trigger] is_node(a[i]) implies a[i].node_id
            == NodeId::Port(id as usize) || a[i].node_id is Option by {
            if i > 0 {
                assert(is_node(ob[i - 1]));
            }
        }
        lemma_apart_concat(a, rb);
        let c = a + rb;
        assert forall|i: int| 0 <= i < c.len() && #[trigger] is_node(c[i]) implies c[i].node_id
            == NodeId::Port(id as usize) || c[i].node_id is Option || c[i].node_id == (
        NodeId::Section { port: id as usize, kind: SectionKind::Requires }) by {
            if i < a.len() {
                assert(is_node(a[i]));
            } else {
                assert(is_node(rb[i - a.len()]));
            }
        }
        lemma_apart_concat(c, pb);
        let r = c + pb;
        assert forall|i: int| 0 <= i < r.len() && #[trigger] is_node(r[i]) implies in_block(
            g,
            id,
            r[i].node_id,
        ) by {
            if i >= c.len() {
                assert(is_node(pb[i - c.len()]));
            } else if i >= a.len() {
                assert(is_node(rb[i - a.len()]));
            } else if i > 0 {
                assert(r[i] == ob[i - 1]);
                assert(is_node(ob[i - 1]));
                let q = choose|q: int|
                    0 <= q < ids.len() && ob[i - 1].node_id == NodeId::Option(#[trigger] ids[q]);
                assert(graph::listed(ids, ids[q] as int));
            }
        }
    }
}

/// Whether a node has a row.
pub open spec fn has_row(g: GraphView, node: NodeId) -> bool {
    in_block(g, owner(g, node), node) && rows::shown(g, owner(g, node))
}

/// Whether a port is one of the first `n` in the order of the list.
spec fn comes_within(g: GraphView, n: int, id: int) -> bool {
    exists|q: int| 0 <= q < n && #[trigger] g.order[q] == id
}

/// What the rows are built from.
pub open spec fn in_shape(g: GraphView) -> bool {
    &&& g.wf()
    &&& g.order.no_duplicates()
    &&& g.ports.len() <= usize::MAX
}

proof fn lemma_rows(g: GraphView, n: int)
    requires
        in_shape(g),
        0 <= n <= g.order.len(),
    ensures
        apart(rows::rows_upto(g, n)),
        forall|i: int|
            0 <= i < rows::rows_upto(g, n).len() && #[trigger] is_node(rows::rows_upto(g, n)[i])
                ==> has_row(g, rows::rows_upto(g, n)[i].node_id) && comes_within(
                g,
                n,
                owner(g, rows::rows_upto(g, n)[i].node_id),
            ),
    decreases n,
{
    if n > 0 {
        lemma_rows(g, n - 1);
        let id = g.order[n - 1] as int;
        let a = rows::rows_upto(g, n - 1);
        let b = if rows::shown(g, id) {
            rows::port_block(g, id)
        } else {
            seq![]
        };
        let r = rows::rows_upto(g, n);
        lemma_block(g, id);
        assert forall|i: int, j: int|
            0 <= i < a.len() && 0 <= j < b.len() && #[trigger] is_node(a[i]) && #[trigger] is_node(
                b[j],
            ) implies a[i].node_id != b[j].node_id by {
            let q = choose|q: int|
                0 <= q < n - 1 && #[trigger] g.order[q] == owner(g, a[i].node_id);
            assert(g.order[q] != g.order[n - 1]);
        }
        lemma_apart_concat(a, b);
        assert(r == a + b);
        assert forall|i: int| 0 <= i < r.len() && #[trigger] is_node(r[i]) implies has_row(
            g,
            r[i].node_id,
        ) && comes_within(g, n, owner(g, r[i].node_id)) by {
            if i < a.len() {
                assert(is_node(a[i]));
                let q = choose|q: int|
                    0 <= q < n - 1 && #[trigger] g.order[q] == owner(g, a[i].node_id);
                assert(g.order[q] == owner(g, r[i].node_id));
            } else {
                assert(is_node(b[i - a.len()]));
                assert(g.order[n - 1] == owner(g, r[i].node_id));
            }
        }
    }
}

/// How far behind the row of its port that of a node stands.
pub open spec fn place_in_block(g: GraphView, node: NodeId) -> int {
    let id = owner(g, node);
    let ids = g.ports[id].options;
    match node {
        NodeId::Option(k) => 1int + rows::option_blocks(g, ids, ids.index_of(k)).len(),
        NodeId::Section { port, kind } => match kind {
            SectionKind::Requires => 1int + rows::option_blocks(g, ids, ids.len() as int).len(),
            SectionKind::RequiredBy => 1int + rows::option_blocks(g, ids, ids.len() as int).len()
                + rows::requires_block(g, id).len(),
        },
        _ => 0,
    }
}

proof fn lemma_option_at(g: GraphView, ids: Seq<usize>, m: int, n: int)
    requires
        0 <= m < n <= ids.len(),
    ensures
        rows::option_blocks(g, ids, m).len() < rows::option_blocks(g, ids, n).len(),
        rows::option_blocks(g, ids, n)[rows::option_blocks(g, ids, m).len() as int].node_id
            == NodeId::Option(ids[m]),
    decreases n,
{
    let a = rows::option_blocks(g, ids, n - 1);
    let b = rows::option_block(g, ids[n - 1] as int);
    if m < n - 1 {
        lemma_option_at(g, ids, m, n - 1);
    } else {
        assert((a + b)[a.len() as int] == b[0]);
    }
}

/// A node that is among the rows of a port is at its place among them.
proof fn lemma_in_block(g: GraphView, node: NodeId)
    requires
        graph::shape_ok(g.ports, g.options),
        0 <= owner(g, node) < g.ports.len() <= usize::MAX,
        in_block(g, owner(g, node), node),
    ensures
        0 <= place_in_block(g, node) < rows::port_block(g, owner(g, node)).len(),
        rows::port_block(g, owner(g, node))[place_in_block(g, node)].node_id == node,
{
    let id = owner(g, node);
    let p = g.ports[id];
    let ids = p.options;
    let h = seq![rows::head_row(g, id)];
    let ob = rows::option_blocks(g, ids, ids.len() as int);
    let rb = rows::requires_block(g, id);
    let pb = rows::parents_block(g, id);
    let b = rows::port_block(g, id);
    match node {
        NodeId::Option(k) => {
            let q = choose|q: int| 0 <= q < ids.len() && #[trigger] ids[q] == k as int;
            assert(ids[q] == k);
            assert(ids.contains(k));
            let m = ids.index_of(k);
            lemma_option_at(g, ids, m, ids.len() as int);
            let at = rows::option_blocks(g, ids, m).len() as int;
            assert(b == h + ob + rb + pb);
            assert(b[1 + at] == ob[at]);
        },
        NodeId::Section { port, kind } => {
            assert(b == h + ob + rb + pb);
            match kind {
                SectionKind::Requires => {
                    assert(b[1int + ob.len()] == rb[0]);
                },
                SectionKind::RequiredBy => {
                    assert(b[1int + ob.len() + rb.len()] == pb[0]);
                },
            }
        },
        _ => {},
    }
}

proof fn lemma_block_at(g: GraphView, n: int, total: int, t: int)
    requires
        0 <= n < total <= g.order.len(),
        rows::shown(g, g.order[n] as int),
        0 <= t < rows::port_block(g, g.order[n] as int).len(),
    ensures
        rows::rows_upto(g, n).len() + t < rows::rows_upto(g, total).len(),
        rows::rows_upto(g, total)[rows::rows_upto(g, n).len() + t] == rows::port_block(
            g,
            g.order[n] as int,
        )[t],
    decreases total,
{
    if n < total - 1 {
        lemma_block_at(g, n, total - 1, t);
    }
}

/// Where a node of the port at place `n` of the order has its row.
pub open spec fn place(g: GraphView, n: int, node: NodeId) -> int {
    rows::rows_upto(g, n).len() + place_in_block(g, node)
}

proof fn lemma_place(g: GraphView, n: int, node: NodeId)
    requires
        in_shape(g),
        0 <= n < g.order.len(),
        g.order[n] == owner(g, node),
        has_row(g, node),
    ensures
        0 <= place(g, n, node) < rows::rows_of(g).len(),
        rows::rows_of(g)[place(g, n, node)].node_id == node,
{
    lemma_in_block(g, node);
    lemma_block_at(g, n, g.order.len() as int, place_in_block(g, node));
}

/// What is found of a node that is at a place, and at no other.
proof fn lemma_found(r: Seq<RowView>, node: NodeId, i: int, from: int)
    requires
        apart(r),
        0 <= from <= i < r.len(),
        is_node(r[i]),
        r[i].node_id == node,
    ensures
        fold::node_from(r, node, from) == Some(i),
    decreases i - from,
{
    if r[from].node_id == node {
        if from < i {
            assert(is_node(r[from]));
        }
    } else {
        lemma_found(r, node, i, from + 1);
    }
}

proof fn lemma_not_found(r: Seq<RowView>, node: NodeId, from: int)
    requires
        0 <= from,
        forall|i: int| 0 <= i < r.len() ==> (#[trigger] r[i]).node_id != node,
    ensures
        fold::node_from(r, node, from) is None,
    decreases r.len() - from,
{
    if from < r.len() {
        lemma_not_found(r, node, from + 1);
    }
}

/// The anchor of a row that stands for a port, an option or a section finds that
/// row.
pub proof fn an_anchor_finds_its_row(g: GraphView, i: int)
    requires
        in_shape(g),
        g.rows == rows::rows_of(g),
        0 <= i < g.rows.len(),
        is_node(g.rows[i]),
    ensures
        fold::anchor_of(g, i) is Some,
        fold::row_of(g, fold::anchor_of(g, i)->0) == Some(i),
{
    lemma_rows(g, g.order.len() as int);
    lemma_found(g.rows, g.rows[i].node_id, i, 0);
}

/// The rows of a port are enclosed by it.
proof fn lemma_enclosing_in(a: Seq<RowView>, b: Seq<RowView>, id: usize, t: int)
    requires
        0 <= t < b.len(),
        b[0].node_id == NodeId::Port(id),
        forall|i: int| 0 < i < b.len() ==> !listing::is_head(#[trigger] b[i]),
    ensures
        fold::enclosing(a + b, a.len() + t) == Some(id),
    decreases t,
{
    assert((a + b)[a.len() + t] == b[t]);
    if t > 0 {
        lemma_enclosing_in(a, b, id, t - 1);
    }
}

/// What encloses a row does not depend on the rows behind it.
proof fn lemma_enclosing_front(a: Seq<RowView>, b: Seq<RowView>, i: int)
    requires
        i < a.len(),
    ensures
        fold::enclosing(a + b, i) == fold::enclosing(a, i),
    decreases i + 1,
{
    if i >= 0 {
        assert((a + b)[i] == a[i]);
        lemma_enclosing_front(a, b, i - 1);
    }
}

/// What encloses a row is a port that has one, and it is the row's own.
proof fn lemma_enclosing(g: GraphView, n: int, i: int)
    requires
        in_shape(g),
        0 <= n <= g.order.len(),
        0 <= i < rows::rows_upto(g, n).len(),
    ensures
        ({
            let r = rows::rows_upto(g, n);
            &&& fold::enclosing(r, i) is Some
            &&& comes_within(g, n, fold::enclosing(r, i)->0 as int)
            &&& has_row(g, NodeId::Port(fold::enclosing(r, i)->0))
            &&& is_node(r[i]) ==> owner(g, r[i].node_id) == fold::enclosing(r, i)->0
        }),
    decreases n,
{
    if n > 0 {
        let id = g.order[n - 1] as int;
        let a = rows::rows_upto(g, n - 1);
        let b = if rows::shown(g, id) {
            rows::port_block(g, id)
        } else {
            seq![]
        };
        assert(rows::rows_upto(g, n) == a + b);
        if i < a.len() {
            lemma_enclosing(g, n - 1, i);
            lemma_enclosing_front(a, b, i);
            let q = choose|q: int|
                0 <= q < n - 1 && #[trigger] g.order[q] == fold::enclosing(a, i)->0 as int;
            assert(g.order[q] == fold::enclosing(a + b, i)->0 as int);
        } else {
            lemma_block(g, id);
            listing::lemma_block(g, id);
            lemma_enclosing_in(a, b, id as usize, i - a.len());
            if is_node((a + b)[i]) {
                assert(is_node(b[i - a.len()]));
            }
            assert(g.order[n - 1] == fold::enclosing(a + b, i)->0 as int);
        }
    }
}

/// Once everything is closed, the anchor of any row finds the row of the port
/// that the row was among.
pub proof fn a_hidden_row_falls_to_its_port(g: GraphView, i: int)
    requires
        in_shape(g),
        g.rows == rows::rows_of(g),
        0 <= i < g.rows.len(),
    ensures
        ({
            let h = fold::all_folded(g, Mode::Collapse);
            let p = fold::enclosing(g.rows, i);
            &&& p is Some
            &&& fold::anchor_of(g, i) is Some
            &&& fold::row_of(h, fold::anchor_of(g, i)->0) matches Some(k) && 0 <= k < h.rows.len()
                && h.rows[k].node_id == NodeId::Port(p->0)
        }),
{
    let n = g.order.len() as int;
    let h = fold::all_folded(g, Mode::Collapse);
    lemma_enclosing(g, n, i);
    lemma_rows(g, n);
    let p = fold::enclosing(g.rows, i)->0;
    let q = choose|q: int| 0 <= q < n && #[trigger] g.order[q] == p as int;
    let bare = GraphView { rows: g.rows, ..h };
    fold::lemma_alike(bare, g);
    assert(in_shape(bare));
    assert(rows::rows_of(bare) == h.rows) by {
        lemma_rows_unread(bare, h, n);
    }
    assert(has_row(bare, NodeId::Port(p)));
    lemma_place(bare, q, NodeId::Port(p));
    lemma_rows(bare, n);
    let k = place(bare, q, NodeId::Port(p));
    lemma_found(h.rows, NodeId::Port(p), k, 0);
    if is_node(g.rows[i]) && !(g.rows[i].node_id is Port) {
        let node = g.rows[i].node_id;
        assert forall|j: int| 0 <= j < h.rows.len() implies (#[trigger] h.rows[j]).node_id
            != node by {
            if h.rows[j].node_id == node {
                assert(is_node(h.rows[j]));
                assert(has_row(bare, node));
            }
        }
        lemma_not_found(h.rows, node, 0);
        match node {
            NodeId::Option(id) => {
                assert(h.options[id as int].parent_port == g.options[id as int].parent_port);
            },
            _ => {},
        }
    }
}

/// The rows that are built do not depend on those there were.
proof fn lemma_rows_unread(a: GraphView, b: GraphView, n: int)
    requires
        a == (GraphView { rows: a.rows, ..b }),
        n <= a.order.len(),
    ensures
        rows::rows_upto(a, n) == rows::rows_upto(b, n),
    decreases n,
{
    if n > 0 {
        lemma_rows_unread(a, b, n - 1);
        listing::lemma_block_alike(a, b, a.order[n - 1] as int);
    }
}

/// The rows before those of a port do not depend on what is open in it.
proof fn lemma_rows_before(a: GraphView, b: GraphView, n: int)
    requires
        0 <= n <= a.order.len(),
        a.order == b.order,
        forall|q: int|
            0 <= q < n ==> listing::shown_alike_at(a, b, (#[trigger] a.order[q]) as int),
    ensures
        rows::rows_upto(a, n) == rows::rows_upto(b, n),
    decreases n,
{
    if n > 0 {
        lemma_rows_before(a, b, n - 1);
        listing::lemma_block_alike(a, b, a.order[n - 1] as int);
    }
}

/// What a node opened or closed leaves alike of another port.
proof fn lemma_others_alike(g: GraphView, node: NodeId, expanded: bool, seq: u64, id: int)
    requires
        g.wf(),
        0 <= owner(g, node) < g.ports.len(),
        node is Option ==> node->Option_0 < g.options.len(),
        0 <= id < g.ports.len(),
        id != owner(g, node),
    ensures
        listing::shown_alike_at(fold::node_folded(fold::counted(g), node, expanded, seq), g, id),
{
    let h = fold::node_folded(fold::counted(g), node, expanded, seq);
    assert(graph::port_ok(g.ports, g.options, id));
    assert forall|m: int|
        0 <= m < h.ports[id].options.len() implies listing::options_shown_alike(
        h.options[(#[trigger] h.ports[id].options[m]) as int],
        g.options[h.ports[id].options[m] as int],
    ) by {
        let k = g.ports[id].options[m] as int;
        assert(g.options[k].parent_port == id);
    }
}

/// Opening or closing a row leaves it where it is.
pub proof fn a_row_stays_where_it_is(g: GraphView, row: int, expanded: bool)
    requires
        in_shape(g),
        g.rows == rows::rows_of(g),
        0 <= row < g.rows.len(),
        is_node(g.rows[row]),
    ensures
        row < fold::node_at(g, row, expanded).rows.len(),
        fold::node_at(g, row, expanded).rows[row].node_id == g.rows[row].node_id,
{
    let n = g.order.len() as int;
    let node = g.rows[row].node_id;
    let seq = fold::next_seq(g.current_seq);
    let h = fold::node_folded(fold::counted(g), node, expanded, seq);
    let id = owner(g, node);
    lemma_rows(g, n);
    assert(graph::row_ok(g.rows[row], g.ports.len(), g.options.len()));
    assert(has_row(g, node));
    let q = choose|q: int| 0 <= q < n && #[trigger] g.order[q] == id;
    lemma_place(g, q, node);
    let at = place(g, q, node);
    assert(is_node(g.rows[at]));
    assert(at == row);
    fold::lemma_alike(h, g);
    assert(in_shape(h));
    assert forall|w: int| 0 <= w < q implies listing::shown_alike_at(
        h,
        g,
        (#[trigger] h.order[w]) as int,
    ) by {
        assert(g.order[w] != g.order[q]);
        lemma_others_alike(g, node, expanded, seq, g.order[w] as int);
    }
    lemma_rows_before(h, g, q);
    lemma_same_place(g, node, expanded, seq);
    lemma_place(h, q, node);
}

/// A node that is opened or closed has its row at the same place among those of
/// its port.
proof fn lemma_same_place(g: GraphView, node: NodeId, expanded: bool, seq: u64)
    requires
        g.wf(),
        has_row(g, node),
        0 <= owner(g, node) < g.ports.len(),
        node is Option ==> node->Option_0 < g.options.len(),
    ensures
        ({
            let h = fold::node_folded(fold::counted(g), node, expanded, seq);
            &&& owner(h, node) == owner(g, node)
            &&& has_row(h, node)
            &&& place_in_block(h, node) == place_in_block(g, node)
        }),
{
    let h = fold::node_folded(fold::counted(g), node, expanded, seq);
    let id = owner(g, node);
    let p = g.ports[id];
    let ids = p.options;
    assert(graph::port_ok(g.ports, g.options, id));
    listing::lemma_parents_alike(h, g, h.ports[id], p);
    match node {
        NodeId::Option(k) => {
            let w = choose|w: int| 0 <= w < ids.len() && #[trigger] ids[w] == k as int;
            assert(ids[w] == k);
            assert(ids.contains(k));
            let m = ids.index_of(k);
            assert forall|q: int| 0 <= q < m implies listing::options_shown_alike(
                h.options[(#[trigger] ids[q]) as int],
                g.options[ids[q] as int],
            ) by {
                assert(ids[q] != ids[m]);
            }
            listing::lemma_option_blocks_alike(h, g, ids, m);
        },
        NodeId::Section { port, kind } => {
            listing::lemma_option_blocks_alike(h, g, ids, ids.len() as int);
            if kind == SectionKind::RequiredBy {
                assert(rows::requires_block(h, id) =~= rows::requires_block(g, id));
            }
        },
        _ => {},
    }
}

/// Opening a row that is open, or closing one that is closed, changes no row.
pub proof fn folding_again_changes_nothing(g: GraphView, row: int, expanded: bool)
    requires
        in_shape(g),
        g.rows == rows::rows_of(g),
        0 <= row < g.rows.len(),
        is_node(g.rows[row]),
    ensures
        fold::node_at(fold::node_at(g, row, expanded), row, expanded).rows == fold::node_at(
            g,
            row,
            expanded,
        ).rows,
{
    a_row_stays_where_it_is(g, row, expanded);
    listing::lemma_folded_again(g, row, row, expanded);
}

/// Closing an open row and opening the row at the same place brings back the
/// same rows: what is nested inside has the shape it had. Nothing else has been
/// opened or closed, and no option been set otherwise.
pub proof fn opening_brings_back_what_was_closed(g: GraphView, row: int)
    requires
        in_shape(g),
        g.rows == rows::rows_of(g),
        0 <= row < g.rows.len(),
        is_node(g.rows[row]),
        listing::is_open(g, g.rows[row].node_id),
    ensures
        fold::node_at(fold::node_at(g, row, false), row, true).rows == g.rows,
        listing::shown_alike(g, fold::node_at(fold::node_at(g, row, false), row, true)),
{
    let once = fold::node_at(g, row, false);
    let node = g.rows[row].node_id;
    a_row_stays_where_it_is(g, row, false);
    let twice = fold::node_folded(
        fold::counted(once),
        node,
        true,
        fold::next_seq(once.current_seq),
    );
    assert(graph::row_ok(g.rows[row], g.ports.len(), g.options.len()));
    assert(listing::shown_alike(g, twice));
    listing::lemma_rows_alike(g, twice, g.order.len() as int);
}

} // verus!
