//! What holds of the rows: every port has one, in order, and they depend on
//! nothing but what is shown.
use super::fold;
use super::query;
use super::rows;
use super::{GraphView, NodeId, OptionView, PortView, RowView, SectionState};
use crate::graph;
use crate::order;
use vstd::prelude::*;

verus! {

/// Whether a row is that of a port itself.
pub open spec fn is_head(row: RowView) -> bool {
    row.node_id is Port
}

/// Whether a port is to be seen: something pulls it in, and nothing hides it.
pub open spec fn is_seen(g: GraphView, id: int) -> bool {
    g.live[id] && rows::shown(g, id)
}

proof fn lemma_option_blocks(g: GraphView, ids: Seq<usize>, m: int)
    ensures
        forall|i: int|
            0 <= i < rows::option_blocks(g, ids, m).len() ==> !is_head(
                #[trigger] rows::option_blocks(g, ids, m)[i],
            ),
    decreases m,
{
    if m > 0 {
        lemma_option_blocks(g, ids, m - 1);
        let a = rows::option_blocks(g, ids, m - 1);
        let b = rows::option_block(g, ids[m - 1] as int);
        assert forall|i: int| 0 <= i < (a + b).len() implies !is_head(#[trigger] (a + b)[i]) by {
            if i < a.len() {
                assert((a + b)[i] == a[i]);
            } else {
                assert((a + b)[i] == b[i - a.len()]);
            }
        }
    }
}

/// The rows of a port start with its own, and no other row of them is that of a
/// port.
pub proof fn lemma_block(g: GraphView, id: int)
    ensures
        ({
            let b = rows::port_block(g, id);
            &&& g.live[id] ==> b.len() > 0 && b[0].node_id == NodeId::Port(id as usize)
            &&& !g.live[id] ==> b.len() == 0
            &&& forall|i: int| 0 < i < b.len() ==> !is_head(#[trigger] b[i])
        }),
{
    let p = g.ports[id];
    lemma_option_blocks(g, p.options, p.options.len() as int);
}

/// What holds of the rows of the first `n` ports: those that are to be seen
/// have a row each, in their order, and no other port has.
spec fn heads_ok(g: GraphView, r: Seq<RowView>, n: int) -> bool {
    &&& forall|i: int|
        0 <= i < r.len() && #[trigger] is_head(r[i]) ==> exists|k: int|
            0 <= k < n && is_seen(g, #[trigger] g.order[k] as int) && r[i].node_id == NodeId::Port(
                g.order[k],
            )
    &&& forall|k: int|
        0 <= k < n && is_seen(g, #[trigger] g.order[k] as int) ==> exists|i: int|
            0 <= i < r.len() && #[trigger] r[i].node_id == NodeId::Port(g.order[k])
    &&& forall|i: int, j: int|
        0 <= i < j < r.len() && #[trigger] is_head(r[i]) && #[trigger] is_head(r[j]) ==> {
            &&& r[i].node_id != r[j].node_id
            &&& order::text_le(
                g.ports[r[i].node_id->Port_0 as int].origin,
                g.ports[r[j].node_id->Port_0 as int].origin,
            )
        }
}

proof fn lemma_heads(g: GraphView, n: int)
    requires
        0 <= n <= g.order.len(),
        g.order.no_duplicates(),
        graph::in_range(g.order, g.ports.len()),
        forall|i: int, j: int|
            0 <= i < j < g.order.len() ==> order::text_le(
                g.ports[#[trigger] g.order[i] as int].origin,
                g.ports[#[trigger] g.order[j] as int].origin,
            ),
    ensures
        heads_ok(g, rows::rows_upto(g, n), n),
    decreases n,
{
    if n > 0 {
        lemma_heads(g, n - 1);
        let a = rows::rows_upto(g, n - 1);
        let id = g.order[n - 1] as int;
        let b = if rows::shown(g, id) {
            rows::port_block(g, id)
        } else {
            seq![]
        };
        let r = rows::rows_upto(g, n);
        lemma_block(g, id);
        assert(r == a + b);
        assert forall|i: int| 0 <= i < r.len() && #[trigger] is_head(r[i]) implies exists|k: int|
            0 <= k < n && is_seen(g, #[trigger] g.order[k] as int) && r[i].node_id == NodeId::Port(
                g.order[k],
            ) by {
            if i < a.len() {
                assert(is_head(a[i]));
                let k = choose|k: int|
                    0 <= k < n - 1 && is_seen(g, #[trigger] g.order[k] as int) && a[i].node_id
                        == NodeId::Port(g.order[k]);
                assert(0 <= k < n && is_seen(g, g.order[k] as int));
            } else {
                assert(r[i] == b[i - a.len()]);
                assert(is_seen(g, g.order[n - 1] as int));
            }
        }
        assert forall|k: int| 0 <= k < n && is_seen(g, #[trigger] g.order[k] as int) implies exists|
            i: int,
        |
            0 <= i < r.len() && #[trigger] r[i].node_id == NodeId::Port(g.order[k]) by {
            if k < n - 1 {
                let i = choose|i: int|
                    0 <= i < a.len() && #[trigger] a[i].node_id == NodeId::Port(g.order[k]);
                assert(r[i].node_id == NodeId::Port(g.order[k]));
            } else {
                assert(r[a.len() as int] == b[0]);
            }
        }
        assert forall|i: int, j: int|
            0 <= i < j < r.len() && #[trigger] is_head(r[i]) && #[trigger] is_head(r[j]) implies {
            &&& r[i].node_id != r[j].node_id
            &&& order::text_le(
                g.ports[r[i].node_id->Port_0 as int].origin,
                g.ports[r[j].node_id->Port_0 as int].origin,
            )
        } by {
            if j < a.len() {
                assert(is_head(a[i]) && is_head(a[j]));
            } else {
                assert(r[j] == b[j - a.len()]);
                assert(j == a.len());
                assert(is_head(a[i]));
                let k = choose|k: int|
                    0 <= k < n - 1 && is_seen(g, #[trigger] g.order[k] as int) && a[i].node_id
                        == NodeId::Port(g.order[k]);
                assert(g.order[k] != g.order[n - 1]);
            }
        }
    }
}

/// Every port that is to be seen has exactly one row of its own, no other port
/// has any, and the rows of the ports are in alphabetical order.
pub proof fn every_port_is_listed_once(g: GraphView)
    requires
        g.order.no_duplicates(),
        graph::in_range(g.order, g.ports.len()),
        forall|k: int| 0 <= k < g.ports.len() ==> #[trigger] graph::listed(g.order, k),
        forall|i: int, j: int|
            0 <= i < j < g.order.len() ==> order::text_le(
                g.ports[#[trigger] g.order[i] as int].origin,
                g.ports[#[trigger] g.order[j] as int].origin,
            ),
    ensures
        forall|id: int|
            0 <= id < g.ports.len() ==> (#[trigger] is_seen(g, id) <==> exists|i: int|
                0 <= i < rows::rows_of(g).len() && (#[trigger] rows::rows_of(g)[i]).node_id
                    == NodeId::Port(id as usize)),
        forall|i: int, j: int|
            0 <= i < j < rows::rows_of(g).len() && #[trigger] is_head(rows::rows_of(g)[i])
                && #[trigger] is_head(rows::rows_of(g)[j]) ==> {
                &&& rows::rows_of(g)[i].node_id != rows::rows_of(g)[j].node_id
                &&& order::text_le(
                    g.ports[rows::rows_of(g)[i].node_id->Port_0 as int].origin,
                    g.ports[rows::rows_of(g)[j].node_id->Port_0 as int].origin,
                )
            },
{
    let r = rows::rows_of(g);
    lemma_heads(g, g.order.len() as int);
    assert forall|id: int| 0 <= id < g.ports.len() implies (#[trigger] is_seen(g, id)
        <==> exists|i: int|
        0 <= i < r.len() && (#[trigger] r[i]).node_id == NodeId::Port(id as usize)) by {
        assert(graph::listed(g.order, id));
        let k = choose|k: int| 0 <= k < g.order.len() && #[trigger] g.order[k] == id;
        if is_seen(g, id) {
            assert(is_seen(g, g.order[k] as int));
            let i = choose|i: int|
                0 <= i < r.len() && #[trigger] r[i].node_id == NodeId::Port(g.order[k]);
            assert(r[i].node_id == NodeId::Port(id as usize));
        }
        if exists|i: int|
            0 <= i < r.len() && (#[trigger] r[i]).node_id == NodeId::Port(id as usize) {
            let i = choose|i: int|
                0 <= i < r.len() && (#[trigger] r[i]).node_id == NodeId::Port(id as usize);
            assert(is_head(r[i]));
            let q = choose|q: int|
                0 <= q < g.order.len() && is_seen(g, #[trigger] g.order[q] as int) && r[i].node_id
                    == NodeId::Port(g.order[q]);
            assert(g.order[k] == id as usize);
            assert(g.order[q] == id as usize);
        }
    }
}

/// The ports that are told as unread among the first `n`.
proof fn lemma_unread(g: GraphView, n: int, o: Seq<char>)
    requires
        0 <= n <= g.ports.len(),
        graph::index_ok(g.ports, g.by_origin),
    ensures
        query::unread_upto(g, n).no_duplicates(),
        query::unread_upto(g, n).contains(o) <==> exists|i: int|
            0 <= i < n && (#[trigger] g.ports[i]).origin == o && !g.ports[i].resolved && g.live[i],
        forall|k: int|
            0 <= k < query::unread_upto(g, n).len() ==> exists|i: int|
                0 <= i < n && (#[trigger] g.ports[i]).origin == #[trigger] query::unread_upto(
                    g,
                    n,
                )[k],
    decreases n,
{
    if n > 0 {
        lemma_unread(g, n - 1, o);
        let t = query::unread_upto(g, n - 1);
        let r = query::unread_upto(g, n);
        let p = g.ports[n - 1];
        assert forall|k: int| 0 <= k < t.len() implies #[trigger] t[k] != p.origin by {
            let i = choose|i: int| 0 <= i < n - 1 && (#[trigger] g.ports[i]).origin == t[k];
            assert(g.by_origin[g.ports[i].origin] == i);
            assert(g.by_origin[g.ports[n - 1].origin] == n - 1);
        }
        if !p.resolved && g.live[n - 1] {
            assert(r.drop_last() =~= t);
            order::lemma_contains_last(r, o);
        }
        if exists|i: int|
            0 <= i < n && (#[trigger] g.ports[i]).origin == o && !g.ports[i].resolved && g.live[i] {
            let i = choose|i: int|
                0 <= i < n && (#[trigger] g.ports[i]).origin == o && !g.ports[i].resolved
                    && g.live[i];
            assert(i < n - 1 || i == n - 1);
        }
        if t.contains(o) {
            let i = choose|i: int|
                0 <= i < n - 1 && (#[trigger] g.ports[i]).origin == o && !g.ports[i].resolved
                    && g.live[i];
            assert(g.ports[i].origin == o);
        }
        assert forall|k: int| 0 <= k < r.len() implies exists|i: int|
            0 <= i < n && (#[trigger] g.ports[i]).origin == #[trigger] r[k] by {
            if k < t.len() {
                let i = choose|i: int| 0 <= i < n - 1 && (#[trigger] g.ports[i]).origin == t[k];
                assert(g.ports[i].origin == r[k]);
            } else {
                assert(g.ports[n - 1].origin == r[k]);
            }
        }
    }
}

/// The ports told as unread are those that are pulled in and could not be read,
/// each once, and where nothing is searched for each of them has a row, whether
/// or not ports with nothing to decide are hidden.
pub proof fn unread_ports_are_told_and_listed(g: GraphView, id: int)
    requires
        graph::index_ok(g.ports, g.by_origin),
        g.order.no_duplicates(),
        graph::in_range(g.order, g.ports.len()),
        forall|k: int| 0 <= k < g.ports.len() ==> #[trigger] graph::listed(g.order, k),
        forall|i: int, j: int|
            0 <= i < j < g.order.len() ==> order::text_le(
                g.ports[#[trigger] g.order[i] as int].origin,
                g.ports[#[trigger] g.order[j] as int].origin,
            ),
        g.search.len() == 0,
        0 <= id < g.ports.len(),
    ensures
        query::unread_upto(g, g.ports.len() as int).no_duplicates(),
        query::unread_upto(g, g.ports.len() as int).contains(g.ports[id].origin)
            <==> !g.ports[id].resolved && g.live[id],
        !g.ports[id].resolved && g.live[id] ==> exists|i: int|
            0 <= i < rows::rows_of(g).len() && (#[trigger] rows::rows_of(g)[i]).node_id
                == NodeId::Port(id as usize),
{
    lemma_unread(g, g.ports.len() as int, g.ports[id].origin);
    every_port_is_listed_once(g);
    assert(g.by_origin[g.ports[id].origin] == id);
    if exists|i: int|
        0 <= i < g.ports.len() && (#[trigger] g.ports[i]).origin == g.ports[id].origin
            && !g.ports[i].resolved && g.live[i] {
        let i = choose|i: int|
            0 <= i < g.ports.len() && (#[trigger] g.ports[i]).origin == g.ports[id].origin
                && !g.ports[i].resolved && g.live[i];
        assert(g.by_origin[g.ports[i].origin] == i);
    }
    if !g.ports[id].resolved && g.live[id] {
        assert(is_seen(g, id));
    }
}

/// Sections alike in whether they are open.
pub open spec fn sections_alike(a: SectionState, b: SectionState) -> bool {
    a.is_expanded == b.is_expanded
}

/// Ports alike in all that is shown of them.
pub open spec fn ports_shown_alike(a: PortView, b: PortView) -> bool {
    &&& a.origin == b.origin
    &&& a.provenance == b.provenance
    &&& a.resolved == b.resolved
    &&& a.options == b.options
    &&& a.requires == b.requires
    &&& a.required_by == b.required_by
    &&& a.is_expanded == b.is_expanded
    &&& sections_alike(a.requires_section, b.requires_section)
    &&& sections_alike(a.required_by_section, b.required_by_section)
}

/// Options alike in all that is shown of them.
pub open spec fn options_shown_alike(a: OptionView, b: OptionView) -> bool {
    &&& a.name == b.name
    &&& a.description == b.description
    &&& a.enabled == b.enabled
    &&& a.group_type == b.group_type
    &&& a.group_name == b.group_name
    &&& a.is_expanded == b.is_expanded
    &&& a.dep_origins == b.dep_origins
}

/// Graphs alike in all that is shown of them.
pub open spec fn shown_alike(a: GraphView, b: GraphView) -> bool {
    &&& a.ports.len() == b.ports.len()
    &&& forall|i: int|
        0 <= i < a.ports.len() ==> ports_shown_alike(#[trigger] a.ports[i], b.ports[i])
    &&& a.options.len() == b.options.len()
    &&& forall|k: int|
        0 <= k < a.options.len() ==> options_shown_alike(#[trigger] a.options[k], b.options[k])
    &&& a.by_origin == b.by_origin
    &&& a.live == b.live
    &&& a.order == b.order
    &&& a.search == b.search
    &&& a.hide_optionless == b.hide_optionless
}

/// Graphs alike in all that is shown of one port.
pub open spec fn shown_alike_at(a: GraphView, b: GraphView, id: int) -> bool {
    &&& ports_shown_alike(a.ports[id], b.ports[id])
    &&& forall|m: int|
        0 <= m < a.ports[id].options.len() ==> options_shown_alike(
            a.options[(#[trigger] a.ports[id].options[m]) as int],
            b.options[a.ports[id].options[m] as int],
        )
    &&& a.by_origin == b.by_origin
    &&& a.live == b.live
    &&& a.search == b.search
    &&& a.hide_optionless == b.hide_optionless
}

/// The rows of options that are shown alike are the same.
pub proof fn lemma_option_blocks_alike(a: GraphView, b: GraphView, ids: Seq<usize>, m: int)
    requires
        m <= ids.len(),
        forall|q: int|
            0 <= q < m ==> options_shown_alike(
                a.options[(#[trigger] ids[q]) as int],
                b.options[ids[q] as int],
            ),
        a.by_origin == b.by_origin,
        a.live == b.live,
    ensures
        rows::option_blocks(a, ids, m) == rows::option_blocks(b, ids, m),
    decreases m,
{
    if m > 0 {
        lemma_option_blocks_alike(a, b, ids, m - 1);
        let id = ids[m - 1] as int;
        assert(options_shown_alike(a.options[id], b.options[id]));
        assert(rows::dep_rows(a, a.options[id].dep_origins) =~= rows::dep_rows(
            b,
            b.options[id].dep_origins,
        ));
    }
}

/// The rows of a port that is shown alike are the same.
pub proof fn lemma_block_alike(a: GraphView, b: GraphView, id: int)
    requires
        shown_alike_at(a, b, id),
    ensures
        rows::port_block(a, id) == rows::port_block(b, id),
        rows::shown(a, id) == rows::shown(b, id),
{
    let p = a.ports[id];
    let q = b.ports[id];
    lemma_option_blocks_alike(a, b, p.options, p.options.len() as int);
    lemma_parents_alike(a, b, p, q);
    assert(rows::requires_block(a, id) =~= rows::requires_block(b, id));
    assert(rows::parents_block(a, id) =~= rows::parents_block(b, id));
}

/// The same parents of a port are pulled in.
pub proof fn lemma_parents_alike(a: GraphView, b: GraphView, p: PortView, q: PortView)
    requires
        p.required_by == q.required_by,
        a.by_origin == b.by_origin,
        a.live == b.live,
    ensures
        rows::live_parents(a, p) == rows::live_parents(b, q),
{
    assert((|e: graph::RequiredByView| graph::live::live_at(a, e.origin)) =~= (|
        e: graph::RequiredByView,
    | graph::live::live_at(b, e.origin)));
}

/// The rows of graphs that are shown alike are the same.
pub proof fn lemma_rows_alike(a: GraphView, b: GraphView, n: int)
    requires
        shown_alike(a, b),
        rows::drawable(a),
        0 <= n <= a.order.len(),
    ensures
        rows::rows_upto(a, n) == rows::rows_upto(b, n),
    decreases n,
{
    if n > 0 {
        lemma_rows_alike(a, b, n - 1);
        let id = a.order[n - 1] as int;
        assert(graph::port_ok(a.ports, a.options, id));
        lemma_block_alike(a, b, id);
    }
}

/// Opening what is open, or closing what is closed, changes no row.
pub proof fn lemma_folded_again(g: GraphView, row: int, again: int, expanded: bool)
    requires
        g.wf(),
        0 <= row < g.rows.len(),
        0 <= again < fold::node_at(g, row, expanded).rows.len(),
        fold::node_at(g, row, expanded).rows[again].node_id == g.rows[row].node_id,
    ensures
        fold::node_at(fold::node_at(g, row, expanded), again, expanded).rows == fold::node_at(
            g,
            row,
            expanded,
        ).rows,
{
    let once = fold::node_at(g, row, expanded);
    let node = g.rows[row].node_id;
    let twice = fold::node_folded(
        fold::counted(once),
        node,
        expanded,
        fold::next_seq(once.current_seq),
    );
    let bare = fold::node_folded(fold::counted(g), node, expanded, fold::next_seq(g.current_seq));
    assert(graph::row_ok(g.rows[row], g.ports.len(), g.options.len()));
    assert(shown_alike(bare, twice));
    fold::lemma_alike(bare, g);
    lemma_rows_alike(bare, twice, bare.order.len() as int);
}

/// Whether what a row stands for is open.
pub open spec fn is_open(g: GraphView, node: NodeId) -> bool {
    match node {
        NodeId::Port(id) => g.ports[id as int].is_expanded,
        NodeId::Option(id) => g.options[id as int].is_expanded,
        NodeId::Section { port, kind } => match kind {
            graph::SectionKind::Requires => g.ports[port as int].requires_section.is_expanded,
            graph::SectionKind::RequiredBy => g.ports[port as int].required_by_section.is_expanded,
        },
        _ => true,
    }
}

} // verus!
