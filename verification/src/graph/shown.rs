//! That the rows show all there is to see: which ports are listed, and beneath
//! each open port its options and its relationships in both directions.
use super::live;
use super::rows;
use super::{GraphView, NodeId, RequiredByView, RowKindView, RowView};
use crate::graph;
use crate::reply;
use crate::text;
use vstd::prelude::*;

verus! {

/// Whether a port is to be listed: it is in the build, its origin holds what is
/// searched for whatever the case, and it is not left out for having nothing to
/// decide about it.
pub open spec fn is_listed(g: GraphView, id: int) -> bool {
    &&& g.live[id]
    &&& g.search.len() == 0 || rows::lowercased(g.search).len() == 0 || text::has_part(
        rows::lowercased(g.ports[id].origin),
        rows::lowercased(g.search),
    )
    &&& g.hide_optionless ==> g.ports[id].options.len() > 0 || !g.ports[id].resolved
}

proof fn lemma_rows_hold(g: GraphView, n: int, m: int, row: RowView)
    requires
        0 <= m < n <= g.order.len(),
        rows::shown(g, g.order[m] as int),
        rows::port_block(g, g.order[m] as int).contains(row),
    ensures
        rows::rows_upto(g, n).contains(row),
    decreases n,
{
    let id = g.order[n - 1] as int;
    let a = rows::rows_upto(g, n - 1);
    let b = if rows::shown(g, id) {
        rows::port_block(g, id)
    } else {
        seq![]
    };
    reply::lemma_in_sum(a, b, row);
    if m < n - 1 {
        lemma_rows_hold(g, n - 1, m, row);
    }
}

proof fn lemma_rows_from(g: GraphView, n: int, row: RowView)
    requires
        0 <= n <= g.order.len(),
        rows::rows_upto(g, n).contains(row),
    ensures
        exists|m: int|
            0 <= m < n && rows::shown(g, #[trigger] g.order[m] as int) && rows::port_block(
                g,
                g.order[m] as int,
            ).contains(row),
    decreases n,
{
    if n > 0 {
        let id = g.order[n - 1] as int;
        let a = rows::rows_upto(g, n - 1);
        let b = if rows::shown(g, id) {
            rows::port_block(g, id)
        } else {
            seq![]
        };
        reply::lemma_in_sum(a, b, row);
        if a.contains(row) {
            lemma_rows_from(g, n - 1, row);
            let m = choose|m: int|
                0 <= m < n - 1 && rows::shown(g, #[trigger] g.order[m] as int) && rows::port_block(
                    g,
                    g.order[m] as int,
                ).contains(row);
            assert(rows::shown(g, g.order[m] as int));
        } else {
            assert(rows::shown(g, g.order[n - 1] as int));
        }
    }
}

proof fn lemma_blocks_hold(g: GraphView, ids: Seq<usize>, n: int, m: int, row: RowView)
    requires
        0 <= m < n <= ids.len(),
        rows::option_block(g, ids[m] as int).contains(row),
    ensures
        rows::option_blocks(g, ids, n).contains(row),
    decreases n,
{
    reply::lemma_in_sum(
        rows::option_blocks(g, ids, n - 1),
        rows::option_block(g, ids[n - 1] as int),
        row,
    );
    if m < n - 1 {
        lemma_blocks_hold(g, ids, n - 1, m, row);
    }
}

/// The parts of an open port's rows.
proof fn lemma_open_block(g: GraphView, id: int, row: RowView)
    requires
        g.live[id],
        g.ports[id].is_expanded,
        rows::has_children(g, g.ports[id]),
    ensures
        rows::option_blocks(g, g.ports[id].options, g.ports[id].options.len() as int).contains(row)
            || rows::requires_block(g, id).contains(row) || rows::parents_block(g, id).contains(row)
            ==> rows::port_block(g, id).contains(row),
{
    let p = g.ports[id];
    let head = seq![rows::head_row(g, id)];
    let a = rows::option_blocks(g, p.options, p.options.len() as int);
    let b = rows::requires_block(g, id);
    let c = rows::parents_block(g, id);
    reply::lemma_in_sum(head, a, row);
    reply::lemma_in_sum(head + a, b, row);
    reply::lemma_in_sum(head + a + b, c, row);
}

/// Where a port stands in the order of the list.
proof fn lemma_placed(g: GraphView, id: int) -> (m: int)
    requires
        graph::listed(g.order, id),
    ensures
        0 <= m < g.order.len(),
        g.order[m] == id,
{
    choose|m: int| 0 <= m < g.order.len() && #[trigger] g.order[m] == id
}

/// The rows hold a port's own row exactly where it is to be listed, and it says
/// what the port is.
pub proof fn what_is_searched_for_is_listed(g: GraphView, id: int)
    requires
        graph::in_range(g.order, g.ports.len()),
        graph::listed(g.order, id),
        0 <= id < g.ports.len() <= usize::MAX,
    ensures
        is_listed(g, id) ==> rows::rows_of(g).contains(rows::head_row(g, id)),
        rows::head_row(g, id).kind == (RowKindView::Port {
            origin: g.ports[id].origin,
            provenance: g.ports[id].provenance,
            resolved: g.ports[id].resolved,
        }),
        rows::head_row(g, id).node_id == NodeId::Port(id as usize),
        forall|row: RowView| #[trigger]
            rows::rows_of(g).contains(row) ==> exists|q: int|
                0 <= q < g.ports.len() && #[trigger] is_listed(g, q) && rows::port_block(
                    g,
                    q,
                ).contains(row),
{
    let n = g.order.len() as int;
    let head = rows::head_row(g, id);
    let m = lemma_placed(g, id);
    if is_listed(g, id) {
        let b = rows::port_block(g, id);
        assert(b[0] == head);
        assert(b.contains(head));
        lemma_rows_hold(g, n, m, head);
    }
    assert forall|row: RowView| #[trigger] rows::rows_of(g).contains(row) implies exists|q: int|
        0 <= q < g.ports.len() && #[trigger] is_listed(g, q) && rows::port_block(g, q).contains(
            row,
        ) by {
        lemma_rows_from(g, n, row);
        let w = choose|w: int|
            0 <= w < n && rows::shown(g, #[trigger] g.order[w] as int) && rows::port_block(
                g,
                g.order[w] as int,
            ).contains(row);
        assert(is_listed(g, g.order[w] as int));
    }
}

/// An open port that is listed shows every one of its options, as it is set.
pub proof fn every_option_is_shown(g: GraphView, id: int, m: int)
    requires
        graph::listed(g.order, id),
        0 <= id < g.ports.len(),
        is_listed(g, id),
        g.ports[id].is_expanded,
        0 <= m < g.ports[id].options.len(),
    ensures
        ({
            let k = g.ports[id].options[m];
            let o = g.options[k as int];
            rows::rows_of(g).contains(
                RowView {
                    depth: 1,
                    kind: RowKindView::Option {
                        name: o.name,
                        description: o.description,
                        enabled: o.enabled,
                        group_type: o.group_type,
                        group_name: o.group_name,
                    },
                    is_expanded: o.is_expanded,
                    has_children: o.dep_origins.len() > 0,
                    node_id: NodeId::Option(k),
                },
            )
        }),
{
    let p = g.ports[id];
    let k = p.options[m] as int;
    let row = rows::option_row(g, k);
    let at = lemma_placed(g, id);
    let b = rows::option_block(g, k);
    assert(b[0] == row);
    assert(b.contains(row));
    lemma_blocks_hold(g, p.options, p.options.len() as int, m, row);
    lemma_open_block(g, id, row);
    lemma_rows_hold(g, g.order.len() as int, at, row);
}

/// An open option of an open port that is listed shows everything that it pulls
/// in when it is on, and of each whether it is in the build.
pub proof fn every_dependency_is_shown(g: GraphView, id: int, m: int, d: int)
    requires
        graph::listed(g.order, id),
        0 <= id < g.ports.len(),
        is_listed(g, id),
        g.ports[id].is_expanded,
        0 <= m < g.ports[id].options.len(),
        g.options[g.ports[id].options[m] as int].is_expanded,
        0 <= d < g.options[g.ports[id].options[m] as int].dep_origins.len(),
    ensures
        ({
            let x = g.options[g.ports[id].options[m] as int].dep_origins[d];
            rows::rows_of(g).contains(
                rows::leaf_row(
                    2,
                    RowKindView::DependsOn {
                        origin: x,
                        active: g.by_origin.contains_key(x) && g.live[g.by_origin[x] as int],
                    },
                    NodeId::Ref,
                ),
            )
        }),
{
    let p = g.ports[id];
    let k = p.options[m] as int;
    let deps = g.options[k].dep_origins;
    let at = lemma_placed(g, id);
    let all = rows::dep_rows(g, deps);
    let row = all[d];
    assert(all.contains(row));
    reply::lemma_in_sum(seq![rows::option_row(g, k)], all, row);
    lemma_blocks_hold(g, p.options, p.options.len() as int, m, row);
    lemma_open_block(g, id, row);
    lemma_rows_hold(g, g.order.len() as int, at, row);
}

/// An open port that is listed shows, in the sections that are open, everything
/// that it needs whatever its options say, and every port of the build that
/// pulls it in, with the option that does.
pub proof fn every_relationship_is_shown(g: GraphView, id: int)
    requires
        graph::listed(g.order, id),
        0 <= id < g.ports.len(),
        is_listed(g, id),
        g.ports[id].is_expanded,
    ensures
        forall|d: int|
            0 <= d < g.ports[id].requires.len() && g.ports[id].requires_section.is_expanded
                ==> rows::rows_of(g).contains(
                rows::leaf_row(
                    2,
                    RowKindView::RequiresEntry { origin: #[trigger] g.ports[id].requires[d] },
                    NodeId::Ref,
                ),
            ),
        forall|d: int|
            0 <= d < g.ports[id].required_by.len() && g.ports[id].required_by_section.is_expanded
                && g.by_origin.contains_key((#[trigger] g.ports[id].required_by[d]).origin)
                && g.live[g.by_origin[g.ports[id].required_by[d].origin] as int]
                ==> rows::rows_of(g).contains(
                rows::leaf_row(
                    2,
                    RowKindView::RequiredByEntry {
                        origin: g.ports[id].required_by[d].origin,
                        via_option: g.ports[id].required_by[d].via_option,
                    },
                    NodeId::Ref,
                ),
            ),
{
    let p = g.ports[id];
    let n = g.order.len() as int;
    let at = lemma_placed(g, id);
    assert forall|d: int|
        0 <= d < p.requires.len() && p.requires_section.is_expanded implies rows::rows_of(
        g,
    ).contains(
        rows::leaf_row(
            2,
            RowKindView::RequiresEntry { origin: #[trigger] p.requires[d] },
            NodeId::Ref,
        ),
    ) by {
        let row = rows::leaf_row(
            2,
            RowKindView::RequiresEntry { origin: p.requires[d] },
            NodeId::Ref,
        );
        let b = rows::requires_block(g, id);
        assert(b[d + 1] == row);
        assert(b.contains(row));
        lemma_open_block(g, id, row);
        lemma_rows_hold(g, n, at, row);
    }
    let parents = rows::live_parents(g, p);
    let keep = |e: RequiredByView| live::live_at(g, e.origin);
    assert forall|d: int|
        0 <= d < p.required_by.len() && p.required_by_section.is_expanded
            && g.by_origin.contains_key((#[trigger] p.required_by[d]).origin)
            && g.live[g.by_origin[p.required_by[d].origin] as int] implies rows::rows_of(
        g,
    ).contains(
        rows::leaf_row(
            2,
            RowKindView::RequiredByEntry {
                origin: p.required_by[d].origin,
                via_option: p.required_by[d].via_option,
            },
            NodeId::Ref,
        ),
    ) by {
        let e = p.required_by[d];
        let row = rows::leaf_row(
            2,
            RowKindView::RequiredByEntry { origin: e.origin, via_option: e.via_option },
            NodeId::Ref,
        );
        assert(keep(e));
        lemma_filtered(p.required_by, keep, d);
        assert(parents =~= p.required_by.filter(keep));
        let q = choose|q: int| 0 <= q < parents.len() && parents[q] == e;
        let b = rows::parents_block(g, id);
        assert(b[q + 1] == row);
        assert(b.contains(row));
        lemma_open_block(g, id, row);
        lemma_rows_hold(g, n, at, row);
    }
}

proof fn lemma_filtered(s: Seq<RequiredByView>, keep: spec_fn(RequiredByView) -> bool, d: int)
    requires
        0 <= d < s.len(),
        keep(s[d]),
    ensures
        s.filter(keep).contains(s[d]),
    decreases s.len(),
{
    reveal(Seq::filter);
    let t = s.drop_last();
    let r = s.filter(keep);
    if d < t.len() {
        lemma_filtered(t, keep, d);
        assert(t[d] == s[d]);
        let q = choose|q: int| 0 <= q < t.filter(keep).len() && t.filter(keep)[q] == s[d];
        assert(r[q] == s[d]);
    } else {
        assert(r.last() == s[d]);
    }
}

} // verus!
