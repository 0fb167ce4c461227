//! The rows of the list, and what becomes of them when something is expanded,
//! collapsed or searched for.
use super::index;
use super::live;
use super::{
    DependencyGraph, GraphView, NodeId, PortView, RequiredByView, RowKind, RowKindView, RowView,
    SectionKind, VisibleRow,
};
use crate::graph;
use crate::order;
use crate::text;
use vstd::prelude::*;

verus! {

/// A text in lower case, as Unicode defines it.
pub uninterp spec fn lowercased(s: Seq<char>) -> Seq<char>;

/// `str::to_lowercase`: the text in lower case, which depends on the text
/// alone.
pub assume_specification[ str::to_lowercase ](s: &str) -> (r: String)
    ensures
        r@ == lowercased(s@),
;

/// Whether a search for `query` keeps a port, both in lower case: an empty
/// query keeps every port, any other those whose origin holds it.
pub open spec fn search_keeps(query: Seq<char>, origin: Seq<char>) -> bool {
    query.len() == 0 || text::has_part(origin, query)
}

/// Whether a search for `query` keeps a port, both in lower case.
pub fn matches_search(query: &str, origin: &str) -> (r: bool)
    ensures
        r == search_keeps(query@, origin@),
{
    query.is_empty() || text::contains(origin, query)
}

/// A port with nothing to decide about it: it defines no options, and was read
/// successfully.
pub open spec fn optionless(p: PortView) -> bool {
    p.options.len() == 0 && p.resolved
}

/// The parents of a port that are themselves pulled in.
pub open spec fn live_parents(g: GraphView, p: PortView) -> Seq<RequiredByView> {
    p.required_by.filter(|e: RequiredByView| live::live_at(g, e.origin))
}

/// Whether there is anything beneath a port.
pub open spec fn has_children(g: GraphView, p: PortView) -> bool {
    p.options.len() > 0 || p.requires.len() > 0 || live_parents(g, p).len() > 0
}

/// The row of a port itself.
pub open spec fn head_row(g: GraphView, id: int) -> RowView {
    let p = g.ports[id];
    RowView {
        depth: 0,
        kind: RowKindView::Port {
            origin: p.origin,
            provenance: p.provenance,
            resolved: p.resolved,
        },
        is_expanded: p.is_expanded,
        has_children: has_children(g, p),
        node_id: NodeId::Port(id as usize),
    }
}

/// A row that only says something, beneath another.
pub open spec fn leaf_row(depth: nat, kind: RowKindView, node_id: NodeId) -> RowView {
    RowView { depth, kind, is_expanded: false, has_children: false, node_id }
}

/// What an open port with nothing beneath it says. A port that defines nothing
/// is finished; one that could not be read is missing whatever it would have
/// defined.
pub open spec fn empty_note(p: PortView) -> Seq<char> {
    if p.resolved {
        "(No options defined for this port)"@
    } else {
        "(make could not evaluate this port - options unknown; re-run 'bgone index')"@
    }
}

/// The row of an option.
pub open spec fn option_row(g: GraphView, id: int) -> RowView {
    let o = g.options[id];
    RowView {
        depth: 1,
        kind: RowKindView::Option {
            name: o.name,
            description: o.description,
            enabled: o.enabled,
            group_type: o.group_type,
            group_name: o.group_name,
        },
        is_expanded: o.is_expanded,
        has_children: o.dep_origins.len() > 0,
        node_id: NodeId::Option(id as usize),
    }
}

/// The rows of what an option pulls in when it is on.
pub open spec fn dep_rows(g: GraphView, deps: Seq<Seq<char>>) -> Seq<RowView> {
    Seq::new(
        deps.len(),
        |d: int|
            leaf_row(
                2,
                RowKindView::DependsOn {
                    origin: deps[d],
                    active: live::live_at(g, deps[d]),
                },
                NodeId::Ref,
            ),
    )
}

/// The rows of one option: its own, and what it pulls in where it is open.
pub open spec fn option_block(g: GraphView, id: int) -> Seq<RowView> {
    let o = g.options[id];
    seq![option_row(g, id)] + if o.is_expanded {
        dep_rows(g, o.dep_origins)
    } else {
        seq![]
    }
}

/// The rows of the first `m` options of a list.
pub open spec fn option_blocks(g: GraphView, ids: Seq<usize>, m: int) -> Seq<RowView>
    decreases m,
{
    if m <= 0 {
        seq![]
    } else {
        option_blocks(g, ids, m - 1) + option_block(g, ids[m - 1] as int)
    }
}

/// The heading of a relationship section.
pub open spec fn section_row(
    id: int,
    kind: SectionKind,
    count: nat,
    is_expanded: bool,
) -> RowView {
    RowView {
        depth: 1,
        kind: RowKindView::SectionHeader { kind, count },
        is_expanded,
        has_children: true,
        node_id: NodeId::Section { port: id as usize, kind },
    }
}

/// The section of what a port pulls in whatever its options say.
pub open spec fn requires_block(g: GraphView, id: int) -> Seq<RowView> {
    let p = g.ports[id];
    if p.requires.len() == 0 {
        seq![]
    } else {
        seq![
            section_row(
                id,
                SectionKind::Requires,
                p.requires.len(),
                p.requires_section.is_expanded,
            ),
        ] + if p.requires_section.is_expanded {
            Seq::new(
                p.requires.len(),
                |d: int|
                    leaf_row(
                        2,
                        RowKindView::RequiresEntry { origin: p.requires[d] },
                        NodeId::Ref,
                    ),
            )
        } else {
            seq![]
        }
    }
}

/// The section of what pulls a port in.
pub open spec fn parents_block(g: GraphView, id: int) -> Seq<RowView> {
    let p = g.ports[id];
    let parents = live_parents(g, p);
    if parents.len() == 0 {
        seq![]
    } else {
        seq![
            section_row(
                id,
                SectionKind::RequiredBy,
                parents.len(),
                p.required_by_section.is_expanded,
            ),
        ] + if p.required_by_section.is_expanded {
            Seq::new(
                parents.len(),
                |d: int|
                    leaf_row(
                        2,
                        RowKindView::RequiredByEntry {
                            origin: parents[d].origin,
                            via_option: parents[d].via_option,
                        },
                        NodeId::Ref,
                    ),
            )
        } else {
            seq![]
        }
    }
}

/// The rows of one port: none where nothing pulls it in, and its own alone
/// where it is closed.
pub open spec fn port_block(g: GraphView, id: int) -> Seq<RowView> {
    let p = g.ports[id];
    if !g.live[id] {
        seq![]
    } else if !p.is_expanded {
        seq![head_row(g, id)]
    } else if !has_children(g, p) {
        seq![
            head_row(g, id),
            leaf_row(1, RowKindView::Info { message: empty_note(p) }, NodeId::Info),
        ]
    } else {
        seq![head_row(g, id)] + option_blocks(g, p.options, p.options.len() as int)
            + requires_block(g, id) + parents_block(g, id)
    }
}

/// Whether a port is among those listed: a search narrows them, and ports with
/// nothing to decide can be left out. An empty search narrows nothing.
pub open spec fn shown(g: GraphView, id: int) -> bool {
    &&& g.search.len() == 0 || search_keeps(
        lowercased(g.search),
        lowercased(g.ports[id].origin),
    )
    &&& !(g.hide_optionless && optionless(g.ports[id]))
}

/// The rows of the first `n` ports in order.
pub open spec fn rows_upto(g: GraphView, n: int) -> Seq<RowView>
    decreases n,
{
    if n <= 0 {
        seq![]
    } else {
        let id = g.order[n - 1] as int;
        rows_upto(g, n - 1) + if shown(g, id) {
            port_block(g, id)
        } else {
            seq![]
        }
    }
}

/// The rows of a graph.
pub open spec fn rows_of(g: GraphView) -> Seq<RowView> {
    rows_upto(g, g.order.len() as int)
}

/// A graph with its rows rebuilt.
pub open spec fn rerowed(g: GraphView) -> GraphView {
    GraphView { rows: rows_of(g), ..g }
}

/// What a row list needs to be rebuilt: numbers in range.
pub open spec fn drawable(g: GraphView) -> bool {
    &&& graph::shape_ok(g.ports, g.options)
    &&& graph::index_ok(g.ports, g.by_origin)
    &&& g.live.len() == g.ports.len()
    &&& graph::in_range(g.order, g.ports.len())
}

impl DependencyGraph {
    /// Whether this origin is in the list and pulled in.
    fn live_now(&self, origin: &str) -> (r: bool)
        requires
            drawable(self@),
        ensures
            r == live::live_at(self@, origin@),
    {
        match self.port_index(origin) {
            Some(i) => self.live[i],
            None => false,
        }
    }

    /// A port with nothing to decide about it.
    pub fn is_optionless(&self, port_id: usize) -> (r: bool)
        requires
            port_id < self@.ports.len(),
        ensures
            r == optionless(self@.ports[port_id as int]),
    {
        self.ports[port_id].options.len() == 0 && self.ports[port_id].resolved
    }

    /// Appends the rows of one option.
    fn flatten_option(&self, opt_id: usize, rows: &mut Vec<VisibleRow>)
        requires
            drawable(self@),
            opt_id < self@.options.len(),
        ensures
            order::views(final(rows)@) == order::views(old(rows)@) + option_block(
                self@,
                opt_id as int,
            ),
    {
        broadcast use order::lemma_views_push;

        let ghost g = self@;
        let ghost o = g.options[opt_id as int];
        let ghost base = order::views(rows@);
        proof {
            assert(o == self.option_nodes@[opt_id as int]@);
        }
        let opt = &self.option_nodes[opt_id];
        rows.push(
            VisibleRow {
                depth: 1,
                kind: RowKind::Option {
                    name: opt.name.clone(),
                    description: opt.description.clone(),
                    enabled: opt.enabled,
                    group_type: opt.group_type.clone(),
                    group_name: opt.group_name.clone(),
                },
                is_expanded: opt.is_expanded,
                has_children: opt.dep_origins.len() > 0,
                node_id: NodeId::Option(opt_id),
            },
        );
        let ghost first = base.push(option_row(g, opt_id as int));
        proof {
            assert(order::views(rows@) =~= first);
        }
        if opt.is_expanded {
            let ghost all = dep_rows(g, o.dep_origins);
            let mut d: usize = 0;
            proof {
                assert(first + all.take(0) =~= first);
            }
            while d < opt.dep_origins.len()
                invariant
                    d <= o.dep_origins.len(),
                    *opt == self.option_nodes@[opt_id as int],
                    o == opt@,
                    g == self@,
                    drawable(g),
                    all == dep_rows(g, o.dep_origins),
                    order::views(rows@) == first + all.take(d as int),
                decreases o.dep_origins.len() - d,
            {
                let active = self.live_now(opt.dep_origins[d].as_str());
                rows.push(
                    VisibleRow {
                        depth: 2,
                        kind: RowKind::DependsOn { origin: opt.dep_origins[d].clone(), active },
                        is_expanded: false,
                        has_children: false,
                        node_id: NodeId::Ref,
                    },
                );
                proof {
                    assert(o.dep_origins[d as int] == opt.dep_origins@[d as int]@);
                    assert(first + all.take(d + 1) =~= (first + all.take(d as int)).push(
                        all[d as int],
                    ));
                }
                d += 1;
            }
            proof {
                assert(all.take(all.len() as int) =~= all);
            }
        }
        proof {
            assert(order::views(rows@) =~= base + option_block(g, opt_id as int));
        }
    }

    /// Appends the section of what a port pulls in whatever its options say.
    fn flatten_requires(&self, port_id: usize, rows: &mut Vec<VisibleRow>)
        requires
            port_id < self@.ports.len(),
        ensures
            order::views(final(rows)@) == order::views(old(rows)@) + requires_block(
                self@,
                port_id as int,
            ),
    {
        broadcast use order::lemma_views_push;

        let ghost g = self@;
        let ghost p = g.ports[port_id as int];
        let ghost base = order::views(rows@);
        proof {
            assert(p == self.ports@[port_id as int]@);
        }
        let port = &self.ports[port_id];
        if port.requires.len() == 0 {
            proof {
                assert(base + requires_block(g, port_id as int) =~= base);
            }
            return;
        }
        rows.push(
            VisibleRow {
                depth: 1,
                kind: RowKind::SectionHeader {
                    kind: SectionKind::Requires,
                    count: port.requires.len(),
                },
                is_expanded: port.requires_section.is_expanded,
                has_children: true,
                node_id: NodeId::Section { port: port_id, kind: SectionKind::Requires },
            },
        );
        let ghost first = order::views(rows@);
        if port.requires_section.is_expanded {
            let ghost all = Seq::new(
                p.requires.len(),
                |d: int|
                    leaf_row(
                        2,
                        RowKindView::RequiresEntry { origin: p.requires[d] },
                        NodeId::Ref,
                    ),
            );
            let mut d: usize = 0;
            proof {
                assert(first + all.take(0) =~= first);
            }
            while d < port.requires.len()
                invariant
                    d <= p.requires.len(),
                    p == port@,
                    all == Seq::new(
                        p.requires.len(),
                        |d: int|
                            leaf_row(
                                2,
                                RowKindView::RequiresEntry { origin: p.requires[d] },
                                NodeId::Ref,
                            ),
                    ),
                    order::views(rows@) == first + all.take(d as int),
                decreases p.requires.len() - d,
            {
                rows.push(
                    VisibleRow {
                        depth: 2,
                        kind: RowKind::RequiresEntry { origin: port.requires[d].clone() },
                        is_expanded: false,
                        has_children: false,
                        node_id: NodeId::Ref,
                    },
                );
                proof {
                    assert(p.requires[d as int] == port.requires@[d as int]@);
                    assert(first + all.take(d + 1) =~= (first + all.take(d as int)).push(
                        all[d as int],
                    ));
                }
                d += 1;
            }
            proof {
                assert(all.take(all.len() as int) =~= all);
            }
        }
        proof {
            assert(order::views(rows@) =~= base + requires_block(g, port_id as int));
        }
    }

    /// The places, among a port's `required by` entries, of the parents that
    /// are themselves pulled in.
    fn live_parents_at(&self, port_id: usize) -> (r: Vec<usize>)
        requires
            drawable(self@),
            port_id < self@.ports.len(),
        ensures
            ({
                let p = self@.ports[port_id as int];
                &&& graph::in_range(r@, p.required_by.len())
                &&& Seq::new(r@.len(), |i: int| p.required_by[r@[i] as int]) == live_parents(
                    self@,
                    p,
                )
            }),
    {
        let ghost g = self@;
        let ghost p = g.ports[port_id as int];
        let ghost keep = |e: RequiredByView| live::live_at(g, e.origin);
        let port = &self.ports[port_id];
        let mut out: Vec<usize> = Vec::new();
        let mut i: usize = 0;
        proof {
            assert(p == port@);
            assert(p.required_by.take(0).filter(keep) =~= seq![]);
        }
        while i < port.required_by.len()
            invariant
                i <= p.required_by.len(),
                g == self@,
                drawable(g),
                p == port@,
                keep == (|e: RequiredByView| live::live_at(g, e.origin)),
                graph::in_range(out@, p.required_by.len()),
                Seq::new(out@.len(), |j: int| p.required_by[out@[j] as int])
                    == p.required_by.take(i as int).filter(keep),
            decreases p.required_by.len() - i,
        {
            let ghost before = out@;
            proof {
                assert(p.required_by[i as int] == port.required_by@[i as int]@);
                assert(p.required_by.take(i + 1).drop_last() =~= p.required_by.take(i as int));
                assert(p.required_by.take(i + 1).last() == p.required_by[i as int]);
                reveal(Seq::filter);
            }
            if self.live_now(port.required_by[i].origin.as_str()) {
                out.push(i);
                proof {
                    assert(Seq::new(out@.len(), |j: int| p.required_by[out@[j] as int])
                        =~= Seq::new(
                        before.len(),
                        |j: int| p.required_by[before[j] as int],
                    ).push(p.required_by[i as int]));
                }
            }
            i += 1;
        }
        proof {
            assert(p.required_by.take(p.required_by.len() as int) =~= p.required_by);
        }
        out
    }

    /// Appends the section of what pulls a port in.
    fn flatten_parents(&self, port_id: usize, parents: &Vec<usize>, rows: &mut Vec<VisibleRow>)
        requires
            port_id < self@.ports.len(),
            graph::in_range(parents@, self@.ports[port_id as int].required_by.len()),
            Seq::new(
                parents@.len(),
                |i: int| self@.ports[port_id as int].required_by[parents@[i] as int],
            ) == live_parents(self@, self@.ports[port_id as int]),
        ensures
            order::views(final(rows)@) == order::views(old(rows)@) + parents_block(
                self@,
                port_id as int,
            ),
    {
        broadcast use order::lemma_views_push;

        let ghost g = self@;
        let ghost p = g.ports[port_id as int];
        let ghost pv = live_parents(g, p);
        let ghost base = order::views(rows@);
        proof {
            assert(p == self.ports@[port_id as int]@);
            assert(pv.len() == parents@.len());
        }
        let port = &self.ports[port_id];
        if parents.len() == 0 {
            proof {
                assert(base + parents_block(g, port_id as int) =~= base);
            }
            return;
        }
        rows.push(
            VisibleRow {
                depth: 1,
                kind: RowKind::SectionHeader {
                    kind: SectionKind::RequiredBy,
                    count: parents.len(),
                },
                is_expanded: port.required_by_section.is_expanded,
                has_children: true,
                node_id: NodeId::Section { port: port_id, kind: SectionKind::RequiredBy },
            },
        );
        let ghost first = order::views(rows@);
        if port.required_by_section.is_expanded {
            let ghost all = Seq::new(
                pv.len(),
                |d: int|
                    leaf_row(
                        2,
                        RowKindView::RequiredByEntry {
                            origin: pv[d].origin,
                            via_option: pv[d].via_option,
                        },
                        NodeId::Ref,
                    ),
            );
            let mut d: usize = 0;
            proof {
                assert(first + all.take(0) =~= first);
            }
            while d < parents.len()
                invariant
                    d <= parents@.len(),
                    p == port@,
                    pv.len() == parents@.len(),
                    graph::in_range(parents@, p.required_by.len()),
                    forall|i: int|
                        0 <= i < pv.len() ==> #[trigger] pv[i] == p.required_by[parents@[i] as int],
                    all == Seq::new(
                        pv.len(),
                        |d: int|
                            leaf_row(
                                2,
                                RowKindView::RequiredByEntry {
                                    origin: pv[d].origin,
                                    via_option: pv[d].via_option,
                                },
                                NodeId::Ref,
                            ),
                    ),
                    order::views(rows@) == first + all.take(d as int),
                decreases parents@.len() - d,
            {
                let entry = &port.required_by[parents[d]];
                proof {
                    assert(pv[d as int] == p.required_by[parents@[d as int] as int]);
                    assert(p.required_by[parents@[d as int] as int] == entry@);
                }
                rows.push(
                    VisibleRow {
                        depth: 2,
                        kind: RowKind::RequiredByEntry {
                            origin: entry.origin.clone(),
                            via_option: text::copy_opt(&entry.via_option),
                        },
                        is_expanded: false,
                        has_children: false,
                        node_id: NodeId::Ref,
                    },
                );
                proof {
                    assert(first + all.take(d + 1) =~= (first + all.take(d as int)).push(
                        all[d as int],
                    ));
                }
                d += 1;
            }
            proof {
                assert(all.take(all.len() as int) =~= all);
            }
        }
        proof {
            assert(order::views(rows@) =~= base + parents_block(g, port_id as int));
        }
    }

    /// Appends the rows of one port.
    pub fn flatten_port(&self, port_id: usize, rows: &mut Vec<VisibleRow>)
        requires
            drawable(self@),
            port_id < self@.ports.len(),
        ensures
            order::views(final(rows)@) == order::views(old(rows)@) + port_block(
                self@,
                port_id as int,
            ),
    {
        broadcast use order::lemma_views_push;

        let ghost g = self@;
        let ghost p = g.ports[port_id as int];
        let ghost base = order::views(rows@);
        if !self.live[port_id] {
            proof {
                assert(base + port_block(g, port_id as int) =~= base);
            }
            return;
        }
        let parents = self.live_parents_at(port_id);
        let port = &self.ports[port_id];
        proof {
            assert(p == port@);
            assert(live_parents(g, p).len() == parents@.len());
            assert(graph::port_ok(g.ports, g.options, port_id as int));
        }
        let has_any = port.options.len() > 0 || port.requires.len() > 0 || parents.len() > 0;
        rows.push(
            VisibleRow {
                depth: 0,
                kind: RowKind::Port {
                    origin: port.origin.clone(),
                    provenance: port.provenance,
                    resolved: port.resolved,
                },
                is_expanded: port.is_expanded,
                has_children: has_any,
                node_id: NodeId::Port(port_id),
            },
        );
        let ghost first = base.push(head_row(g, port_id as int));
        proof {
            assert(order::views(rows@) =~= first);
        }
        if !port.is_expanded {
            proof {
                assert(first =~= base + port_block(g, port_id as int));
            }
            return;
        }
        if !has_any {
            let message = if port.resolved {
                "(No options defined for this port)".to_owned()
            } else {
                "(make could not evaluate this port - options unknown; re-run 'bgone index')"
                    .to_owned()
            };
            rows.push(
                VisibleRow {
                    depth: 1,
                    kind: RowKind::Info { message },
                    is_expanded: false,
                    has_children: false,
                    node_id: NodeId::Info,
                },
            );
            proof {
                assert(order::views(rows@) =~= base + port_block(g, port_id as int));
            }
            return;
        }
        let mut m: usize = 0;
        proof {
            assert(first + option_blocks(g, p.options, 0) =~= first);
        }
        while m < port.options.len()
            invariant
                m <= p.options.len(),
                p == port@,
                p == g.ports[port_id as int],
                g == self@,
                drawable(g),
                graph::port_ok(g.ports, g.options, port_id as int),
                order::views(rows@) == first + option_blocks(g, p.options, m as int),
            decreases p.options.len() - m,
        {
            let opt_id = port.options[m];
            proof {
                assert(p.options[m as int] == opt_id);
            }
            self.flatten_option(opt_id, rows);
            proof {
                assert(first + option_blocks(g, p.options, m + 1) =~= first + option_blocks(
                    g,
                    p.options,
                    m as int,
                ) + option_block(g, opt_id as int));
            }
            m += 1;
        }
        self.flatten_requires(port_id, rows);
        self.flatten_parents(port_id, &parents, rows);
        proof {
            assert(order::views(rows@) =~= base + port_block(g, port_id as int));
        }
    }

    /// Rebuilds the row list from the state of the ports and options.
    ///
    /// Searching narrows which *ports* are listed, on their origin alone, and a
    /// port that matches is shown whole.
    pub fn rebuild_visible_rows(&mut self)
        requires
            drawable(old(self)@),
        ensures
            final(self)@ == rerowed(old(self)@),
            graph::groups_ok(old(self)@.groups) ==> final(self)@.wf(),
    {
        let ghost g = self@;
        proof {
            assert(self.ports.len() == self.ports@.len());
            assert(self.option_nodes.len() == self.option_nodes@.len());
            if graph::groups_ok(g.groups) {
                lemma_rerowed_wf(g);
            }
        }
        let mut rows: Vec<VisibleRow> = Vec::new();
        let unsearched = self.search_query.as_str().is_empty();
        let query = self.search_query.as_str().to_lowercase();
        let mut n: usize = 0;
        proof {
            assert(order::views(rows@) =~= seq![]);
        }
        while n < self.order.len()
            invariant
                n <= g.order.len(),
                g == self@,
                *self == *old(self),
                drawable(g),
                unsearched == (g.search.len() == 0),
                query@ == lowercased(g.search),
                order::views(rows@) == rows_upto(g, n as int),
            decreases g.order.len() - n,
        {
            let port_id = self.order[n];
            proof {
                assert(g.order[n as int] == port_id);
                assert(g.ports[port_id as int] == self.ports@[port_id as int]@);
            }
            let origin = self.ports[port_id].origin.as_str().to_lowercase();
            if (unsearched || matches_search(query.as_str(), origin.as_str())) && !(
            self.hide_optionless && self.is_optionless(port_id)) {
                self.flatten_port(port_id, &mut rows);
            } else {
                proof {
                    assert(rows_upto(g, n as int) + Seq::<RowView>::empty() =~= rows_upto(
                        g,
                        n as int,
                    ));
                }
            }
            n += 1;
        }
        self.visible_rows = rows;
    }
}

/// Rows that stand for what there is do so one after the other.
proof fn lemma_rows_ok_concat(a: Seq<RowView>, b: Seq<RowView>, n_ports: nat, n_options: nat)
    requires
        graph::rows_ok(a, n_ports, n_options),
        graph::rows_ok(b, n_ports, n_options),
    ensures
        graph::rows_ok(a + b, n_ports, n_options),
{
    assert forall|i: int| 0 <= i < (a + b).len() implies graph::row_ok(
        #[trigger] (a + b)[i],
        n_ports,
        n_options,
    ) by {
        if i < a.len() {
            assert((a + b)[i] == a[i]);
        } else {
            assert((a + b)[i] == b[i - a.len()]);
        }
    }
}

/// The rows of a port stand for what there is.
proof fn lemma_block_ok(g: GraphView, id: int)
    requires
        drawable(g),
        0 <= id < g.ports.len(),
        g.ports.len() <= usize::MAX,
        g.options.len() <= usize::MAX,
    ensures
        graph::rows_ok(port_block(g, id), g.ports.len(), g.options.len()),
{
    let p = g.ports[id];
    assert(graph::port_ok(g.ports, g.options, id));
    lemma_option_blocks_ok(g, p.options, p.options.len() as int);
}

proof fn lemma_option_blocks_ok(g: GraphView, ids: Seq<usize>, m: int)
    requires
        g.options.len() <= usize::MAX,
        m <= ids.len(),
        graph::in_range(ids, g.options.len()),
    ensures
        graph::rows_ok(option_blocks(g, ids, m), g.ports.len(), g.options.len()),
    decreases m,
{
    if m > 0 {
        lemma_option_blocks_ok(g, ids, m - 1);
        assert(ids[m - 1] < g.options.len());
        let id = ids[m - 1] as int;
        assert(graph::rows_ok(option_block(g, id), g.ports.len(), g.options.len()));
        lemma_rows_ok_concat(
            option_blocks(g, ids, m - 1),
            option_block(g, id),
            g.ports.len(),
            g.options.len(),
        );
    }
}

/// The rows of a graph stand for what there is.
pub proof fn lemma_rows_ok(g: GraphView, n: int)
    requires
        drawable(g),
        n <= g.order.len(),
        g.ports.len() <= usize::MAX,
        g.options.len() <= usize::MAX,
    ensures
        graph::rows_ok(rows_upto(g, n), g.ports.len(), g.options.len()),
    decreases n,
{
    if n > 0 {
        lemma_rows_ok(g, n - 1);
        let id = g.order[n - 1] as int;
        lemma_block_ok(g, id);
        lemma_rows_ok_concat(
            rows_upto(g, n - 1),
            if shown(g, id) {
                port_block(g, id)
            } else {
                seq![]
            },
            g.ports.len(),
            g.options.len(),
        );
    }
}

/// A graph with its rows rebuilt is as it has to be.
pub proof fn lemma_rerowed_wf(g: GraphView)
    requires
        drawable(g),
        graph::groups_ok(g.groups),
        g.ports.len() <= usize::MAX,
        g.options.len() <= usize::MAX,
    ensures
        rerowed(g).wf(),
{
    lemma_rows_ok(g, g.order.len() as int);
}

/// A graph that has been settled can be drawn.
pub proof fn lemma_settled(g: GraphView)
    requires
        graph::shape_ok(g.ports, g.options),
        graph::index_ok(g.ports, g.by_origin),
        g.ports.len() <= usize::MAX,
    ensures
        drawable(live::relive(index::reindexed(g))),
{
    index::lemma_reindexed_ok(g);
    index::lemma_ranks(index::origins(g.ports));
}

} // verus!
