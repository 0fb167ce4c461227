//! What opening and closing rows does.
use super::fold;
use super::{GraphView, Mode, NodeId, OptionView, PortView, SectionKind};
use crate::graph;
use vstd::prelude::*;

verus! {

/// Two ports that differ at most in what of them is open.
pub open spec fn same_port(a: PortView, b: PortView) -> bool {
    &&& a.id == b.id
    &&& a.origin == b.origin
    &&& a.options == b.options
    &&& a.requires == b.requires
    &&& a.requires_idx == b.requires_idx
    &&& a.resolved == b.resolved
}

/// Two options that differ at most in whether they are open.
pub open spec fn same_option(a: OptionView, b: OptionView) -> bool {
    &&& a.id == b.id
    &&& a.name == b.name
    &&& a.enabled == b.enabled
    &&& a.parent_port == b.parent_port
    &&& a.group_type == b.group_type
    &&& a.dep_origins == b.dep_origins
}

/// What is open of the ports and the options of a graph, but for one port and
/// one option.
pub open spec fn same_elsewhere(a: GraphView, b: GraphView, port: int, option: int) -> bool {
    &&& a.ports.len() == b.ports.len()
    &&& a.options.len() == b.options.len()
    &&& forall|i: int| 0 <= i < a.ports.len() && i != port ==> #[trigger] a.ports[i] == b.ports[i]
    &&& forall|k: int|
        0 <= k < a.options.len() && k != option ==> #[trigger] a.options[k] == b.options[k]
}

/// Opening or closing a row by itself opens or closes what it stands for, a
/// port, an option or a section, and nothing else.
pub proof fn a_row_is_opened_by_itself(g: GraphView, row: int, expanded: bool)
    requires
        0 <= row < g.rows.len(),
        graph::row_ok(g.rows[row], g.ports.len(), g.options.len()),
    ensures
        ({
            let r = fold::node_at(g, row, expanded);
            match g.rows[row].node_id {
                NodeId::Port(id) => {
                    let p = g.ports[id as int];
                    let q = r.ports[id as int];
                    &&& same_elsewhere(r, g, id as int, -1)
                    &&& q.is_expanded == expanded
                    &&& same_port(q, p)
                    &&& q.requires_section == p.requires_section
                    &&& q.required_by_section == p.required_by_section
                },
                NodeId::Option(id) => {
                    &&& same_elsewhere(r, g, -1, id as int)
                    &&& r.options[id as int].is_expanded == expanded
                    &&& same_option(r.options[id as int], g.options[id as int])
                },
                NodeId::Section { port, kind } => {
                    let p = g.ports[port as int];
                    let q = r.ports[port as int];
                    &&& same_elsewhere(r, g, port as int, -1)
                    &&& same_port(q, p)
                    &&& q.is_expanded == p.is_expanded
                    &&& kind == SectionKind::Requires ==> q.requires_section.is_expanded
                        == expanded && q.required_by_section == p.required_by_section
                    &&& kind == SectionKind::RequiredBy ==> q.required_by_section.is_expanded
                        == expanded && q.requires_section == p.requires_section
                },
                _ => r.ports == g.ports && r.options == g.options,
            }
        }),
{
}

/// Opening or closing all that is beneath a row opens or closes a port with
/// its sections and its options, or an option, or a section, and nothing else.
pub proof fn a_row_is_opened_with_what_is_beneath(g: GraphView, row: int, mode: Mode)
    requires
        0 <= row < g.rows.len(),
        graph::row_ok(g.rows[row], g.ports.len(), g.options.len()),
    ensures
        ({
            let r = fold::tree_at(g, row, mode);
            let expanded = mode == Mode::Expand;
            match g.rows[row].node_id {
                NodeId::Port(id) => {
                    let p = g.ports[id as int];
                    let q = r.ports[id as int];
                    &&& r.ports.len() == g.ports.len()
                    &&& r.options.len() == g.options.len()
                    &&& forall|i: int|
                        0 <= i < g.ports.len() && i != id ==> #[trigger] r.ports[i] == g.ports[i]
                    &&& q.is_expanded == expanded
                    &&& q.requires_section.is_expanded == expanded
                    &&& q.required_by_section.is_expanded == expanded
                    &&& same_port(q, p)
                    &&& forall|k: int|
                        0 <= k < g.options.len() ==> same_option(
                            #[trigger] r.options[k],
                            g.options[k],
                        ) && r.options[k].is_expanded == if exists|j: int|
                            0 <= j < p.options.len() && #[trigger] p.options[j] == k {
                            expanded
                        } else {
                            g.options[k].is_expanded
                        }
                },
                NodeId::Option(id) => {
                    &&& same_elsewhere(r, g, -1, id as int)
                    &&& r.options[id as int].is_expanded == expanded
                    &&& same_option(r.options[id as int], g.options[id as int])
                },
                NodeId::Section { port, kind } => {
                    let p = g.ports[port as int];
                    let q = r.ports[port as int];
                    &&& same_elsewhere(r, g, port as int, -1)
                    &&& same_port(q, p)
                    &&& q.is_expanded == p.is_expanded
                    &&& kind == SectionKind::Requires ==> q.requires_section.is_expanded
                        == expanded && q.required_by_section == p.required_by_section
                    &&& kind == SectionKind::RequiredBy ==> q.required_by_section.is_expanded
                        == expanded && q.requires_section == p.requires_section
                },
                _ => r.ports == g.ports && r.options == g.options,
            }
        }),
{
}

/// Opening or closing everything opens or closes every port, its sections and
/// every option, and changes nothing else of them.
pub proof fn everything_is_opened(g: GraphView, mode: Mode)
    ensures
        ({
            let r = fold::all_folded(g, mode);
            let expanded = mode == Mode::Expand;
            &&& r.ports.len() == g.ports.len()
            &&& r.options.len() == g.options.len()
            &&& forall|i: int|
                0 <= i < g.ports.len() ==> same_port(#[trigger] r.ports[i], g.ports[i])
                    && r.ports[i].is_expanded == expanded
                    && r.ports[i].requires_section.is_expanded == expanded
                    && r.ports[i].required_by_section.is_expanded == expanded
            &&& forall|k: int|
                0 <= k < g.options.len() ==> same_option(#[trigger] r.options[k], g.options[k])
                    && r.options[k].is_expanded == expanded
        }),
{
}

} // verus!
