//! The dependency graph: every distinct port reachable from the requested
//! ones, held once each, with its options and its relationships.
use crate::order;
use crate::text;
use vstd::hash_map::StringHashMap;
use vstd::prelude::*;

pub mod adopt;
pub mod asked;
pub mod carried;
pub mod choice;
pub mod exclusive;
pub mod fold;
pub mod follow;
pub mod groups;
pub mod grow;
pub mod harmony;
pub mod index;
pub mod laws;
pub mod listing;
pub mod live;
pub mod naming;
pub mod opened;
pub mod places;
pub mod preload;
pub mod query;
pub mod relations;
pub mod rounds;
pub mod rows;
pub mod rules;
pub mod settle;
pub mod shown;
pub mod targets;
pub mod walk;

verus! {

/// What a change of the whole list or of a subtree did.
#[derive(Debug, Clone, Copy, PartialEq, Eq, Structural)]
pub enum Mode {
    Expand,
    Collapse,
    Unset,
}

/// Why a port is in the list. A port named on the command line stays
/// `Requested` even when something else depends on it as well.
#[derive(Debug, Clone, Copy, PartialEq, Eq, Structural)]
pub enum Provenance {
    Requested,
    Dependency,
}

/// The two relationship sections shown beneath a port.
#[derive(Debug, Clone, Copy, PartialEq, Eq, Structural)]
pub enum SectionKind {
    /// Ports pulled in whatever the options say.
    Requires,
    /// Ports that pull this one in, by option or unconditionally.
    RequiredBy,
}

/// What a row stands for.
#[derive(Debug, Clone, Copy, PartialEq, Eq, Structural)]
pub enum NodeId {
    Port(usize),
    Option(usize),
    Section { port: usize, kind: SectionKind },
    /// A jump target. The origin it points at lives in the row's `RowKind`.
    Ref,
    Info,
}

/// What a row shows.
#[derive(Debug, Clone)]
pub enum RowKind {
    Port {
        origin: String,
        provenance: Provenance,
        /// False when `make` could not evaluate this port.
        resolved: bool,
    },
    Option {
        name: String,
        description: String,
        enabled: bool,
        group_type: String,
        group_name: String,
    },
    /// A port the option above it pulls in.
    DependsOn {
        origin: String,
        /// False when nothing currently pulls this port in.
        active: bool,
    },
    SectionHeader { kind: SectionKind, count: usize },
    RequiresEntry { origin: String },
    RequiredByEntry {
        origin: String,
        /// Set when that port depends on this one only because an option is on.
        via_option: Option<String>,
    },
    Info { message: String },
}

/// What a `RowKind` says.
pub enum RowKindView {
    Port { origin: Seq<char>, provenance: Provenance, resolved: bool },
    Option {
        name: Seq<char>,
        description: Seq<char>,
        enabled: bool,
        group_type: Seq<char>,
        group_name: Seq<char>,
    },
    DependsOn { origin: Seq<char>, active: bool },
    SectionHeader { kind: SectionKind, count: nat },
    RequiresEntry { origin: Seq<char> },
    RequiredByEntry { origin: Seq<char>, via_option: Option<Seq<char>> },
    Info { message: Seq<char> },
}

impl View for RowKind {
    type V = RowKindView;

    open spec fn view(&self) -> RowKindView {
        match *self {
            RowKind::Port { origin, provenance, resolved } => RowKindView::Port {
                origin: origin@,
                provenance,
                resolved,
            },
            RowKind::Option { name, description, enabled, group_type, group_name } => {
                RowKindView::Option {
                    name: name@,
                    description: description@,
                    enabled,
                    group_type: group_type@,
                    group_name: group_name@,
                }
            },
            RowKind::DependsOn { origin, active } => RowKindView::DependsOn {
                origin: origin@,
                active,
            },
            RowKind::SectionHeader { kind, count } => RowKindView::SectionHeader {
                kind,
                count: count as nat,
            },
            RowKind::RequiresEntry { origin } => RowKindView::RequiresEntry { origin: origin@ },
            RowKind::RequiredByEntry { origin, via_option } => RowKindView::RequiredByEntry {
                origin: origin@,
                via_option: text::opt_text(via_option),
            },
            RowKind::Info { message } => RowKindView::Info { message: message@ },
        }
    }
}

/// The port that a row points at, for rows that are jump targets.
pub open spec fn target_of(kind: RowKindView) -> Option<Seq<char>> {
    match kind {
        RowKindView::DependsOn { origin, active } => Some(origin),
        RowKindView::RequiresEntry { origin } => Some(origin),
        RowKindView::RequiredByEntry { origin, via_option } => Some(origin),
        _ => None,
    }
}

impl RowKind {
    /// The port a row points at, for rows that are jump targets.
    pub fn jump_target(&self) -> (r: Option<&str>)
        ensures
            match r {
                Some(s) => target_of(self@) == Some(s@),
                None => target_of(self@) is None,
            },
    {
        match self {
            RowKind::DependsOn { origin, .. } => Some(origin.as_str()),
            RowKind::RequiresEntry { origin } => Some(origin.as_str()),
            RowKind::RequiredByEntry { origin, .. } => Some(origin.as_str()),
            _ => None,
        }
    }
}

/// One row of the list.
#[derive(Debug, Clone)]
pub struct VisibleRow {
    pub depth: usize,
    pub kind: RowKind,
    pub is_expanded: bool,
    pub has_children: bool,
    pub node_id: NodeId,
}

/// What a `VisibleRow` says.
pub struct RowView {
    pub depth: nat,
    pub kind: RowKindView,
    pub is_expanded: bool,
    pub has_children: bool,
    pub node_id: NodeId,
}

impl View for VisibleRow {
    type V = RowView;

    open spec fn view(&self) -> RowView {
        RowView {
            depth: self.depth as nat,
            kind: self.kind@,
            is_expanded: self.is_expanded,
            has_children: self.has_children,
            node_id: self.node_id,
        }
    }
}

/// A row named in terms that survive the row list being rebuilt.
#[derive(Debug, Clone, Copy, PartialEq, Eq, Structural)]
pub enum RowAnchor {
    Port(usize),
    Option(usize),
    Section { port: usize, kind: SectionKind },
}

/// One entry in a port's `required by` list.
#[derive(Debug, Clone, PartialEq, Eq)]
pub struct RequiredBy {
    pub origin: String,
    pub via_option: Option<String>,
}

/// What a `RequiredBy` says.
pub struct RequiredByView {
    pub origin: Seq<char>,
    pub via_option: Option<Seq<char>>,
}

impl View for RequiredBy {
    type V = RequiredByView;

    open spec fn view(&self) -> RequiredByView {
        RequiredByView { origin: self.origin@, via_option: text::opt_text(self.via_option) }
    }
}

/// Expansion state for a relationship section, which has no node of its own.
#[derive(Debug, Clone, Copy)]
pub struct SectionState {
    pub is_expanded: bool,
    pub last_single_seq: u64,
}

impl Default for SectionState {
    fn default() -> (r: Self)
        ensures
            r == closed_section(),
    {
        SectionState { is_expanded: false, last_single_seq: 0 }
    }
}

/// A section as it is before anything opened it.
pub open spec fn closed_section() -> SectionState {
    SectionState { is_expanded: false, last_single_seq: 0 }
}

/// One option of one port.
#[derive(Debug, Clone)]
pub struct OptionNode {
    pub id: usize,
    pub port_origin: String,
    pub name: String,
    pub description: String,
    pub enabled: bool,
    /// State this option had when the list was loaded, used to detect unsaved edits.
    pub initial_enabled: bool,
    pub group_type: String,
    pub group_name: String,
    pub is_expanded: bool,
    pub last_single_seq: u64,
    pub subtree_seq: u64,
    pub subtree_mode: Mode,
    pub parent_port: usize,
    /// Ports this option pulls in when it is *on*, as origins.
    pub dep_origins: Vec<String>,
    /// Ports pulled in when the option is *off*.
    pub dep_origins_off: Vec<String>,
    /// `dep_origins` resolved to `ports` indices.
    pub dep_idx: Vec<usize>,
    /// As `dep_idx`, for the off-polarity edges.
    pub dep_idx_off: Vec<usize>,
    /// Options this one turns on with it.
    pub implies: Vec<String>,
    /// Options this one cannot coexist with.
    pub prevents: Vec<String>,
}

/// What an `OptionNode` says.
pub struct OptionView {
    pub id: usize,
    pub port_origin: Seq<char>,
    pub name: Seq<char>,
    pub description: Seq<char>,
    pub enabled: bool,
    pub initial_enabled: bool,
    pub group_type: Seq<char>,
    pub group_name: Seq<char>,
    pub is_expanded: bool,
    pub last_single_seq: u64,
    pub subtree_seq: u64,
    pub subtree_mode: Mode,
    pub parent_port: usize,
    pub dep_origins: Seq<Seq<char>>,
    pub dep_origins_off: Seq<Seq<char>>,
    pub dep_idx: Seq<usize>,
    pub dep_idx_off: Seq<usize>,
    pub implies: Seq<Seq<char>>,
    pub prevents: Seq<Seq<char>>,
}

impl View for OptionNode {
    type V = OptionView;

    open spec fn view(&self) -> OptionView {
        OptionView {
            id: self.id,
            port_origin: self.port_origin@,
            name: self.name@,
            description: self.description@,
            enabled: self.enabled,
            initial_enabled: self.initial_enabled,
            group_type: self.group_type@,
            group_name: self.group_name@,
            is_expanded: self.is_expanded,
            last_single_seq: self.last_single_seq,
            subtree_seq: self.subtree_seq,
            subtree_mode: self.subtree_mode,
            parent_port: self.parent_port,
            dep_origins: text::texts(self.dep_origins@),
            dep_origins_off: text::texts(self.dep_origins_off@),
            dep_idx: self.dep_idx@,
            dep_idx_off: self.dep_idx_off@,
            implies: text::texts(self.implies@),
            prevents: text::texts(self.prevents@),
        }
    }
}

/// One port of the list.
#[derive(Debug, Clone)]
pub struct PortEntry {
    pub id: usize,
    pub origin: String,
    pub provenance: Provenance,
    /// Whether `make` could evaluate this port.
    pub resolved: bool,
    pub options: Vec<usize>,
    /// Dependencies pulled in whatever the options say.
    pub requires: Vec<String>,
    /// `requires` resolved to `ports` indices.
    pub requires_idx: Vec<usize>,
    /// Inverse of every forward edge, both conditional and unconditional.
    pub required_by: Vec<RequiredBy>,
    pub is_expanded: bool,
    pub last_single_seq: u64,
    pub subtree_seq: u64,
    pub subtree_mode: Mode,
    pub requires_section: SectionState,
    pub required_by_section: SectionState,
}

/// What a `PortEntry` says.
pub struct PortView {
    pub id: usize,
    pub origin: Seq<char>,
    pub provenance: Provenance,
    pub resolved: bool,
    pub options: Seq<usize>,
    pub requires: Seq<Seq<char>>,
    pub requires_idx: Seq<usize>,
    pub required_by: Seq<RequiredByView>,
    pub is_expanded: bool,
    pub last_single_seq: u64,
    pub subtree_seq: u64,
    pub subtree_mode: Mode,
    pub requires_section: SectionState,
    pub required_by_section: SectionState,
}

impl View for PortEntry {
    type V = PortView;

    open spec fn view(&self) -> PortView {
        PortView {
            id: self.id,
            origin: self.origin@,
            provenance: self.provenance,
            resolved: self.resolved,
            options: self.options@,
            requires: text::texts(self.requires@),
            requires_idx: self.requires_idx@,
            required_by: order::views(self.required_by@),
            is_expanded: self.is_expanded,
            last_single_seq: self.last_single_seq,
            subtree_seq: self.subtree_seq,
            subtree_mode: self.subtree_mode,
            requires_section: self.requires_section,
            required_by_section: self.required_by_section,
        }
    }
}

/// A named set of ports whose option choices are kept in step.
#[derive(Debug, Clone)]
pub struct Group {
    pub name: String,
    pub members: Vec<String>,
}

/// What a `Group` says.
pub struct GroupView {
    pub name: Seq<char>,
    pub members: Seq<Seq<char>>,
}

impl View for Group {
    type V = GroupView;

    open spec fn view(&self) -> GroupView {
        GroupView { name: self.name@, members: text::texts(self.members@) }
    }
}

/// Every distinct port reachable from the requested targets, held once each.
///
/// The list is flat and alphabetised rather than nested: relationships are
/// shown as references that jump to the single entry for that port.
pub struct DependencyGraph {
    pub root_origin: String,
    pub ports: Vec<PortEntry>,
    pub option_nodes: Vec<OptionNode>,
    /// Origin -> index into `ports`, for resolving jump targets.
    pub by_origin: StringHashMap<usize>,
    /// Ports something currently pulls in: the requested ports, plus whatever is
    /// reachable from them through the options as they are set and through
    /// unconditional dependencies. Ports outside it stay in `ports` with their
    /// option state intact. Indexed by position in `ports`.
    pub live: Vec<bool>,
    /// Indices into `ports`, alphabetised by origin.
    pub order: Vec<usize>,
    pub visible_rows: Vec<VisibleRow>,
    /// Port origin -> package name, for the header of an options file.
    pub pkg_names: StringHashMap<String>,
    /// Named sets of ports whose option choices are kept in step, by name.
    /// Members not in the current list are carried along untouched.
    pub groups: Vec<Group>,
    /// Leave out ports that define no options at all. Ports `make` could not
    /// read are kept either way.
    pub hide_optionless: bool,
    pub global_mode: Mode,
    pub last_global_seq: u64,
    pub current_seq: u64,
    pub search_query: String,
}

/// What a `DependencyGraph` says.
pub struct GraphView {
    pub root_origin: Seq<char>,
    pub ports: Seq<PortView>,
    pub options: Seq<OptionView>,
    pub by_origin: Map<Seq<char>, usize>,
    pub live: Seq<bool>,
    pub order: Seq<usize>,
    pub rows: Seq<RowView>,
    pub pkg_names: Map<Seq<char>, Seq<char>>,
    pub groups: Seq<GroupView>,
    pub hide_optionless: bool,
    pub global_mode: Mode,
    pub last_global_seq: u64,
    pub current_seq: u64,
    pub search: Seq<char>,
}

/// The texts that a map of strings holds.
pub open spec fn text_map(m: Map<Seq<char>, String>) -> Map<Seq<char>, Seq<char>> {
    Map::new(|k: Seq<char>| m.contains_key(k), |k: Seq<char>| m[k]@)
}

impl View for DependencyGraph {
    type V = GraphView;

    open spec fn view(&self) -> GraphView {
        GraphView {
            root_origin: self.root_origin@,
            ports: order::views(self.ports@),
            options: order::views(self.option_nodes@),
            by_origin: self.by_origin@,
            live: self.live@,
            order: self.order@,
            rows: order::views(self.visible_rows@),
            pkg_names: text_map(self.pkg_names@),
            groups: order::views(self.groups@),
            hide_optionless: self.hide_optionless,
            global_mode: self.global_mode,
            last_global_seq: self.last_global_seq,
            current_seq: self.current_seq,
            search: self.search_query@,
        }
    }
}

/// The numbers by which ports and options refer to each other are in range,
/// and agree.
pub open spec fn shape_ok(ports: Seq<PortView>, options: Seq<OptionView>) -> bool {
    &&& forall|i: int| 0 <= i < ports.len() ==> #[trigger] port_ok(ports, options, i)
    &&& forall|k: int| 0 <= k < options.len() ==> #[trigger] option_ok(ports, options, k)
}

/// Port `i` knows its own number, and its options know it.
pub open spec fn port_ok(ports: Seq<PortView>, options: Seq<OptionView>, i: int) -> bool {
    let p = ports[i];
    &&& p.id == i
    &&& p.options.no_duplicates()
    &&& forall|j: int|
        0 <= j < p.options.len() ==> (#[trigger] p.options[j]) < options.len()
            && options[p.options[j] as int].parent_port == i
    &&& in_range(p.requires_idx, ports.len())
}

/// Option `k` knows its own number, and is an option of the port it names.
pub open spec fn option_ok(ports: Seq<PortView>, options: Seq<OptionView>, k: int) -> bool {
    let o = options[k];
    &&& o.id == k
    &&& o.parent_port < ports.len()
    &&& listed(ports[o.parent_port as int].options, k)
    &&& o.port_origin == ports[o.parent_port as int].origin
    &&& in_range(o.dep_idx, ports.len())
    &&& in_range(o.dep_idx_off, ports.len())
}

/// Whether a number stands in a list.
pub open spec fn listed(s: Seq<usize>, k: int) -> bool {
    exists|m: int| 0 <= m < s.len() && #[trigger] s[m] == k
}

/// Every number of a list is below `n`.
pub open spec fn in_range(s: Seq<usize>, n: nat) -> bool {
    forall|i: int| 0 <= i < s.len() ==> #[trigger] s[i] < n
}

/// The origin index finds every port, and nothing else.
pub open spec fn index_ok(ports: Seq<PortView>, by: Map<Seq<char>, usize>) -> bool {
    &&& forall|i: int|
        0 <= i < ports.len() ==> by.contains_key((#[trigger] ports[i]).origin)
            && by[ports[i].origin] == i
    &&& forall|o: Seq<char>| #[trigger]
        by.contains_key(o) ==> by[o] < ports.len() && ports[by[o] as int].origin == o
}

/// A row stands for a port or an option that there is.
pub open spec fn row_ok(row: RowView, n_ports: nat, n_options: nat) -> bool {
    match row.node_id {
        NodeId::Port(id) => id < n_ports,
        NodeId::Option(id) => id < n_options,
        NodeId::Section { port, kind } => port < n_ports,
        _ => true,
    }
}

/// Every row stands for a port or an option that there is.
pub open spec fn rows_ok(rows: Seq<RowView>, n_ports: nat, n_options: nat) -> bool {
    forall|i: int| 0 <= i < rows.len() ==> row_ok(#[trigger] rows[i], n_ports, n_options)
}

/// The names of the groups are in strict order.
pub open spec fn groups_ok(groups: Seq<GroupView>) -> bool {
    forall|i: int, j: int|
        0 <= i < j < groups.len() ==> order::text_lt(
            (#[trigger] groups[i]).name,
            (#[trigger] groups[j]).name,
        )
}

impl GraphView {
    /// What holds of every graph: its numbers are in range and agree.
    pub open spec fn wf(self) -> bool {
        &&& shape_ok(self.ports, self.options)
        &&& index_ok(self.ports, self.by_origin)
        &&& self.live.len() == self.ports.len()
        &&& in_range(self.order, self.ports.len())
        &&& rows_ok(self.rows, self.ports.len(), self.options.len())
        &&& groups_ok(self.groups)
    }
}

impl DependencyGraph {
    /// Index into `ports` for an origin, for resolving a jump.
    pub fn port_index(&self, origin: &str) -> (r: Option<usize>)
        ensures
            r == index_of(self@, origin@),
    {
        match self.by_origin.get(origin) {
            Some(i) => Some(*i),
            None => None,
        }
    }
}

/// Where an origin stands in the list of ports.
pub open spec fn index_of(g: GraphView, origin: Seq<char>) -> Option<usize> {
    if g.by_origin.contains_key(origin) {
        Some(g.by_origin[origin])
    } else {
        None
    }
}

} // verus!
