//! Finding and naming rows, and windows over lists that outgrow the screen.
use super::RecenterPosition;
use crate::graph;
use crate::graph::fold;
use crate::graph::{
    DependencyGraph, GraphView, Group, GroupView, OptionView, RowKind, RowKindView, RowView,
    SectionKind,
};
use crate::order;
use crate::text;
use crate::text::{holds, same};
use vstd::prelude::*;

verus! {

/// The scroll offset that places a row at a position within a viewport.
pub open spec fn offset_for(
    selected: int,
    viewport: int,
    total: int,
    position: RecenterPosition,
) -> int {
    if viewport == 0 {
        selected
    } else {
        let back = match position {
            RecenterPosition::Top => 0,
            RecenterPosition::Middle => viewport / 2,
            RecenterPosition::Bottom => viewport - 1,
        };
        let offset = if selected < back {
            0
        } else {
            selected - back
        };
        let last = if total == 0 {
            0
        } else {
            total - 1
        };
        if offset < last {
            offset
        } else {
            last
        }
    }
}

/// Scroll offset that places `selected` at `position` within a viewport of
/// `viewport_height` rows. The list can never scroll past its first row, so the
/// position is only reached when enough rows precede the cursor.
pub fn recenter_offset(
    selected: usize,
    viewport_height: usize,
    total_rows: usize,
    position: RecenterPosition,
) -> (r: usize)
    ensures
        r == offset_for(
            selected as int,
            viewport_height as int,
            total_rows as int,
            position,
        ),
{
    if viewport_height == 0 {
        return selected;
    }
    let back: usize = match position {
        RecenterPosition::Top => 0,
        RecenterPosition::Middle => viewport_height / 2,
        RecenterPosition::Bottom => viewport_height - 1,
    };
    let offset: usize = if selected < back {
        0
    } else {
        selected - back
    };
    let last: usize = if total_rows == 0 {
        0
    } else {
        total_rows - 1
    };
    if offset < last {
        offset
    } else {
        last
    }
}

/// The first row of a window over `len` rows that contains a cursor: no
/// further down than it has to be.
pub open spec fn window_start(len: int, cursor: int, height: int) -> int {
    if height == 0 || len <= height {
        0
    } else {
        let start = if cursor < height - 1 {
            0
        } else {
            cursor - (height - 1)
        };
        if start < len - height {
            start
        } else {
            len - height
        }
    }
}

/// First row of a `height`-tall window over `len` rows that contains `cursor`.
pub fn scroll_window(len: usize, cursor: usize, height: usize) -> (r: usize)
    ensures
        r == window_start(len as int, cursor as int, height as int),
{
    if height == 0 || len <= height {
        return 0;
    }
    let last_start: usize = len - height;
    let start: usize = if cursor < height - 1 {
        0
    } else {
        cursor - (height - 1)
    };
    if start < last_start {
        start
    } else {
        last_start
    }
}

/// A window over a list holds the row under the cursor and lies within the
/// list, and does not move while the cursor is in its first rows.
pub proof fn window_holds_the_cursor(len: int, cursor: int, height: int)
    requires
        0 <= cursor < len,
        0 < height,
    ensures
        ({
            let start = window_start(len, cursor, height);
            &&& 0 <= start <= cursor < start + height
            &&& start + height <= len || start == 0
        }),
        cursor < height ==> window_start(len, cursor, height) == 0,
{
}

/// Where a port is listed, from `i` on.
pub open spec fn port_row_from(rows: Seq<RowView>, origin: Seq<char>, i: int) -> Option<int>
    decreases rows.len() - i,
{
    if i < 0 || i >= rows.len() {
        None
    } else {
        match rows[i].kind {
            RowKindView::Port { origin: o, provenance, resolved } => if o == origin {
                Some(i)
            } else {
                port_row_from(rows, origin, i + 1)
            },
            _ => port_row_from(rows, origin, i + 1),
        }
    }
}

/// Row index of the port `origin` is listed at, if it is currently listed. A
/// search filter can hide it.
pub fn port_row_index(graph: &DependencyGraph, origin: &str) -> (r: Option<usize>)
    ensures
        match r {
            Some(i) => port_row_from(graph@.rows, origin@, 0) == Some(i as int) && i
                < graph@.rows.len(),
            None => port_row_from(graph@.rows, origin@, 0) is None,
        },
{
    let ghost rows = graph@.rows;
    let mut i: usize = 0;
    while i < graph.visible_rows.len()
        invariant
            i <= graph.visible_rows@.len(),
            rows == order::views(graph.visible_rows@),
            port_row_from(rows, origin@, 0) == port_row_from(rows, origin@, i as int),
        decreases graph.visible_rows@.len() - i,
    {
        proof {
            assert(rows[i as int] == graph.visible_rows@[i as int]@);
        }
        if let RowKind::Port { origin: o, .. } = &graph.visible_rows[i].kind {
            if same(o.as_str(), origin) {
                return Some(i);
            }
        }
        i += 1;
    }
    None
}

/// The port whose block a row is in: the nearest port row at or above it.
pub open spec fn port_above(rows: Seq<RowView>, i: int) -> Option<Seq<char>>
    decreases i + 1,
{
    if i < 0 || i >= rows.len() {
        None
    } else {
        match rows[i].kind {
            RowKindView::Port { origin, provenance, resolved } => Some(origin),
            _ => port_above(rows, i - 1),
        }
    }
}

/// The port whose block `row` is in.
pub fn enclosing_port_origin(graph: &DependencyGraph, row: usize) -> (r: Option<String>)
    ensures
        text::opt_text(r) == port_above(graph@.rows, row as int),
{
    let ghost rows = graph@.rows;
    if row >= graph.visible_rows.len() {
        return None;
    }
    let mut i: usize = row;
    loop
        invariant
            i < graph.visible_rows@.len(),
            rows == order::views(graph.visible_rows@),
            rows == graph@.rows,
            port_above(rows, row as int) == port_above(rows, i as int),
        decreases i,
    {
        proof {
            assert(rows[i as int] == graph.visible_rows@[i as int]@);
        }
        if let RowKind::Port { origin, .. } = &graph.visible_rows[i].kind {
            return Some(origin.clone());
        }
        if i == 0 {
            proof {
                assert(port_above(rows, -1) is None);
            }
            return None;
        }
        i -= 1;
    }
}

/// A graph after moving to a port's entry: it is open.
pub open spec fn arrived_at(g: GraphView, origin: Seq<char>) -> GraphView {
    match graph::index_of(g, origin) {
        None => g,
        Some(i) => if g.ports[i as int].is_expanded {
            g
        } else {
            fold::port_opened(g, i as int)
        },
    }
}

/// Where moving to a port leads: to where it is listed once it is open.
pub open spec fn arrival_row(g: GraphView, origin: Seq<char>) -> Option<int> {
    match graph::index_of(g, origin) {
        None => None,
        Some(i) => port_row_from(arrived_at(g, origin).rows, origin, 0),
    }
}

/// Moves to `origin`'s entry, opening it on arrival. `None` when that port is
/// not currently listed.
pub fn jump_to_port(graph: &mut DependencyGraph, origin: &str) -> (r: Option<usize>)
    requires
        old(graph)@.wf(),
    ensures
        final(graph)@ == arrived_at(old(graph)@, origin@),
        final(graph)@.wf(),
        match r {
            Some(i) => arrival_row(old(graph)@, origin@) == Some(i as int),
            None => arrival_row(old(graph)@, origin@) is None,
        },
{
    let port_id = match graph.port_index(origin) {
        Some(i) => i,
        None => {
            return None;
        },
    };
    proof {
        assert(graph@.ports.len() == graph.ports@.len());
        assert(graph@.ports[port_id as int] == graph.ports@[port_id as int]@);
    }
    if !graph.ports[port_id].is_expanded {
        graph.open_port(port_id);
    }
    port_row_index(graph, origin)
}

/// What a row is called in a message.
pub open spec fn label_of(rows: Seq<RowView>, i: int) -> Seq<char> {
    if 0 <= i < rows.len() {
        match rows[i].kind {
            RowKindView::Port { origin, provenance, resolved } => origin,
            RowKindView::Option { name, description, enabled, group_type, group_name } => name,
            RowKindView::SectionHeader { kind, count } => match kind {
                SectionKind::Requires => "requires"@,
                SectionKind::RequiredBy => "required by"@,
            },
            _ => "this row"@,
        }
    } else {
        "this row"@
    }
}

/// Names the row at `index` for a status message: what was acted on, rather
/// than the row number it happened to have.
pub fn row_label(graph: &DependencyGraph, index: usize) -> (r: String)
    ensures
        r@ == label_of(graph@.rows, index as int),
{
    let ghost rows = graph@.rows;
    if index >= graph.visible_rows.len() {
        return "this row".to_owned();
    }
    proof {
        assert(rows[index as int] == graph.visible_rows@[index as int]@);
    }
    match &graph.visible_rows[index].kind {
        RowKind::Port { origin, .. } => origin.clone(),
        RowKind::Option { name, .. } => name.clone(),
        RowKind::SectionHeader { kind, .. } => match kind {
            SectionKind::Requires => "requires".to_owned(),
            SectionKind::RequiredBy => "required by".to_owned(),
        },
        _ => "this row".to_owned(),
    }
}

/// One line of the group manager: either a group's name or one of its members.
#[derive(Debug, PartialEq, Eq)]
pub enum ManageRow {
    Group(String),
    Member { group: String, origin: String },
}

/// What a `ManageRow` says.
pub enum ManageRowView {
    Group(Seq<char>),
    Member { group: Seq<char>, origin: Seq<char> },
}

impl View for ManageRow {
    type V = ManageRowView;

    open spec fn view(&self) -> ManageRowView {
        match *self {
            ManageRow::Group(name) => ManageRowView::Group(name@),
            ManageRow::Member { group, origin } => ManageRowView::Member {
                group: group@,
                origin: origin@,
            },
        }
    }
}

/// The lines of a group's members.
pub open spec fn member_rows(g: GroupView) -> Seq<ManageRowView> {
    Seq::new(
        g.members.len(),
        |i: int| ManageRowView::Member { group: g.name, origin: g.members[i] },
    )
}

/// The lines of the first `n` groups: each group, then its members.
pub open spec fn manage_upto(groups: Seq<GroupView>, n: int) -> Seq<ManageRowView>
    decreases n,
{
    if n <= 0 {
        seq![]
    } else {
        manage_upto(groups, n - 1).push(ManageRowView::Group(groups[n - 1].name)) + member_rows(
            groups[n - 1],
        )
    }
}

/// The lines of the group manager: each group, then its members.
pub fn manage_rows(groups: &Vec<Group>) -> (r: Vec<ManageRow>)
    ensures
        order::views(r@) == manage_upto(order::views(groups@), groups@.len() as int),
{
    broadcast use order::lemma_views_push;

    let ghost gv = order::views(groups@);
    let mut rows: Vec<ManageRow> = Vec::new();
    let mut n: usize = 0;
    proof {
        assert(order::views(rows@) =~= seq![]);
    }
    while n < groups.len()
        invariant
            n <= groups@.len(),
            gv == order::views(groups@),
            order::views(rows@) == manage_upto(gv, n as int),
        decreases groups@.len() - n,
    {
        proof {
            assert(gv[n as int] == groups@[n as int]@);
        }
        rows.push(ManageRow::Group(groups[n].name.clone()));
        let ghost base = order::views(rows@);
        let ghost all = member_rows(gv[n as int]);
        let mut m: usize = 0;
        proof {
            assert(base == manage_upto(gv, n as int).push(
                ManageRowView::Group(gv[n as int].name),
            ));
            assert(base + all.take(0) =~= base);
        }
        while m < groups[n].members.len()
            invariant
                n < groups@.len(),
                m <= groups@[n as int].members@.len(),
                gv[n as int] == groups@[n as int]@,
                all == member_rows(gv[n as int]),
                order::views(rows@) == base + all.take(m as int),
            decreases groups@[n as int].members@.len() - m,
        {
            let ghost before = order::views(rows@);
            rows.push(
                ManageRow::Member {
                    group: groups[n].name.clone(),
                    origin: groups[n].members[m].clone(),
                },
            );
            proof {
                let last = all[m as int];
                assert(gv[n as int].members[m as int] == groups@[n as int].members@[m as int]@);
                assert(order::views(rows@) == before.push(last));
                assert(base + all.take(m + 1) =~= (base + all.take(m as int)).push(last));
            }
            m += 1;
        }
        proof {
            assert(all.take(all.len() as int) =~= all);
            assert(gv[n as int].members.len() == groups@[n as int].members@.len());
        }
        n += 1;
    }
    rows
}

/// How a state is told.
pub open spec fn state_word(on: bool) -> Seq<char> {
    if on {
        "on"@
    } else {
        "off"@
    }
}

/// How a state is told.
fn state(on: bool) -> (r: &'static str)
    ensures
        r@ == state_word(on),
{
    if on {
        "on"
    } else {
        "off"
    }
}

/// The state that the first of some snapshots of an option holds, from `i` on.
pub open spec fn was_from(before: Seq<(usize, bool)>, id: usize, i: int) -> Option<bool>
    decreases before.len() - i,
{
    if i < 0 || i >= before.len() {
        None
    } else if before[i].0 == id {
        Some(before[i].1)
    } else {
        was_from(before, id, i + 1)
    }
}

/// What else than an option moved among the first `n` snapshots.
pub open spec fn moved_upto(
    options: Seq<OptionView>,
    pressed: usize,
    before: Seq<(usize, bool)>,
    n: int,
) -> Seq<Seq<char>>
    decreases n,
{
    if n <= 0 {
        seq![]
    } else {
        let rest = moved_upto(options, pressed, before, n - 1);
        let id = before[n - 1].0;
        let was = before[n - 1].1;
        if id != pressed && options[id as int].enabled != was {
            rest.push(options[id as int].name + " "@ + state_word(!was))
        } else {
            rest
        }
    }
}

/// The first of some options from `i` on, other than this one, that is on and
/// implies it.
pub open spec fn implier_from(
    options: Seq<OptionView>,
    ids: Seq<usize>,
    pressed: usize,
    name: Seq<char>,
    i: int,
) -> Option<usize>
    decreases ids.len() - i,
{
    if i < 0 || i >= ids.len() {
        None
    } else {
        let o = options[ids[i] as int];
        if ids[i] != pressed && o.enabled && o.implies.contains(name) {
            Some(ids[i])
        } else {
            implier_from(options, ids, pressed, name, i + 1)
        }
    }
}

/// What a toggle did: the pressed option's state, anything else that moved,
/// and, when nothing moved at all, the rule that held the press.
pub open spec fn report_of(
    g: GraphView,
    name: Seq<char>,
    pressed: usize,
    before: Seq<(usize, bool)>,
) -> Seq<char> {
    let opt = g.options[pressed as int];
    let now = opt.enabled;
    let was = match was_from(before, pressed, 0) {
        Some(on) => on,
        None => !now,
    };
    let also = moved_upto(g.options, pressed, before, before.len() as int);
    let lead = if now == was {
        "'"@ + name + "' stays "@ + state_word(now)
    } else {
        "'"@ + name + "' "@ + state_word(now)
    };
    if also.len() > 0 {
        lead + "; also: "@ + text::joined(also, ", "@)
    } else if now != was {
        lead
    } else if opt.group_type == "SINGLE"@ && now {
        lead + ": a SINGLE keeps one member set"@
    } else {
        match implier_from(
            g.options,
            g.ports[opt.parent_port as int].options,
            pressed,
            name,
            0,
        ) {
            Some(id) => lead + ": "@ + g.options[id as int].name
                + " implies it and cannot turn off"@,
            None => lead,
        }
    }
}

/// The first option of a port, other than this one, that is on and implies it.
fn find_implier(
    graph: &DependencyGraph,
    port_id: usize,
    pressed_id: usize,
    name: &str,
) -> (r: Option<usize>)
    requires
        graph@.wf(),
        port_id < graph@.ports.len(),
    ensures
        r == implier_from(
            graph@.options,
            graph@.ports[port_id as int].options,
            pressed_id,
            name@,
            0,
        ),
        r is Some ==> r->0 < graph@.options.len(),
{
    let ghost options = graph@.options;
    let ghost ids = graph@.ports[port_id as int].options;
    proof {
        assert(graph@.ports.len() == graph.ports@.len());
        assert(graph@.ports[port_id as int] == graph.ports@[port_id as int]@);
        assert(graph::port_ok(graph@.ports, graph@.options, port_id as int));
    }
    let mut i: usize = 0;
    while i < graph.ports[port_id].options.len()
        invariant
            port_id < graph.ports@.len(),
            ids == graph.ports@[port_id as int].options@,
            i <= ids.len(),
            options == order::views(graph.option_nodes@),
            forall|j: int| 0 <= j < ids.len() ==> (#[trigger] ids[j]) < options.len(),
            implier_from(options, ids, pressed_id, name@, 0) == implier_from(
                options,
                ids,
                pressed_id,
                name@,
                i as int,
            ),
        decreases ids.len() - i,
    {
        let id: usize = graph.ports[port_id].options[i];
        proof {
            assert(ids[i as int] == id);
            assert(options[id as int] == graph.option_nodes@[id as int]@);
        }
        if id != pressed_id && graph.option_nodes[id].enabled && holds(
            &graph.option_nodes[id].implies,
            name,
        ) {
            return Some(id);
        }
        i += 1;
    }
    None
}

/// Describes what a toggle did: the pressed option's new state, anything else
/// the press moved on its port, and, when nothing moved at all, which rule
/// refused the press.
pub fn toggle_report(
    graph: &DependencyGraph,
    pressed_name: &str,
    pressed_id: usize,
    before: &Vec<(usize, bool)>,
) -> (r: String)
    requires
        graph@.wf(),
        pressed_id < graph@.options.len(),
        forall|i: int| 0 <= i < before@.len() ==> (#[trigger] before@[i]).0 < graph@.options.len(),
    ensures
        r@ == report_of(graph@, pressed_name@, pressed_id, before@),
{
    broadcast use text::lemma_texts_push;

    let ghost g = graph@;
    let ghost options = g.options;
    proof {
        assert(options.len() == graph.option_nodes@.len());
        assert(options[pressed_id as int] == graph.option_nodes@[pressed_id as int]@);
    }
    let now_on = graph.option_nodes[pressed_id].enabled;
    let mut was_on = !now_on;
    let mut found = false;
    let mut also: Vec<String> = Vec::new();
    let mut n: usize = 0;
    proof {
        assert(text::texts(also@) =~= seq![]);
    }
    while n < before.len()
        invariant
            n <= before@.len(),
            options == g.options,
            options == order::views(graph.option_nodes@),
            forall|i: int| 0 <= i < before@.len() ==> (#[trigger] before@[i]).0 < options.len(),
            found ==> was_from(before@, pressed_id, 0) == Some(was_on),
            !found ==> was_from(before@, pressed_id, 0) == was_from(
                before@,
                pressed_id,
                n as int,
            ) && was_on == !now_on,
            text::texts(also@) == moved_upto(options, pressed_id, before@, n as int),
        decreases before@.len() - n,
    {
        let id: usize = before[n].0;
        let was = before[n].1;
        proof {
            assert(before@[n as int].0 < options.len());
            assert(options[id as int] == graph.option_nodes@[id as int]@);
        }
        if id == pressed_id {
            if !found {
                found = true;
                was_on = was;
            }
        } else if graph.option_nodes[id].enabled != was {
            also.push(
                text::concat3(graph.option_nodes[id].name.as_str(), " ", state(!was)),
            );
        }
        n += 1;
    }
    let mut lead = "'".to_owned();
    lead.append(pressed_name);
    if now_on == was_on {
        lead.append("' stays ");
    } else {
        lead.append("' ");
    }
    lead.append(state(now_on));
    proof {
        assert(text::texts(also@).len() == also@.len());
    }
    if also.len() > 0 {
        lead.append("; also: ");
        lead.append(text::join(&also, ", ").as_str());
        return lead;
    }
    if now_on != was_on {
        return lead;
    }
    if same(graph.option_nodes[pressed_id].group_type.as_str(), "SINGLE") && now_on {
        lead.append(": a SINGLE keeps one member set");
        return lead;
    }
    let port_id: usize = graph.option_nodes[pressed_id].parent_port;
    proof {
        assert(graph::option_ok(g.ports, g.options, pressed_id as int));
        assert(g.ports.len() == graph.ports@.len());
        assert(g.ports[port_id as int] == graph.ports@[port_id as int]@);
        assert(graph::port_ok(g.ports, g.options, port_id as int));
    }
    if let Some(id) = find_implier(graph, port_id, pressed_id, pressed_name) {
        proof {
            assert(options[id as int] == graph.option_nodes@[id as int]@);
        }
        lead.append(": ");
        lead.append(graph.option_nodes[id].name.as_str());
        lead.append(" implies it and cannot turn off");
    }
    lead
}

/// The lines of the group manager are every group, each with its members
/// beneath it, and no others.
pub proof fn the_manager_lists_every_member(
    groups: Seq<GroupView>,
    n: int,
    group: Seq<char>,
    x: Seq<char>,
)
    requires
        0 <= n <= groups.len(),
    ensures
        manage_upto(groups, n).contains(ManageRowView::Group(group)) <==> exists|i: int|
            0 <= i < n && (#[trigger] groups[i]).name == group,
        manage_upto(groups, n).contains(ManageRowView::Member { group, origin: x }) <==> exists|
            i: int,
        |
            0 <= i < n && (#[trigger] groups[i]).name == group && groups[i].members.contains(x),
    decreases n,
{
    if n > 0 {
        the_manager_lists_every_member(groups, n - 1, group, x);
        let rest = manage_upto(groups, n - 1);
        let g = groups[n - 1];
        let headed = rest.push(ManageRowView::Group(g.name));
        let own = member_rows(g);
        assert(headed.drop_last() =~= rest);
        let a = ManageRowView::Group(group);
        let b = ManageRowView::Member { group, origin: x };
        order::lemma_contains_last(headed, a);
        order::lemma_contains_last(headed, b);
        crate::reply::lemma_in_sum(headed, own, a);
        crate::reply::lemma_in_sum(headed, own, b);
        assert(!own.contains(a));
        assert(own.contains(b) <==> g.name == group && g.members.contains(x)) by {
            if g.name == group && g.members.contains(x) {
                let m = choose|m: int| 0 <= m < g.members.len() && g.members[m] == x;
                assert(own[m] == b);
            }
            if own.contains(b) {
                let m = choose|m: int| 0 <= m < own.len() && own[m] == b;
                assert(g.members[m] == x);
            }
        }
    }
}

/// A row that is moved within the screen is at its top, in its middle or at its
/// bottom, or as far down as the rows before it allow.
pub proof fn a_row_goes_to_its_position(selected: int, viewport: int, total: int)
    requires
        0 <= selected < total,
        0 < viewport,
    ensures
        offset_for(selected, viewport, total, RecenterPosition::Top) == selected,
        ({
            let down = selected - offset_for(selected, viewport, total, RecenterPosition::Middle);
            down == if selected < viewport / 2 {
                selected
            } else {
                viewport / 2
            }
        }),
        ({
            let down = selected - offset_for(selected, viewport, total, RecenterPosition::Bottom);
            down == if selected < viewport - 1 {
                selected
            } else {
                viewport - 1
            }
        }),
{
}

} // verus!
