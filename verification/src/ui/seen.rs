//! What is seen of the list and of the boxes over it.
use super::draw;
use super::draw::SpanView;
use super::list;
use super::AppView;
use crate::graph::{GraphView, GroupView, OptionView, RowKindView, RowView};
use crate::order;
use crate::text;
use vstd::prelude::*;

verus! {

/// An option's row ends in its name, with what it is for where it says, and
/// has its state before that: a cross in a box, or a star in a round one where
/// only one member of a group can be set.
pub proof fn an_option_shows_whether_it_is_set(row: RowView)
    requires
        row.kind is Option,
    ensures
        row.kind matches RowKindView::Option { name, description, enabled, group_type, group_name }
            ==> {
            let one = group_type == "SINGLE"@ || group_type == "RADIO"@;
            let state = draw::control_of(group_type, enabled);
            let badge = if group_name.len() == 0 {
                seq![]
            } else {
                "<"@ + group_name + "> "@
            };
            let tail = if description.len() == 0 {
                seq![]
            } else {
                " - "@ + description
            };
            &&& one && enabled ==> state == "(*)"@
            &&& one && !enabled ==> state == "( )"@
            &&& !one && enabled ==> state == "[X]"@
            &&& !one && !enabled ==> state == "[ ]"@
            &&& draw::row_text(row) == draw::blanks(2 * row.depth) + draw::fold_mark(row) + state
                + " "@ + badge + name + tail
        },
        row.has_children && row.is_expanded ==> draw::fold_mark(row) == "[-] "@,
        row.has_children && !row.is_expanded ==> draw::fold_mark(row) == "[+] "@,
        !row.has_children ==> draw::fold_mark(row) == "    "@,
{
    if let RowKindView::Option { name, description, enabled, group_type, group_name } = row.kind {
        let head = draw::blanks(2 * row.depth) + draw::fold_mark(row) + draw::control_of(
            group_type,
            enabled,
        ) + " "@;
        let none = Seq::<char>::empty();
        let badged = if group_name.len() == 0 {
            head
        } else {
            head + "<"@ + group_name + "> "@
        };
        assert(head + none =~= head);
        assert(head + ("<"@ + group_name + "> "@) =~= head + "<"@ + group_name + "> "@);
        assert(badged + name + none =~= badged + name);
        assert(badged + name + (" - "@ + description) =~= badged + name + " - "@ + description);
    }
}

/// A row that points at a port ends in its origin, with what it needs to be
/// pulled in by, or that it is not.
pub proof fn a_reference_shows_its_port(row: RowView)
    ensures
        ({
            let r = draw::row_text(row);
            let indent = draw::blanks(2 * row.depth) + "    "@;
            &&& row.kind matches RowKindView::DependsOn { origin, active } ==> (active ==> r
                == indent + origin) && (!active ==> r == indent + origin + "  (not pulled in)"@)
            &&& row.kind matches RowKindView::RequiresEntry { origin } ==> r == indent + origin
            &&& row.kind matches RowKindView::RequiredByEntry { origin, via_option } ==> (via_option
                is None ==> r == indent + origin) && (via_option is Some ==> r == indent + origin
                + "  (via "@ + via_option->0 + ")"@)
        }),
{
}

/// The groups shown with a port are exactly those that it is in.
pub proof fn a_port_shows_its_groups(
    groups: Seq<GroupView>,
    origin: Seq<char>,
    n: int,
    name: Seq<char>,
)
    requires
        0 <= n <= groups.len(),
    ensures
        draw::groups_upto(groups, origin, n).contains(name) <==> exists|i: int|
            0 <= i < n && (#[trigger] groups[i]).name == name && groups[i].members.contains(origin),
    decreases n,
{
    if n > 0 {
        a_port_shows_its_groups(groups, origin, n - 1, name);
        let rest = draw::groups_upto(groups, origin, n - 1);
        let more = rest.push(groups[n - 1].name);
        assert(more.drop_last() =~= rest);
        order::lemma_contains_last(more, name);
    }
}

/// Of a list that has more lines than there is room for, as many as there is
/// room for are shown, in their order, and the marked one is among them. One
/// that fits is shown whole.
pub proof fn the_marked_line_is_shown(lines: Seq<Seq<SpanView>>, cursor: int, height: int)
    requires
        0 <= cursor < lines.len(),
        0 < height,
    ensures
        ({
            let seen = draw::window_of(lines, cursor, height);
            &&& lines.len() <= height ==> seen == lines
            &&& lines.len() > height ==> seen.len() == height && exists|start: int|
                0 <= start <= cursor < start + height <= lines.len() && seen
                    == #[trigger] lines.subrange(start, start + height)
        }),
{
    list::window_holds_the_cursor(lines.len() as int, cursor, height);
}

/// Whether another option than the one that was pressed has changed, and how it
/// is told.
pub open spec fn moved_along(
    options: Seq<OptionView>,
    pressed: usize,
    was: (usize, bool),
    told: Seq<char>,
) -> bool {
    let o = options[was.0 as int];
    &&& was.0 != pressed
    &&& o.enabled != was.1
    &&& o.enabled ==> told == o.name + " on"@
    &&& !o.enabled ==> told == o.name + " off"@
}

/// What is told to have moved along is every option that is now in another
/// state than it was, with that state, and nothing else.
pub proof fn everything_that_moved_is_told(
    options: Seq<OptionView>,
    pressed: usize,
    before: Seq<(usize, bool)>,
    n: int,
    told: Seq<char>,
)
    requires
        0 <= n <= before.len(),
    ensures
        list::moved_upto(options, pressed, before, n).contains(told) <==> exists|m: int|
            0 <= m < n && #[trigger] moved_along(options, pressed, before[m], told),
    decreases n,
{
    if n > 0 {
        everything_that_moved_is_told(options, pressed, before, n - 1, told);
        let rest = list::moved_upto(options, pressed, before, n - 1);
        let o = options[before[n - 1].0 as int];
        let now = o.name + " "@ + list::state_word(!before[n - 1].1);
        reveal_strlit(" ");
        reveal_strlit("on");
        reveal_strlit("off");
        reveal_strlit(" on");
        reveal_strlit(" off");
        assert(o.name + " "@ + "on"@ =~= o.name + " on"@);
        assert(o.name + " "@ + "off"@ =~= o.name + " off"@);
        let more = rest.push(now);
        assert(more.drop_last() =~= rest);
        order::lemma_contains_last(more, told);
        assert(moved_along(options, pressed, before[n - 1], told) <==> before[n - 1].0 != pressed
            && o.enabled != before[n - 1].1 && told == now);
    }
}

/// A press is told with the state that the option now has. One that changed
/// nothing says that the option stays as it is, and why where its group must
/// keep it.
pub proof fn a_press_is_told(
    g: GraphView,
    name: Seq<char>,
    pressed: usize,
    before: Seq<(usize, bool)>,
    was: bool,
)
    requires
        list::was_from(before, pressed, 0) == Some(was),
        list::moved_upto(g.options, pressed, before, before.len() as int).len() == 0,
    ensures
        ({
            let o = g.options[pressed as int];
            let r = list::report_of(g, name, pressed, before);
            &&& o.enabled && !was ==> r == "'"@ + name + "' "@ + "on"@
            &&& !o.enabled && was ==> r == "'"@ + name + "' "@ + "off"@
            &&& o.enabled && was && o.group_type == "SINGLE"@ ==> r == "'"@ + name + "' stays "@
                + "on"@ + ": a SINGLE keeps one member set"@
        }),
{
}

/// How many ports are being waited for is told while some are, and what must
/// not be missed is told before it. Else it is told what was done last.
pub proof fn what_is_waited_for_is_told(app: AppView)
    ensures
        ({
            let r = draw::status_note(app);
            let waiting = "resolving "@ + text::decimal_of(app.outstanding as nat)
                + " port(s)... "@;
            &&& !app.resolver_dead && app.important is None && app.outstanding == 0 ==> r
                == app.status + " "@
            &&& !app.resolver_dead && app.important is None && app.outstanding > 0 ==> r == waiting
            &&& !app.resolver_dead && app.important is Some && app.outstanding == 0 ==> r
                == app.important->0 + " "@
            &&& !app.resolver_dead && app.important is Some && app.outstanding > 0 ==> r
                == app.important->0 + " | "@ + waiting
            &&& app.resolver_dead ==> r == "[resolver stopped] "@ + draw::status_note(
                AppView { resolver_dead: false, ..app },
            )
        }),
{
}

} // verus!
