//! What keys do, and what becomes of answers.
use super::answers;
use super::answers::{Merge, ReplyView};
use super::field::{Key, KeyCode};
use super::list;
use super::list::ManageRowView;
use super::press;
use super::press::{OutcomeView, Session};
use super::{ConfirmChoice, Focus, InputMode, TuiAction};
use crate::facts::FactsView;
use crate::graph;
use crate::graph::choice;
use crate::graph::fold;
use crate::graph::grow;
use crate::graph::naming;
use crate::graph::query;
use crate::graph::rules;
use crate::graph::{GraphView, Mode, NodeId, RowKindView, RowView};
use crate::oracle::QuestionView;
use crate::order;
use crate::reader::SavedView;
use crate::text;
use crate::ui;
use vstd::prelude::*;

verus! {

/// Whether the keys go to the list.
pub open spec fn is_browsing(s: Session) -> bool {
    s.app.mode == InputMode::Normal && s.app.focus == Focus::List
}

/// Whether a key is one character, pressed by itself.
pub open spec fn is_plain(key: Key, c: char) -> bool {
    key.code == KeyCode::Char(c) && !key.ctrl
}

/// Whether a row is that of a port.
pub open spec fn is_entry_of(row: RowView, origin: Seq<char>) -> bool {
    row.kind matches RowKindView::Port { origin: o, provenance, resolved } && o == origin
}

/// Whether a question is about a port under the options now set.
pub open spec fn asks_now(g: GraphView, q: QuestionView) -> bool {
    &&& g.by_origin.contains_key(q.origin)
    &&& q.options == Some(query::option_set_of(g, g.by_origin[q.origin] as int))
}

proof fn lemma_asked(
    pending: Seq<QuestionView>,
    g: GraphView,
    origins: Seq<Seq<char>>,
    n: int,
    q: QuestionView,
)
    requires
        0 <= n <= origins.len(),
    ensures
        press::asked_upto(pending, g, origins, n).contains(q) <==> pending.contains(q) || (asks_now(
            g,
            q,
        ) && origins.take(n).contains(q.origin)),
    decreases n,
{
    let first = origins.take(n);
    if n > 0 {
        lemma_asked(pending, g, origins, n - 1, q);
        let rest = press::asked_upto(pending, g, origins, n - 1);
        assert(first.drop_last() =~= origins.take(n - 1));
        order::lemma_contains_last(first, q.origin);
        if let Some(i) = graph::index_of(g, origins[n - 1]) {
            let asked = QuestionView {
                origin: origins[n - 1],
                options: Some(query::option_set_of(g, i as int)),
            };
            let more = rest.push(asked);
            assert(more.drop_last() =~= rest);
            order::lemma_contains_last(more, q);
        }
    }
}

/// Space on an option of the list chooses the other state for it, unless it is
/// the member that its group must keep. Every port that this changes is to be
/// asked about under its new options, and nothing else is asked anew.
pub proof fn space_chooses_the_option_under_the_cursor(s: Session, key: Key, here: usize, id: usize)
    requires
        is_browsing(s),
        key.code == KeyCode::Char(' '),
        s.app.selected == Some(here),
        here < s.g.rows.len(),
        s.g.rows[here as int].kind is Option,
        s.g.rows[here as int].node_id == NodeId::Option(id),
    ensures
        ({
            let o = s.g.options[id as int];
            let kept = rules::is_single(o.group_type) && o.enabled;
            let r = press::keyed(s, key);
            &&& r.out == OutcomeView::Continue
            &&& r.s.g.options == if kept {
                s.g.options
            } else {
                choice::choice_made(s.g, o.port_origin, o.name, !o.enabled)
            }
            &&& r.s.g.ports == s.g.ports
            &&& r.s.g.groups == s.g.groups
            &&& r.s.app.mode == InputMode::Normal
            &&& forall|q: QuestionView| #[trigger]
                r.s.app.pending.contains(q) <==> s.app.pending.contains(q) || (!kept && asks_now(
                    r.s.g,
                    q,
                ) && choice::touched_by(s.g, o.port_origin, o.name, !o.enabled).contains(q.origin))
        }),
{
    let o = s.g.options[id as int];
    let r = press::keyed(s, key);
    let touched = choice::toggle_touches(s.g, here as int);
    assert(touched.take(touched.len() as int) =~= touched);
    assert forall|q: QuestionView| #[trigger] r.s.app.pending.contains(q) <==> s.app.pending.contains(
        q,
    ) || (asks_now(r.s.g, q) && touched.contains(q.origin)) by {
        lemma_asked(s.app.pending, r.s.g, touched, touched.len() as int, q);
    }
    assert(!(rules::is_single(o.group_type) && o.enabled) ==> touched == choice::touched_by(
        s.g,
        o.port_origin,
        o.name,
        !o.enabled,
    ));
}

proof fn lemma_port_row(rows: Seq<RowView>, origin: Seq<char>, from: int)
    requires
        0 <= from <= rows.len(),
    ensures
        match list::port_row_from(rows, origin, from) {
            Some(i) => {
                &&& from <= i < rows.len()
                &&& is_entry_of(rows[i], origin)
                &&& forall|j: int| from <= j < i ==> !is_entry_of(#[trigger] rows[j], origin)
            },
            None => forall|j: int|
                from <= j < rows.len() ==> !is_entry_of(#[trigger] rows[j], origin),
        },
    decreases rows.len() - from,
{
    if from < rows.len() {
        lemma_port_row(rows, origin, from + 1);
    }
}

proof fn lemma_port_above(rows: Seq<RowView>, i: int)
    requires
        0 <= i < rows.len(),
    ensures
        match list::port_above(rows, i) {
            Some(o) => exists|j: int|
                0 <= j <= i && is_entry_of(#[trigger] rows[j], o) && forall|m: int|
                    j < m <= i ==> !((#[trigger] rows[m]).kind is Port),
            None => forall|m: int| 0 <= m <= i ==> !((#[trigger] rows[m]).kind is Port),
        },
    decreases i,
{
    if let RowKindView::Port { origin, provenance, resolved } = rows[i].kind {
        assert(is_entry_of(rows[i], origin));
    } else if i > 0 {
        lemma_port_above(rows, i - 1);
        if let Some(o) = list::port_above(rows, i - 1) {
            let j = choose|j: int|
                0 <= j <= i - 1 && is_entry_of(#[trigger] rows[j], o) && forall|m: int|
                    j < m <= i - 1 ==> !((#[trigger] rows[m]).kind is Port);
            assert(is_entry_of(rows[j], o));
            assert forall|m: int| j < m <= i implies !((#[trigger] rows[m]).kind is Port) by {}
        }
    } else {
        assert(list::port_above(rows, -1) is None);
    }
}

/// Enter on a row that points at a port puts the cursor on the first entry of
/// that port, which is open, and remembers the port whose entry the row stands
/// under. Where the port is not listed the cursor stays.
pub proof fn enter_follows_a_reference(s: Session, key: Key, target: Seq<char>)
    requires
        is_browsing(s),
        s.g.wf(),
        key.code == KeyCode::Enter,
        press::cursor_of(s.app) < s.g.rows.len(),
        graph::target_of(s.g.rows[press::cursor_of(s.app)].kind) == Some(target),
        list::arrived_at(s.g, target).rows.len() <= usize::MAX,
    ensures
        ({
            let r = press::keyed(s, key);
            let here = press::cursor_of(s.app);
            let there = press::cursor_of(r.s.app);
            let rows = r.s.g.rows;
            let listed = s.g.by_origin.contains_key(target) && exists|j: int|
                0 <= j < rows.len() && is_entry_of(#[trigger] rows[j], target);
            &&& r.out == OutcomeView::Continue
            &&& r.s.g.options == s.g.options
            &&& s.g.by_origin.contains_key(target)
                ==> r.s.g.ports[s.g.by_origin[target] as int].is_expanded
            &&& listed ==> {
                &&& 0 <= there < rows.len()
                &&& is_entry_of(rows[there], target)
                &&& forall|j: int| 0 <= j < there ==> !is_entry_of(#[trigger] rows[j], target)
                &&& r.s.app.jumps == s.app.jumps || exists|j: int, o: Seq<char>|
                    0 <= j <= here && #[trigger] is_entry_of(s.g.rows[j], o) && r.s.app.jumps
                        == s.app.jumps.push(o)
                &&& r.s.app.jumps == s.app.jumps ==> forall|m: int|
                    0 <= m <= here ==> !((#[trigger] s.g.rows[m]).kind is Port)
            }
            &&& !listed ==> r.s.app.selected == s.app.selected && r.s.app.jumps == s.app.jumps
        }),
{
    let r = press::keyed(s, key);
    let here = press::cursor_of(s.app);
    lemma_port_row(r.s.g.rows, target, 0);
    lemma_port_above(s.g.rows, here);
    assert(forall|o: Seq<char>| #[trigger] s.app.jumps.push(o).len() == s.app.jumps.len() + 1);
}

/// The cursor goes one row up or down, five with Ctrl, a page at a time, or to
/// an end, and never off the list. Nothing else of the list changes.
pub proof fn the_cursor_goes_where_it_is_sent(s: Session, key: Key)
    requires
        is_browsing(s),
        !key.shift,
        0 < s.g.rows.len() <= usize::MAX,
        press::cursor_of(s.app) < s.g.rows.len(),
    ensures
        ({
            let r = press::keyed(s, key).s;
            let here = press::cursor_of(s.app);
            let there = press::cursor_of(r.app);
            let last = s.g.rows.len() - 1;
            let step: int = if key.ctrl {
                5
            } else {
                1
            };
            let page: int = if s.app.viewport == 0 {
                1
            } else {
                s.app.viewport as int
            };
            &&& key.code == KeyCode::Down ==> there == if here + step <= last {
                here + step
            } else {
                last
            }
            &&& key.code == KeyCode::Up ==> there == if here >= step {
                here - step
            } else {
                0
            }
            &&& key.code == KeyCode::PageDown ==> there == if here + page <= last {
                here + page
            } else {
                last
            }
            &&& key.code == KeyCode::PageUp ==> there == if here >= page {
                here - page
            } else {
                0
            }
            &&& key.code == KeyCode::Home ==> there == 0
            &&& key.code == KeyCode::End ==> there == last
            &&& (key.code == KeyCode::Down || key.code == KeyCode::Up || key.code
                == KeyCode::PageDown || key.code == KeyCode::PageUp || key.code == KeyCode::Home
                || key.code == KeyCode::End) ==> r.g == s.g && r.app.mode == s.app.mode
                && r.app.pending == s.app.pending
        }),
{
}

/// The question whether to leave is answered as it is put: `s` saves, `d`, `y`
/// and Esc discard, `c` and `n` go back, and Enter and Space take the choice
/// that is marked. The list itself is left alone.
pub proof fn an_answer_about_leaving_is_taken(s: Session, key: Key)
    requires
        s.app.mode == InputMode::ConfirmQuit,
        !key.ctrl,
    ensures
        ({
            let r = press::keyed(s, key);
            let code = key.code;
            let marked = code == KeyCode::Enter || code == KeyCode::Char(' ');
            let save = code == KeyCode::Char('s') || code == KeyCode::Char('S') || (marked
                && s.app.confirm == ConfirmChoice::Save);
            let discard = code == KeyCode::Esc || code == KeyCode::Char('d') || code
                == KeyCode::Char('D') || code == KeyCode::Char('y') || code == KeyCode::Char('Y')
                || (marked && s.app.confirm == ConfirmChoice::Discard);
            let stay = code == KeyCode::Char('c') || code == KeyCode::Char('C') || code
                == KeyCode::Char('n') || code == KeyCode::Char('N') || (marked && s.app.confirm
                == ConfirmChoice::Cancel);
            &&& r.s.g == s.g
            &&& save <==> r.out == OutcomeView::Finish(TuiAction::SaveAndQuit)
            &&& discard <==> r.out == OutcomeView::Finish(TuiAction::QuitWithoutSaving)
            &&& !save && !discard ==> r.out == OutcomeView::Continue
            &&& stay ==> r.s.app.mode == InputMode::Normal
            &&& !stay ==> r.s.app.mode == InputMode::ConfirmQuit
        }),
{
}

/// What is typed while searching goes into the search at the caret, and is
/// taken out again behind it. Esc clears the search and Enter keeps it; both
/// lead back to the list.
pub proof fn what_is_typed_is_searched_for(s: Session, key: Key)
    requires
        s.app.mode == InputMode::Search,
        !key.ctrl,
        s.app.caret <= s.g.search.len() < usize::MAX,
    ensures
        ({
            let r = press::keyed(s, key).s;
            let text = s.g.search;
            let caret = s.app.caret as int;
            &&& key.code matches KeyCode::Char(c) ==> r.g.search == text.take(caret).push(c)
                + text.skip(caret) && r.app.caret == caret + 1 && r.app.mode == InputMode::Search
            &&& key.code == KeyCode::Backspace && caret > 0 ==> r.g.search == text.take(caret - 1)
                + text.skip(caret) && r.app.caret == caret - 1 && r.app.mode == InputMode::Search
            &&& key.code == KeyCode::Esc ==> r.g.search == Seq::<char>::empty() && r.app.mode
                == InputMode::Normal
            &&& key.code == KeyCode::Enter ==> r.g.search == text && r.app.mode
                == InputMode::Normal
            &&& r.g.options == s.g.options
        }),
{
    let text = s.g.search;
    let caret = s.app.caret as int;
    if let KeyCode::Char(c) = key.code {
        assert(text.insert(caret, c) =~= text.take(caret).push(c) + text.skip(caret));
    }
    if key.code == KeyCode::Backspace && caret > 0 {
        assert(text.remove(caret - 1) =~= text.take(caret - 1) + text.skip(caret));
    }
}

/// Whether a session is to save its groups now, where it knows a file, or has
/// said that they are not saved.
pub open spec fn is_to_save(s: Session, out: OutcomeView) -> bool {
    match s.app.config_path {
        Some(path) => out matches OutcomeView::SaveGroups(request) && request.path == path,
        None => out == OutcomeView::Continue,
    }
}

/// Enter in the group picker puts the port into the group under the cursor,
/// where it is not in it yet, and into no other. The groups are then saved.
pub proof fn picking_a_group_joins_it(s: Session, key: Key, name: Seq<char>, x: Seq<char>)
    requires
        s.app.mode == InputMode::GroupAssign,
        graph::groups_ok(s.g.groups),
        key.code == KeyCode::Enter,
        s.app.group_cursor < s.g.groups.len(),
        s.app.group_target is Some,
    ensures
        ({
            let r = press::keyed(s, key);
            let group = s.g.groups[s.app.group_cursor as int].name;
            let target = s.app.group_target->0;
            &&& naming::is_member(r.s.g.groups, name, x) <==> naming::is_member(
                s.g.groups,
                name,
                x,
            ) || (name == group && x == target)
            &&& r.s.app.mode == InputMode::Normal
            &&& r.s.app.group_target is None
            &&& !naming::is_member(s.g.groups, group, target) ==> is_to_save(s, r.out)
            &&& naming::is_member(s.g.groups, group, target) ==> r.s.g == s.g && r.out
                == OutcomeView::Continue
        }),
{
    let group = s.g.groups[s.app.group_cursor as int].name;
    let target = s.app.group_target->0;
    naming::joining_adds_one_member(s.g.groups, group, target, name, x);
    naming::lemma_members(s.g.groups, group, target);
}

/// A name given to a new group, but for the space around it, is that of a
/// group that the port is then in. Without a name nothing changes.
pub proof fn naming_a_group_joins_it(s: Session, key: Key, name: Seq<char>, x: Seq<char>)
    requires
        s.app.mode == InputMode::GroupNewName,
        graph::groups_ok(s.g.groups),
        key.code == KeyCode::Enter,
        s.app.group_target is Some,
    ensures
        ({
            let r = press::keyed(s, key);
            let group = text::trimmed(s.app.buffer);
            let target = s.app.group_target->0;
            &&& group.len() > 0 ==> {
                &&& naming::is_member(r.s.g.groups, name, x) <==> naming::is_member(
                    s.g.groups,
                    name,
                    x,
                ) || (name == group && x == target)
                &&& r.s.app.mode == InputMode::Normal
                &&& is_to_save(s, r.out)
            }
            &&& group.len() == 0 ==> r.s.g == s.g && r.s.app.mode == InputMode::GroupNewName
                && r.out == OutcomeView::Continue
        }),
{
    naming::joining_adds_one_member(
        s.g.groups,
        text::trimmed(s.app.buffer),
        s.app.group_target->0,
        name,
        x,
    );
}

/// `d` in the group manager takes out what its cursor is on: a whole group, or
/// one member of it. The groups are then saved.
pub proof fn taking_out_takes_what_is_marked(s: Session, key: Key, name: Seq<char>, x: Seq<char>)
    requires
        s.app.mode == InputMode::GroupManage,
        graph::groups_ok(s.g.groups),
        is_plain(key, 'd'),
        s.app.group_cursor < press::manage_lines(s.g).len(),
    ensures
        ({
            let r = press::keyed(s, key);
            let was = naming::is_member(s.g.groups, name, x);
            &&& naming::is_member(r.s.g.groups, name, x) <==> match press::manage_lines(
                s.g,
            )[s.app.group_cursor as int] {
                ManageRowView::Group(group) => was && name != group,
                ManageRowView::Member { group, origin } => was && !(name == group && x == origin),
            }
            &&& is_to_save(s, r.out)
            &&& r.s.g.options == s.g.options
        }),
{
    match press::manage_lines(s.g)[s.app.group_cursor as int] {
        ManageRowView::Group(group) => {
            naming::disbanding_takes_one_group(s.g.groups, group, name, x);
        },
        ManageRowView::Member { group, origin } => {
            naming::leaving_takes_one_member(s.g.groups, group, origin, name, x);
        },
    }
}

proof fn lemma_chased(
    pending: Seq<QuestionView>,
    unknown: Seq<Seq<char>>,
    n: int,
    q: QuestionView,
)
    requires
        0 <= n <= unknown.len(),
    ensures
        answers::chased_upto(pending, unknown, n).contains(q) <==> pending.contains(q) || (q.options
            is None && unknown.take(n).contains(q.origin)),
    decreases n,
{
    let first = unknown.take(n);
    if n > 0 {
        lemma_chased(pending, unknown, n - 1, q);
        let rest = answers::chased_upto(pending, unknown, n - 1);
        assert(first.drop_last() =~= unknown.take(n - 1));
        order::lemma_contains_last(first, q.origin);
        let asked = QuestionView { origin: unknown[n - 1], options: None };
        let more = rest.push(asked);
        assert(more.drop_last() =~= rest);
        order::lemma_contains_last(more, q);
    }
}

/// An answer about a port of the list is recorded where it was given for the
/// options that the port has now, and dropped where it was not. What the port
/// then needs that the list does not know is to be asked about as it ships,
/// and nothing else.
pub proof fn an_answer_counts_for_the_options_it_was_given_for(
    m: Merge,
    r: ReplyView,
    f: FactsView,
    saved: SavedView,
)
    requires
        r.answer == Ok::<FactsView, Seq<char>>(f),
        m.s.g.by_origin.contains_key(r.question.origin),
    ensures
        ({
            let after = answers::merged_one(m, r, saved);
            let origin = r.question.origin;
            let now = query::option_set_of(m.s.g, m.s.g.by_origin[origin] as int);
            let g = grow::told(m.s.g, origin, f);
            &&& after.arrived == m.arrived
            &&& r.question.options != Some(now) ==> after == m
            &&& r.question.options == Some(now) ==> {
                &&& after.s.g == g
                &&& forall|q: QuestionView| #[trigger]
                    after.s.app.pending.contains(q) <==> m.s.app.pending.contains(q) || (q.options
                        is None && grow::unknown_to(g, origin).contains(q.origin))
            }
        }),
{
    let after = answers::merged_one(m, r, saved);
    let origin = r.question.origin;
    let unknown = grow::unknown_to(grow::told(m.s.g, origin, f), origin);
    assert(unknown.take(unknown.len() as int) =~= unknown);
    assert forall|q: QuestionView| #[trigger]
        answers::chased_upto(m.s.app.pending, unknown, unknown.len() as int).contains(q)
            <==> m.s.app.pending.contains(q) || (q.options is None && unknown.contains(
            q.origin,
        )) by {
        lemma_chased(m.s.app.pending, unknown, unknown.len() as int, q);
    }
}

/// A port that the list does not hold arrives with its answer: it is told as
/// arrived and recorded, and asked about again where the options in force are
/// not those it ships set. An answer that says why there is none changes only
/// what is said.
pub proof fn an_answer_lets_a_port_in(m: Merge, r: ReplyView, saved: SavedView)
    requires
        !m.s.g.by_origin.contains_key(r.question.origin),
    ensures
        ({
            let after = answers::merged_one(m, r, saved);
            let origin = r.question.origin;
            &&& r.answer matches Ok(f) ==> {
                &&& after.arrived == m.arrived.push(origin)
                &&& after.s.g == grow::told(grow::added(m.s.g, f, saved), origin, f)
                &&& forall|q: QuestionView|
                    m.s.app.pending.contains(q) ==> #[trigger] after.s.app.pending.contains(q)
                &&& forall|q: QuestionView|
                    q.options is None && grow::unknown_to(after.s.g, origin).contains(q.origin)
                        ==> #[trigger] after.s.app.pending.contains(q)
            }
            &&& r.answer is Err ==> after.s.g == m.s.g && after.arrived == m.arrived
                && after.s.app.pending == m.s.app.pending
        }),
{
    let origin = r.question.origin;
    if let Ok(f) = r.answer {
        let s = answers::let_in(m.s, origin, f, saved);
        let g = grow::told(s.g, origin, f);
        let unknown = grow::unknown_to(g, origin);
        let after = answers::merged_one(m, r, saved);
        assert(unknown.take(unknown.len() as int) =~= unknown);
        let set = query::option_set_of(s.g, grow::added_at(m.s.g, f));
        let again = m.s.app.pending.push(QuestionView { origin, options: Some(set) });
        assert(again.drop_last() =~= m.s.app.pending);
        assert forall|q: QuestionView| m.s.app.pending.contains(q) || (q.options is None
            && unknown.contains(q.origin)) implies #[trigger] after.s.app.pending.contains(q) by {
            order::lemma_contains_last(again, q);
            lemma_chased(s.app.pending, unknown, unknown.len() as int, q);
        }
    }
}

/// The letters do what they stand for: `H` hides the ports without options or
/// shows them again, Ctrl and `s` saves and goes on, `q` and Esc ask whether to
/// leave, `/` starts a search, and Enter on what points nowhere saves and ends.
pub proof fn a_letter_does_what_it_stands_for(s: Session, key: Key)
    requires
        is_browsing(s),
        s.g.search.len() <= usize::MAX,
    ensures
        ({
            let r = press::keyed(s, key);
            &&& is_plain(key, 'H') ==> {
                &&& r.s.g.hide_optionless == !s.g.hide_optionless
                &&& r.s.g.options == s.g.options
                &&& r.s.g.ports == s.g.ports
                &&& r.out == OutcomeView::Continue
            }
            &&& key.ctrl && (key.code == KeyCode::Char('s') || key.code == KeyCode::Char('S'))
                ==> r.out == OutcomeView::SaveInPlace && r.s.g == s.g
            &&& is_plain(key, 'q') || key.code == KeyCode::Esc ==> {
                &&& r.s.app.mode == InputMode::ConfirmQuit
                &&& r.s.app.confirm == ConfirmChoice::Save
                &&& r.s.g == s.g
                &&& r.out == OutcomeView::Continue
            }
            &&& is_plain(key, '/') ==> {
                &&& r.s.app.mode == InputMode::Search
                &&& r.s.app.caret == s.g.search.len()
                &&& r.s.g == s.g
            }
            &&& key.code == KeyCode::Enter && !press::on_reference(s) ==> {
                &&& r.out == OutcomeView::Finish(TuiAction::SaveAndQuit)
                &&& r.s.g == s.g
            }
        }),
{
}

/// Ctrl and `g` starts choosing a group for the port under whose entry the
/// cursor is. Where there is none, nothing is chosen.
pub proof fn a_group_is_chosen_for_the_port_under_the_cursor(s: Session, key: Key)
    requires
        is_browsing(s),
        key.ctrl,
        key.code == KeyCode::Char('g') || key.code == KeyCode::Char('G'),
        press::cursor_of(s.app) < s.g.rows.len(),
    ensures
        ({
            let r = press::keyed(s, key);
            let here = press::cursor_of(s.app);
            &&& r.s.g == s.g
            &&& r.s.app.mode == InputMode::GroupAssign ==> {
                &&& r.s.app.group_cursor == 0
                &&& r.s.app.group_target is Some
                &&& exists|j: int|
                    0 <= j <= here && is_entry_of(
                        #[trigger] s.g.rows[j],
                        r.s.app.group_target->0,
                    ) && forall|m: int| j < m <= here ==> !((#[trigger] s.g.rows[m]).kind is Port)
            }
            &&& r.s.app.mode != InputMode::GroupAssign ==> {
                &&& r.s.app.mode == InputMode::Normal
                &&& forall|m: int| 0 <= m <= here ==> !((#[trigger] s.g.rows[m]).kind is Port)
            }
        }),
{
    lemma_port_above(s.g.rows, press::cursor_of(s.app));
}

/// `=` opens the row under the cursor and `-` closes it. `+` opens it with all
/// that is beneath it and `_` closes it so, and pressed again either does so to
/// everything.
pub proof fn a_tree_key_opens_or_closes(s: Session, key: Key, c: char)
    requires
        is_browsing(s),
        is_plain(key, c),
        c == '=' || c == '-' || c == '+' || c == '_',
    ensures
        ({
            let r = press::keyed(s, key).s;
            let here = press::cursor_of(s.app);
            let again = s.app.last_tree_key == Some(c);
            r.g == if c == '=' {
                fold::node_at(s.g, here, true)
            } else if c == '-' {
                fold::node_at(s.g, here, false)
            } else if c == '+' {
                if again {
                    fold::all_folded(s.g, Mode::Expand)
                } else {
                    fold::tree_at(s.g, here, Mode::Expand)
                }
            } else if again {
                fold::all_folded(s.g, Mode::Collapse)
            } else {
                fold::tree_at(s.g, here, Mode::Collapse)
            }
        }),
{
    let noted = Session { app: press::key_noted(s.app, key), ..s };
    let again = press::is_repeat(s.app, key);
    assert(press::tree_key_of(key) == Some(c));
    assert(press::command_of(key, Focus::List, press::on_reference(noted)) == press::Command::Tree(
        c,
    ));
    assert(press::keyed(s, key) == press::normal_key(noted, key, again));
    assert(press::keyed(s, key).s == press::folded(noted, c, again));
    lemma_folded(noted, c, again);
}

proof fn lemma_folded(s: Session, c: char, again: bool)
    requires
        ui::tree_op_of(c, again) is Some,
    ensures
        press::folded(s, c, again).g == press::tree_done(
            s.g,
            ui::tree_op_of(c, again)->0,
            press::cursor_of(s.app),
        ),
{
}

/// Backspace goes back to the port that the last jump came from, and forgets
/// that jump. Without one nothing of the list changes.
pub proof fn backspace_goes_back(s: Session, key: Key)
    requires
        is_browsing(s),
        s.g.wf(),
        key.code == KeyCode::Backspace,
        s.app.jumps.len() > 0 ==> list::arrived_at(s.g, s.app.jumps.last()).rows.len()
            <= usize::MAX,
    ensures
        ({
            let r = press::keyed(s, key).s;
            let there = press::cursor_of(r.app);
            let from = s.app.jumps.last();
            &&& s.app.jumps.len() == 0 ==> r.g == s.g && r.app.selected == s.app.selected
                && r.app.jumps == s.app.jumps
            &&& s.app.jumps.len() > 0 ==> {
                &&& r.app.jumps == s.app.jumps.drop_last()
                &&& r.g.options == s.g.options
                &&& s.g.by_origin.contains_key(from) && (exists|j: int|
                    0 <= j < r.g.rows.len() && is_entry_of(#[trigger] r.g.rows[j], from)) ==> {
                    &&& 0 <= there < r.g.rows.len()
                    &&& is_entry_of(r.g.rows[there], from)
                }
            }
        }),
{
    lemma_port_row(press::keyed(s, key).s.g.rows, s.app.jumps.last(), 0);
}

} // verus!
