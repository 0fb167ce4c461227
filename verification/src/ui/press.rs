//! What a keystroke means: the state of a session after it, as a function of
//! the state before.
use super::field;
use super::field::{FieldView, Key, KeyCode};
use super::list;
use super::list::ManageRowView;
use super::{AppView, ConfirmChoice, Focus, InputMode, RecenterPosition, TreeOp, TuiAction};
use crate::graph;
use crate::graph::adopt;
use crate::graph::choice;
use crate::graph::fold;
use crate::graph::groups;
use crate::graph::live;
use crate::graph::query;
use crate::graph::rows;
use crate::graph::{GraphView, Mode, NodeId, OptionView, RowAnchor, RowKindView, RowView};
use crate::oracle;
use crate::oracle::QuestionView;
use crate::text;
use crate::ui;
use vstd::prelude::*;

verus! {

/// What to do once the groups have been written, or could not be.
#[derive(Debug, PartialEq, Eq)]
pub enum AfterSave {
    /// Say what was done to the groups, and whether it was saved.
    Announce(String),
    /// Say where the groups were saved.
    Report,
    /// Say so, and save to the same file from now on.
    Remember,
}

/// What an `AfterSave` says.
pub enum AfterSaveView {
    Announce(Seq<char>),
    Report,
    Remember,
}

impl View for AfterSave {
    type V = AfterSaveView;

    open spec fn view(&self) -> AfterSaveView {
        match *self {
            AfterSave::Announce(did) => AfterSaveView::Announce(did@),
            AfterSave::Report => AfterSaveView::Report,
            AfterSave::Remember => AfterSaveView::Remember,
        }
    }
}

/// The groups are to be written to this file.
#[derive(Debug, PartialEq, Eq)]
pub struct SaveRequest {
    pub path: String,
    pub after: AfterSave,
}

/// What a `SaveRequest` says.
pub struct SaveRequestView {
    pub path: Seq<char>,
    pub after: AfterSaveView,
}

impl View for SaveRequest {
    type V = SaveRequestView;

    open spec fn view(&self) -> SaveRequestView {
        SaveRequestView { path: self.path@, after: self.after@ }
    }
}

/// What is to be done after a keystroke by whoever holds the terminal and the
/// files.
#[derive(Debug, PartialEq, Eq)]
pub enum KeyOutcome {
    Continue,
    /// Repaint from scratch.
    Redraw,
    /// Settle and write without leaving.
    SaveInPlace,
    /// Write the groups out, and report how it went.
    SaveGroups(SaveRequest),
    Finish(TuiAction),
}

/// What a `KeyOutcome` says.
pub enum OutcomeView {
    Continue,
    Redraw,
    SaveInPlace,
    SaveGroups(SaveRequestView),
    Finish(TuiAction),
}

impl View for KeyOutcome {
    type V = OutcomeView;

    open spec fn view(&self) -> OutcomeView {
        match *self {
            KeyOutcome::Continue => OutcomeView::Continue,
            KeyOutcome::Redraw => OutcomeView::Redraw,
            KeyOutcome::SaveInPlace => OutcomeView::SaveInPlace,
            KeyOutcome::SaveGroups(request) => OutcomeView::SaveGroups(request@),
            KeyOutcome::Finish(action) => OutcomeView::Finish(action),
        }
    }
}

/// A session: the interface and the list it shows.
pub struct Session {
    pub app: AppView,
    pub g: GraphView,
}

/// A session after a keystroke, and what is to be done about it.
pub struct Pressed {
    pub s: Session,
    pub out: OutcomeView,
}

/// Nothing further is to be done.
pub open spec fn carry_on(s: Session) -> Pressed {
    Pressed { s, out: OutcomeView::Continue }
}

/// A session that has something to say.
pub open spec fn telling(s: Session, message: Seq<char>) -> Session {
    Session { app: AppView { status: message, ..s.app }, ..s }
}

/// One less, and no less than nothing.
pub open spec fn less(a: int, b: int) -> int {
    if a < b {
        0
    } else {
        a - b
    }
}

/// The smaller of two numbers.
pub open spec fn least(a: int, b: int) -> int {
    if a < b {
        a
    } else {
        b
    }
}

/// The row under the cursor.
pub open spec fn cursor_of(app: AppView) -> int {
    match app.selected {
        Some(i) => i as int,
        None => 0,
    }
}

/// The cursor put back on the row that an anchor names, or on another where
/// that row is gone, as far down the screen as it was.
pub open spec fn restored_or(
    app: AppView,
    g: GraphView,
    anchor: Option<RowAnchor>,
    fallback: int,
) -> AppView {
    let screen_row = less(cursor_of(app), app.offset as int);
    let found = match anchor {
        Some(a) => match fold::row_of(g, a) {
            Some(i) => i,
            None => fallback,
        },
        None => fallback,
    };
    let row = least(found, less(g.rows.len() as int, 1));
    AppView { selected: Some(row as usize), offset: less(row, screen_row) as usize, ..app }
}

/// The cursor put back on the row that an anchor names, where it is.
pub open spec fn restored(app: AppView, g: GraphView, anchor: Option<RowAnchor>) -> AppView {
    restored_or(app, g, anchor, cursor_of(app))
}

/// The cursor moved back by some rows, or on but not past the last.
pub open spec fn moved(app: AppView, from: int, back: bool, by: int, total: int) -> AppView {
    let row = if back {
        less(from, by)
    } else {
        least(from + by, less(total, 1))
    };
    AppView { selected: Some(row as usize), ..app }
}

/// The questions that are pending once the first `n` of some ports have been
/// asked about under the options now set. None is asked twice.
pub open spec fn asked_upto(
    pending: Seq<QuestionView>,
    g: GraphView,
    origins: Seq<Seq<char>>,
    n: int,
) -> Seq<QuestionView>
    decreases n,
{
    if n <= 0 {
        pending
    } else {
        let rest = asked_upto(pending, g, origins, n - 1);
        match graph::index_of(g, origins[n - 1]) {
            None => rest,
            Some(i) => oracle::with_question(
                rest,
                QuestionView {
                    origin: origins[n - 1],
                    options: Some(query::option_set_of(g, i as int)),
                },
            ),
        }
    }
}

/// After a change to a group: it is saved at once where a config file is
/// known.
pub open spec fn autosaved(s: Session, did: Seq<char>) -> Pressed {
    match s.app.config_path {
        None => carry_on(telling(s, did + " (unsaved; no config file)"@)),
        Some(path) => Pressed {
            s,
            out: OutcomeView::SaveGroups(
                SaveRequestView { path, after: AfterSaveView::Announce(did) },
            ),
        },
    }
}

/// How a number of options that were taken over is told.
pub open spec fn adopted_note(n: int) -> Seq<char> {
    if n == 0 {
        seq![]
    } else if n == 1 {
        ", matching 1 option"@
    } else {
        ", matching "@ + text::decimal_of(n as nat) + " options"@
    }
}

/// What is said of a port that joins a group.
pub open spec fn joined_note(target: Seq<char>, name: Seq<char>) -> Seq<char> {
    "Added "@ + target + " to "@ + name
}

/// The port that is to join a group.
pub open spec fn target_in(app: AppView) -> Seq<char> {
    match app.group_target {
        Some(t) => t,
        None => seq![],
    }
}

/// The interface back at the list, with no port to join a group.
pub open spec fn back_at_list(app: AppView) -> AppView {
    AppView { mode: InputMode::Normal, group_target: None, ..app }
}

/// What has been pressed, and then the interface back at the list.
pub open spec fn then_back(p: Pressed) -> Pressed {
    Pressed { s: Session { app: back_at_list(p.s.app), ..p.s }, ..p }
}

/// The name of the group that the cursor of the picker is on.
pub open spec fn picked_name(s: Session) -> Seq<char> {
    if s.app.group_cursor < s.g.groups.len() {
        s.g.groups[s.app.group_cursor as int].name
    } else {
        seq![]
    }
}

/// Enter in the group picker: the port joins the group under the cursor and
/// takes over its options, or a new group is to be named.
pub open spec fn picked(s: Session) -> Pressed {
    if s.app.group_cursor == s.g.groups.len() {
        carry_on(
            Session {
                app: AppView { buffer: seq![], caret: 0, mode: InputMode::GroupNewName, ..s.app },
                ..s
            },
        )
    } else {
        let name = picked_name(s);
        let target = target_in(s.app);
        if adopt::members_of(s.g.groups, name).contains(target) {
            then_back(carry_on(telling(s, target + " is already in "@ + name)))
        } else {
            let g = adopt::joined(s.g, name, target);
            let h = GraphView { groups: groups::enrolled(g.groups, name, target), ..g };
            let did = joined_note(target, name) + adopted_note(
                adopt::joined_count(s.g, name, target) as int,
            );
            then_back(autosaved(Session { g: h, ..s }, did))
        }
    }
}

/// A key in the group picker.
pub open spec fn assign_key(s: Session, key: Key) -> Pressed {
    if key.ctrl && field::either_of(key.code, 'g', 'G') {
        carry_on(
            Session {
                app: AppView {
                    group_target: None,
                    group_cursor: 0,
                    mode: InputMode::GroupManage,
                    ..s.app
                },
                ..s
            },
        )
    } else {
        match key.code {
            KeyCode::Esc => carry_on(Session { app: back_at_list(s.app), ..s }),
            KeyCode::Up => carry_on(
                Session {
                    app: AppView {
                        group_cursor: less(s.app.group_cursor as int, 1) as usize,
                        ..s.app
                    },
                    ..s
                },
            ),
            KeyCode::Down => carry_on(
                Session {
                    app: AppView {
                        group_cursor: least(
                            s.app.group_cursor + 1,
                            s.g.groups.len() as int,
                        ) as usize,
                        ..s.app
                    },
                    ..s
                },
            ),
            KeyCode::Enter => picked(s),
            _ => carry_on(s),
        }
    }
}

/// The buffer that is being typed into after a key.
pub open spec fn buffer_edited(s: Session, key: Key) -> Session {
    let f = field::edited(
        FieldView { text: s.app.buffer, caret: s.app.caret as int },
        key.code,
        key.ctrl,
    );
    Session { app: AppView { buffer: f.text, caret: f.caret as usize, ..s.app }, ..s }
}

/// A key while a new group is being named.
pub open spec fn new_name_key(s0: Session, key: Key) -> Pressed {
    let s = buffer_edited(s0, key);
    if field::edits(key.code, key.ctrl) {
        carry_on(s)
    } else {
        match key.code {
            KeyCode::Esc => carry_on(Session { app: back_at_list(s.app), ..s }),
            KeyCode::Enter => {
                let name = text::trimmed(s.app.buffer);
                let target = target_in(s.app);
                if name.len() == 0 {
                    carry_on(telling(s, "A group needs a name"@))
                } else {
                    let g = GraphView {
                        groups: groups::enrolled(s.g.groups, name, target),
                        ..s.g
                    };
                    then_back(autosaved(Session { g, ..s }, joined_note(target, name)))
                }
            },
            _ => carry_on(s),
        }
    }
}

/// The lines of the group manager.
pub open spec fn manage_lines(g: GraphView) -> Seq<ManageRowView> {
    list::manage_upto(g.groups, g.groups.len() as int)
}

/// What is under the cursor of the group manager taken out.
pub open spec fn taken_out(s: Session) -> Pressed {
    let lines = manage_lines(s.g);
    if s.app.group_cursor < lines.len() {
        match lines[s.app.group_cursor as int] {
            ManageRowView::Group(name) => autosaved(
                Session {
                    g: GraphView { groups: groups::disbanded(s.g.groups, name), ..s.g },
                    ..s
                },
                "Deleted group "@ + name,
            ),
            ManageRowView::Member { group, origin } => autosaved(
                Session {
                    g: GraphView { groups: groups::dismissed(s.g.groups, group, origin), ..s.g },
                    ..s
                },
                "Removed "@ + origin + " from "@ + group,
            ),
        }
    } else {
        carry_on(s)
    }
}

/// The cursor of the group manager on one of its lines.
pub open spec fn cursor_kept(p: Pressed) -> Pressed {
    let last = less(manage_lines(p.s.g).len() as int, 1);
    Pressed {
        s: Session {
            app: AppView {
                group_cursor: least(p.s.app.group_cursor as int, last) as usize,
                ..p.s.app
            },
            ..p.s
        },
        ..p
    }
}

/// A key in the group manager.
pub open spec fn manage_key(s: Session, key: Key) -> Pressed {
    let code = key.code;
    if code == KeyCode::Esc || code == KeyCode::Char('q') {
        carry_on(Session { app: AppView { mode: InputMode::Normal, ..s.app }, ..s })
    } else if code == KeyCode::Up {
        carry_on(
            Session {
                app: AppView {
                    group_cursor: less(s.app.group_cursor as int, 1) as usize,
                    ..s.app
                },
                ..s
            },
        )
    } else if code == KeyCode::Down {
        carry_on(
            Session {
                app: AppView {
                    group_cursor: least(
                        s.app.group_cursor + 1,
                        less(manage_lines(s.g).len() as int, 1),
                    ) as usize,
                    ..s.app
                },
                ..s
            },
        )
    } else if code == KeyCode::Char('d') || code == KeyCode::Delete {
        cursor_kept(taken_out(s))
    } else if field::either_of(code, 's', 'S') {
        match s.app.config_path {
            Some(path) => Pressed {
                s,
                out: OutcomeView::SaveGroups(
                    SaveRequestView { path, after: AfterSaveView::Report },
                ),
            },
            None => carry_on(
                Session {
                    app: AppView { buffer: seq![], caret: 0, mode: InputMode::ConfigPath, ..s.app },
                    ..s
                },
            ),
        }
    } else {
        carry_on(s)
    }
}

/// A key while a config file is being named.
pub open spec fn path_key(s0: Session, key: Key) -> Pressed {
    let s = buffer_edited(s0, key);
    if field::edits(key.code, key.ctrl) {
        carry_on(s)
    } else {
        match key.code {
            KeyCode::Esc => carry_on(
                Session { app: AppView { mode: InputMode::GroupManage, ..s.app }, ..s },
            ),
            KeyCode::Enter => {
                let path = text::trimmed(s.app.buffer);
                if path.len() == 0 {
                    carry_on(telling(s, "Give a path, or Esc to cancel"@))
                } else {
                    Pressed {
                        s,
                        out: OutcomeView::SaveGroups(
                            SaveRequestView { path, after: AfterSaveView::Remember },
                        ),
                    }
                }
            },
            _ => carry_on(s),
        }
    }
}

/// The interface once the groups have been written, or could not be.
pub open spec fn groups_saved(
    app: AppView,
    request: SaveRequestView,
    result: Result<(), Seq<char>>,
) -> AppView {
    match request.after {
        AfterSaveView::Announce(did) => match result {
            Ok(_) => AppView { status: did + ", saved"@, ..app },
            Err(e) => AppView { status: did + ", but could not save: "@ + e, ..app },
        },
        AfterSaveView::Report => match result {
            Ok(_) => AppView { status: "Saved groups to "@ + request.path, ..app },
            Err(e) => AppView { status: "Could not save: "@ + e, ..app },
        },
        AfterSaveView::Remember => match result {
            Ok(_) => AppView {
                status: "Saved groups to "@ + request.path,
                config_path: Some(request.path),
                mode: InputMode::GroupManage,
                ..app
            },
            Err(e) => AppView { status: "Could not save: "@ + e, ..app },
        },
    }
}

/// The session back at the list after a quit that was called off.
pub open spec fn stayed(s: Session) -> Pressed {
    carry_on(
        telling(
            Session { app: AppView { mode: InputMode::Normal, ..s.app }, ..s },
            "Returned to configuration"@,
        ),
    )
}

/// A key in the confirmation box. Asking twice and getting the same answer
/// means it: a second Esc or `Ctrl + C` leaves.
pub open spec fn confirm_key(s: Session, key: Key) -> Pressed {
    let code = key.code;
    let save = Pressed { s, out: OutcomeView::Finish(TuiAction::SaveAndQuit) };
    let discard = Pressed { s, out: OutcomeView::Finish(TuiAction::QuitWithoutSaving) };
    if code == KeyCode::Esc || (key.ctrl && field::either_of(code, 'c', 'C')) {
        discard
    } else if field::either_of(code, 's', 'S') {
        save
    } else if field::either_of(code, 'd', 'D') || field::either_of(code, 'y', 'Y') {
        discard
    } else if field::either_of(code, 'c', 'C') || field::either_of(code, 'n', 'N') {
        stayed(s)
    } else if code == KeyCode::Right || code == KeyCode::Tab || code == KeyCode::Down {
        carry_on(
            Session { app: AppView { confirm: ui::choice_after(s.app.confirm), ..s.app }, ..s },
        )
    } else if code == KeyCode::Left || code == KeyCode::BackTab || code == KeyCode::Up {
        carry_on(
            Session { app: AppView { confirm: ui::choice_before(s.app.confirm), ..s.app }, ..s },
        )
    } else if code == KeyCode::Enter || code == KeyCode::Char(' ') {
        match s.app.confirm {
            ConfirmChoice::Save => save,
            ConfirmChoice::Discard => discard,
            ConfirmChoice::Cancel => stayed(s),
        }
    } else {
        carry_on(s)
    }
}

/// How many rows a page is.
pub open spec fn page(app: AppView) -> int {
    if app.viewport < 1 {
        1
    } else {
        app.viewport as int
    }
}

/// How many rows a step of the cursor is.
pub open spec fn stride(key: Key) -> int {
    if key.ctrl {
        5
    } else {
        1
    }
}

/// A key in the search bar. The list narrows as the query grows, and the
/// cursor stays on the row being looked at while it still matches.
pub open spec fn search_key(s0: Session, key: Key) -> Pressed {
    let f = field::edited(
        FieldView { text: s0.g.search, caret: s0.app.caret as int },
        key.code,
        key.ctrl,
    );
    let s = Session {
        app: AppView { caret: f.caret as usize, ..s0.app },
        g: GraphView { search: f.text, ..s0.g },
    };
    let here = cursor_of(s0.app);
    let total = s0.g.rows.len() as int;
    let anchor = fold::anchor_of(s0.g, here);
    if field::edits(key.code, key.ctrl) {
        let g = rows::rerowed(s.g);
        carry_on(Session { app: restored_or(s.app, g, anchor, 0), g })
    } else {
        match key.code {
            KeyCode::Up => carry_on(
                Session { app: moved(s.app, here, true, stride(key), total), ..s },
            ),
            KeyCode::Down => carry_on(
                Session { app: moved(s.app, here, false, stride(key), total), ..s },
            ),
            KeyCode::PageUp => carry_on(
                Session { app: moved(s.app, here, true, page(s.app), total), ..s },
            ),
            KeyCode::PageDown => carry_on(
                Session { app: moved(s.app, here, false, page(s.app), total), ..s },
            ),
            KeyCode::Esc => {
                let g = rows::rerowed(GraphView { search: seq![], ..s.g });
                let app = restored(AppView { caret: 0, ..s.app }, g, anchor);
                carry_on(
                    Session {
                        app: AppView {
                            mode: InputMode::Normal,
                            status: "Cleared search filter"@,
                            ..app
                        },
                        g,
                    },
                )
            },
            KeyCode::Enter => carry_on(
                telling(
                    Session { app: AppView { mode: InputMode::Normal, ..s.app }, ..s },
                    "Filter locked: '"@ + s.g.search + "'"@,
                ),
            ),
            _ => carry_on(s),
        }
    }
}

/// What a key asks for while the list is being browsed.
#[derive(Debug, Clone, Copy, PartialEq, Eq, Structural)]
pub enum Command {
    FocusNext,
    FocusPrev,
    Follow,
    Back,
    Press,
    SaveInPlace,
    Quit,
    Search,
    Group,
    Recenter,
    FocusOkay,
    FocusCancel,
    Ignore,
    NextSibling,
    PrevSibling,
    Top,
    Bottom,
    Hide,
    Up,
    Down,
    PageUp,
    PageDown,
    Tree(char),
    Toggle,
}

/// The key that opens or closes rows, if it is one.
pub open spec fn tree_key_of(key: Key) -> Option<char> {
    match key.code {
        KeyCode::Char(c) => if !key.ctrl && (c == '=' || c == '-' || c == '+' || c == '_') {
            Some(c)
        } else {
            None
        },
        _ => None,
    }
}

/// Whether the row under the cursor points at a port.
pub open spec fn on_reference(s: Session) -> bool {
    let here = cursor_of(s.app);
    here < s.g.rows.len() && graph::target_of(s.g.rows[here].kind) is Some
}

/// What a key asks for while the list is being browsed.
///
/// Letter hotkeys work from any focus; what acts on the list needs the list to
/// hold it.
pub open spec fn command_of(key: Key, focus: Focus, on_ref: bool) -> Command {
    let code = key.code;
    let on_list = focus == Focus::List;
    if code == KeyCode::Tab {
        Command::FocusNext
    } else if code == KeyCode::BackTab {
        Command::FocusPrev
    } else if code == KeyCode::Enter && on_list && on_ref {
        Command::Follow
    } else if field::rubs_out(code, key.ctrl) && on_list {
        Command::Back
    } else if code == KeyCode::Enter {
        Command::Press
    } else if key.ctrl && field::either_of(code, 's', 'S') {
        Command::SaveInPlace
    } else if field::either_of(code, 'o', 'O') || field::either_of(code, 's', 'S')
        || field::either_of(code, 'c', 'C') || code == KeyCode::Char('q') || code == KeyCode::Esc {
        Command::Quit
    } else if code == KeyCode::Char('/') || (key.ctrl && field::either_of(code, 'f', 'F')) {
        Command::Search
    } else if key.ctrl && field::either_of(code, 'g', 'G') {
        Command::Group
    } else if key.ctrl && field::either_of(code, 'l', 'L') {
        Command::Recenter
    } else if code == KeyCode::Left && !on_list {
        Command::FocusOkay
    } else if code == KeyCode::Right && !on_list {
        Command::FocusCancel
    } else if code == KeyCode::Char(' ') && !on_list {
        Command::Press
    } else if !on_list {
        Command::Ignore
    } else if code == KeyCode::Down {
        if key.shift {
            Command::NextSibling
        } else {
            Command::Down
        }
    } else if code == KeyCode::Up {
        if key.shift {
            Command::PrevSibling
        } else {
            Command::Up
        }
    } else if code == KeyCode::Home {
        Command::Top
    } else if code == KeyCode::End {
        Command::Bottom
    } else if code == KeyCode::Char('H') && !key.ctrl {
        Command::Hide
    } else if code == KeyCode::PageUp {
        Command::PageUp
    } else if code == KeyCode::PageDown {
        Command::PageDown
    } else {
        match tree_key_of(key) {
            Some(c) => Command::Tree(c),
            None => if code == KeyCode::Char(' ') {
                Command::Toggle
            } else {
                Command::Ignore
            },
        }
    }
}

/// The session asked whether to leave. Always asked, not only when something
/// has changed.
pub open spec fn asked_to_leave(s: Session) -> Session {
    telling(
        Session {
            app: AppView {
                mode: InputMode::ConfirmQuit,
                confirm: ConfirmChoice::Save,
                ..s.app
            },
            ..s
        },
        if query::dirty(s.g) {
            "Unsaved changes"@
        } else {
            "Leaving"@
        },
    )
}

/// Following the reference under the cursor to that port's own entry.
pub open spec fn followed(s: Session) -> Session {
    let here = cursor_of(s.app);
    let target = graph::target_of(s.g.rows[here].kind)->0;
    let g = list::arrived_at(s.g, target);
    match list::arrival_row(s.g, target) {
        Some(row) => Session {
            app: AppView {
                jumps: match list::port_above(s.g.rows, here) {
                    Some(from) => s.app.jumps.push(from),
                    None => s.app.jumps,
                },
                selected: Some(row as usize),
                status: "Jumped to "@ + target,
                ..s.app
            },
            g,
        },
        None => telling(Session { g, ..s }, target + " is not in the list"@),
    }
}

/// Going back to where the last jump came from.
pub open spec fn went_back(s: Session) -> Session {
    if s.app.jumps.len() == 0 {
        telling(s, "No jump to go back from"@)
    } else {
        let origin = s.app.jumps.last();
        let g = list::arrived_at(s.g, origin);
        let app = AppView { jumps: s.app.jumps.drop_last(), ..s.app };
        match list::arrival_row(s.g, origin) {
            Some(row) => Session {
                app: AppView {
                    selected: Some(row as usize),
                    status: "Back to "@ + origin,
                    ..app
                },
                g,
            },
            None => telling(Session { app, g }, origin + " is no longer listed"@),
        }
    }
}

/// Choosing the group that the port under the cursor is to join.
pub open spec fn choosing_group(s: Session) -> Session {
    match list::port_above(s.g.rows, cursor_of(s.app)) {
        Some(origin) => Session {
            app: AppView {
                group_target: Some(origin),
                group_cursor: 0,
                mode: InputMode::GroupAssign,
                ..s.app
            },
            ..s
        },
        None => telling(s, "Put the cursor on a port first"@),
    }
}

/// The cursor row moved to the next position of the cycle.
pub open spec fn recentered(s: Session) -> Session {
    let pos = match s.app.recenter {
        Some(p) => ui::position_after(p),
        None => RecenterPosition::Middle,
    };
    telling(
        Session {
            app: AppView {
                recenter: Some(pos),
                offset: list::offset_for(
                    cursor_of(s.app),
                    s.app.viewport as int,
                    s.g.rows.len() as int,
                    pos,
                ) as usize,
                ..s.app
            },
            ..s
        },
        "Recentered row to "@ + ui::position_label(pos),
    )
}

/// How deep the rows are.
pub open spec fn depths_of(rows: Seq<RowView>) -> Seq<usize> {
    Seq::new(rows.len(), |i: int| rows[i].depth as usize)
}

/// The next row as deep as this one under the same parent, if there is one.
pub open spec fn sibling_after(rows: Seq<RowView>, i: int) -> int {
    if i < rows.len() {
        fold::next_at(depths_of(rows), i, i + 1)
    } else {
        i
    }
}

/// The row before this one as deep as it under the same parent, if there is
/// one.
pub open spec fn sibling_before(rows: Seq<RowView>, i: int) -> int {
    if i < rows.len() {
        fold::prev_at(depths_of(rows), i, i)
    } else {
        i
    }
}

/// The cursor on a row, with something to say.
pub open spec fn put_on(s: Session, row: int, message: Seq<char>) -> Session {
    telling(Session { app: AppView { selected: Some(row as usize), ..s.app }, ..s }, message)
}

/// Ports that have no options taken out of the list, or put back.
pub open spec fn hidden_flipped(s: Session) -> Session {
    let anchor = fold::anchor_of(s.g, cursor_of(s.app));
    let g = rows::rerowed(GraphView { hide_optionless: !s.g.hide_optionless, ..s.g });
    telling(
        Session { app: restored(s.app, g, anchor), g },
        if g.hide_optionless {
            "Hiding "@ + text::decimal_of(
                query::optionless_upto(g, g.ports.len() as int) as nat,
            ) + " port(s) with no options"@
        } else {
            "Showing all "@ + text::decimal_of(live::count_live(g.live) as nat) + " ports"@
        },
    )
}

/// The graph after a tree command at a row.
pub open spec fn tree_done(g: GraphView, op: TreeOp, row: int) -> GraphView {
    match op {
        TreeOp::ExpandNode => fold::node_at(g, row, true),
        TreeOp::CollapseNode => fold::node_at(g, row, false),
        TreeOp::ExpandSection => fold::tree_at(g, row, Mode::Expand),
        TreeOp::CollapseSection => fold::tree_at(g, row, Mode::Collapse),
        TreeOp::ExpandAll => fold::all_folded(g, Mode::Expand),
        TreeOp::CollapseAll => fold::all_folded(g, Mode::Collapse),
    }
}

/// What is said of a tree command at a row.
pub open spec fn tree_note(op: TreeOp, what: Seq<char>) -> Seq<char> {
    match op {
        TreeOp::ExpandNode => "Expanded "@ + what,
        TreeOp::CollapseNode => "Collapsed "@ + what,
        TreeOp::ExpandSection => "Expanded everything under "@ + what,
        TreeOp::CollapseSection => "Collapsed everything under "@ + what,
        TreeOp::ExpandAll => "Expanded the whole list"@,
        TreeOp::CollapseAll => "Collapsed the whole list"@,
    }
}

/// A tree command carried out, with the cursor kept on its row.
pub open spec fn folded(s: Session, c: char, repeat: bool) -> Session {
    match ui::tree_op_of(c, repeat) {
        None => s,
        Some(op) => {
            let here = cursor_of(s.app);
            let anchor = fold::anchor_of(s.g, here);
            let g = tree_done(s.g, op, here);
            let app = AppView {
                status: tree_note(op, list::label_of(s.g.rows, here)),
                ..s.app
            };
            Session { app: restored(app, g, anchor), g }
        },
    }
}

/// The options of a port with their states.
pub open spec fn snapshot(options: Seq<OptionView>, ids: Seq<usize>) -> Seq<(usize, bool)> {
    Seq::new(ids.len(), |i: int| (ids[i], options[ids[i] as int].enabled))
}

/// The option that a row is, if it is one.
pub open spec fn option_row(row: RowView) -> Option<(Seq<char>, usize)> {
    match row.kind {
        RowKindView::Option { name, description, enabled, group_type, group_name } => {
            match row.node_id {
                NodeId::Option(id) => Some((name, id)),
                _ => None,
            }
        },
        _ => None,
    }
}

/// The option under the cursor pressed: what it did is told, and every port
/// whose options changed is to be asked about again.
pub open spec fn option_pressed(s: Session, here: int, name: Seq<char>, id: usize) -> Session {
    let port = s.g.options[id as int].parent_port;
    let before = snapshot(s.g.options, s.g.ports[port as int].options);
    let anchor = fold::anchor_of(s.g, here);
    let g = choice::toggled(s.g, here);
    let touched = choice::toggle_touches(s.g, here);
    let app = restored(s.app, g, anchor);
    Session {
        app: AppView {
            pending: asked_upto(app.pending, g, touched, touched.len() as int),
            status: list::report_of(g, name, id, before),
            ..app
        },
        g,
    }
}

/// Space on the row under the cursor.
pub open spec fn space_pressed(s: Session) -> Session {
    match s.app.selected {
        None => s,
        Some(here) => if here < s.g.rows.len() {
            match option_row(s.g.rows[here as int]) {
                Some(o) => option_pressed(s, here as int, o.0, o.1),
                None => telling(s, "Cannot toggle non-option row"@),
            }
        } else {
            s
        },
    }
}

/// A command carried out.
pub open spec fn commanded(s: Session, command: Command, key: Key, repeat: bool) -> Pressed {
    let here = cursor_of(s.app);
    let total = s.g.rows.len() as int;
    match command {
        Command::FocusNext => carry_on(
            Session { app: AppView { focus: ui::focus_after(s.app.focus), ..s.app }, ..s },
        ),
        Command::FocusPrev => carry_on(
            Session { app: AppView { focus: ui::focus_before(s.app.focus), ..s.app }, ..s },
        ),
        Command::Follow => carry_on(followed(s)),
        Command::Back => carry_on(went_back(s)),
        Command::Press => if s.app.focus == Focus::Cancel {
            carry_on(asked_to_leave(s))
        } else {
            Pressed { s, out: OutcomeView::Finish(TuiAction::SaveAndQuit) }
        },
        Command::SaveInPlace => Pressed { s, out: OutcomeView::SaveInPlace },
        Command::Quit => carry_on(asked_to_leave(s)),
        Command::Search => carry_on(
            Session {
                app: AppView {
                    caret: s.g.search.len() as usize,
                    mode: InputMode::Search,
                    ..s.app
                },
                ..s
            },
        ),
        Command::Group => carry_on(choosing_group(s)),
        Command::Recenter => Pressed { s: recentered(s), out: OutcomeView::Redraw },
        Command::FocusOkay => carry_on(
            Session { app: AppView { focus: Focus::Okay, ..s.app }, ..s },
        ),
        Command::FocusCancel => carry_on(
            Session { app: AppView { focus: Focus::Cancel, ..s.app }, ..s },
        ),
        Command::Ignore => carry_on(s),
        Command::NextSibling => carry_on(
            put_on(s, sibling_after(s.g.rows, here), "Jumped to next sibling"@),
        ),
        Command::PrevSibling => carry_on(
            put_on(s, sibling_before(s.g.rows, here), "Jumped to previous sibling"@),
        ),
        Command::Top => carry_on(put_on(s, 0, "Jumped to top"@)),
        Command::Bottom => carry_on(put_on(s, less(total, 1), "Jumped to bottom"@)),
        Command::Hide => carry_on(hidden_flipped(s)),
        Command::Up => carry_on(
            Session { app: moved(s.app, here, true, stride(key), total), ..s },
        ),
        Command::Down => carry_on(
            Session { app: moved(s.app, here, false, stride(key), total), ..s },
        ),
        Command::PageUp => carry_on(
            telling(
                Session { app: moved(s.app, here, true, page(s.app), total), ..s },
                "Page Up (-"@ + text::decimal_of(page(s.app) as nat) + " rows)"@,
            ),
        ),
        Command::PageDown => carry_on(
            telling(
                Session { app: moved(s.app, here, false, page(s.app), total), ..s },
                "Page Down (+"@ + text::decimal_of(page(s.app) as nat) + " rows)"@,
            ),
        ),
        Command::Tree(c) => carry_on(folded(s, c, repeat)),
        Command::Toggle => carry_on(space_pressed(s)),
    }
}

/// A key while the list is being browsed.
pub open spec fn normal_key(s: Session, key: Key, repeat: bool) -> Pressed {
    commanded(s, command_of(key, s.app.focus, on_reference(s)), key, repeat)
}

/// The interface as a key arrives: an important message is acknowledged by any
/// key, and any other key than theirs breaks a run of `Ctrl + L` or of a tree
/// key.
pub open spec fn key_noted(app: AppView, key: Key) -> AppView {
    AppView {
        important: None,
        recenter: if key.ctrl && field::either_of(key.code, 'l', 'L') {
            app.recenter
        } else {
            None
        },
        last_tree_key: tree_key_of(key),
        ..app
    }
}

/// Whether a tree key is the one that was pressed just before.
pub open spec fn is_repeat(app: AppView, key: Key) -> bool {
    tree_key_of(key) is Some && tree_key_of(key) == app.last_tree_key
}

/// A session after a keystroke. `Ctrl + R` repaints from any mode.
pub open spec fn keyed(s0: Session, key: Key) -> Pressed {
    let s = Session { app: key_noted(s0.app, key), ..s0 };
    if key.ctrl && field::either_of(key.code, 'r', 'R') {
        Pressed { s: telling(s, "Redrew screen"@), out: OutcomeView::Redraw }
    } else {
        match s.app.mode {
            InputMode::GroupAssign => assign_key(s, key),
            InputMode::GroupNewName => new_name_key(s, key),
            InputMode::GroupManage => manage_key(s, key),
            InputMode::ConfigPath => path_key(s, key),
            InputMode::ConfirmQuit => confirm_key(s, key),
            InputMode::Search => search_key(s, key),
            InputMode::Normal => normal_key(s, key, is_repeat(s0.app, key)),
        }
    }
}

/// A session after text was pasted: it goes into the field being typed into,
/// and is ignored where there is none.
pub open spec fn pasted(s: Session, text: Seq<char>) -> Session {
    let line = field::pasted_line(text);
    match s.app.mode {
        InputMode::Search => {
            let f = field::typed_upto(
                FieldView { text: s.g.search, caret: s.app.caret as int },
                line,
                line.len() as int,
            );
            let anchor = fold::anchor_of(s.g, cursor_of(s.app));
            let g = rows::rerowed(GraphView { search: f.text, ..s.g });
            let app = AppView { caret: f.caret as usize, ..s.app };
            Session { app: restored_or(app, g, anchor, 0), g }
        },
        InputMode::GroupNewName | InputMode::ConfigPath => {
            let f = field::typed_upto(
                FieldView { text: s.app.buffer, caret: s.app.caret as int },
                line,
                line.len() as int,
            );
            Session { app: AppView { buffer: f.text, caret: f.caret as usize, ..s.app }, ..s }
        },
        _ => s,
    }
}

} // verus!
