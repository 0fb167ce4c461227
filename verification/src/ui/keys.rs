//! Acting on keystrokes.
use super::field::{
    edit_field, first_line, is_backspace, is_char, is_either, type_all, Key, KeyCode,
};
use super::list::{
    enclosing_port_origin, jump_to_port, manage_rows, recenter_offset, row_label, toggle_report,
    ManageRow,
};
use super::press;
use super::press::{AfterSave, Command, KeyOutcome, SaveRequest, Session};
use super::{
    next_focus, prev_focus, tree_op, App, AppView, ConfirmChoice, Focus, InputMode,
    RecenterPosition, TreeOp, TuiAction,
};
use crate::graph;
use crate::graph::choice;
use crate::graph::fold;
use crate::graph::rows;
use crate::graph::{DependencyGraph, GraphView, NodeId, RowAnchor, RowKind};
use crate::oracle;
use crate::oracle::{Options, Question};
use crate::order;
use crate::text;
use vstd::prelude::*;

verus! {

/// What a graph's rows are anchored by is in it.
proof fn lemma_anchor(g: GraphView, i: int)
    requires
        g.wf(),
    ensures
        fold::anchor_of(g, i) is Some ==> fold::anchor_ok(g, fold::anchor_of(g, i)->0),
{
    if 0 <= i < g.rows.len() {
        assert(graph::row_ok(g.rows[i], g.ports.len(), g.options.len()));
    }
}

impl App {
    /// The row under the cursor.
    fn cursor(&self) -> (r: usize)
        ensures
            r == press::cursor_of(self@),
    {
        match self.selected {
            Some(i) => i,
            None => 0,
        }
    }

    /// Puts the cursor back on the row it was on before the row list changed.
    pub fn restore_anchor(&mut self, graph: &DependencyGraph, anchor: Option<RowAnchor>)
        requires
            anchor is Some ==> fold::anchor_ok(graph@, anchor->0),
        ensures
            final(self)@ == press::restored(old(self)@, graph@, anchor),
    {
        let here = self.cursor();
        self.restore_anchor_or(graph, anchor, here);
    }

    /// Puts the cursor back on the row it was on, or on another where that row
    /// is gone entirely. The row stays as far down the screen as it was.
    pub fn restore_anchor_or(
        &mut self,
        graph: &DependencyGraph,
        anchor: Option<RowAnchor>,
        fallback: usize,
    )
        requires
            anchor is Some ==> fold::anchor_ok(graph@, anchor->0),
        ensures
            final(self)@ == press::restored_or(old(self)@, graph@, anchor, fallback as int),
    {
        let here = self.cursor();
        let screen_row: usize = if here < self.offset {
            0
        } else {
            here - self.offset
        };
        let found: usize = match anchor {
            Some(a) => match graph.row_of_anchor(&a) {
                Some(i) => i,
                None => fallback,
            },
            None => fallback,
        };
        let total: usize = graph.visible_rows.len();
        proof {
            assert(graph@.rows.len() == total);
        }
        let last: usize = if total < 1 {
            0
        } else {
            total - 1
        };
        let row: usize = if found < last {
            found
        } else {
            last
        };
        self.selected = Some(row);
        self.offset = if row < screen_row {
            0
        } else {
            row - screen_row
        };
    }

    /// Queues a fresh question about every port whose options have just
    /// changed. A port already queued is not queued twice.
    pub fn ask_about(&mut self, graph: &DependencyGraph, origins: &Vec<String>)
        requires
            graph@.wf(),
        ensures
            final(self)@ == (AppView {
                pending: press::asked_upto(
                    old(self)@.pending,
                    graph@,
                    text::texts(origins@),
                    origins@.len() as int,
                ),
                ..old(self)@
            }),
    {
        let ghost app = self@;
        let ghost ov = text::texts(origins@);
        let mut n: usize = 0;
        while n < origins.len()
            invariant
                n <= origins@.len(),
                ov == text::texts(origins@),
                graph@.wf(),
                self@ == (AppView {
                    pending: press::asked_upto(app.pending, graph@, ov, n as int),
                    ..app
                }),
            decreases origins@.len() - n,
        {
            proof {
                assert(ov[n as int] == origins@[n as int]@);
            }
            if let Some(id) = graph.port_index(origins[n].as_str()) {
                let question = Question {
                    origin: origins[n].clone(),
                    options: Options::Exactly(graph.option_set(id)),
                };
                oracle::ask_once(&mut self.pending, question);
            }
            n += 1;
        }
    }

    /// Moves the list cursor `by` rows from `from`, clamped to the list.
    fn move_selection(&mut self, from: usize, back: bool, by: usize, total: usize)
        ensures
            final(self)@ == press::moved(old(self)@, from as int, back, by as int, total as int),
    {
        let row: usize = if back {
            if from < by {
                0
            } else {
                from - by
            }
        } else {
            let last: usize = if total < 1 {
                0
            } else {
                total - 1
            };
            if from < last && by < last - from {
                from + by
            } else {
                last
            }
        };
        self.selected = Some(row);
    }

    /// After a change to a group: asks for it to be saved where a config file
    /// is known.
    ///
    /// Done on every change, not only on additions: if adding saved but
    /// removing did not, the file would quietly disagree with the screen.
    fn autosave_groups(&mut self, did: String, Ghost(g): Ghost<GraphView>) -> (r: KeyOutcome)
        ensures
            ({
                let p = press::autosaved(Session { app: old(self)@, g }, did@);
                final(self)@ == p.s.app && p.s.g == g && r@ == p.out
            }),
    {
        match &self.config_path {
            None => {
                self.status_msg = text::concat2(did.as_str(), " (unsaved; no config file)");
                KeyOutcome::Continue
            },
            Some(path) => KeyOutcome::SaveGroups(
                SaveRequest { path: path.clone(), after: AfterSave::Announce(did) },
            ),
        }
    }

    /// Says how writing the groups went.
    pub fn on_groups_saved(&mut self, request: SaveRequest, result: Result<(), String>)
        ensures
            final(self)@ == press::groups_saved(
                old(self)@,
                request@,
                match result {
                    Ok(_) => Ok(()),
                    Err(e) => Err(e@),
                },
            ),
    {
        match result {
            Ok(_) => match request.after {
                AfterSave::Announce(did) => {
                    self.status_msg = text::concat2(did.as_str(), ", saved");
                },
                AfterSave::Report => {
                    self.status_msg = text::concat2("Saved groups to ", request.path.as_str());
                },
                AfterSave::Remember => {
                    self.status_msg = text::concat2("Saved groups to ", request.path.as_str());
                    self.config_path = Some(request.path);
                    self.input_mode = InputMode::GroupManage;
                },
            },
            Err(e) => match request.after {
                AfterSave::Announce(did) => {
                    self.status_msg = text::concat3(
                        did.as_str(),
                        ", but could not save: ",
                        e.as_str(),
                    );
                },
                _ => {
                    self.status_msg = text::concat2("Could not save: ", e.as_str());
                },
            },
        }
    }

    /// The port that is to join a group.
    pub fn target(&self) -> (r: String)
        ensures
            r@ == press::target_in(self@),
    {
        match &self.group_target {
            Some(t) => t.clone(),
            None => {
                let r = String::new();
                proof {
                    assert(r@ =~= seq![]);
                }
                r
            },
        }
    }

    fn back_to_list(&mut self)
        ensures
            final(self)@ == press::back_at_list(old(self)@),
    {
        self.input_mode = InputMode::Normal;
        self.group_target = None;
    }

    /// Enter in the group picker.
    fn pick_group(&mut self, graph: &mut DependencyGraph) -> (r: KeyOutcome)
        requires
            old(graph)@.wf(),
        ensures
            ({
                let p = press::picked(Session { app: old(self)@, g: old(graph)@ });
                final(self)@ == p.s.app && final(graph)@ == p.s.g && r@ == p.out
            }),
            final(graph)@.wf(),
    {
        let ghost g = graph@;
        let count: usize = graph.groups.len();
        proof {
            assert(g.groups.len() == count);
        }
        if self.group_cursor == count {
            self.text_buffer = String::new();
            proof {
                assert(self.text_buffer@ =~= seq![]);
            }
            self.text_cursor = 0;
            self.input_mode = InputMode::GroupNewName;
            return KeyOutcome::Continue;
        }
        let target = self.target();
        let name = if self.group_cursor < count {
            proof {
                assert(g.groups[self.group_cursor as int] == graph.groups@[self.group_cursor as int]@);
            }
            graph.groups[self.group_cursor].name.clone()
        } else {
            let r = String::new();
            proof {
                assert(r@ =~= seq![]);
            }
            r
        };
        if graph.is_member(name.as_str(), target.as_str()) {
            self.status_msg = text::concat3(target.as_str(), " is already in ", name.as_str());
            self.back_to_list();
            return KeyOutcome::Continue;
        }
        let adopted: usize = graph.adopt_group_options(name.as_str(), target.as_str());
        graph.enroll(name.as_str(), target.as_str());
        let mut did = joined_message(target.as_str(), name.as_str());
        if adopted == 1 {
            did.append(", matching 1 option");
        } else if adopted > 1 {
            let mut note = ", matching ".to_owned();
            note.append(text::decimal(adopted).as_str());
            note.append(" options");
            did.append(note.as_str());
        }
        proof {
            let note = press::adopted_note(adopted as int);
            assert(did@ =~= press::joined_note(target@, name@) + note);
        }
        let out = self.autosave_groups(did, Ghost(graph@));
        self.back_to_list();
        out
    }

    /// A key in the group picker.
    fn on_assign_key(&mut self, key: Key, graph: &mut DependencyGraph) -> (r: KeyOutcome)
        requires
            old(graph)@.wf(),
        ensures
            ({
                let p = press::assign_key(Session { app: old(self)@, g: old(graph)@ }, key);
                final(self)@ == p.s.app && final(graph)@ == p.s.g && r@ == p.out
            }),
            final(graph)@.wf(),
    {
        let count: usize = graph.groups.len();
        proof {
            assert(graph@.groups.len() == count);
        }
        if key.ctrl && is_either(key.code, 'g', 'G') {
            self.group_target = None;
            self.group_cursor = 0;
            self.input_mode = InputMode::GroupManage;
            return KeyOutcome::Continue;
        }
        match key.code {
            KeyCode::Esc => {
                self.back_to_list();
            },
            KeyCode::Up => {
                if self.group_cursor > 0 {
                    self.group_cursor = self.group_cursor - 1;
                }
            },
            KeyCode::Down => {
                self.group_cursor = if self.group_cursor < count {
                    self.group_cursor + 1
                } else {
                    count
                };
            },
            KeyCode::Enter => {
                return self.pick_group(graph);
            },
            _ => {},
        }
        KeyOutcome::Continue
    }

    /// A key while a new group is being named.
    fn on_new_name_key(&mut self, key: Key, graph: &mut DependencyGraph) -> (r: KeyOutcome)
        requires
            old(graph)@.wf(),
        ensures
            ({
                let p = press::new_name_key(Session { app: old(self)@, g: old(graph)@ }, key);
                final(self)@ == p.s.app && final(graph)@ == p.s.g && r@ == p.out
            }),
            final(graph)@.wf(),
    {
        if edit_field(&mut self.text_buffer, &mut self.text_cursor, key.code, key.ctrl) {
            return KeyOutcome::Continue;
        }
        match key.code {
            KeyCode::Esc => {
                self.back_to_list();
            },
            KeyCode::Enter => {
                let name = text::trim(self.text_buffer.as_str());
                let target = self.target();
                if name.as_str().is_empty() {
                    self.status_msg = "A group needs a name".to_owned();
                } else {
                    graph.enroll(name.as_str(), target.as_str());
                    let did = joined_message(target.as_str(), name.as_str());
                    let out = self.autosave_groups(did, Ghost(graph@));
                    self.back_to_list();
                    return out;
                }
            },
            _ => {},
        }
        KeyOutcome::Continue
    }

    /// Takes out what is under the cursor of the group manager.
    fn take_out(&mut self, graph: &mut DependencyGraph) -> (r: KeyOutcome)
        requires
            old(graph)@.wf(),
        ensures
            ({
                let p = press::taken_out(Session { app: old(self)@, g: old(graph)@ });
                final(self)@ == p.s.app && final(graph)@ == p.s.g && r@ == p.out
            }),
            final(graph)@.wf(),
    {
        let lines = manage_rows(&graph.groups);
        proof {
            assert(order::views(lines@) == press::manage_lines(graph@));
            assert(order::views(lines@).len() == lines@.len());
        }
        if self.group_cursor >= lines.len() {
            return KeyOutcome::Continue;
        }
        proof {
            let c = self.group_cursor as int;
            assert(order::views(lines@)[c] == lines@[c]@);
        }
        match &lines[self.group_cursor] {
            ManageRow::Group(name) => {
                graph.disband(name.as_str());
                let did = text::concat2("Deleted group ", name.as_str());
                self.autosave_groups(did, Ghost(graph@))
            },
            ManageRow::Member { group, origin } => {
                graph.dismiss(group.as_str(), origin.as_str());
                let mut did = text::concat3("Removed ", origin.as_str(), " from ");
                did.append(group.as_str());
                self.autosave_groups(did, Ghost(graph@))
            },
        }
    }

    /// A key in the group manager.
    fn on_manage_key(&mut self, key: Key, graph: &mut DependencyGraph) -> (r: KeyOutcome)
        requires
            old(graph)@.wf(),
        ensures
            ({
                let p = press::manage_key(Session { app: old(self)@, g: old(graph)@ }, key);
                final(self)@ == p.s.app && final(graph)@ == p.s.g && r@ == p.out
            }),
            final(graph)@.wf(),
    {
        let code = key.code;
        if code == KeyCode::Esc || is_char(code, 'q') {
            self.input_mode = InputMode::Normal;
        } else if code == KeyCode::Up {
            if self.group_cursor > 0 {
                self.group_cursor = self.group_cursor - 1;
            }
        } else if code == KeyCode::Down {
            let last = last_line(graph);
            self.group_cursor = if self.group_cursor < last {
                self.group_cursor + 1
            } else {
                last
            };
        } else if is_char(code, 'd') || code == KeyCode::Delete {
            let out = self.take_out(graph);
            let last = last_line(graph);
            if self.group_cursor > last {
                self.group_cursor = last;
            }
            return out;
        } else if is_either(code, 's', 'S') {
            match &self.config_path {
                Some(path) => {
                    return KeyOutcome::SaveGroups(
                        SaveRequest { path: path.clone(), after: AfterSave::Report },
                    );
                },
                None => {
                    self.text_buffer = String::new();
                    proof {
                        assert(self.text_buffer@ =~= seq![]);
                    }
                    self.text_cursor = 0;
                    self.input_mode = InputMode::ConfigPath;
                },
            }
        }
        KeyOutcome::Continue
    }

    /// A key while a config file is being named.
    fn on_path_key(&mut self, key: Key, Ghost(g): Ghost<GraphView>) -> (r: KeyOutcome)
        ensures
            ({
                let p = press::path_key(Session { app: old(self)@, g }, key);
                final(self)@ == p.s.app && g == p.s.g && r@ == p.out
            }),
    {
        if edit_field(&mut self.text_buffer, &mut self.text_cursor, key.code, key.ctrl) {
            return KeyOutcome::Continue;
        }
        match key.code {
            KeyCode::Esc => {
                self.input_mode = InputMode::GroupManage;
            },
            KeyCode::Enter => {
                let path = text::trim(self.text_buffer.as_str());
                if path.as_str().is_empty() {
                    self.status_msg = "Give a path, or Esc to cancel".to_owned();
                } else {
                    return KeyOutcome::SaveGroups(
                        SaveRequest { path, after: AfterSave::Remember },
                    );
                }
            },
            _ => {},
        }
        KeyOutcome::Continue
    }

    fn stay(&mut self)
        ensures
            final(self)@ == (AppView {
                mode: InputMode::Normal,
                status: "Returned to configuration"@,
                ..old(self)@
            }),
    {
        self.input_mode = InputMode::Normal;
        self.status_msg = "Returned to configuration".to_owned();
    }

    /// A key in the confirmation box.
    fn on_confirm_key(&mut self, key: Key, Ghost(g): Ghost<GraphView>) -> (r: KeyOutcome)
        ensures
            ({
                let p = press::confirm_key(Session { app: old(self)@, g }, key);
                final(self)@ == p.s.app && g == p.s.g && r@ == p.out
            }),
    {
        let code = key.code;
        if code == KeyCode::Esc || (key.ctrl && is_either(code, 'c', 'C')) {
            return KeyOutcome::Finish(TuiAction::QuitWithoutSaving);
        }
        if is_either(code, 's', 'S') {
            return KeyOutcome::Finish(TuiAction::SaveAndQuit);
        }
        if is_either(code, 'd', 'D') || is_either(code, 'y', 'Y') {
            return KeyOutcome::Finish(TuiAction::QuitWithoutSaving);
        }
        if is_either(code, 'c', 'C') || is_either(code, 'n', 'N') {
            self.stay();
        } else if code == KeyCode::Right || code == KeyCode::Tab || code == KeyCode::Down {
            self.confirm_choice = self.confirm_choice.next();
        } else if code == KeyCode::Left || code == KeyCode::BackTab || code == KeyCode::Up {
            self.confirm_choice = self.confirm_choice.prev();
        } else if code == KeyCode::Enter || is_char(code, ' ') {
            match self.confirm_choice {
                ConfirmChoice::Save => {
                    return KeyOutcome::Finish(TuiAction::SaveAndQuit);
                },
                ConfirmChoice::Discard => {
                    return KeyOutcome::Finish(TuiAction::QuitWithoutSaving);
                },
                ConfirmChoice::Cancel => {
                    self.stay();
                },
            }
        }
        KeyOutcome::Continue
    }

    /// How many rows a page is.
    fn page_size(&self) -> (r: usize)
        ensures
            r == press::page(self@),
    {
        if self.viewport_height < 1 {
            1
        } else {
            self.viewport_height
        }
    }

    /// A key in the search bar.
    fn on_search_key(&mut self, key: Key, graph: &mut DependencyGraph) -> (r: KeyOutcome)
        requires
            old(graph)@.wf(),
        ensures
            ({
                let p = press::search_key(Session { app: old(self)@, g: old(graph)@ }, key);
                final(self)@ == p.s.app && final(graph)@ == p.s.g && r@ == p.out
            }),
            final(graph)@.wf(),
    {
        let ghost g0 = graph@;
        let here = self.cursor();
        let total: usize = graph.visible_rows.len();
        proof {
            assert(g0.rows.len() == total);
            lemma_anchor(g0, here as int);
        }
        let anchor = graph.anchor_at(here);
        let edited = edit_field(
            &mut graph.search_query,
            &mut self.text_cursor,
            key.code,
            key.ctrl,
        );
        if edited {
            graph.rebuild_visible_rows();
            self.restore_anchor_or(graph, anchor, 0);
            return KeyOutcome::Continue;
        }
        let step: usize = stride_of(key);
        match key.code {
            KeyCode::Up => {
                self.move_selection(here, true, step, total);
            },
            KeyCode::Down => {
                self.move_selection(here, false, step, total);
            },
            KeyCode::PageUp => {
                let by = self.page_size();
                self.move_selection(here, true, by, total);
            },
            KeyCode::PageDown => {
                let by = self.page_size();
                self.move_selection(here, false, by, total);
            },
            KeyCode::Esc => {
                graph.search_query = String::new();
                proof {
                    assert(graph.search_query@ =~= seq![]);
                }
                self.text_cursor = 0;
                graph.rebuild_visible_rows();
                self.restore_anchor(graph, anchor);
                self.input_mode = InputMode::Normal;
                self.status_msg = "Cleared search filter".to_owned();
            },
            KeyCode::Enter => {
                self.input_mode = InputMode::Normal;
                self.status_msg = text::concat3(
                    "Filter locked: '",
                    graph.search_query.as_str(),
                    "'",
                );
            },
            _ => {},
        }
        KeyOutcome::Continue
    }
}

/// What is said of a port that joins a group.
fn joined_message(target: &str, name: &str) -> (r: String)
    ensures
        r@ == press::joined_note(target@, name@),
{
    let mut r = text::concat3("Added ", target, " to ");
    r.append(name);
    r
}

/// The last line of the group manager.
fn last_line(graph: &DependencyGraph) -> (r: usize)
    ensures
        r == press::less(press::manage_lines(graph@).len() as int, 1),
{
    let lines = manage_rows(&graph.groups);
    proof {
        assert(order::views(lines@).len() == lines@.len());
        assert(graph@.groups.len() == graph.groups@.len());
    }
    if lines.len() < 1 {
        0
    } else {
        lines.len() - 1
    }
}

/// How many rows a step of the cursor is.
fn stride_of(key: Key) -> (r: usize)
    ensures
        r == press::stride(key),
{
    if key.ctrl {
        5
    } else {
        1
    }
}

/// Opening and closing rows leaves the options as they are in number.
proof fn lemma_tree_options(g: GraphView, op: TreeOp, row: int)
    requires
        g.wf(),
    ensures
        press::tree_done(g, op, row).options.len() == g.options.len(),
{
}

/// Pressing an option leaves the options as they are in number.
proof fn lemma_toggle_options(g: GraphView, row: int)
    requires
        g.wf(),
    ensures
        choice::toggled(g, row).options.len() == g.options.len(),
{
    if let Some(k) = choice::pressed(g, row) {
        let targets = choice::targets_of(g.groups, g.options[k].port_origin, g.groups.len() as int);
        choice::lemma_choice_state(
            g,
            targets,
            targets.len() as int,
            g.options[k].name,
            !g.options[k].enabled,
        );
    }
}

impl App {
    /// What a key asks for while the list is being browsed.
    fn command(&self, key: Key, graph: &DependencyGraph) -> (r: Command)
        ensures
            r == press::command_of(
                key,
                self@.focus,
                press::on_reference(Session { app: self@, g: graph@ }),
            ),
    {
        let code = key.code;
        let on_list = self.focus == Focus::List;
        let here = self.cursor();
        let on_ref = if here < graph.visible_rows.len() {
            proof {
                assert(graph@.rows[here as int] == graph.visible_rows@[here as int]@);
            }
            graph.visible_rows[here].kind.jump_target().is_some()
        } else {
            false
        };
        if code == KeyCode::Tab {
            Command::FocusNext
        } else if code == KeyCode::BackTab {
            Command::FocusPrev
        } else if code == KeyCode::Enter && on_list && on_ref {
            Command::Follow
        } else if is_backspace(code, key.ctrl) && on_list {
            Command::Back
        } else if code == KeyCode::Enter {
            Command::Press
        } else if key.ctrl && is_either(code, 's', 'S') {
            Command::SaveInPlace
        } else if is_either(code, 'o', 'O') || is_either(code, 's', 'S') || is_either(
            code,
            'c',
            'C',
        ) || is_char(code, 'q') || code == KeyCode::Esc {
            Command::Quit
        } else if is_char(code, '/') || (key.ctrl && is_either(code, 'f', 'F')) {
            Command::Search
        } else if key.ctrl && is_either(code, 'g', 'G') {
            Command::Group
        } else if key.ctrl && is_either(code, 'l', 'L') {
            Command::Recenter
        } else if code == KeyCode::Left && !on_list {
            Command::FocusOkay
        } else if code == KeyCode::Right && !on_list {
            Command::FocusCancel
        } else if is_char(code, ' ') && !on_list {
            Command::Press
        } else if !on_list {
            Command::Ignore
        } else {
            list_command(key)
        }
    }

    /// Asks whether to leave.
    fn ask_to_leave(&mut self, graph: &DependencyGraph)
        requires
            graph@.wf(),
        ensures
            final(self)@ == press::asked_to_leave(Session { app: old(self)@, g: graph@ }).app,
    {
        self.input_mode = InputMode::ConfirmQuit;
        self.confirm_choice = ConfirmChoice::Save;
        self.status_msg = if graph.is_dirty() {
            "Unsaved changes".to_owned()
        } else {
            "Leaving".to_owned()
        };
    }

    /// Follows the reference under the cursor to that port's own entry.
    fn follow(&mut self, graph: &mut DependencyGraph)
        requires
            old(graph)@.wf(),
            press::on_reference(Session { app: old(self)@, g: old(graph)@ }),
        ensures
            ({
                let s = press::followed(Session { app: old(self)@, g: old(graph)@ });
                final(self)@ == s.app && final(graph)@ == s.g
            }),
            final(graph)@.wf(),
    {
        broadcast use text::lemma_texts_push;

        let here = self.cursor();
        proof {
            assert(graph@.rows.len() == graph.visible_rows@.len());
            assert(graph@.rows[here as int] == graph.visible_rows@[here as int]@);
        }
        let target = match graph.visible_rows[here].kind.jump_target() {
            Some(t) => t.to_owned(),
            None => String::new(),
        };
        let from = enclosing_port_origin(graph, here);
        match jump_to_port(graph, target.as_str()) {
            Some(row) => {
                if let Some(origin) = from {
                    self.jump_stack.push(origin);
                }
                self.selected = Some(row);
                self.status_msg = text::concat2("Jumped to ", target.as_str());
            },
            None => {
                self.status_msg = text::concat2(target.as_str(), " is not in the list");
            },
        }
    }

    /// Goes back to where the last jump came from.
    fn go_back(&mut self, graph: &mut DependencyGraph)
        requires
            old(graph)@.wf(),
        ensures
            ({
                let s = press::went_back(Session { app: old(self)@, g: old(graph)@ });
                final(self)@ == s.app && final(graph)@ == s.g
            }),
            final(graph)@.wf(),
    {
        let ghost jumps = self@.jumps;
        proof {
            assert(jumps.len() == self.jump_stack@.len());
        }
        match self.jump_stack.pop() {
            None => {
                self.status_msg = "No jump to go back from".to_owned();
            },
            Some(origin) => {
                proof {
                    assert(self@.jumps =~= jumps.drop_last());
                    assert(jumps.last() == origin@);
                }
                match jump_to_port(graph, origin.as_str()) {
                    Some(row) => {
                        self.selected = Some(row);
                        self.status_msg = text::concat2("Back to ", origin.as_str());
                    },
                    None => {
                        self.status_msg = text::concat2(origin.as_str(), " is no longer listed");
                    },
                }
            },
        }
    }

    /// Chooses the group that the port under the cursor is to join.
    fn choose_group(&mut self, graph: &DependencyGraph)
        ensures
            final(self)@ == press::choosing_group(Session { app: old(self)@, g: graph@ }).app,
    {
        let here = self.cursor();
        match enclosing_port_origin(graph, here) {
            Some(origin) => {
                self.group_target = Some(origin);
                self.group_cursor = 0;
                self.input_mode = InputMode::GroupAssign;
            },
            None => {
                self.status_msg = "Put the cursor on a port first".to_owned();
            },
        }
    }

    /// Moves the cursor row to the next position of the cycle.
    fn recenter(&mut self, graph: &DependencyGraph)
        ensures
            final(self)@ == press::recentered(Session { app: old(self)@, g: graph@ }).app,
    {
        let here = self.cursor();
        let pos = match self.recenter_pos {
            Some(p) => p.next(),
            None => RecenterPosition::Middle,
        };
        self.recenter_pos = Some(pos);
        proof {
            assert(graph@.rows.len() == graph.visible_rows@.len());
        }
        self.offset = recenter_offset(here, self.viewport_height, graph.visible_rows.len(), pos);
        self.status_msg = text::concat2("Recentered row to ", pos.label());
    }

    /// Takes ports with no options out of the list, or puts them back.
    fn flip_hidden(&mut self, graph: &mut DependencyGraph)
        requires
            old(graph)@.wf(),
        ensures
            ({
                let s = press::hidden_flipped(Session { app: old(self)@, g: old(graph)@ });
                final(self)@ == s.app && final(graph)@ == s.g
            }),
            final(graph)@.wf(),
    {
        let here = self.cursor();
        proof {
            lemma_anchor(graph@, here as int);
        }
        let anchor = graph.anchor_at(here);
        graph.hide_optionless = !graph.hide_optionless;
        graph.rebuild_visible_rows();
        self.restore_anchor(graph, anchor);
        self.status_msg = if graph.hide_optionless {
            text::concat3(
                "Hiding ",
                text::decimal(graph.optionless_count()).as_str(),
                " port(s) with no options",
            )
        } else {
            text::concat3("Showing all ", text::decimal(graph.live_count()).as_str(), " ports")
        };
    }

    /// Carries a tree command out, with the cursor kept on its row.
    fn do_tree(&mut self, c: char, repeat: bool, graph: &mut DependencyGraph)
        requires
            old(graph)@.wf(),
        ensures
            ({
                let s = press::folded(Session { app: old(self)@, g: old(graph)@ }, c, repeat);
                final(self)@ == s.app && final(graph)@ == s.g
            }),
            final(graph)@.wf(),
    {
        let op = match tree_op(c, repeat) {
            Some(op) => op,
            None => {
                return;
            },
        };
        let here = self.cursor();
        proof {
            lemma_anchor(graph@, here as int);
            lemma_tree_options(graph@, op, here as int);
        }
        let anchor = graph.anchor_at(here);
        let what = row_label(graph, here);
        self.status_msg = match op {
            TreeOp::ExpandNode => {
                graph.expand_node(here);
                text::concat2("Expanded ", what.as_str())
            },
            TreeOp::CollapseNode => {
                graph.collapse_node(here);
                text::concat2("Collapsed ", what.as_str())
            },
            TreeOp::ExpandSection => {
                graph.expand_subtree(here);
                text::concat2("Expanded everything under ", what.as_str())
            },
            TreeOp::CollapseSection => {
                graph.collapse_subtree(here);
                text::concat2("Collapsed everything under ", what.as_str())
            },
            TreeOp::ExpandAll => {
                graph.expand_all();
                "Expanded the whole list".to_owned()
            },
            TreeOp::CollapseAll => {
                graph.collapse_all();
                "Collapsed the whole list".to_owned()
            },
        };
        self.restore_anchor(graph, anchor);
    }

    /// Presses the option under the cursor.
    fn press_option(&mut self, here: usize, name: String, id: usize, graph: &mut DependencyGraph)
        requires
            old(graph)@.wf(),
            id < old(graph)@.options.len(),
        ensures
            ({
                let s = press::option_pressed(
                    Session { app: old(self)@, g: old(graph)@ },
                    here as int,
                    name@,
                    id,
                );
                final(self)@ == s.app && final(graph)@ == s.g
            }),
            final(graph)@.wf(),
    {
        let ghost g = graph@;
        proof {
            assert(g.options.len() == graph.option_nodes@.len());
            assert(g.options[id as int] == graph.option_nodes@[id as int]@);
            assert(graph::option_ok(g.ports, g.options, id as int));
            lemma_anchor(g, here as int);
            lemma_toggle_options(g, here as int);
        }
        let port_id: usize = graph.option_nodes[id].parent_port;
        let before = graph.snapshot(port_id);
        let anchor = graph.anchor_at(here);
        let touched = graph.toggle_option(here);
        proof {
            assert(text::texts(touched@).len() == touched@.len());
        }
        self.restore_anchor(graph, anchor);
        self.ask_about(graph, &touched);
        self.status_msg = toggle_report(graph, name.as_str(), id, &before);
    }

    /// Space on the row under the cursor.
    fn press_space(&mut self, graph: &mut DependencyGraph)
        requires
            old(graph)@.wf(),
        ensures
            ({
                let s = press::space_pressed(Session { app: old(self)@, g: old(graph)@ });
                final(self)@ == s.app && final(graph)@ == s.g
            }),
            final(graph)@.wf(),
    {
        if let Some(here) = self.selected {
            if here < graph.visible_rows.len() {
                proof {
                    assert(graph@.rows[here as int] == graph.visible_rows@[here as int]@);
                    assert(graph::row_ok(
                        graph@.rows[here as int],
                        graph@.ports.len(),
                        graph@.options.len(),
                    ));
                }
                let pressed: Option<(String, usize)> = match &graph.visible_rows[here].kind {
                    RowKind::Option { name, .. } => match graph.visible_rows[here].node_id {
                        NodeId::Option(id) => Some((name.clone(), id)),
                        _ => None,
                    },
                    _ => None,
                };
                match pressed {
                    Some((name, id)) => {
                        self.press_option(here, name, id, graph);
                    },
                    None => {
                        self.status_msg = "Cannot toggle non-option row".to_owned();
                    },
                }
            }
        }
    }

    /// A key while the list is being browsed.
    fn on_normal_key(&mut self, key: Key, repeat: bool, graph: &mut DependencyGraph) -> (r:
        KeyOutcome)
        requires
            old(graph)@.wf(),
        ensures
            ({
                let p = press::normal_key(
                    Session { app: old(self)@, g: old(graph)@ },
                    key,
                    repeat,
                );
                final(self)@ == p.s.app && final(graph)@ == p.s.g && r@ == p.out
            }),
            final(graph)@.wf(),
    {
        let here = self.cursor();
        let total: usize = graph.visible_rows.len();
        proof {
            assert(graph@.rows.len() == total);
        }
        let command = self.command(key, graph);
        match command {
            Command::FocusNext => {
                self.focus = next_focus(self.focus);
            },
            Command::FocusPrev => {
                self.focus = prev_focus(self.focus);
            },
            Command::Follow => {
                self.follow(graph);
            },
            Command::Back => {
                self.go_back(graph);
            },
            Command::Press => {
                if self.focus == Focus::Cancel {
                    self.ask_to_leave(graph);
                } else {
                    return KeyOutcome::Finish(TuiAction::SaveAndQuit);
                }
            },
            Command::SaveInPlace => {
                return KeyOutcome::SaveInPlace;
            },
            Command::Quit => {
                self.ask_to_leave(graph);
            },
            Command::Search => {
                let chars = text::chars_of(graph.search_query.as_str());
                self.text_cursor = chars.len();
                self.input_mode = InputMode::Search;
            },
            Command::Group => {
                self.choose_group(graph);
            },
            Command::Recenter => {
                self.recenter(graph);
                return KeyOutcome::Redraw;
            },
            Command::FocusOkay => {
                self.focus = Focus::Okay;
            },
            Command::FocusCancel => {
                self.focus = Focus::Cancel;
            },
            Command::Ignore => {},
            Command::NextSibling => {
                self.selected = Some(graph.sibling_after(here));
                self.status_msg = "Jumped to next sibling".to_owned();
            },
            Command::PrevSibling => {
                self.selected = Some(graph.sibling_before(here));
                self.status_msg = "Jumped to previous sibling".to_owned();
            },
            Command::Top => {
                self.selected = Some(0);
                self.status_msg = "Jumped to top".to_owned();
            },
            Command::Bottom => {
                self.selected = Some(
                    if total < 1 {
                        0
                    } else {
                        total - 1
                    },
                );
                self.status_msg = "Jumped to bottom".to_owned();
            },
            Command::Hide => {
                self.flip_hidden(graph);
            },
            Command::Up => {
                self.move_selection(here, true, stride_of(key), total);
            },
            Command::Down => {
                self.move_selection(here, false, stride_of(key), total);
            },
            Command::PageUp => {
                let by = self.page_size();
                self.move_selection(here, true, by, total);
                self.status_msg = text::concat3(
                    "Page Up (-",
                    text::decimal(by).as_str(),
                    " rows)",
                );
            },
            Command::PageDown => {
                let by = self.page_size();
                self.move_selection(here, false, by, total);
                self.status_msg = text::concat3(
                    "Page Down (+",
                    text::decimal(by).as_str(),
                    " rows)",
                );
            },
            Command::Tree(c) => {
                self.do_tree(c, repeat, graph);
            },
            Command::Toggle => {
                self.press_space(graph);
            },
        }
        KeyOutcome::Continue
    }

    /// Notes that a key arrived, and says whether it is a tree key that was
    /// pressed just before.
    fn note_key(&mut self, key: Key) -> (r: bool)
        ensures
            final(self)@ == press::key_noted(old(self)@, key),
            r == press::is_repeat(old(self)@, key),
    {
        self.important_msg = None;
        if !(key.ctrl && is_either(key.code, 'l', 'L')) {
            self.recenter_pos = None;
        }
        let tree_key = tree_key(key);
        let repeat = match tree_key {
            Some(c) => match self.last_tree_key {
                Some(d) => c == d,
                None => false,
            },
            None => false,
        };
        self.last_tree_key = tree_key;
        repeat
    }

    /// Folds one keystroke into the state, and says what else is to be done
    /// about it. Nothing here touches the terminal or a file.
    #[verifier::rlimit(40)]
    pub fn on_key(&mut self, key: Key, graph: &mut DependencyGraph) -> (r: KeyOutcome)
        requires
            old(graph)@.wf(),
        ensures
            ({
                let p = press::keyed(Session { app: old(self)@, g: old(graph)@ }, key);
                final(self)@ == p.s.app && final(graph)@ == p.s.g && r@ == p.out
            }),
            final(graph)@.wf(),
    {
        let repeat = self.note_key(key);
        if key.ctrl && is_either(key.code, 'r', 'R') {
            self.status_msg = "Redrew screen".to_owned();
            return KeyOutcome::Redraw;
        }
        match self.input_mode {
            InputMode::GroupAssign => self.on_assign_key(key, graph),
            InputMode::GroupNewName => self.on_new_name_key(key, graph),
            InputMode::GroupManage => self.on_manage_key(key, graph),
            InputMode::ConfigPath => self.on_path_key(key, Ghost(graph@)),
            InputMode::ConfirmQuit => self.on_confirm_key(key, Ghost(graph@)),
            InputMode::Search => self.on_search_key(key, graph),
            InputMode::Normal => self.on_normal_key(key, repeat, graph),
        }
    }

    /// Folds pasted text into whichever field is being typed into. Only the
    /// first line is taken, so that a pasted newline does not act as Enter, and
    /// control characters are dropped.
    pub fn on_paste(&mut self, pasted: &str, graph: &mut DependencyGraph)
        requires
            old(graph)@.wf(),
        ensures
            ({
                let s = press::pasted(Session { app: old(self)@, g: old(graph)@ }, pasted@);
                final(self)@ == s.app && final(graph)@ == s.g
            }),
            final(graph)@.wf(),
    {
        let line = first_line(pasted);
        match self.input_mode {
            InputMode::Search => {
                let here = self.cursor();
                proof {
                    lemma_anchor(graph@, here as int);
                }
                let anchor = graph.anchor_at(here);
                type_all(&mut graph.search_query, &mut self.text_cursor, &line);
                graph.rebuild_visible_rows();
                self.restore_anchor_or(graph, anchor, 0);
            },
            InputMode::GroupNewName | InputMode::ConfigPath => {
                type_all(&mut self.text_buffer, &mut self.text_cursor, &line);
            },
            _ => {},
        }
    }
}

/// The key that opens or closes rows, if it is one.
fn tree_key(key: Key) -> (r: Option<char>)
    ensures
        r == press::tree_key_of(key),
{
    match key.code {
        KeyCode::Char(c) => if !key.ctrl && (c == '=' || c == '-' || c == '+' || c == '_') {
            Some(c)
        } else {
            None
        },
        _ => None,
    }
}

/// What a key asks for while the list holds the focus and none of the hotkeys
/// takes it.
fn list_command(key: Key) -> (r: Command)
    ensures
        r == (if key.code == KeyCode::Down {
            if key.shift {
                Command::NextSibling
            } else {
                Command::Down
            }
        } else if key.code == KeyCode::Up {
            if key.shift {
                Command::PrevSibling
            } else {
                Command::Up
            }
        } else if key.code == KeyCode::Home {
            Command::Top
        } else if key.code == KeyCode::End {
            Command::Bottom
        } else if key.code == KeyCode::Char('H') && !key.ctrl {
            Command::Hide
        } else if key.code == KeyCode::PageUp {
            Command::PageUp
        } else if key.code == KeyCode::PageDown {
            Command::PageDown
        } else {
            match press::tree_key_of(key) {
                Some(c) => Command::Tree(c),
                None => if key.code == KeyCode::Char(' ') {
                    Command::Toggle
                } else {
                    Command::Ignore
                },
            }
        }),
{
    let code = key.code;
    if code == KeyCode::Down {
        if key.shift {
            Command::NextSibling
        } else {
            Command::Down
        }
    } else if code == KeyCode::Up {
        if key.shift {
            Command::PrevSibling
        } else {
            Command::Up
        }
    } else if code == KeyCode::Home {
        Command::Top
    } else if code == KeyCode::End {
        Command::Bottom
    } else if is_char(code, 'H') && !key.ctrl {
        Command::Hide
    } else if code == KeyCode::PageUp {
        Command::PageUp
    } else if code == KeyCode::PageDown {
        Command::PageDown
    } else {
        match tree_key(key) {
            Some(c) => Command::Tree(c),
            None => if is_char(code, ' ') {
                Command::Toggle
            } else {
                Command::Ignore
            },
        }
    }
}

impl DependencyGraph {
    /// How deep the rows are.
    fn depths(&self) -> (r: Vec<usize>)
        ensures
            r@ == press::depths_of(self@.rows),
    {
        let ghost rows = self@.rows;
        let mut out: Vec<usize> = Vec::new();
        let mut i: usize = 0;
        while i < self.visible_rows.len()
            invariant
                i <= self.visible_rows@.len(),
                rows == order::views(self.visible_rows@),
                out@.len() == i,
                forall|j: int| 0 <= j < i ==> #[trigger] out@[j] == rows[j].depth as usize,
            decreases self.visible_rows@.len() - i,
        {
            proof {
                assert(rows[i as int] == self.visible_rows@[i as int]@);
            }
            out.push(self.visible_rows[i].depth);
            i += 1;
        }
        proof {
            assert(rows.len() == self.visible_rows@.len());
            assert(out@ =~= press::depths_of(rows));
        }
        out
    }

    /// The next row as deep as this one under the same parent, if there is one.
    fn sibling_after(&self, i: usize) -> (r: usize)
        ensures
            r == press::sibling_after(self@.rows, i as int),
    {
        let depths = self.depths();
        fold::next_sibling_index(&depths, i)
    }

    /// The row before this one as deep as it under the same parent, if there is
    /// one.
    fn sibling_before(&self, i: usize) -> (r: usize)
        ensures
            r == press::sibling_before(self@.rows, i as int),
    {
        let depths = self.depths();
        fold::prev_sibling_index(&depths, i)
    }

    /// The options of a port with their states.
    fn snapshot(&self, port_id: usize) -> (r: Vec<(usize, bool)>)
        requires
            self@.wf(),
            port_id < self@.ports.len(),
        ensures
            r@ == press::snapshot(self@.options, self@.ports[port_id as int].options),
            forall|i: int| 0 <= i < r@.len() ==> (#[trigger] r@[i]).0 < self@.options.len(),
    {
        let ghost g = self@;
        let ghost ids = g.ports[port_id as int].options;
        proof {
            assert(g.ports.len() == self.ports@.len());
            assert(g.ports[port_id as int] == self.ports@[port_id as int]@);
            assert(graph::port_ok(g.ports, g.options, port_id as int));
        }
        let mut out: Vec<(usize, bool)> = Vec::new();
        let mut i: usize = 0;
        while i < self.ports[port_id].options.len()
            invariant
                port_id < self.ports@.len(),
                ids == self.ports@[port_id as int].options@,
                i <= ids.len(),
                g.options == order::views(self.option_nodes@),
                forall|j: int| 0 <= j < ids.len() ==> (#[trigger] ids[j]) < g.options.len(),
                out@.len() == i,
                forall|j: int|
                    0 <= j < i ==> #[trigger] out@[j] == (
                        ids[j],
                        g.options[ids[j] as int].enabled,
                    ),
            decreases ids.len() - i,
        {
            let id: usize = self.ports[port_id].options[i];
            proof {
                assert(ids[i as int] == id);
                assert(g.options[id as int] == self.option_nodes@[id as int]@);
            }
            out.push((id, self.option_nodes[id].enabled));
            i += 1;
        }
        proof {
            assert(out@ =~= press::snapshot(g.options, ids));
        }
        out
    }
}

} // verus!
