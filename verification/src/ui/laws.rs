//! What every keystroke keeps.
use super::field;
use super::field::{FieldView, Key, KeyCode};
use super::list;
use super::press;
use super::press::{OutcomeView, Session};
use super::{Focus, InputMode, TuiAction};
use crate::exporter;
use crate::graph;
use crate::graph::fold;
use crate::graph::rows;
use crate::graph::{GraphView, Mode};
use vstd::prelude::*;

verus! {

proof fn lemma_assign_goes_on(s: Session, key: Key)
    ensures
        !(press::assign_key(s, key).out is Finish),
{
}

proof fn lemma_new_name_goes_on(s: Session, key: Key)
    ensures
        !(press::new_name_key(s, key).out is Finish),
{
}

proof fn lemma_manage_goes_on(s: Session, key: Key)
    ensures
        !(press::manage_key(s, key).out is Finish),
{
}

proof fn lemma_path_goes_on(s: Session, key: Key)
    ensures
        !(press::path_key(s, key).out is Finish),
{
}

proof fn lemma_search_goes_on(s: Session, key: Key)
    ensures
        !(press::search_key(s, key).out is Finish),
{
}

/// In the list, what ends the session saves.
proof fn lemma_normal_saves(s: Session, key: Key, repeat: bool)
    ensures
        press::normal_key(s, key, repeat).out is Finish ==> {
            &&& press::normal_key(s, key, repeat).out == OutcomeView::Finish(TuiAction::SaveAndQuit)
            &&& s.app.focus != Focus::Cancel
            &&& key.code == KeyCode::Enter || key.code == KeyCode::Char(' ')
        },
{
    let command = press::command_of(key, s.app.focus, press::on_reference(s));
    assert(press::commanded(s, command, key, repeat).out is Finish ==> command
        == press::Command::Press && s.app.focus != Focus::Cancel);
    assert(command == press::Command::Press ==> key.code == KeyCode::Enter || key.code
        == KeyCode::Char(' '));
}

/// The session ends from the question whether to leave, or from the list by
/// the key that presses what has the focus, which saves: no single key pressed
/// in the list throws changes away.
pub proof fn discarding_is_confirmed(s: Session, key: Key)
    requires
        press::keyed(s, key).out is Finish,
    ensures
        s.app.mode == InputMode::ConfirmQuit || {
            &&& s.app.mode == InputMode::Normal
            &&& press::keyed(s, key).out == OutcomeView::Finish(TuiAction::SaveAndQuit)
            &&& s.app.focus != Focus::Cancel
            &&& key.code == KeyCode::Enter || key.code == KeyCode::Char(' ')
        },
{
    let t = Session { app: press::key_noted(s.app, key), ..s };
    lemma_assign_goes_on(t, key);
    lemma_new_name_goes_on(t, key);
    lemma_manage_goes_on(t, key);
    lemma_path_goes_on(t, key);
    lemma_search_goes_on(t, key);
    lemma_normal_saves(t, key, press::is_repeat(s.app, key));
}

/// The ports, their options, what they are grouped by and what is pulled in:
/// all that a save depends on.
pub open spec fn same_but_shown(a: GraphView, b: GraphView) -> bool {
    &&& a.ports == b.ports
    &&& a.options == b.options
    &&& a.by_origin == b.by_origin
    &&& a.groups == b.groups
    &&& a.root_origin == b.root_origin
    &&& a.live == b.live
    &&& a.pkg_names == b.pkg_names
}

/// Searching narrows what is listed and nothing else: what is filtered out is
/// still written.
pub proof fn searching_is_a_view(s: Session, key: Key)
    requires
        s.app.mode == InputMode::Search,
    ensures
        same_but_shown(press::keyed(s, key).s.g, s.g),
        exporter::files_of(press::keyed(s, key).s.g) == exporter::files_of(s.g),
        exporter::block_lines(press::keyed(s, key).s.g) == exporter::block_lines(s.g),
{
    exporter::what_is_chosen_decides_what_is_written(press::keyed(s, key).s.g, s.g);
}

/// Hiding the ports that have nothing to decide changes what is listed and
/// nothing else: what is hidden is still written. Hiding twice is not hiding.
pub proof fn hiding_is_a_view(s: Session)
    ensures
        same_but_shown(press::hidden_flipped(s).g, s.g),
        exporter::files_of(press::hidden_flipped(s).g) == exporter::files_of(s.g),
        exporter::block_lines(press::hidden_flipped(s).g) == exporter::block_lines(s.g),
        press::hidden_flipped(press::hidden_flipped(s)).g.hide_optionless == s.g.hide_optionless,
{
    exporter::what_is_chosen_decides_what_is_written(press::hidden_flipped(s).g, s.g);
}

/// Opening and closing changes nothing that is written, be it one row, a row
/// with all that is beneath it, or everything.
pub proof fn folding_is_a_view(g: GraphView, row: int, expanded: bool, mode: Mode)
    requires
        g.wf(),
    ensures
        exporter::files_of(fold::node_at(g, row, expanded)) == exporter::files_of(g),
        exporter::block_lines(fold::node_at(g, row, expanded)) == exporter::block_lines(g),
        exporter::files_of(fold::tree_at(g, row, mode)) == exporter::files_of(g),
        exporter::block_lines(fold::tree_at(g, row, mode)) == exporter::block_lines(g),
        exporter::files_of(fold::all_folded(g, mode)) == exporter::files_of(g),
        exporter::block_lines(fold::all_folded(g, mode)) == exporter::block_lines(g),
{
    if 0 <= row < g.rows.len() {
        assert(graph::row_ok(g.rows[row], g.ports.len(), g.options.len()));
    }
    exporter::what_is_chosen_decides_what_is_written(fold::node_at(g, row, expanded), g);
    exporter::what_is_chosen_decides_what_is_written(fold::tree_at(g, row, mode), g);
    exporter::what_is_chosen_decides_what_is_written(fold::all_folded(g, mode), g);
}

/// Going back after following a reference leads to the entry of the port that
/// the reference stands under, and the jumps are as they were before.
pub proof fn going_back_retraces_a_jump(s: Session)
    requires
        list::port_above(s.g.rows, press::cursor_of(s.app)) is Some,
        list::arrival_row(
            s.g,
            graph::target_of(s.g.rows[press::cursor_of(s.app)].kind)->0,
        ) is Some,
    ensures
        ({
            let from = list::port_above(s.g.rows, press::cursor_of(s.app))->0;
            let there = press::followed(s);
            let back = press::went_back(there);
            &&& back.app.jumps == s.app.jumps
            &&& back.g == list::arrived_at(there.g, from)
            &&& list::arrival_row(there.g, from) matches Some(row) ==> back.app.selected == Some(
                row as usize,
            )
        }),
{
    let from = list::port_above(s.g.rows, press::cursor_of(s.app))->0;
    assert(s.app.jumps.push(from).drop_last() =~= s.app.jumps);
}

/// A port that could not be read is listed whether or not ports with nothing
/// to decide are hidden.
pub proof fn an_unread_port_is_not_hidden(g: GraphView, id: int)
    requires
        !g.ports[id].resolved,
    ensures
        rows::shown(g, id) == rows::shown(GraphView { hide_optionless: false, ..g }, id),
{
}

/// The caret never leaves the text.
pub proof fn the_caret_stays_in_the_text(f: FieldView, code: KeyCode, ctrl: bool)
    requires
        0 <= f.caret,
    ensures
        0 <= field::edited(f, code, ctrl).caret <= field::edited(f, code, ctrl).text.len(),
{
}

/// A character typed and rubbed out again leaves the text as it was.
pub proof fn rubbing_out_undoes_typing(f: FieldView, c: char)
    requires
        0 <= f.caret <= f.text.len(),
    ensures
        field::edited(field::edited(f, KeyCode::Char(c), false), KeyCode::Backspace, false) == f,
{
    let typed = field::edited(f, KeyCode::Char(c), false);
    assert(typed.text.remove(f.caret) =~= f.text);
}

/// Pasted text goes into a field or nowhere.
pub proof fn a_paste_needs_a_field(s: Session, text: Seq<char>)
    requires
        s.app.mode != InputMode::Search,
        s.app.mode != InputMode::GroupNewName,
        s.app.mode != InputMode::ConfigPath,
    ensures
        press::pasted(s, text) == s,
{
}

} // verus!
