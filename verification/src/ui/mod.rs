//! The interface: what it remembers between keystrokes, what each keystroke
//! does to it, and what it shows.
use crate::oracle::{Question, QuestionView};
use crate::order;
use crate::text;
use vstd::prelude::*;

pub mod answers;
pub mod deeds;
pub mod draw;
pub mod field;
pub mod keys;
pub mod laws;
pub mod list;
pub mod modal;
pub mod press;
pub mod seen;

verus! {

/// The action keys shown along the bottom of the screen, one row per line:
/// editing keys first, then the ones that end or reposition the session.
pub const FOOTER_ACTION_KEYS: &'static str =
    " Space toggle | Enter jump | Bksp back | ^G group | Shift+H hide\n Tab OK/Cancel | ^S save | q quit | ^L recenter | ^R redraw";

/// How a session ends.
#[derive(Debug, Clone, Copy, PartialEq, Eq, Structural)]
pub enum TuiAction {
    SaveAndQuit,
    QuitWithoutSaving,
}

/// What keystrokes are being taken for.
#[derive(Debug, Clone, Copy, PartialEq, Eq, Structural)]
pub enum InputMode {
    Normal,
    Search,
    ConfirmQuit,
    /// Choosing which group the port under the cursor joins.
    GroupAssign,
    /// Naming a group that does not exist yet.
    GroupNewName,
    /// Browsing groups and their members.
    GroupManage,
    /// Naming a config file to save groups into, when none was given.
    ConfigPath,
}

/// Focus stops, cycled by Tab and Shift + Tab: the item list, then each button
/// in the row.
#[derive(Debug, Clone, Copy, PartialEq, Eq, Structural)]
pub enum Focus {
    List,
    Okay,
    Cancel,
}

/// The focus stop after this one.
pub open spec fn focus_after(focus: Focus) -> Focus {
    match focus {
        Focus::List => Focus::Okay,
        Focus::Okay => Focus::Cancel,
        Focus::Cancel => Focus::List,
    }
}

/// The focus stop before this one.
pub open spec fn focus_before(focus: Focus) -> Focus {
    match focus {
        Focus::List => Focus::Cancel,
        Focus::Cancel => Focus::Okay,
        Focus::Okay => Focus::List,
    }
}

/// The focus stop after this one.
pub fn next_focus(focus: Focus) -> (r: Focus)
    ensures
        r == focus_after(focus),
{
    match focus {
        Focus::List => Focus::Okay,
        Focus::Okay => Focus::Cancel,
        Focus::Cancel => Focus::List,
    }
}

/// The focus stop before this one.
pub fn prev_focus(focus: Focus) -> (r: Focus)
    ensures
        r == focus_before(focus),
{
    match focus {
        Focus::List => Focus::Cancel,
        Focus::Cancel => Focus::Okay,
        Focus::Okay => Focus::List,
    }
}

/// Button focus inside the "leaving" confirmation box.
#[derive(Debug, Clone, Copy, PartialEq, Eq, Structural)]
pub enum ConfirmChoice {
    Save,
    Discard,
    Cancel,
}

/// The button to the right, and round again.
pub open spec fn choice_after(c: ConfirmChoice) -> ConfirmChoice {
    match c {
        ConfirmChoice::Save => ConfirmChoice::Discard,
        ConfirmChoice::Discard => ConfirmChoice::Cancel,
        ConfirmChoice::Cancel => ConfirmChoice::Save,
    }
}

/// The button to the left, and round again.
pub open spec fn choice_before(c: ConfirmChoice) -> ConfirmChoice {
    match c {
        ConfirmChoice::Save => ConfirmChoice::Cancel,
        ConfirmChoice::Discard => ConfirmChoice::Save,
        ConfirmChoice::Cancel => ConfirmChoice::Discard,
    }
}

impl ConfirmChoice {
    /// The button to the right, and round again.
    pub fn next(self) -> (r: Self)
        ensures
            r == choice_after(self),
    {
        match self {
            ConfirmChoice::Save => ConfirmChoice::Discard,
            ConfirmChoice::Discard => ConfirmChoice::Cancel,
            ConfirmChoice::Cancel => ConfirmChoice::Save,
        }
    }

    /// The button to the left, and round again.
    pub fn prev(self) -> (r: Self)
        ensures
            r == choice_before(self),
    {
        match self {
            ConfirmChoice::Save => ConfirmChoice::Cancel,
            ConfirmChoice::Discard => ConfirmChoice::Save,
            ConfirmChoice::Cancel => ConfirmChoice::Discard,
        }
    }
}

/// Tree visibility commands, scoped by repetition rather than by modifiers: no
/// terminal can tell `Ctrl + =` from its plain form.
#[derive(Debug, Clone, Copy, PartialEq, Eq, Structural)]
pub enum TreeOp {
    ExpandNode,
    CollapseNode,
    ExpandSection,
    CollapseSection,
    ExpandAll,
    CollapseAll,
}

/// What a tree key does. `=` and `-` act on the row under the cursor; `+` and
/// `_` on its section, and on the whole tree when pressed twice in a row.
pub open spec fn tree_op_of(key: char, repeat: bool) -> Option<TreeOp> {
    if key == '=' {
        Some(TreeOp::ExpandNode)
    } else if key == '-' {
        Some(TreeOp::CollapseNode)
    } else if key == '+' {
        if repeat {
            Some(TreeOp::ExpandAll)
        } else {
            Some(TreeOp::ExpandSection)
        }
    } else if key == '_' {
        if repeat {
            Some(TreeOp::CollapseAll)
        } else {
            Some(TreeOp::CollapseSection)
        }
    } else {
        None
    }
}

/// Maps a tree key to its operation. `repeat` means that this same key was the
/// keystroke immediately before.
pub fn tree_op(key: char, repeat: bool) -> (r: Option<TreeOp>)
    ensures
        r == tree_op_of(key, repeat),
{
    if key == '=' {
        Some(TreeOp::ExpandNode)
    } else if key == '-' {
        Some(TreeOp::CollapseNode)
    } else if key == '+' {
        Some(
            if repeat {
                TreeOp::ExpandAll
            } else {
                TreeOp::ExpandSection
            },
        )
    } else if key == '_' {
        Some(
            if repeat {
                TreeOp::CollapseAll
            } else {
                TreeOp::CollapseSection
            },
        )
    } else {
        None
    }
}

/// Where `Ctrl + L` parks the cursor row within the viewport: the first press
/// centers the current line, and each that follows at once goes on through
/// middle, top and bottom.
#[derive(Debug, Clone, Copy, PartialEq, Eq, Structural)]
pub enum RecenterPosition {
    Middle,
    Top,
    Bottom,
}

/// The position after this one.
pub open spec fn position_after(p: RecenterPosition) -> RecenterPosition {
    match p {
        RecenterPosition::Middle => RecenterPosition::Top,
        RecenterPosition::Top => RecenterPosition::Bottom,
        RecenterPosition::Bottom => RecenterPosition::Middle,
    }
}

/// What a position is called.
pub open spec fn position_label(p: RecenterPosition) -> Seq<char> {
    match p {
        RecenterPosition::Middle => "middle"@,
        RecenterPosition::Top => "top"@,
        RecenterPosition::Bottom => "bottom"@,
    }
}

impl RecenterPosition {
    /// The position after this one.
    pub fn next(self) -> (r: Self)
        ensures
            r == position_after(self),
    {
        match self {
            RecenterPosition::Middle => RecenterPosition::Top,
            RecenterPosition::Top => RecenterPosition::Bottom,
            RecenterPosition::Bottom => RecenterPosition::Middle,
        }
    }

    /// What the position is called.
    pub fn label(self) -> (r: &'static str)
        ensures
            r@ == position_label(self),
    {
        match self {
            RecenterPosition::Middle => "middle",
            RecenterPosition::Top => "top",
            RecenterPosition::Bottom => "bottom",
        }
    }
}

/// Tab and Shift + Tab undo each other, and three presses of either come back
/// round.
pub proof fn focus_goes_round(f: Focus)
    ensures
        focus_before(focus_after(f)) == f,
        focus_after(focus_before(f)) == f,
        focus_after(focus_after(focus_after(f))) == f,
{
}

/// Going right and going left in the confirmation box undo each other, and
/// three steps of either come back round.
pub proof fn choice_goes_round(c: ConfirmChoice)
    ensures
        choice_before(choice_after(c)) == c,
        choice_after(choice_before(c)) == c,
        choice_after(choice_after(choice_after(c))) == c,
{
}

/// Three presses of `Ctrl + L` come back round.
pub proof fn position_goes_round(p: RecenterPosition)
    ensures
        position_after(position_after(position_after(p))) == p,
{
}

/// Everything the interface remembers between keystrokes.
#[derive(Debug)]
pub struct App {
    pub input_mode: InputMode,
    pub focus: Focus,
    /// The row under the cursor.
    pub selected: Option<usize>,
    /// The first row shown.
    pub offset: usize,
    pub status_msg: String,
    pub confirm_choice: ConfirmChoice,
    pub recenter_pos: Option<RecenterPosition>,
    pub last_tree_key: Option<char>,
    /// Rows the list can show, learned from the last frame drawn.
    pub viewport_height: usize,
    /// Ports each jump came from, so Backspace can retrace it. Origins rather
    /// than row indices, which shift whenever the row list is rebuilt.
    pub jump_stack: Vec<String>,
    pub config_path: Option<String>,
    pub group_target: Option<String>,
    pub group_cursor: usize,
    pub text_buffer: String,
    /// Caret position within whichever field is being typed into, in
    /// characters.
    pub text_cursor: usize,
    /// Ports whose dependencies need asking about again.
    pub pending: Vec<Question>,
    /// How many questions are out, for the "resolving" note.
    pub outstanding: usize,
    /// A message that must not be hidden behind the "resolving" note. Cleared
    /// by the next keystroke, which is the acknowledgement.
    pub important_msg: Option<String>,
    /// True once there is nobody left to answer. Nothing further is posted.
    pub resolver_dead: bool,
}

/// What an `App` says.
pub struct AppView {
    pub mode: InputMode,
    pub focus: Focus,
    pub selected: Option<usize>,
    pub offset: usize,
    pub status: Seq<char>,
    pub confirm: ConfirmChoice,
    pub recenter: Option<RecenterPosition>,
    pub last_tree_key: Option<char>,
    pub viewport: usize,
    pub jumps: Seq<Seq<char>>,
    pub config_path: Option<Seq<char>>,
    pub group_target: Option<Seq<char>>,
    pub group_cursor: usize,
    pub buffer: Seq<char>,
    pub caret: usize,
    pub pending: Seq<QuestionView>,
    pub outstanding: usize,
    pub important: Option<Seq<char>>,
    pub resolver_dead: bool,
}

impl View for App {
    type V = AppView;

    open spec fn view(&self) -> AppView {
        AppView {
            mode: self.input_mode,
            focus: self.focus,
            selected: self.selected,
            offset: self.offset,
            status: self.status_msg@,
            confirm: self.confirm_choice,
            recenter: self.recenter_pos,
            last_tree_key: self.last_tree_key,
            viewport: self.viewport_height,
            jumps: text::texts(self.jump_stack@),
            config_path: text::opt_text(self.config_path),
            group_target: text::opt_text(self.group_target),
            group_cursor: self.group_cursor,
            buffer: self.text_buffer@,
            caret: self.text_cursor,
            pending: order::views(self.pending@),
            outstanding: self.outstanding,
            important: text::opt_text(self.important_msg),
            resolver_dead: self.resolver_dead,
        }
    }
}

/// The interface as a session begins.
pub open spec fn fresh_app(config_path: Option<Seq<char>>) -> AppView {
    AppView {
        mode: InputMode::Normal,
        focus: Focus::List,
        selected: Some(0),
        offset: 0,
        status: "Ready"@,
        confirm: ConfirmChoice::Save,
        recenter: None,
        last_tree_key: None,
        viewport: 0,
        jumps: seq![],
        config_path,
        group_target: None,
        group_cursor: 0,
        buffer: seq![],
        caret: 0,
        pending: seq![],
        outstanding: 0,
        important: None,
        resolver_dead: false,
    }
}

impl App {
    /// The interface as a session begins.
    pub fn new(config_path: Option<String>) -> (r: Self)
        ensures
            r@ == fresh_app(text::opt_text(config_path)),
    {
        let r = App {
            input_mode: InputMode::Normal,
            focus: Focus::List,
            selected: Some(0),
            offset: 0,
            status_msg: "Ready".to_owned(),
            confirm_choice: ConfirmChoice::Save,
            recenter_pos: None,
            last_tree_key: None,
            viewport_height: 0,
            jump_stack: Vec::new(),
            config_path,
            group_target: None,
            group_cursor: 0,
            text_buffer: String::new(),
            text_cursor: 0,
            pending: Vec::new(),
            outstanding: 0,
            important_msg: None,
            resolver_dead: false,
        };
        proof {
            assert(r@.jumps =~= seq![]);
            assert(r@.buffer =~= seq![]);
            assert(r@.pending =~= seq![]);
        }
        r
    }
}

} // verus!
