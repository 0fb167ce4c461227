//! Keystrokes, and the text fields that they edit.
use crate::text;
use crate::text::{chars_of, string_of};
use vstd::prelude::*;

verus! {

/// Which key was pressed.
#[derive(Debug, Clone, Copy, PartialEq, Eq, Structural)]
pub enum KeyCode {
    Backspace,
    Enter,
    Left,
    Right,
    Up,
    Down,
    Home,
    End,
    PageUp,
    PageDown,
    Tab,
    BackTab,
    Delete,
    Esc,
    Char(char),
    /// A key that nothing here acts on.
    Other,
}

/// One keystroke.
#[derive(Debug, Clone, Copy, PartialEq, Eq, Structural)]
pub struct Key {
    pub code: KeyCode,
    pub ctrl: bool,
    pub shift: bool,
}

/// What a terminal reports of a key.
#[derive(Debug, Clone, Copy, PartialEq, Eq, Structural)]
pub enum KeyEventKind {
    Press,
    Repeat,
    Release,
}

/// Whether a key event is one to act on: a release is not, or every handler
/// would run twice per press.
pub fn key_acts(kind: KeyEventKind) -> (r: bool)
    ensures
        r == (kind != KeyEventKind::Release),
{
    kind != KeyEventKind::Release
}

/// Whether a key is either of two characters.
pub open spec fn either_of(code: KeyCode, a: char, b: char) -> bool {
    code == KeyCode::Char(a) || code == KeyCode::Char(b)
}

/// Whether a key is either of two characters.
pub fn is_either(code: KeyCode, a: char, b: char) -> (r: bool)
    ensures
        r == either_of(code, a, b),
{
    match code {
        KeyCode::Char(c) => c == a || c == b,
        _ => false,
    }
}

/// Whether a key is a character.
pub fn is_char(code: KeyCode, a: char) -> (r: bool)
    ensures
        r == (code == KeyCode::Char(a)),
{
    match code {
        KeyCode::Char(c) => c == a,
        _ => false,
    }
}

/// Whether a key means "rub out the character behind the cursor": terminals
/// send either backspace or `Ctrl + H` for it.
pub open spec fn rubs_out(code: KeyCode, ctrl: bool) -> bool {
    code == KeyCode::Backspace || (ctrl && code == KeyCode::Char('h'))
}

/// Whether a key means "rub out the character behind the cursor".
pub fn is_backspace(code: KeyCode, has_ctrl: bool) -> (r: bool)
    ensures
        r == rubs_out(code, has_ctrl),
{
    code == KeyCode::Backspace || (has_ctrl && is_char(code, 'h'))
}

/// A text field: what it holds, and the place of its caret in characters.
pub struct FieldView {
    pub text: Seq<char>,
    pub caret: int,
}

/// Where a caret is, in a text that may be shorter than it was.
pub open spec fn caret_in(text: Seq<char>, caret: int) -> int {
    if caret <= text.len() {
        caret
    } else {
        text.len() as int
    }
}

/// Whether a key edits a text field.
pub open spec fn edits(code: KeyCode, ctrl: bool) -> bool {
    ||| rubs_out(code, ctrl)
    ||| code == KeyCode::Left
    ||| code == KeyCode::Right
    ||| code == KeyCode::Home
    ||| code == KeyCode::End
    ||| code == KeyCode::Delete
    ||| (code is Char && !ctrl)
}

/// A text field after a key. Typing and rubbing out happen at the caret.
pub open spec fn edited(f: FieldView, code: KeyCode, ctrl: bool) -> FieldView {
    let text = f.text;
    let caret = caret_in(text, f.caret);
    if rubs_out(code, ctrl) {
        if caret > 0 {
            FieldView { text: text.remove(caret - 1), caret: caret - 1 }
        } else {
            FieldView { text, caret }
        }
    } else {
        match code {
            KeyCode::Left => FieldView {
                text,
                caret: if caret > 0 {
                    caret - 1
                } else {
                    0
                },
            },
            KeyCode::Right => FieldView {
                text,
                caret: if caret < text.len() {
                    caret + 1
                } else {
                    caret
                },
            },
            KeyCode::Home => FieldView { text, caret: 0 },
            KeyCode::End => FieldView { text, caret: text.len() as int },
            KeyCode::Delete => FieldView {
                text: if caret < text.len() {
                    text.remove(caret)
                } else {
                    text
                },
                caret,
            },
            KeyCode::Char(c) => if ctrl {
                FieldView { text, caret }
            } else {
                FieldView { text: text.insert(caret, c), caret: caret + 1 }
            },
            _ => FieldView { text, caret },
        }
    }
}

/// A field in which the first `n` of some characters have been typed.
pub open spec fn typed_upto(f: FieldView, typed: Seq<char>, n: int) -> FieldView
    decreases n,
{
    if n <= 0 {
        f
    } else {
        edited(typed_upto(f, typed, n - 1), KeyCode::Char(typed[n - 1]), false)
    }
}

/// Applies an editing key to a text field, and says whether it was one.
///
/// The caret is counted in characters, not bytes.
pub fn edit_field(field: &mut String, cursor: &mut usize, code: KeyCode, has_ctrl: bool) -> (r:
    bool)
    ensures
        r == edits(code, has_ctrl),
        ({
            let want = edited(
                FieldView { text: old(field)@, caret: *old(cursor) as int },
                code,
                has_ctrl,
            );
            final(field)@ == want.text && *final(cursor) == want.caret
        }),
{
    let mut chars = chars_of(field.as_str());
    let count: usize = chars.len();
    let mut at: usize = *cursor;
    if at > count {
        at = count;
    }
    *cursor = at;
    if is_backspace(code, has_ctrl) {
        if at > 0 {
            chars.remove(at - 1);
            *field = string_of(&chars);
            *cursor = at - 1;
        }
        return true;
    }
    match code {
        KeyCode::Left => {
            if at > 0 {
                *cursor = at - 1;
            }
        },
        KeyCode::Right => {
            if at < count {
                *cursor = at + 1;
            }
        },
        KeyCode::Home => {
            *cursor = 0;
        },
        KeyCode::End => {
            *cursor = count;
        },
        KeyCode::Delete => {
            if at < count {
                chars.remove(at);
                *field = string_of(&chars);
            }
        },
        KeyCode::Char(c) => {
            if has_ctrl {
                return false;
            }
            chars.insert(at, c);
            *field = string_of(&chars);
            proof {
                assert(chars.len() == chars@.len());
            }
            *cursor = at + 1;
        },
        _ => {
            return false;
        },
    }
    true
}

/// Types characters into a field.
pub fn type_all(field: &mut String, cursor: &mut usize, typed: &Vec<char>)
    ensures
        ({
            let want = typed_upto(
                FieldView { text: old(field)@, caret: *old(cursor) as int },
                typed@,
                typed@.len() as int,
            );
            final(field)@ == want.text && *final(cursor) == want.caret
        }),
{
    let ghost f = FieldView { text: field@, caret: *cursor as int };
    let mut n: usize = 0;
    while n < typed.len()
        invariant
            n <= typed@.len(),
            f == (FieldView { text: old(field)@, caret: *old(cursor) as int }),
            typed_upto(f, typed@, n as int) == (FieldView { text: field@, caret: *cursor as int }),
        decreases typed@.len() - n,
    {
        edit_field(field, cursor, KeyCode::Char(typed[n]), false);
        n += 1;
    }
}

/// The first line of a text, without its control characters.
pub open spec fn pasted_line(pasted: Seq<char>) -> Seq<char> {
    let lines = text::lines_of(pasted);
    if lines.len() == 0 {
        seq![]
    } else {
        printable_upto(lines[0], lines[0].len() as int)
    }
}

/// Those of the first `n` characters that are not control characters.
pub open spec fn printable_upto(line: Seq<char>, n: int) -> Seq<char>
    decreases n,
{
    if n <= 0 {
        seq![]
    } else {
        let rest = printable_upto(line, n - 1);
        if text::is_control_char(line[n - 1]) {
            rest
        } else {
            rest.push(line[n - 1])
        }
    }
}

/// The first line of a text, without its control characters.
pub fn first_line(pasted: &str) -> (r: Vec<char>)
    ensures
        r@ == pasted_line(pasted@),
{
    let lines = text::lines(pasted);
    let mut out: Vec<char> = Vec::new();
    proof {
        assert(text::texts(lines@).len() == lines@.len());
    }
    if lines.len() == 0 {
        return out;
    }
    proof {
        assert(text::texts(lines@)[0] == lines@[0]@);
    }
    let chars = chars_of(lines[0].as_str());
    let mut n: usize = 0;
    while n < chars.len()
        invariant
            n <= chars@.len(),
            out@ == printable_upto(chars@, n as int),
        decreases chars@.len() - n,
    {
        if !text::is_control(chars[n]) {
            out.push(chars[n]);
        }
        n += 1;
    }
    out
}

} // verus!
