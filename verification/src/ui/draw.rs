//! What the interface shows: every line of it as styled text. Whoever holds the
//! terminal puts the lines on the screen.
use super::list;
use super::list::scroll_window;
use super::press;
use super::{App, AppView, Focus, InputMode, FOOTER_ACTION_KEYS};
use crate::graph::live;
use crate::graph::query;
use crate::graph::{
    DependencyGraph, GraphView, Group, GroupView, Provenance, RowKind, RowKindView, RowView,
    SectionKind, VisibleRow,
};
use crate::order;
use crate::text;
use crate::text::{holds, same};
use vstd::prelude::*;

verus! {

#[derive(Debug, Clone, Copy, PartialEq, Eq, Structural)]
pub enum Color {
    White,
    Yellow,
    Gray,
    DarkGray,
    Cyan,
    Red,
    Blue,
}

/// How a piece of text looks.
#[derive(Debug, Clone, Copy, PartialEq, Eq, Structural)]
pub struct Style {
    pub fg: Option<Color>,
    pub bg: Option<Color>,
    pub bold: bool,
    pub underlined: bool,
    pub reversed: bool,
}

/// A piece of text that looks one way.
#[derive(Debug, PartialEq, Eq)]
pub struct Span {
    pub text: String,
    pub style: Style,
}

/// What a `Span` says.
pub struct SpanView {
    pub text: Seq<char>,
    pub style: Style,
}

impl View for Span {
    type V = SpanView;

    open spec fn view(&self) -> SpanView {
        SpanView { text: self.text@, style: self.style }
    }
}

/// One line.
#[derive(Debug, PartialEq, Eq)]
pub struct Line {
    pub spans: Vec<Span>,
}

impl View for Line {
    type V = Seq<SpanView>;

    open spec fn view(&self) -> Seq<SpanView> {
        order::views(self.spans@)
    }
}

/// Text without a style.
pub open spec fn plain_style() -> Style {
    Style { fg: None, bg: None, bold: false, underlined: false, reversed: false }
}

/// Text in a colour.
pub open spec fn in_color(c: Color) -> Style {
    Style { fg: Some(c), ..plain_style() }
}

/// Bold text in a colour.
pub open spec fn in_bold(c: Color) -> Style {
    Style { bold: true, ..in_color(c) }
}

/// What the cursor is on.
pub open spec fn under_cursor() -> Style {
    Style { bg: Some(Color::Blue), ..in_bold(Color::White) }
}

pub fn plain() -> (r: Style)
    ensures
        r == plain_style(),
{
    Style { fg: None, bg: None, bold: false, underlined: false, reversed: false }
}

pub fn color(c: Color) -> (r: Style)
    ensures
        r == in_color(c),
{
    Style { fg: Some(c), bg: None, bold: false, underlined: false, reversed: false }
}

pub fn bold(c: Color) -> (r: Style)
    ensures
        r == in_bold(c),
{
    Style { fg: Some(c), bg: None, bold: true, underlined: false, reversed: false }
}

fn cursor_style() -> (r: Style)
    ensures
        r == under_cursor(),
{
    Style {
        fg: Some(Color::White),
        bg: Some(Color::Blue),
        bold: true,
        underlined: false,
        reversed: false,
    }
}

/// One piece of text.
pub open spec fn piece(text: Seq<char>, style: Style) -> SpanView {
    SpanView { text, style }
}

fn span(text: String, style: Style) -> (r: Span)
    ensures
        r@ == piece(text@, style),
{
    Span { text, style }
}

impl Line {
    pub fn blank() -> (r: Self)
        ensures
            r@ == Seq::<SpanView>::empty(),
    {
        let r = Line { spans: Vec::new() };
        proof {
            assert(r@ =~= Seq::<SpanView>::empty());
        }
        r
    }

    pub fn put(&mut self, text: String, style: Style)
        ensures
            final(self)@ == old(self)@.push(piece(text@, style)),
    {
        broadcast use order::lemma_views_push;

        self.spans.push(span(text, style));
    }

    pub fn of(text: String, style: Style) -> (r: Self)
        ensures
            r@ == seq![piece(text@, style)],
    {
        let mut r = Line::blank();
        r.put(text, style);
        r
    }

    pub fn extend(&mut self, more: Line)
        ensures
            final(self)@ == old(self)@ + more@,
    {
        broadcast use order::lemma_views_push;

        let ghost base = self@;
        let ghost all = more@;
        let mut n: usize = 0;
        proof {
            assert(base + all.take(0) =~= base);
        }
        while n < more.spans.len()
            invariant
                n <= more.spans@.len(),
                all == order::views(more.spans@),
                self@ == base + all.take(n as int),
            decreases more.spans@.len() - n,
        {
            let ghost before = self@;
            let s = &more.spans[n];
            proof {
                assert(all[n as int] == s@);
            }
            self.put(s.text.clone(), s.style);
            proof {
                assert(self@ == before.push(all[n as int]));
                assert(base + all.take(n + 1) =~= (base + all.take(n as int)).push(all[n as int]));
            }
            n += 1;
        }
        proof {
            assert(all.take(all.len() as int) =~= all);
        }
    }
}

/// So many blanks.
pub open spec fn blanks(n: nat) -> Seq<char> {
    Seq::new(n, |i: int| ' ')
}

fn spaces(n: usize) -> (r: String)
    ensures
        r@ == blanks(n as nat),
{
    let mut r = String::new();
    let mut i: usize = 0;
    proof {
        assert(r@ =~= blanks(0));
    }
    while i < n
        invariant
            i <= n,
            r@ == blanks(i as nat),
        decreases n - i,
    {
        r.push(' ');
        proof {
            assert(r@ =~= blanks((i + 1) as nat));
        }
        i += 1;
    }
    r
}

fn indent(depth: usize) -> (r: String)
    ensures
        r@ == blanks(2 * depth as nat),
{
    let mut r = String::new();
    let mut i: usize = 0;
    proof {
        assert(r@ =~= blanks(0));
    }
    while i < depth
        invariant
            i <= depth,
            r@ == blanks(2 * i as nat),
        decreases depth - i,
    {
        r.push(' ');
        r.push(' ');
        proof {
            assert(r@ =~= blanks(2 * (i + 1) as nat));
        }
        i += 1;
    }
    r
}

/// What the list is headed by: the target, and how much of the list is shown.
/// A list that is narrowed says so.
pub open spec fn target_note(g: GraphView) -> Seq<char> {
    let live = text::decimal_of(live::count_live(g.live) as nat);
    let listed = text::decimal_of(
        query::port_rows_upto(g.rows, g.rows.len() as int) as nat,
    );
    let head = " Target: "@ + g.root_origin + "  ("@;
    if g.search.len() == 0 && !g.hide_optionless {
        head + live + " ports)"@
    } else if g.search.len() == 0 {
        head + listed + " of "@ + live + " ports, no-option ports hidden)"@
    } else if g.hide_optionless {
        head + listed + " of "@ + live + " ports matching \""@ + g.search
            + "\", no-option ports hidden)"@
    } else {
        head + listed + " of "@ + live + " ports matching \""@ + g.search + "\")"@
    }
}

/// What was done last, or what is being waited for. An important message is
/// not hidden behind the waiting.
pub open spec fn status_note(app: AppView) -> Seq<char> {
    let waiting = "resolving "@ + text::decimal_of(app.outstanding as nat) + " port(s)... "@;
    let status = match app.important {
        Some(msg) => if app.outstanding > 0 {
            msg + " | "@ + waiting
        } else {
            msg + " "@
        },
        None => if app.outstanding > 0 {
            waiting
        } else {
            app.status + " "@
        },
    };
    if app.resolver_dead {
        "[resolver stopped] "@ + status
    } else {
        status
    }
}

/// The header: the target on the left, the most recent action on the right.
pub open spec fn header_of(g: GraphView, app: AppView, width: int) -> Seq<SpanView> {
    let target = target_note(g);
    let status = status_note(app);
    let room = press::less(press::less(width, 2), (target.len() + status.len()) as int);
    seq![
        piece(target, in_bold(Color::Cyan)),
        piece(
            blanks(
                if room < 1 {
                    1
                } else {
                    room as nat
                },
            ),
            plain_style(),
        ),
        piece(status, in_color(Color::Gray)),
    ]
}

/// What the list is headed by.
pub fn target_text(graph: &DependencyGraph) -> (r: String)
    ensures
        r@ == target_note(graph@),
{
    let mut r = " Target: ".to_owned();
    r.append(graph.root_origin.as_str());
    r.append("  (");
    let live = text::decimal(graph.live_count());
    let narrowed = !graph.search_query.as_str().is_empty();
    if !narrowed && !graph.hide_optionless {
        r.append(live.as_str());
        r.append(" ports)");
        return r;
    }
    r.append(text::decimal(graph.listed_port_count()).as_str());
    r.append(" of ");
    r.append(live.as_str());
    if !narrowed {
        r.append(" ports, no-option ports hidden)");
        return r;
    }
    r.append(" ports matching \"");
    r.append(graph.search_query.as_str());
    if graph.hide_optionless {
        r.append("\", no-option ports hidden)");
    } else {
        r.append("\")");
    }
    r
}

/// What was done last, or what is being waited for.
pub fn status_text(app: &App) -> (r: String)
    ensures
        r@ == status_note(app@),
{
    let waiting = text::concat3(
        "resolving ",
        text::decimal(app.outstanding).as_str(),
        " port(s)... ",
    );
    let status = match &app.important_msg {
        Some(msg) => if app.outstanding > 0 {
            text::concat3(msg.as_str(), " | ", waiting.as_str())
        } else {
            text::concat2(msg.as_str(), " ")
        },
        None => if app.outstanding > 0 {
            waiting
        } else {
            text::concat2(app.status_msg.as_str(), " ")
        },
    };
    if app.resolver_dead {
        text::concat2("[resolver stopped] ", status.as_str())
    } else {
        status
    }
}

/// The header of a screen this wide.
pub fn header_line(graph: &DependencyGraph, app: &App, width: usize) -> (r: Line)
    ensures
        r@ == header_of(graph@, app@, width as int),
{
    let target = target_text(graph);
    let status = status_text(app);
    let a: usize = text::chars_of(target.as_str()).len();
    let b: usize = text::chars_of(status.as_str()).len();
    let inner: usize = if width < 2 {
        0
    } else {
        width - 2
    };
    let rest: usize = if inner < a {
        0
    } else {
        inner - a
    };
    let room: usize = if rest < b {
        0
    } else {
        rest - b
    };
    let gap: usize = if room < 1 {
        1
    } else {
        room
    };
    let mut line = Line::blank();
    line.put(target, bold(Color::Cyan));
    line.put(spaces(gap), plain());
    line.put(status, color(Color::Gray));
    line
}

/// The names of those of the first `n` groups that a port is in.
pub open spec fn groups_upto(groups: Seq<GroupView>, origin: Seq<char>, n: int) -> Seq<Seq<char>>
    decreases n,
{
    if n <= 0 {
        seq![]
    } else {
        let rest = groups_upto(groups, origin, n - 1);
        if groups[n - 1].members.contains(origin) {
            rest.push(groups[n - 1].name)
        } else {
            rest
        }
    }
}

fn groups_of(groups: &Vec<Group>, origin: &str) -> (r: Vec<String>)
    ensures
        text::texts(r@) == groups_upto(order::views(groups@), origin@, groups@.len() as int),
{
    broadcast use text::lemma_texts_push;

    let ghost gv = order::views(groups@);
    let mut out: Vec<String> = Vec::new();
    let mut n: usize = 0;
    proof {
        assert(text::texts(out@) =~= seq![]);
    }
    while n < groups.len()
        invariant
            n <= groups@.len(),
            gv == order::views(groups@),
            text::texts(out@) == groups_upto(gv, origin@, n as int),
        decreases groups@.len() - n,
    {
        proof {
            assert(gv[n as int] == groups@[n as int]@);
        }
        if holds(&groups[n].members, origin) {
            out.push(groups[n].name.clone());
        }
        n += 1;
    }
    out
}

/// The mark of a row that can be opened or closed.
pub open spec fn fold_mark(row: RowView) -> Seq<char> {
    if row.has_children {
        if row.is_expanded {
            "[-] "@
        } else {
            "[+] "@
        }
    } else {
        "    "@
    }
}

fn mark(row: &VisibleRow) -> (r: &'static str)
    ensures
        r@ == fold_mark(row@),
{
    if row.has_children {
        if row.is_expanded {
            "[-] "
        } else {
            "[+] "
        }
    } else {
        "    "
    }
}

/// A port's row. Colour carries provenance: whether the port was asked for or
/// something else dragged it in. Groups are shown because they change what a
/// keystroke does, and a port that could not be read says so.
pub open spec fn port_line(
    g: GraphView,
    row: RowView,
    origin: Seq<char>,
    provenance: Provenance,
    resolved: bool,
) -> Seq<SpanView> {
    let base = seq![
        piece(blanks(2 * row.depth) + fold_mark(row), plain_style()),
        piece(
            origin,
            in_color(
                if provenance == Provenance::Requested {
                    Color::White
                } else {
                    Color::Yellow
                },
            ),
        ),
    ];
    let joined = groups_upto(g.groups, origin, g.groups.len() as int);
    let more = if joined.len() == 0 {
        base
    } else {
        base.push(
            piece("  ["@ + text::joined(joined, ", "@) + "]"@, in_color(Color::Cyan)),
        )
    };
    if resolved {
        more
    } else {
        more.push(piece("  [unevaluated]"@, in_bold(Color::Red)))
    }
}

/// The control of an option: round where only one of a group can be on.
pub open spec fn control_of(group_type: Seq<char>, enabled: bool) -> Seq<char> {
    if group_type == "SINGLE"@ || group_type == "RADIO"@ {
        if enabled {
            "(*)"@
        } else {
            "( )"@
        }
    } else if enabled {
        "[X]"@
    } else {
        "[ ]"@
    }
}

/// What a row other than a port's shows.
pub open spec fn row_text(row: RowView) -> Seq<char> {
    let indent = blanks(2 * row.depth);
    match row.kind {
        RowKindView::Port { origin, provenance, resolved } => indent + fold_mark(row) + origin,
        RowKindView::Option { name, description, enabled, group_type, group_name } => {
            let head = indent + fold_mark(row) + control_of(group_type, enabled) + " "@;
            let badged = if group_name.len() > 0 {
                head + "<"@ + group_name + "> "@
            } else {
                head
            };
            if description.len() == 0 {
                badged + name
            } else {
                badged + name + " - "@ + description
            }
        },
        RowKindView::DependsOn { origin, active } => if active {
            indent + "    "@ + origin
        } else {
            indent + "    "@ + origin + "  (not pulled in)"@
        },
        RowKindView::RequiresEntry { origin } => indent + "    "@ + origin,
        RowKindView::RequiredByEntry { origin, via_option } => match via_option {
            Some(opt) => indent + "    "@ + origin + "  (via "@ + opt + ")"@,
            None => indent + "    "@ + origin,
        },
        RowKindView::SectionHeader { kind, count } => {
            let head = indent + (if row.is_expanded {
                "[-] "@
            } else {
                "[+] "@
            }) + "--- "@ + (if kind == SectionKind::Requires {
                "requires"@
            } else {
                "required by"@
            }) + " "@ + text::decimal_of(count);
            if count == 1 {
                head + " port ---"@
            } else {
                head + " ports ---"@
            }
        },
        RowKindView::Info { message } => indent + "* "@ + message,
    }
}

/// One row of the list.
pub open spec fn row_line_of(g: GraphView, row: RowView) -> Seq<SpanView> {
    match row.kind {
        RowKindView::Port { origin, provenance, resolved } => port_line(
            g,
            row,
            origin,
            provenance,
            resolved,
        ),
        RowKindView::RequiredByEntry { origin, via_option } => seq![
            piece(
                row_text(row),
                in_color(
                    if via_option is Some {
                        Color::Yellow
                    } else {
                        Color::Gray
                    },
                ),
            ),
        ],
        _ => seq![piece(row_text(row), plain_style())],
    }
}

fn control(group_type: &str, enabled: bool) -> (r: &'static str)
    ensures
        r@ == control_of(group_type@, enabled),
{
    if same(group_type, "SINGLE") || same(group_type, "RADIO") {
        if enabled {
            "(*)"
        } else {
            "( )"
        }
    } else if enabled {
        "[X]"
    } else {
        "[ ]"
    }
}

fn text_of_row(row: &VisibleRow) -> (r: String)
    ensures
        r@ == row_text(row@),
{
    let mut r = indent(row.depth);
    match &row.kind {
        RowKind::Port { origin, .. } => {
            r.append(mark(row));
            r.append(origin.as_str());
        },
        RowKind::Option { name, description, enabled, group_type, group_name } => {
            r.append(mark(row));
            r.append(control(group_type.as_str(), *enabled));
            r.append(" ");
            if !group_name.as_str().is_empty() {
                r.append("<");
                r.append(group_name.as_str());
                r.append("> ");
            }
            r.append(name.as_str());
            if !description.as_str().is_empty() {
                r.append(" - ");
                r.append(description.as_str());
            }
        },
        RowKind::DependsOn { origin, active } => {
            r.append("    ");
            r.append(origin.as_str());
            if !*active {
                r.append("  (not pulled in)");
            }
        },
        RowKind::RequiresEntry { origin } => {
            r.append("    ");
            r.append(origin.as_str());
        },
        RowKind::RequiredByEntry { origin, via_option } => {
            r.append("    ");
            r.append(origin.as_str());
            if let Some(opt) = via_option {
                r.append("  (via ");
                r.append(opt.as_str());
                r.append(")");
            }
        },
        RowKind::SectionHeader { kind, count } => {
            if row.is_expanded {
                r.append("[-] ");
            } else {
                r.append("[+] ");
            }
            r.append("--- ");
            if *kind == SectionKind::Requires {
                r.append("requires");
            } else {
                r.append("required by");
            }
            r.append(" ");
            r.append(text::decimal(*count).as_str());
            if *count == 1 {
                r.append(" port ---");
            } else {
                r.append(" ports ---");
            }
        },
        RowKind::Info { message } => {
            r.append("* ");
            r.append(message.as_str());
        },
    }
    r
}

/// One row of the list.
pub fn row_line(graph: &DependencyGraph, row: &VisibleRow) -> (r: Line)
    ensures
        r@ == row_line_of(graph@, row@),
{
    match &row.kind {
        RowKind::Port { origin, provenance, resolved } => {
            let mut line = Line::blank();
            line.put(text::concat2(indent(row.depth).as_str(), mark(row)), plain());
            line.put(
                origin.clone(),
                color(
                    if *provenance == Provenance::Requested {
                        Color::White
                    } else {
                        Color::Yellow
                    },
                ),
            );
            let joined = groups_of(&graph.groups, origin.as_str());
            proof {
                assert(graph@.groups.len() == graph.groups@.len());
                assert(text::texts(joined@).len() == joined@.len());
            }
            if joined.len() > 0 {
                line.put(
                    text::concat3("  [", text::join(&joined, ", ").as_str(), "]"),
                    color(Color::Cyan),
                );
            }
            if !*resolved {
                line.put("  [unevaluated]".to_owned(), bold(Color::Red));
            }
            line
        },
        RowKind::RequiredByEntry { via_option, .. } => Line::of(
            text_of_row(row),
            color(
                if via_option.is_some() {
                    Color::Yellow
                } else {
                    Color::Gray
                },
            ),
        ),
        _ => Line::of(text_of_row(row), plain()),
    }
}

/// A text field with a block caret on the character it is in front of.
pub open spec fn field_of(text: Seq<char>, caret: int, style: Style) -> Seq<SpanView> {
    let at = if caret < text.len() {
        caret
    } else {
        text.len() as int
    };
    let under = if at < text.len() {
        seq![text[at]]
    } else {
        seq![' ']
    };
    let after = if at < text.len() {
        text.skip(at + 1)
    } else {
        seq![]
    };
    seq![
        piece(text.take(at), style),
        piece(under, Style { reversed: true, ..style }),
        piece(after, style),
    ]
}

/// A text field with a block caret on the character it is in front of.
pub fn field_spans(text: &str, cursor: usize, style: Style) -> (r: Line)
    ensures
        r@ == field_of(text@, cursor as int, style),
{
    let chars = text::chars_of(text);
    let at: usize = if cursor < chars.len() {
        cursor
    } else {
        chars.len()
    };
    let mut before = String::new();
    let mut i: usize = 0;
    proof {
        assert(before@ =~= chars@.take(0));
    }
    while i < at
        invariant
            i <= at <= chars@.len(),
            before@ == chars@.take(i as int),
        decreases at - i,
    {
        before.push(chars[i]);
        proof {
            assert(before@ =~= chars@.take(i + 1));
        }
        i += 1;
    }
    let mut under = String::new();
    let mut after = String::new();
    if at < chars.len() {
        under.push(chars[at]);
        proof {
            assert(under@ =~= seq![chars@[at as int]]);
            assert(after@ =~= chars@.subrange(at + 1, at + 1));
        }
        i = at + 1;
        while i < chars.len()
            invariant
                at + 1 <= i <= chars@.len(),
                after@ == chars@.subrange(at + 1, i as int),
            decreases chars@.len() - i,
        {
            after.push(chars[i]);
            proof {
                assert(after@ =~= chars@.subrange(at + 1, i + 1));
            }
            i += 1;
        }
        proof {
            assert(after@ =~= chars@.skip(at + 1));
        }
    } else {
        under.push(' ');
        proof {
            assert(under@ =~= seq![' ']);
            assert(after@ =~= seq![]);
        }
    }
    let mut line = Line::blank();
    line.put(before, style);
    line.put(under, Style { reversed: true, ..style });
    line.put(after, style);
    line
}

/// A button: `< Label >`, with the letter that presses it marked.
pub open spec fn button_of(label: Seq<char>, focused: bool) -> Seq<SpanView> {
    let base = if focused {
        under_cursor()
    } else {
        in_color(Color::Gray)
    };
    let hotkey = if focused {
        Style { underlined: true, ..base }
    } else {
        Style { underlined: true, ..in_color(Color::Yellow) }
    };
    seq![
        piece("< "@, base),
        piece(
            seq![
                if label.len() > 0 {
                    label[0]
                } else {
                    ' '
                },
            ],
            hotkey,
        ),
        piece(
            if label.len() > 0 {
                label.skip(1)
            } else {
                seq![]
            },
            base,
        ),
        piece(" >"@, base),
    ]
}

/// A button, with the letter that presses it marked.
pub fn button_spans(label: &str, focused: bool) -> (r: Line)
    ensures
        r@ == button_of(label@, focused),
{
    let base = if focused {
        cursor_style()
    } else {
        color(Color::Gray)
    };
    let hotkey = if focused {
        Style { underlined: true, ..base }
    } else {
        Style { underlined: true, ..color(Color::Yellow) }
    };
    let chars = text::chars_of(label);
    let mut first = String::new();
    let mut rest = String::new();
    if chars.len() > 0 {
        first.push(chars[0]);
        let mut i: usize = 1;
        proof {
            assert(rest@ =~= chars@.subrange(1, 1));
        }
        while i < chars.len()
            invariant
                1 <= i <= chars@.len(),
                rest@ == chars@.subrange(1, i as int),
            decreases chars@.len() - i,
        {
            rest.push(chars[i]);
            proof {
                assert(rest@ =~= chars@.subrange(1, i + 1));
            }
            i += 1;
        }
        proof {
            assert(first@ =~= seq![chars@[0]]);
            assert(rest@ =~= chars@.skip(1));
        }
    } else {
        first.push(' ');
        proof {
            assert(first@ =~= seq![' ']);
            assert(rest@ =~= seq![]);
        }
    }
    let mut line = Line::blank();
    line.put("< ".to_owned(), base);
    line.put(first, hotkey);
    line.put(rest, base);
    line.put(" >".to_owned(), base);
    line
}

/// Two buttons side by side.
pub open spec fn then_button(row: Seq<SpanView>, label: Seq<char>, focused: bool) -> Seq<SpanView> {
    row.push(piece("   "@, plain_style())) + button_of(label, focused)
}

/// The buttons under the list.
pub open spec fn buttons_of(focus: Focus) -> Seq<SpanView> {
    then_button(
        button_of("OK"@, focus == Focus::Okay),
        "Cancel"@,
        focus == Focus::Cancel,
    )
}

pub fn put_button(line: &mut Line, label: &str, focused: bool)
    ensures
        final(line)@ == then_button(old(line)@, label@, focused),
{
    line.put("   ".to_owned(), plain());
    line.extend(button_spans(label, focused));
}

/// The buttons under the list.
pub fn button_row(focus: Focus) -> (r: Line)
    ensures
        r@ == buttons_of(focus),
{
    let mut line = button_spans("OK", focus == Focus::Okay);
    put_button(&mut line, "Cancel", focus == Focus::Cancel);
    line
}

/// What the keys do, under the list; the query while it is being typed.
pub open spec fn keys_line(app: AppView, g: GraphView) -> Seq<SpanView> {
    let style = in_bold(Color::Yellow);
    if app.mode == InputMode::Search {
        (seq![piece(" PORT SEARCH: "@, style)] + field_of(
            g.search,
            app.caret as int,
            style,
        )).push(piece(" ([Up]/[Down] browse, [Enter] locks, [Esc] clears)"@, style))
    } else {
        seq![
            piece(
                " =/- open/close row | +/_ open/close branch | ++/__ open/close list | / search"@,
                in_color(Color::DarkGray),
            ),
        ]
    }
}

/// The lines under the list.
pub open spec fn footer_of(app: AppView, g: GraphView) -> Seq<Seq<SpanView>> {
    let rows = text::lines_of(FOOTER_ACTION_KEYS@);
    seq![keys_line(app, g)] + Seq::new(
        rows.len(),
        |i: int| seq![piece(rows[i], in_color(Color::DarkGray))],
    )
}

/// The lines under the list.
pub fn footer_lines(app: &App, graph: &DependencyGraph) -> (r: Vec<Line>)
    ensures
        order::views(r@) == footer_of(app@, graph@),
{
    broadcast use order::lemma_views_push;

    let style = bold(Color::Yellow);
    let first = if app.input_mode == InputMode::Search {
        let mut line = Line::of(" PORT SEARCH: ".to_owned(), style);
        line.extend(field_spans(graph.search_query.as_str(), app.text_cursor, style));
        line.put(" ([Up]/[Down] browse, [Enter] locks, [Esc] clears)".to_owned(), style);
        line
    } else {
        Line::of(
            " =/- open/close row | +/_ open/close branch | ++/__ open/close list | / search".to_owned(),
            color(Color::DarkGray),
        )
    };
    let rows = text::lines(FOOTER_ACTION_KEYS);
    let ghost rv = text::texts(rows@);
    let ghost want = footer_of(app@, graph@);
    let mut out: Vec<Line> = Vec::new();
    out.push(first);
    proof {
        assert(order::views(out@) =~= want.take(1));
    }
    let mut n: usize = 0;
    while n < rows.len()
        invariant
            n <= rows@.len(),
            rv == text::texts(rows@),
            rv == text::lines_of(FOOTER_ACTION_KEYS@),
            want == footer_of(app@, graph@),
            order::views(out@) == want.take(n + 1),
        decreases rows@.len() - n,
    {
        let ghost before = order::views(out@);
        proof {
            assert(rv[n as int] == rows@[n as int]@);
        }
        out.push(Line::of(rows[n].clone(), color(Color::DarkGray)));
        proof {
            assert(order::views(out@) == before.push(want[n + 1]));
            assert(want.take(n + 2) =~= want.take(n + 1).push(want[n + 1]));
        }
        n += 1;
    }
    proof {
        assert(want.len() == rows@.len() + 1);
        assert(want.take(want.len() as int) =~= want);
    }
    out
}

/// A line of a list with a cursor.
pub open spec fn choice_line(label: Seq<char>, selected: bool, dimmed: bool) -> Seq<SpanView> {
    seq![
        piece(
            (if selected {
                "> "@
            } else {
                "  "@
            }) + label,
            if selected {
                under_cursor()
            } else if dimmed {
                in_color(Color::DarkGray)
            } else {
                plain_style()
            },
        ),
    ]
}

/// A line of a list with a cursor.
pub fn selectable_line(label: &str, selected: bool, dimmed: bool) -> (r: Line)
    ensures
        r@ == choice_line(label@, selected, dimmed),
{
    let marker = if selected {
        "> "
    } else {
        "  "
    };
    let style = if selected {
        cursor_style()
    } else if dimmed {
        color(Color::DarkGray)
    } else {
        plain()
    };
    Line::of(text::concat2(marker, label), style)
}

/// The part of a list that is shown in so many rows.
pub open spec fn window_of(
    lines: Seq<Seq<SpanView>>,
    cursor: int,
    height: int,
) -> Seq<Seq<SpanView>> {
    if lines.len() <= height || height == 0 {
        lines
    } else {
        let start = list::window_start(lines.len() as int, cursor, height);
        lines.subrange(start, start + height)
    }
}

/// Where in the whole the part that is shown is, where it is not the whole.
pub open spec fn window_note(len: int, cursor: int, height: int) -> Option<Seq<char>> {
    if len <= height || height == 0 {
        None
    } else {
        let start = list::window_start(len, cursor, height);
        Some(
            "  showing "@ + text::decimal_of((start + 1) as nat) + "-"@ + text::decimal_of(
                (start + height) as nat,
            ) + " of "@ + text::decimal_of(len as nat),
        )
    }
}

/// The part of a list that is shown in so many rows, and a note saying where
/// in the whole it is.
pub fn windowed_lines(lines: Vec<Line>, cursor: usize, height: usize) -> (r: (
    Vec<Line>,
    Option<String>,
))
    ensures
        order::views(r.0@) == window_of(order::views(lines@), cursor as int, height as int),
        text::opt_text(r.1) == window_note(lines@.len() as int, cursor as int, height as int),
{
    if lines.len() <= height || height == 0 {
        return (lines, None);
    }
    let ghost all = order::views(lines@);
    let len: usize = lines.len();
    let start: usize = scroll_window(len, cursor, height);
    let end: usize = start + height;
    let mut note = "  showing ".to_owned();
    note.append(text::decimal(start + 1).as_str());
    note.append("-");
    note.append(text::decimal(end).as_str());
    note.append(" of ");
    note.append(text::decimal(len).as_str());
    let mut kept = lines;
    kept.truncate(end);
    let mut rest: Vec<Line> = kept;
    let shown = rest.split_off(start);
    proof {
        assert(order::views(shown@) =~= all.subrange(start as int, end as int));
    }
    (shown, Some(note))
}

} // verus!
