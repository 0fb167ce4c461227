//! The boxes that are laid over the list.
use super::draw;
use super::draw::{
    button_spans, field_spans, put_button, selectable_line, windowed_lines, Color, Line, SpanView,
};
use super::list;
use super::list::{manage_rows, ManageRow, ManageRowView};
use super::press;
use super::{App, AppView, ConfirmChoice, InputMode};
use crate::graph::adopt;
use crate::graph::query;
use crate::graph::{DependencyGraph, GraphView, Group, GroupView};
use crate::order;
use crate::text;
use crate::text::holds;
use vstd::prelude::*;

verus! {

/// A part of the screen, in character cells.
#[derive(Debug, Clone, Copy, PartialEq, Eq, Structural)]
pub struct Area {
    pub x: u16,
    pub y: u16,
    pub width: u16,
    pub height: u16,
}

/// A box of this size in the middle of an area, no larger than the area.
pub open spec fn centered_in(width: int, height: int, area: Area) -> Area {
    let w = press::least(width, area.width as int);
    let h = press::least(height, area.height as int);
    Area {
        x: (area.x + (area.width - w) / 2) as u16,
        y: (area.y + (area.height - h) / 2) as u16,
        width: w as u16,
        height: h as u16,
    }
}

/// A box of this size in the middle of an area, no larger than the area.
pub fn centered_rect(width: u16, height: u16, area: Area) -> (r: Area)
    requires
        area.x + area.width <= u16::MAX,
        area.y + area.height <= u16::MAX,
    ensures
        r == centered_in(width as int, height as int, area),
        area.x <= r.x,
        r.x + r.width <= area.x + area.width,
        area.y <= r.y,
        r.y + r.height <= area.y + area.height,
{
    let w: u16 = if width < area.width {
        width
    } else {
        area.width
    };
    let h: u16 = if height < area.height {
        height
    } else {
        area.height
    };
    Area {
        x: area.x + (area.width - w) / 2,
        y: area.y + (area.height - h) / 2,
        width: w,
        height: h,
    }
}

/// A box laid over the list.
#[derive(Debug)]
pub struct Modal {
    pub area: Area,
    pub title: String,
    /// Whether the lines are centered, and white.
    pub centered: bool,
    pub lines: Vec<Line>,
}

/// What a `Modal` says.
pub struct ModalView {
    pub area: Area,
    pub title: Seq<char>,
    pub centered: bool,
    pub lines: Seq<Seq<SpanView>>,
}

impl View for Modal {
    type V = ModalView;

    open spec fn view(&self) -> ModalView {
        ModalView {
            area: self.area,
            title: self.title@,
            centered: self.centered,
            lines: order::views(self.lines@),
        }
    }
}

/// How tall a box is that holds a list: as tall as the list and what is round
/// it, if the screen has the room, and tall enough for one row of it.
pub open spec fn box_height(rows: int, chrome: int, screen: int) -> int {
    let h = press::least(rows + chrome, press::less(screen, 2));
    if h < chrome + 1 {
        chrome + 1
    } else {
        h
    }
}

fn tall(rows: usize, chrome: u16, screen: u16) -> (r: u16)
    requires
        chrome < u16::MAX,
    ensures
        r == box_height(rows as int, chrome as int, screen as int),
{
    let most: u16 = if screen < 2 {
        0
    } else {
        screen - 2
    };
    let h: u16 = if most >= chrome && rows < (most - chrome) as usize {
        rows as u16 + chrome
    } else {
        most
    };
    if h < chrome + 1 {
        chrome + 1
    } else {
        h
    }
}

/// How many rows of a list a box shows.
pub open spec fn room_in(area: Area, chrome: int) -> int {
    let r = press::less(area.height as int, chrome);
    if r < 1 {
        1
    } else {
        r
    }
}

fn room(area: Area, chrome: u16) -> (r: usize)
    ensures
        r == room_in(area, chrome as int),
{
    if area.height <= chrome {
        1
    } else {
        (area.height - chrome) as usize
    }
}

/// A line of one dim text.
pub open spec fn dim(text: Seq<char>) -> Seq<SpanView> {
    seq![draw::piece(text, draw::in_color(Color::DarkGray))]
}

fn dim_line(text: String) -> (r: Line)
    ensures
        r@ == dim(text@),
{
    Line::of(text, draw::color(Color::DarkGray))
}

/// How a group is listed when a port is to join one.
pub open spec fn assign_item(g: GroupView, target: Seq<char>, selected: bool) -> Seq<SpanView> {
    if g.members.contains(target) {
        draw::choice_line(g.name + "  (already a member)"@, selected, true)
    } else {
        draw::choice_line(
            g.name + "  ("@ + text::decimal_of(g.members.len()) + " ports)"@,
            selected,
            false,
        )
    }
}

/// The groups that a port may join, and the offer to start one.
pub open spec fn assign_items(groups: Seq<GroupView>, target: Seq<char>, cursor: int) -> Seq<
    Seq<SpanView>,
> {
    Seq::new(groups.len(), |i: int| assign_item(groups[i], target, i == cursor)).push(
        draw::choice_line("<new group...>"@, cursor == groups.len(), false),
    )
}

/// The box in which a group is picked for a port.
pub open spec fn assign_box(
    target: Seq<char>,
    groups: Seq<GroupView>,
    cursor: int,
    screen: Area,
) -> ModalView {
    let area = centered_in(64, box_height(
        groups.len() as int + 1,
        6,
        screen.height as int,
    ), screen);
    let items = assign_items(groups, target, cursor);
    let height = room_in(area, 6);
    let head = seq![
        seq![
            draw::piece("Add "@, draw::plain_style()),
            draw::piece(target, draw::in_color(Color::White)),
            draw::piece(" to:"@, draw::plain_style()),
        ],
    ];
    let body = (head + draw::window_of(items, cursor, height)).push(seq![]);
    let noted = match draw::window_note(items.len() as int, cursor, height) {
        Some(note) => body.push(dim(note)),
        None => body,
    };
    ModalView {
        area,
        title: "Add to group"@,
        centered: false,
        lines: noted.push(dim("Up/Down choose | Enter confirm | Esc cancel"@)),
    }
}

fn append_lines(out: &mut Vec<Line>, more: Vec<Line>)
    ensures
        order::views(final(out)@) == order::views(old(out)@) + order::views(more@),
{
    let ghost a = order::views(out@);
    let ghost b = order::views(more@);
    let mut rest = more;
    out.append(&mut rest);
    proof {
        assert(order::views(out@) =~= a + b);
    }
}

/// Picks the group to add a port to, or offers to start a new one.
pub fn group_assign(target: &str, groups: &Vec<Group>, cursor: usize, screen: Area) -> (r: Modal)
    requires
        screen.x + screen.width <= u16::MAX,
        screen.y + screen.height <= u16::MAX,
        groups@.len() < usize::MAX,
    ensures
        r@ == assign_box(target@, order::views(groups@), cursor as int, screen),
{
    broadcast use order::lemma_views_push;

    let ghost gv = order::views(groups@);
    let ghost want = assign_items(gv, target@, cursor as int);
    let height: u16 = tall(groups.len() + 1, 6, screen.height);
    let area = centered_rect(64, height, screen);
    let mut items: Vec<Line> = Vec::new();
    let mut n: usize = 0;
    proof {
        assert(order::views(items@) =~= want.take(0));
    }
    while n < groups.len()
        invariant
            n <= groups@.len(),
            gv == order::views(groups@),
            want == assign_items(gv, target@, cursor as int),
            order::views(items@) == want.take(n as int),
        decreases groups@.len() - n,
    {
        let ghost before = order::views(items@);
        proof {
            assert(gv[n as int] == groups@[n as int]@);
            assert(gv[n as int].members.len() == groups@[n as int].members@.len());
        }
        let name = groups[n].name.as_str();
        let line = if holds(&groups[n].members, target) {
            selectable_line(text::concat2(name, "  (already a member)").as_str(), n == cursor, true)
        } else {
            let mut label = text::concat3(
                name,
                "  (",
                text::decimal(groups[n].members.len()).as_str(),
            );
            label.append(" ports)");
            selectable_line(label.as_str(), n == cursor, false)
        };
        items.push(line);
        proof {
            assert(order::views(items@) == before.push(want[n as int]));
            assert(want.take(n + 1) =~= want.take(n as int).push(want[n as int]));
        }
        n += 1;
    }
    let ghost before = order::views(items@);
    items.push(selectable_line("<new group...>", cursor == groups.len(), false));
    proof {
        assert(gv.len() == groups@.len());
        assert(order::views(items@) =~= want);
        assert(want.len() == items@.len());
    }
    let mut head = Line::blank();
    head.put("Add ".to_owned(), draw::plain());
    head.put(target.to_owned(), draw::color(Color::White));
    head.put(" to:".to_owned(), draw::plain());
    let (shown, note) = windowed_lines(items, cursor, room(area, 6));
    let mut lines: Vec<Line> = Vec::new();
    lines.push(head);
    proof {
        assert(order::views(lines@) =~= seq![head@]);
    }
    let ghost first = seq![head@];
    let ghost body = first + order::views(shown@);
    append_lines(&mut lines, shown);
    lines.push(Line::blank());
    proof {
        assert(order::views(lines@) == body.push(Seq::<SpanView>::empty()));
    }
    let ghost note_view = text::opt_text(note);
    if let Some(n) = note {
        lines.push(dim_line(n));
    }
    proof {
        assert(note_view == draw::window_note(
            want.len() as int,
            cursor as int,
            room_in(area, 6),
        ));
        assert(order::views(lines@) == match note_view {
            Some(n) => body.push(Seq::<SpanView>::empty()).push(dim(n)),
            None => body.push(Seq::<SpanView>::empty()),
        });
    }
    lines.push(dim_line("Up/Down choose | Enter confirm | Esc cancel".to_owned()));
    let r = Modal { area, title: "Add to group".to_owned(), centered: false, lines };
    proof {
        let whole = assign_box(target@, gv, cursor as int, screen);
        assert(whole.area == area);
        assert(head@ =~= seq![
            draw::piece("Add "@, draw::plain_style()),
            draw::piece(target@, draw::in_color(Color::White)),
            draw::piece(" to:"@, draw::plain_style()),
        ]);
        assert(body == first + draw::window_of(want, cursor as int, room_in(area, 6)));
        assert(r@.lines =~= whole.lines);
    }
    r
}

/// A line of the group manager.
pub open spec fn manage_item(groups: Seq<GroupView>, row: ManageRowView, selected: bool) -> Seq<
    SpanView,
> {
    match row {
        ManageRowView::Group(name) => draw::choice_line(
            name + "  ("@ + text::decimal_of(adopt::members_of(groups, name).len())
                + " ports)"@,
            selected,
            false,
        ),
        ManageRowView::Member { group, origin } => draw::choice_line(
            "    "@ + origin,
            selected,
            false,
        ),
    }
}

/// The lines of the group manager, or how to start a group.
pub open spec fn manage_items(groups: Seq<GroupView>, cursor: int) -> Seq<Seq<SpanView>> {
    let rows = list::manage_upto(groups, groups.len() as int);
    if rows.len() == 0 {
        seq![dim("  No groups yet. Ctrl+G on a port starts one."@)]
    } else {
        Seq::new(rows.len(), |i: int| manage_item(groups, rows[i], i == cursor))
    }
}

/// The box in which groups and their members are browsed.
pub open spec fn manage_box(
    groups: Seq<GroupView>,
    cursor: int,
    config_path: Option<Seq<char>>,
    screen: Area,
) -> ModalView {
    let items = manage_items(groups, cursor);
    let area = centered_in(70, box_height(items.len() as int, 5, screen.height as int), screen);
    let height = room_in(area, 5);
    let body = draw::window_of(items, cursor, height);
    let noted = match draw::window_note(items.len() as int, cursor, height) {
        Some(note) => body.push(dim(note)),
        None => body.push(seq![]),
    };
    let where_to = match config_path {
        Some(path) => "  saves to "@ + path,
        None => "  no config file yet; saving will ask for a path"@,
    };
    ModalView {
        area,
        title: "Groups"@,
        centered: false,
        lines: noted.push(dim(where_to)).push(
            dim("Up/Down choose | d remove | s save to config | Esc close"@),
        ),
    }
}

/// How many ports the group of this name has.
fn group_size(graph: &DependencyGraph, name: &str) -> (r: usize)
    ensures
        r == adopt::members_of(graph@.groups, name@).len(),
{
    match graph.group_place(name) {
        Some(i) => {
            proof {
                assert(graph@.groups[i as int] == graph.groups@[i as int]@);
            }
            graph.groups[i].members.len()
        },
        None => 0,
    }
}

/// Browses groups and their members.
pub fn group_manage(
    graph: &DependencyGraph,
    cursor: usize,
    config_path: &Option<String>,
    screen: Area,
) -> (r: Modal)
    requires
        screen.x + screen.width <= u16::MAX,
        screen.y + screen.height <= u16::MAX,
    ensures
        r@ == manage_box(graph@.groups, cursor as int, text::opt_text(*config_path), screen),
{
    broadcast use order::lemma_views_push;

    let ghost gv = graph@.groups;
    let ghost want = manage_items(gv, cursor as int);
    let rows = manage_rows(&graph.groups);
    let ghost rv = order::views(rows@);
    proof {
        assert(gv.len() == graph.groups@.len());
        assert(rv == list::manage_upto(gv, gv.len() as int));
        assert(rv.len() == rows@.len());
    }
    let mut items: Vec<Line> = Vec::new();
    if rows.len() == 0 {
        items.push(dim_line("  No groups yet. Ctrl+G on a port starts one.".to_owned()));
        proof {
            assert(order::views(items@) =~= want);
        }
    } else {
        let mut n: usize = 0;
        proof {
            assert(order::views(items@) =~= want.take(0));
        }
        while n < rows.len()
            invariant
                0 < rows@.len(),
                n <= rows@.len(),
                gv == graph@.groups,
                rv == order::views(rows@),
                rv == list::manage_upto(gv, gv.len() as int),
                want == manage_items(gv, cursor as int),
                order::views(items@) == want.take(n as int),
            decreases rows@.len() - n,
        {
            let ghost before = order::views(items@);
            proof {
                assert(rv[n as int] == rows@[n as int]@);
            }
            let line = match &rows[n] {
                ManageRow::Group(name) => {
                    let mut label = text::concat3(
                        name.as_str(),
                        "  (",
                        text::decimal(group_size(graph, name.as_str())).as_str(),
                    );
                    label.append(" ports)");
                    selectable_line(label.as_str(), n == cursor, false)
                },
                ManageRow::Member { origin, .. } => selectable_line(
                    text::concat2("    ", origin.as_str()).as_str(),
                    n == cursor,
                    false,
                ),
            };
            items.push(line);
            proof {
                assert(order::views(items@) == before.push(want[n as int]));
                assert(want.take(n + 1) =~= want.take(n as int).push(want[n as int]));
            }
            n += 1;
        }
        proof {
            assert(want.take(want.len() as int) =~= want);
        }
    }
    proof {
        assert(want.len() == items@.len());
    }
    let height: u16 = tall(items.len(), 5, screen.height);
    let area = centered_rect(70, height, screen);
    let (shown, note) = windowed_lines(items, cursor, room(area, 5));
    let mut lines = shown;
    match note {
        Some(n) => {
            lines.push(dim_line(n));
        },
        None => {
            lines.push(Line::blank());
        },
    }
    lines.push(
        dim_line(
            match config_path {
                Some(path) => text::concat2("  saves to ", path.as_str()),
                None => "  no config file yet; saving will ask for a path".to_owned(),
            },
        ),
    );
    lines.push(dim_line("Up/Down choose | d remove | s save to config | Esc close".to_owned()));
    let r = Modal { area, title: "Groups".to_owned(), centered: false, lines };
    proof {
        assert(r@.lines =~= manage_box(
            gv,
            cursor as int,
            text::opt_text(*config_path),
            screen,
        ).lines);
    }
    r
}

/// A box that asks for one line of text.
pub open spec fn prompt_box(
    title: Seq<char>,
    question: Seq<char>,
    buffer: Seq<char>,
    cursor: int,
    screen: Area,
) -> ModalView {
    let style = draw::in_bold(Color::Yellow);
    ModalView {
        area: centered_in(70, 7, screen),
        title,
        centered: false,
        lines: seq![
            seq![],
            seq![draw::piece(question, draw::plain_style())],
            seq![draw::piece("  "@, style)] + draw::field_of(buffer, cursor, style),
            seq![],
            dim("Enter confirm | Esc cancel"@),
        ],
    }
}

/// A box that asks for one line of text.
pub fn prompt(title: &str, question: &str, buffer: &str, cursor: usize, screen: Area) -> (r: Modal)
    requires
        screen.x + screen.width <= u16::MAX,
        screen.y + screen.height <= u16::MAX,
    ensures
        r@ == prompt_box(title@, question@, buffer@, cursor as int, screen),
{
    broadcast use order::lemma_views_push;

    let style = draw::bold(Color::Yellow);
    let mut entry = Line::of("  ".to_owned(), style);
    entry.extend(field_spans(buffer, cursor, style));
    let mut lines: Vec<Line> = Vec::new();
    lines.push(Line::blank());
    lines.push(Line::of(question.to_owned(), draw::plain()));
    lines.push(entry);
    lines.push(Line::blank());
    lines.push(dim_line("Enter confirm | Esc cancel".to_owned()));
    let r = Modal {
        area: centered_rect(70, 7, screen),
        title: title.to_owned(),
        centered: false,
        lines,
    };
    proof {
        assert(r@.lines =~= prompt_box(title@, question@, buffer@, cursor as int, screen).lines);
    }
    r
}

/// The box that asks how to leave.
pub open spec fn confirm_box(choice: ConfirmChoice, dirty: bool, screen: Area) -> ModalView {
    let buttons = draw::then_button(
        draw::then_button(
            draw::button_of("Save and exit"@, choice == ConfirmChoice::Save),
            "Discard"@,
            choice == ConfirmChoice::Discard,
        ),
        "Cancel"@,
        choice == ConfirmChoice::Cancel,
    );
    ModalView {
        area: centered_in(56, 7, screen),
        title: "Leaving bgone"@,
        centered: true,
        lines: seq![
            seq![],
            seq![
                draw::piece(
                    if dirty {
                        "You have unsaved option changes."@
                    } else {
                        "Nothing has changed since the last save."@
                    },
                    draw::plain_style(),
                ),
            ],
            seq![],
            buttons,
            dim("Esc again discards"@),
        ],
    }
}

/// The box that asks how to leave.
pub fn confirm_quit(choice: ConfirmChoice, dirty: bool, screen: Area) -> (r: Modal)
    requires
        screen.x + screen.width <= u16::MAX,
        screen.y + screen.height <= u16::MAX,
    ensures
        r@ == confirm_box(choice, dirty, screen),
{
    broadcast use order::lemma_views_push;

    let mut buttons = button_spans("Save and exit", choice == ConfirmChoice::Save);
    put_button(&mut buttons, "Discard", choice == ConfirmChoice::Discard);
    put_button(&mut buttons, "Cancel", choice == ConfirmChoice::Cancel);
    let mut lines: Vec<Line> = Vec::new();
    lines.push(Line::blank());
    lines.push(
        Line::of(
            if dirty {
                "You have unsaved option changes.".to_owned()
            } else {
                "Nothing has changed since the last save.".to_owned()
            },
            draw::plain(),
        ),
    );
    lines.push(Line::blank());
    lines.push(buttons);
    lines.push(dim_line("Esc again discards".to_owned()));
    let r = Modal {
        area: centered_rect(56, 7, screen),
        title: "Leaving bgone".to_owned(),
        centered: true,
        lines,
    };
    proof {
        assert(r@.lines =~= confirm_box(choice, dirty, screen).lines);
    }
    r
}

/// The box that is laid over the list, if one is.
pub open spec fn modal_for(app: AppView, g: GraphView, screen: Area) -> Option<ModalView> {
    match app.mode {
        InputMode::ConfirmQuit => Some(confirm_box(app.confirm, query::dirty(g), screen)),
        InputMode::GroupAssign => Some(
            assign_box(press::target_in(app), g.groups, app.group_cursor as int, screen),
        ),
        InputMode::GroupNewName => Some(
            prompt_box(
                "New group"@,
                "Name a group for "@ + press::target_in(app) + ":"@,
                app.buffer,
                app.caret as int,
                screen,
            ),
        ),
        InputMode::GroupManage => Some(
            manage_box(g.groups, app.group_cursor as int, app.config_path, screen),
        ),
        InputMode::ConfigPath => Some(
            prompt_box(
                "Save groups"@,
                "No config file yet. Where should groups be saved?"@,
                app.buffer,
                app.caret as int,
                screen,
            ),
        ),
        InputMode::Normal | InputMode::Search => None,
    }
}

/// The box that is laid over the list, if one is.
pub fn modal_of(app: &App, graph: &DependencyGraph, screen: Area) -> (r: Option<Modal>)
    requires
        graph@.wf(),
        graph@.groups.len() < usize::MAX,
        screen.x + screen.width <= u16::MAX,
        screen.y + screen.height <= u16::MAX,
    ensures
        match r {
            Some(m) => modal_for(app@, graph@, screen) == Some(m@),
            None => modal_for(app@, graph@, screen) is None,
        },
{
    let target = app.target();
    match app.input_mode {
        InputMode::ConfirmQuit => Some(
            confirm_quit(app.confirm_choice, graph.is_dirty(), screen),
        ),
        InputMode::GroupAssign => {
            proof {
                assert(graph@.groups.len() == graph.groups@.len());
            }
            Some(group_assign(target.as_str(), &graph.groups, app.group_cursor, screen))
        },
        InputMode::GroupNewName => Some(
            prompt(
                "New group",
                text::concat3("Name a group for ", target.as_str(), ":").as_str(),
                app.text_buffer.as_str(),
                app.text_cursor,
                screen,
            ),
        ),
        InputMode::GroupManage => Some(
            group_manage(graph, app.group_cursor, &app.config_path, screen),
        ),
        InputMode::ConfigPath => Some(
            prompt(
                "Save groups",
                "No config file yet. Where should groups be saved?",
                app.text_buffer.as_str(),
                app.text_cursor,
                screen,
            ),
        ),
        InputMode::Normal | InputMode::Search => None,
    }
}

/// A box is as large as it is asked to be, as far as there is room, and as far
/// from one side as from the other, but for an odd cell.
pub proof fn a_box_stands_in_the_middle(width: int, height: int, area: Area)
    requires
        0 <= width,
        0 <= height,
        area.x + area.width <= u16::MAX,
        area.y + area.height <= u16::MAX,
    ensures
        ({
            let r = centered_in(width, height, area);
            let left = r.x - area.x;
            let right = area.x + area.width - (r.x + r.width);
            let above = r.y - area.y;
            let below = area.y + area.height - (r.y + r.height);
            &&& width <= area.width ==> r.width == width
            &&& width > area.width ==> r.width == area.width
            &&& height <= area.height ==> r.height == height
            &&& height > area.height ==> r.height == area.height
            &&& 0 <= left <= right <= left + 1
            &&& 0 <= above <= below <= above + 1
        }),
{
}

/// A box that holds a list shows all of it where the screen has the room, and
/// always at least one row of it.
pub proof fn a_box_shows_what_fits(rows: int, chrome: int, screen: int)
    requires
        1 <= rows,
        0 <= chrome,
        0 <= screen,
    ensures
        rows + chrome + 2 <= screen ==> box_height(rows, chrome, screen) == rows + chrome,
        rows + chrome + 2 > screen && chrome + 3 <= screen ==> box_height(rows, chrome, screen)
            == screen - 2,
        box_height(rows, chrome, screen) >= chrome + 1,
{
}

} // verus!
