use bgone::config::{save_groups, Existing};
use bgone::facts::{DepEntry, OptionFacts, Polarity, PortFacts};
use bgone::graph::{DependencyGraph, Group, NodeId, RowKind};
use bgone::oracle::{Options, Question};
use bgone::reader::SystemOptions;
use bgone::ui::answers::Reply;
use bgone::ui::draw::{button_row, footer_lines, header_line, plain, row_line, windowed_lines, Line};
use bgone::ui::field::{key_acts, Key, KeyCode, KeyEventKind};
use bgone::ui::list::{manage_rows, port_row_index, scroll_window, ManageRow};
use bgone::ui::modal::{group_assign, group_manage, modal_of, prompt, Area, Modal};
use bgone::ui::press::KeyOutcome;
use bgone::ui::{App, ConfirmChoice, InputMode, TuiAction};

fn texts(items: &[&str]) -> Vec<String> {
    items.iter().map(|s| s.to_string()).collect()
}

fn question(origin: &str, options: Options) -> Question {
    Question { origin: origin.to_string(), options }
}

fn reply(origin: String, options: Options, answer: Result<PortFacts, String>) -> Reply {
    Reply { question: Question { origin, options }, answer }
}

fn put_group(graph: &mut DependencyGraph, name: &str, members: &[&str]) {
    for origin in members {
        graph.enroll(name, origin);
    }
}

fn members(graph: &DependencyGraph, name: &str) -> Vec<String> {
    graph.groups.iter().find(|g| g.name == name).unwrap().members.clone()
}

fn has_group(graph: &DependencyGraph, name: &str) -> bool {
    graph.groups.iter().any(|g| g.name == name)
}

fn key(code: KeyCode) -> Key {
    Key { code, ctrl: false, shift: false }
}

fn ctrl(c: char) -> Key {
    Key { code: KeyCode::Char(c), ctrl: true, shift: false }
}

/// A port as make would have described it.
fn fixture_port(origin: &str) -> PortFacts {
    let name = origin.split('/').nth(1).unwrap_or(origin);
    PortFacts {
        origin: origin.to_string(),
        pkgname: format!("{name}-1.0"),
        pkgbase: name.to_string(),
        flavours: Vec::new(),
        options: Vec::new(),
        deps: Vec::new(),
        unresolved: Vec::new(),
        source_mtime: 0,
    }
}

fn fixture_option(
    facts: &mut PortFacts,
    name: &str,
    default_on: bool,
    group_type: &str,
    group_name: &str,
) {
    facts.options.push(OptionFacts {
        name: name.to_string(),
        description: String::new(),
        group_type: group_type.to_string(),
        group_name: group_name.to_string(),
        default_on,
        implies: Vec::new(),
        prevents: Vec::new(),
    });
}

fn fixture_edge(facts: &mut PortFacts, to: &str, via: Option<&str>) {
    facts.deps.push(DepEntry {
        origin: to.to_string(),
        flavour: None,
        class: "RUN".to_string(),
        via_option: via.map(str::to_string),
        polarity: Polarity::On,
    });
}

fn built(facts: Vec<PortFacts>, requested: &[&str]) -> DependencyGraph {
    let mut graph = DependencyGraph::from_facts(&facts, &texts(requested), &SystemOptions::default());
    graph.expand_all();
    graph
}

/// Two ports sharing an option, so the list has something to put a cursor on.
fn test_graph() -> DependencyGraph {
    let ports: Vec<PortFacts> = ["lang/php83-extensions", "lang/php84-extensions"]
        .iter()
        .map(|origin| {
            let mut p = fixture_port(origin);
            fixture_option(&mut p, "SOAP", false, "DEFINE", "");
            p
        })
        .collect();
    built(ports, &["lang/php83-extensions", "lang/php84-extensions"])
}

/// A stale answer — one computed for an option set no longer in force —
/// must be dropped, not folded in. Its successor is already in flight, and
/// folding the stale one in would show its dependencies until then.
#[test]
fn merge_drops_an_answer_for_options_no_longer_set() {
    let mut p = fixture_port("www/app");
    fixture_option(&mut p, "X", false, "DEFINE", "");
    let mut graph = built(vec![p], &["www/app"]);
    let mut app = App::new(None);
    let sys = SystemOptions::default();

    // Computed while X was on; the user has since turned X back off.
    let mut facts = fixture_port("www/app");
    fixture_option(&mut facts, "X", false, "DEFINE", "");
    fixture_edge(&mut facts, "www/newdep", None);
    let answers = vec![reply("www/app".to_string(), Options::Exactly(vec!["X".to_string()]), Ok(facts))];

    let arrived = app.merge(&mut graph, &sys, &answers);
    assert!(arrived.is_empty());
    assert!(
        app.pending.is_empty(),
        "a superseded answer must not queue work for its dependencies"
    );
}

/// Legitimate answers are not dropped: one matching the current
/// option set applies, and its dependencies get asked about.
#[test]
fn merge_applies_an_answer_for_the_options_in_force() {
    let mut p = fixture_port("www/app");
    fixture_option(&mut p, "X", true, "DEFINE", "");
    let mut graph = built(vec![p], &["www/app"]);
    let mut app = App::new(None);
    let sys = SystemOptions::default();

    let mut facts = fixture_port("www/app");
    fixture_option(&mut facts, "X", true, "DEFINE", "");
    fixture_edge(&mut facts, "www/newdep", None);
    let answers = vec![reply("www/app".to_string(), Options::Exactly(vec!["X".to_string()]), Ok(facts))];

    app.merge(&mut graph, &sys, &answers);
    assert!(
        app.pending
            .contains(&question("www/newdep", Options::AsShipped)),
        "the dependency the answer names has to be asked about"
    );
}

/// A second as-shipped answer for a port that already arrived did its work
/// the first time; re-applying it would overwrite state the user may have
/// touched since.
#[test]
fn merge_skips_a_duplicate_as_shipped_answer_for_a_known_port() {
    let mut graph = built(vec![fixture_port("www/app")], &["www/app"]);
    let mut app = App::new(None);
    let sys = SystemOptions::default();

    let mut facts = fixture_port("www/app");
    fixture_edge(&mut facts, "www/newdep", None);
    let answers = vec![reply("www/app".to_string(), Options::AsShipped, Ok(facts))];

    app.merge(&mut graph, &sys, &answers);
    assert!(app.pending.is_empty());
}

/// A port that arrives mid-session with saved options differing from its
/// defaults is queued to be asked again under the saved set — the second
/// evaluation.
#[test]
fn merge_asks_an_arrived_port_under_its_saved_options() {
    let mut graph = built(vec![fixture_port("www/app")], &["www/app"]);
    let mut app = App::new(None);
    let mut sys = SystemOptions::default();
    sys.read_port_file("www_b", "OPTIONS_FILE_SET+=X\n");

    let mut facts = fixture_port("www/b");
    fixture_option(&mut facts, "X", false, "DEFINE", "");
    let answers = vec![reply("www/b".to_string(), Options::AsShipped, Ok(facts))];

    let arrived = app.merge(&mut graph, &sys, &answers);
    assert_eq!(arrived, vec!["www/b".to_string()]);
    assert!(
        app.pending
            .contains(&question("www/b", Options::Exactly(vec!["X".to_string()]))),
        "saved configuration differs from shipped, so the port must be re-asked"
    );
}

/// A toggle that fires implications queues the port's question with the
/// post-implication set. The staleness gate depends on every mutation's
/// question describing the state it left behind — an implied option
/// missing from the question would make the graph drop its own answer.
#[test]
fn a_toggled_ports_question_carries_its_implied_options() {
    let mut p = fixture_port("www/app");
    fixture_option(&mut p, "NJS", false, "DEFINE", "");
    fixture_option(&mut p, "STREAM", false, "DEFINE", "");
    p.options[0].implies = vec!["STREAM".to_string()];
    let mut graph = built(vec![p], &["www/app"]);
    let mut app = App::new(None);

    let row = row_of_option(&graph, "www/app", "NJS");
    let touched = graph.toggle_option(row);
    app.ask_about(&graph, &touched);

    let Some(Options::Exactly(set)) =
        app.pending.iter().find(|q| q.origin == "www/app").map(|q| &q.options)
    else {
        panic!("the toggled port must have a question queued");
    };
    assert!(set.contains(&"NJS".to_string()));
    assert!(
        set.contains(&"STREAM".to_string()),
        "the implied option is part of the state the question describes"
    );
}

/// A cascade is said, not silent: a toggle that implications move reports
/// what else changed on the port, in both directions.
#[test]
fn the_status_line_reports_toggle_cascades() {
    let mut p = fixture_port("www/app");
    fixture_option(&mut p, "NJS", false, "DEFINE", "");
    fixture_option(&mut p, "STREAM", false, "DEFINE", "");
    p.options[0].implies = vec!["STREAM".to_string()];
    let mut graph = built(vec![p], &["www/app"]);
    let mut app = App::new(None);

    app.selected = Some(row_of_option(&graph, "www/app", "NJS"));
    app.on_key(key(KeyCode::Char(' ')), &mut graph);
    assert!(
        app.status_msg.contains("'NJS' on") && app.status_msg.contains("STREAM on"),
        "the implied option must be named: {:?}",
        app.status_msg
    );

    app.selected = Some(row_of_option(&graph, "www/app", "STREAM"));
    app.on_key(key(KeyCode::Char(' ')), &mut graph);
    assert!(
        app.status_msg.contains("'STREAM' off") && app.status_msg.contains("NJS off"),
        "the retired implier must be named: {:?}",
        app.status_msg
    );
}

/// A refused press says which rule held it, instead of claiming a toggle
/// that never happened.
#[test]
fn the_status_line_explains_a_refused_toggle() {
    let mut p = fixture_port("www/app");
    fixture_option(&mut p, "MYSQL", true, "SINGLE", "BACKEND");
    fixture_option(&mut p, "PGSQL", false, "SINGLE", "BACKEND");
    fixture_option(&mut p, "SSL", true, "DEFINE", "");
    p.options[0].implies = vec!["SSL".to_string()];
    let mut graph = built(vec![p], &["www/app"]);
    let mut app = App::new(None);

    // The SINGLE's set member refuses directly...
    app.selected = Some(row_of_option(&graph, "www/app", "MYSQL"));
    app.on_key(key(KeyCode::Char(' ')), &mut graph);
    assert!(
        app.status_msg.contains("stays on")
            && app.status_msg.contains("SINGLE keeps one member"),
        "got: {:?}",
        app.status_msg
    );

    // ...and so does an option that member implies.
    app.selected = Some(row_of_option(&graph, "www/app", "SSL"));
    app.on_key(key(KeyCode::Char(' ')), &mut graph);
    assert!(
        app.status_msg.contains("'SSL' stays on") && app.status_msg.contains("MYSQL"),
        "got: {:?}",
        app.status_msg
    );
}

/// Documented in --help, the README and the footer: Ctrl+G once to add,
/// twice to manage.
#[test]
fn ctrl_g_twice_opens_the_group_manager() {
    let mut graph = test_graph();
    let mut app = App::new(None);

    assert_eq!(app.on_key(ctrl('g'), &mut graph), KeyOutcome::Continue);
    assert_eq!(app.input_mode, InputMode::GroupAssign);

    app.on_key(ctrl('g'), &mut graph);
    assert_eq!(
        app.input_mode,
        InputMode::GroupManage,
        "a second Ctrl+G must escalate to the manager"
    );
}

/// Row index of the first option row, for putting the cursor inside a
/// port's block rather than on its header.
fn first_option_row(graph: &DependencyGraph) -> usize {
    graph
        .visible_rows
        .iter()
        .position(|r| matches!(r.node_id, NodeId::Option(_)))
        .expect("no option row")
}

/// Ctrl+G works from anywhere inside a port's block, not just its header.
#[test]
fn ctrl_g_targets_the_port_the_cursor_is_inside() {
    let mut graph = test_graph();
    let mut app = App::new(None);
    app.selected = Some(first_option_row(&graph));

    app.on_key(ctrl('g'), &mut graph);

    assert_eq!(app.input_mode, InputMode::GroupAssign);
    assert_eq!(
        app.group_target.as_deref(),
        Some("lang/php83-extensions"),
        "an option row should target the port it belongs to"
    );
}

/// Escaping out breaks the run, so the next Ctrl+G starts over rather than
/// jumping straight to the manager.
#[test]
fn escaping_assign_starts_the_next_ctrl_g_over() {
    let mut graph = test_graph();
    let mut app = App::new(None);

    app.on_key(ctrl('g'), &mut graph);
    app.on_key(key(KeyCode::Esc), &mut graph);
    assert_eq!(app.input_mode, InputMode::Normal);
    assert!(app.group_target.is_none(), "the target must be dropped");

    app.on_key(ctrl('g'), &mut graph);
    assert_eq!(app.input_mode, InputMode::GroupAssign);
}

// ---------------------------------------------------------------- assign

#[test]
fn assign_adds_the_port_to_the_chosen_group_without_duplicating() {
    let mut graph = test_graph();
    put_group(&mut graph, "ssl", &["security/openssl"]);
    let mut app = App::new(None);

    app.on_key(ctrl('g'), &mut graph);
    app.on_key(key(KeyCode::Enter), &mut graph);

    assert_eq!(app.input_mode, InputMode::Normal);
    assert_eq!(
        members(&graph, "ssl"),
        vec!["lang/php83-extensions", "security/openssl"],
        "members are kept sorted"
    );

    // Adding it again changes nothing
    app.on_key(ctrl('g'), &mut graph);
    app.on_key(key(KeyCode::Enter), &mut graph);
    assert_eq!(members(&graph, "ssl").len(), 2);
    assert!(app.status_msg.contains("already"), "{}", app.status_msg);
}

#[test]
fn assign_cursor_is_clamped_at_both_ends() {
    let mut graph = test_graph();
    put_group(&mut graph, "a", &["www/x"]);
    let mut app = App::new(None);
    app.on_key(ctrl('g'), &mut graph);

    app.on_key(key(KeyCode::Up), &mut graph);
    assert_eq!(app.group_cursor, 0, "cannot go above the first group");

    // one group plus the "<new group...>" entry
    for _ in 0..5 {
        app.on_key(key(KeyCode::Down), &mut graph);
    }
    assert_eq!(app.group_cursor, 1, "cannot go past <new group...>");
}

#[test]
fn choosing_new_group_moves_to_naming() {
    let mut graph = test_graph();
    let mut app = App::new(None);

    app.on_key(ctrl('g'), &mut graph);
    // With no groups yet, the only entry is <new group...>
    app.on_key(key(KeyCode::Enter), &mut graph);

    assert_eq!(app.input_mode, InputMode::GroupNewName);
    assert!(app.text_buffer.is_empty());
}

// ---------------------------------------------------------------- naming

#[test]
fn naming_a_group_creates_it_with_the_port_in_it() {
    let mut graph = test_graph();
    let mut app = App::new(None);
    app.on_key(ctrl('g'), &mut graph);
    app.on_key(key(KeyCode::Enter), &mut graph);

    for c in "php-ext".chars() {
        app.on_key(key(KeyCode::Char(c)), &mut graph);
    }
    app.on_key(key(KeyCode::Backspace), &mut graph);
    assert_eq!(app.text_buffer, "php-ex");

    app.on_key(key(KeyCode::Enter), &mut graph);

    assert_eq!(app.input_mode, InputMode::Normal);
    assert_eq!(members(&graph, "php-ex"), vec!["lang/php83-extensions"]);
}

/// Terminals that send BS (0x08) rather than DEL (0x7F) arrive as Ctrl+H.
#[test]
fn ctrl_h_rubs_out_like_backspace_does() {
    for erase in [key(KeyCode::Backspace), ctrl('h')] {
        let mut graph = test_graph();
        let mut app = App::new(None);
        app.on_key(ctrl('g'), &mut graph);
        app.on_key(key(KeyCode::Enter), &mut graph);

        for c in "phpp".chars() {
            app.on_key(key(KeyCode::Char(c)), &mut graph);
        }
        app.on_key(erase, &mut graph);

        assert_eq!(app.text_buffer, "php", "{erase:?} did not rub out");
    }
}

/// The same terminals, the same problem, in the other two places text is
/// typed.
#[test]
fn ctrl_h_rubs_out_in_search_and_in_the_path_prompt() {
    let mut graph = test_graph();
    let mut app = App::new(None);

    app.on_key(key(KeyCode::Char('/')), &mut graph);
    for c in "soapp".chars() {
        app.on_key(key(KeyCode::Char(c)), &mut graph);
    }
    app.on_key(ctrl('h'), &mut graph);
    assert_eq!(graph.search_query, "soap");

    let mut graph = test_graph();
    put_group(&mut graph, "php", &["lang/php83-extensions"]);
    let mut app = app_in_manager(&mut graph);
    app.on_key(key(KeyCode::Char('s')), &mut graph);
    for c in "/tmp/xx".chars() {
        app.on_key(key(KeyCode::Char(c)), &mut graph);
    }
    app.on_key(ctrl('h'), &mut graph);
    assert_eq!(app.text_buffer, "/tmp/x");
}

// ------------------------------------------------------- keeping my spot

/// A graph with two ports, so collapsing the first renumbers everything
/// under the second.
fn spot_graph() -> DependencyGraph {
    let ports: Vec<PortFacts> = ["www/aaa", "www/zzz"]
        .iter()
        .map(|origin| {
            let mut p = fixture_port(origin);
            for opt in ["ALPHA", "BETA", "GAMMA"] {
                fixture_option(&mut p, opt, false, "DEFINE", "");
            }
            p
        })
        .collect();
    built(ports, &["www/aaa", "www/zzz"])
}

/// What the cursor is sitting on, for asserting it did not wander.
fn under_cursor(graph: &DependencyGraph, app: &App) -> String {
    let i = app.selected.unwrap();
    match &graph.visible_rows[i].kind {
        RowKind::Port { origin, .. } => format!("port {origin}"),
        RowKind::Option { name, .. } => format!("option {name}"),
        other => format!("{other:?}"),
    }
}

fn row_of_option(graph: &DependencyGraph, origin: &str, opt: &str) -> usize {
    graph
        .visible_rows
        .iter()
        .position(|r| match r.node_id {
            NodeId::Option(id) => {
                let o = &graph.option_nodes[id];
                o.port_origin == origin && o.name == opt
            }
            _ => false,
        })
        .unwrap_or_else(|| panic!("no row for {origin}/{opt}"))
}

fn row_of_port(graph: &DependencyGraph, origin: &str) -> usize {
    graph
        .visible_rows
        .iter()
        .position(|r| matches!(&r.kind, RowKind::Port { origin: o, .. } if o == origin))
        .unwrap_or_else(|| panic!("no row for {origin}"))
}

/// Expanding the whole list inserts rows *above* the cursor as well as
/// below, so its row number changes even though nothing about the row it is
/// on did. It has to follow the row.
#[test]
fn expanding_everything_keeps_the_cursor_on_the_same_port() {
    let mut graph = spot_graph();
    let mut app = App::new(None);

    // Collapse everything, then sit on the second port
    app.on_key(key(KeyCode::Char('_')), &mut graph);
    app.on_key(key(KeyCode::Char('_')), &mut graph);
    app.selected = Some(row_of_port(&graph, "www/zzz"));
    let before = app.selected.unwrap();

    // Expanding puts www/aaa's three options in ahead of it
    app.on_key(key(KeyCode::Char('+')), &mut graph);
    app.on_key(key(KeyCode::Char('+')), &mut graph);

    let after = app.selected.unwrap();
    assert_ne!(before, after, "the row number must have moved");
    assert_eq!(
        under_cursor(&graph, &app),
        "port www/zzz",
        "holding the row number would have landed on one of www/aaa's options"
    );
}

/// The case that matters most: collapsing the port the cursor is inside
/// hides the option, so the cursor falls out to the port itself.
#[test]
fn collapsing_the_port_im_inside_takes_me_to_the_port() {
    let mut graph = spot_graph();
    let mut app = App::new(None);

    // Deliberately the *first* port: after the collapse only two rows are
    // left, so simply clamping the old row number would land on www/zzz and
    // look correct by accident.
    app.selected = Some(row_of_option(&graph, "www/aaa", "BETA"));
    assert_eq!(under_cursor(&graph, &app), "option BETA");

    // Collapse the whole list; every option row goes
    app.on_key(key(KeyCode::Char('_')), &mut graph);
    app.on_key(key(KeyCode::Char('_')), &mut graph);

    assert_eq!(
        under_cursor(&graph, &app),
        "port www/aaa",
        "should have fallen out to the port the option belonged to"
    );
}

/// Expanding again should leave the cursor where it is rather than jumping.
#[test]
fn expanding_keeps_the_cursor_on_the_port() {
    let mut graph = spot_graph();
    let mut app = App::new(None);

    app.on_key(key(KeyCode::Char('_')), &mut graph);
    app.on_key(key(KeyCode::Char('_')), &mut graph);

    let zzz = graph
        .visible_rows
        .iter()
        .position(|r| matches!(&r.kind, RowKind::Port { origin, .. } if origin == "www/zzz"))
        .unwrap();
    app.selected = Some(zzz);

    app.on_key(key(KeyCode::Char('=')), &mut graph);
    assert_eq!(under_cursor(&graph, &app), "port www/zzz");

    app.on_key(key(KeyCode::Char('+')), &mut graph);
    assert_eq!(under_cursor(&graph, &app), "port www/zzz");
}

/// Toggling rebuilds the list too, and can strand whole ports out of it, so
/// it renumbers rows exactly as an expand does.
#[test]
fn toggling_leaves_the_cursor_on_the_option_it_toggled() {
    // EXTRA is on by default and pulls in aaa/pulled, which sorts *above*
    // www/app — so turning it off shifts every row under www/app upwards.
    let mut app_port = fixture_port("www/app");
    fixture_option(&mut app_port, "EXTRA", true, "DEFINE", "");
    fixture_edge(&mut app_port, "aaa/pulled", Some("EXTRA"));
    let mut pulled = fixture_port("aaa/pulled");
    fixture_option(&mut pulled, "DOCS", true, "DEFINE", "");

    let mut graph = built(vec![app_port, pulled], &["www/app"]);
    let mut app = App::new(None);

    let before = row_of_option(&graph, "www/app", "EXTRA");
    app.selected = Some(before);
    assert!(graph.is_live("aaa/pulled"));

    app.on_key(key(KeyCode::Char(' ')), &mut graph);

    assert!(!graph.is_live("aaa/pulled"), "the toggle stranded it");
    assert_ne!(
        app.selected.unwrap(),
        before,
        "the row number must have moved"
    );
    assert_eq!(
        under_cursor(&graph, &app),
        "option EXTRA",
        "the cursor should still be on the option that was toggled"
    );
}

/// The status line names what was acted on. A row number would be doubly
/// useless here, since the operation changes it.
#[test]
fn the_status_line_names_what_was_expanded() {
    let mut graph = spot_graph();
    let mut app = App::new(None);

    let zzz = graph
        .visible_rows
        .iter()
        .position(|r| matches!(&r.kind, RowKind::Port { origin, .. } if origin == "www/zzz"))
        .unwrap();
    app.selected = Some(zzz);
    app.on_key(key(KeyCode::Char('-')), &mut graph);

    assert!(
        app.status_msg.contains("www/zzz"),
        "got: {}",
        app.status_msg
    );
}

// -------------------------------------------------------- field editing

/// Left and Right move the caret, and typing lands where it is rather than
/// always at the end.
#[test]
fn arrows_move_the_caret_and_typing_lands_there() {
    let mut graph = test_graph();
    let mut app = App::new(None);
    app.on_key(ctrl('g'), &mut graph);
    app.on_key(key(KeyCode::Enter), &mut graph);

    for c in "php-ext".chars() {
        app.on_key(key(KeyCode::Char(c)), &mut graph);
    }
    assert_eq!(app.text_cursor, 7, "caret follows what was typed");

    for _ in 0..3 {
        app.on_key(key(KeyCode::Left), &mut graph);
    }
    assert_eq!(app.text_cursor, 4);

    app.on_key(key(KeyCode::Char('X')), &mut graph);
    assert_eq!(app.text_buffer, "php-Xext");
    assert_eq!(app.text_cursor, 5, "caret sits after what was inserted");

    app.on_key(key(KeyCode::Right), &mut graph);
    app.on_key(key(KeyCode::Char('Y')), &mut graph);
    assert_eq!(app.text_buffer, "php-XeYxt");
}

/// Backspace takes the character behind the caret, not the last one typed.
#[test]
fn backspace_rubs_out_behind_the_caret() {
    let mut graph = test_graph();
    let mut app = App::new(None);
    app.on_key(ctrl('g'), &mut graph);
    app.on_key(key(KeyCode::Enter), &mut graph);

    for c in "phpx-ext".chars() {
        app.on_key(key(KeyCode::Char(c)), &mut graph);
    }
    for _ in 0..4 {
        app.on_key(key(KeyCode::Left), &mut graph);
    }
    app.on_key(key(KeyCode::Backspace), &mut graph);

    assert_eq!(app.text_buffer, "php-ext");
    assert_eq!(app.text_cursor, 3);

    // Delete takes the one in front instead
    app.on_key(key(KeyCode::Delete), &mut graph);
    assert_eq!(app.text_buffer, "phpext");
    assert_eq!(app.text_cursor, 3, "the caret does not move");
}

#[test]
fn the_caret_is_clamped_and_home_end_reach_the_edges() {
    let mut graph = test_graph();
    let mut app = App::new(None);
    app.on_key(ctrl('g'), &mut graph);
    app.on_key(key(KeyCode::Enter), &mut graph);
    for c in "abc".chars() {
        app.on_key(key(KeyCode::Char(c)), &mut graph);
    }

    for _ in 0..9 {
        app.on_key(key(KeyCode::Left), &mut graph);
    }
    assert_eq!(app.text_cursor, 0);
    app.on_key(key(KeyCode::Backspace), &mut graph);
    assert_eq!(app.text_buffer, "abc", "nothing behind the caret to take");

    for _ in 0..9 {
        app.on_key(key(KeyCode::Right), &mut graph);
    }
    assert_eq!(app.text_cursor, 3);
    app.on_key(key(KeyCode::Delete), &mut graph);
    assert_eq!(app.text_buffer, "abc", "nothing in front of it either");

    app.on_key(key(KeyCode::Home), &mut graph);
    assert_eq!(app.text_cursor, 0);
    app.on_key(key(KeyCode::End), &mut graph);
    assert_eq!(app.text_cursor, 3);
}

/// Paths and origins can carry multibyte characters, and editing by byte
/// offset would split one and panic.
#[test]
fn editing_is_safe_across_multibyte_characters() {
    let mut graph = test_graph();
    let mut app = App::new(None);
    app.on_key(ctrl('g'), &mut graph);
    app.on_key(key(KeyCode::Enter), &mut graph);

    for c in "grüße".chars() {
        app.on_key(key(KeyCode::Char(c)), &mut graph);
    }
    assert_eq!(app.text_cursor, 5);

    app.on_key(key(KeyCode::Left), &mut graph);
    app.on_key(key(KeyCode::Backspace), &mut graph);
    assert_eq!(app.text_buffer, "grüe");

    app.on_key(key(KeyCode::Home), &mut graph);
    app.on_key(key(KeyCode::Delete), &mut graph);
    assert_eq!(app.text_buffer, "rüe");
}

/// The search bar is a field too, and keeps its query between visits, so the
/// caret has to pick up after it rather than at zero.
#[test]
fn the_search_bar_edits_like_the_prompts_do() {
    let mut graph = test_graph();
    let mut app = App::new(None);

    app.on_key(key(KeyCode::Char('/')), &mut graph);
    for c in "soap".chars() {
        app.on_key(key(KeyCode::Char(c)), &mut graph);
    }
    app.on_key(key(KeyCode::Left), &mut graph);
    app.on_key(key(KeyCode::Char('X')), &mut graph);
    assert_eq!(graph.search_query, "soaXp");

    app.on_key(key(KeyCode::Enter), &mut graph);
    assert_eq!(app.input_mode, InputMode::Normal);

    app.on_key(key(KeyCode::Char('/')), &mut graph);
    assert_eq!(
        app.text_cursor, 5,
        "re-entering search should put the caret after the existing query"
    );
}

// ---------------------------------------------------------------- search

/// Narrowing the results should leave the cursor at the top of them, not on
/// whatever the old row number now points at.
#[test]
fn narrowing_the_search_moves_the_cursor_into_the_results() {
    let mut graph = spot_graph();
    let mut app = App::new(None);

    // Sit well down the list, inside www/zzz
    app.selected = Some(row_of_option(&graph, "www/zzz", "GAMMA"));

    app.on_key(key(KeyCode::Char('/')), &mut graph);
    for c in "aaa".chars() {
        app.on_key(key(KeyCode::Char(c)), &mut graph);
    }

    assert_eq!(graph.listed_port_count(), 1, "only www/aaa matches");
    let selected = app.selected.unwrap();
    assert!(
        selected < graph.visible_rows.len(),
        "cursor left outside the list"
    );
    assert_eq!(
        under_cursor(&graph, &app),
        "port www/aaa",
        "should be at the top of the results"
    );
}

/// While the port under the cursor still matches, the cursor stays on it.
#[test]
fn the_cursor_stays_put_while_its_port_still_matches() {
    let mut graph = spot_graph();
    let mut app = App::new(None);

    app.selected = Some(row_of_option(&graph, "www/zzz", "BETA"));
    app.on_key(key(KeyCode::Char('/')), &mut graph);
    for c in "zzz".chars() {
        app.on_key(key(KeyCode::Char(c)), &mut graph);
    }

    assert_eq!(
        under_cursor(&graph, &app),
        "option BETA",
        "www/zzz still matches, so nothing should have moved"
    );
}

/// A query matching nothing must not leave the cursor pointing past the end.
#[test]
fn a_search_matching_nothing_is_survivable() {
    let mut graph = spot_graph();
    let mut app = App::new(None);
    app.selected = Some(row_of_option(&graph, "www/zzz", "GAMMA"));

    app.on_key(key(KeyCode::Char('/')), &mut graph);
    for c in "no-such-port".chars() {
        app.on_key(key(KeyCode::Char(c)), &mut graph);
    }
    assert!(graph.visible_rows.is_empty());

    // Rubbing the query out brings the list back without a panic
    for _ in 0..12 {
        app.on_key(key(KeyCode::Backspace), &mut graph);
    }
    assert_eq!(graph.listed_port_count(), 2);
    assert!(app.selected.unwrap() < graph.visible_rows.len());
}

/// Esc clears the filter and puts the cursor back on the port it was in.
#[test]
fn escaping_search_restores_the_list_and_the_cursor() {
    let mut graph = spot_graph();
    let mut app = App::new(None);

    app.selected = Some(row_of_option(&graph, "www/zzz", "BETA"));
    app.on_key(key(KeyCode::Char('/')), &mut graph);
    for c in "zzz".chars() {
        app.on_key(key(KeyCode::Char(c)), &mut graph);
    }
    app.on_key(key(KeyCode::Esc), &mut graph);

    assert_eq!(app.input_mode, InputMode::Normal);
    assert!(graph.search_query.is_empty());
    assert_eq!(graph.listed_port_count(), 2);
    assert_eq!(under_cursor(&graph, &app), "option BETA");
}

/// The results are browsable while the bar is still open — the point being
/// that a query need not be committed to before looking at what it found.
#[test]
fn the_list_can_be_walked_while_the_query_is_still_being_typed() {
    let mut graph = spot_graph();
    let mut app = App::new(None);

    app.on_key(key(KeyCode::Char('/')), &mut graph);
    for c in "zzz".chars() {
        app.on_key(key(KeyCode::Char(c)), &mut graph);
    }
    assert_eq!(under_cursor(&graph, &app), "port www/zzz");
    assert_eq!(app.input_mode, InputMode::Search, "still typing");

    app.on_key(key(KeyCode::Down), &mut graph);
    assert_eq!(under_cursor(&graph, &app), "option ALPHA");
    app.on_key(key(KeyCode::Down), &mut graph);
    assert_eq!(under_cursor(&graph, &app), "option BETA");
    app.on_key(key(KeyCode::Up), &mut graph);
    assert_eq!(under_cursor(&graph, &app), "option ALPHA");
}

/// Moving is not typing: the arrows must not reach the field, or browsing
/// the results would rewrite the query that produced them.
#[test]
fn walking_the_results_leaves_the_query_and_the_caret_alone() {
    let mut graph = spot_graph();
    let mut app = App::new(None);

    app.on_key(key(KeyCode::Char('/')), &mut graph);
    for c in "zzz".chars() {
        app.on_key(key(KeyCode::Char(c)), &mut graph);
    }
    let caret = app.text_cursor;

    for code in [
        KeyCode::Down,
        KeyCode::Up,
        KeyCode::PageDown,
        KeyCode::PageUp,
    ] {
        app.on_key(key(code), &mut graph);
    }

    assert_eq!(graph.search_query, "zzz");
    assert_eq!(app.text_cursor, caret);
    assert_eq!(app.input_mode, InputMode::Search);
}

/// Clamping follows the *filtered* list, so holding Down cannot walk off the
/// last match into rows the filter is hiding.
#[test]
fn walking_off_the_end_of_the_results_stops_at_the_last_one() {
    let mut graph = spot_graph();
    let mut app = App::new(None);

    app.on_key(key(KeyCode::Char('/')), &mut graph);
    for c in "aaa".chars() {
        app.on_key(key(KeyCode::Char(c)), &mut graph);
    }
    let last = graph.visible_rows.len() - 1;

    for _ in 0..40 {
        app.on_key(key(KeyCode::Down), &mut graph);
    }
    assert_eq!(app.selected, Some(last));
    assert_eq!(
        graph.listed_port_count(),
        1,
        "www/zzz is still hidden, so there was nowhere further to go"
    );

    for _ in 0..40 {
        app.on_key(key(KeyCode::Up), &mut graph);
    }
    assert_eq!(app.selected, Some(0));
}

/// Where you browsed to is where you are left when the filter locks.
#[test]
fn a_row_walked_to_while_typing_survives_enter() {
    let mut graph = spot_graph();
    let mut app = App::new(None);

    app.on_key(key(KeyCode::Char('/')), &mut graph);
    for c in "zzz".chars() {
        app.on_key(key(KeyCode::Char(c)), &mut graph);
    }
    app.on_key(key(KeyCode::Down), &mut graph);
    app.on_key(key(KeyCode::Down), &mut graph);
    assert_eq!(under_cursor(&graph, &app), "option BETA");

    app.on_key(key(KeyCode::Enter), &mut graph);
    assert_eq!(app.input_mode, InputMode::Normal);
    assert_eq!(under_cursor(&graph, &app), "option BETA");
}

/// Typing after browsing re-anchors on the row browsed to, rather than
/// throwing the cursor back to the top of a still-matching port.
#[test]
fn typing_on_after_browsing_keeps_the_row_it_landed_on() {
    let mut graph = spot_graph();
    let mut app = App::new(None);

    app.on_key(key(KeyCode::Char('/')), &mut graph);
    for c in "zz".chars() {
        app.on_key(key(KeyCode::Char(c)), &mut graph);
    }
    app.on_key(key(KeyCode::Down), &mut graph);
    app.on_key(key(KeyCode::Down), &mut graph);
    assert_eq!(under_cursor(&graph, &app), "option BETA");

    // www/zzz still matches the longer query
    app.on_key(key(KeyCode::Char('z')), &mut graph);
    assert_eq!(graph.search_query, "zzz");
    assert_eq!(under_cursor(&graph, &app), "option BETA");
}

/// A locked filter leaves the list narrowed with the search bar gone, so the
/// header has to keep saying why.
#[test]
fn the_header_reports_an_active_filter() {
    let mut graph = spot_graph();
    let mut app = App::new(None);

    app.on_key(key(KeyCode::Char('/')), &mut graph);
    for c in "aaa".chars() {
        app.on_key(key(KeyCode::Char(c)), &mut graph);
    }
    app.on_key(key(KeyCode::Enter), &mut graph);
    assert_eq!(app.input_mode, InputMode::Normal, "filter is locked");

    let out = screen(&graph, &app);
    assert!(
        out.contains("1 of 2 ports matching"),
        "the header must show the filter is on:\n{out}"
    );
}

/// A control chord still must not type itself into a buffer.
#[test]
fn other_control_chords_do_not_reach_the_buffer() {
    let mut graph = test_graph();
    let mut app = App::new(None);
    app.on_key(ctrl('g'), &mut graph);
    app.on_key(key(KeyCode::Enter), &mut graph);

    for c in "php".chars() {
        app.on_key(key(KeyCode::Char(c)), &mut graph);
    }
    app.on_key(ctrl('a'), &mut graph);
    app.on_key(ctrl('s'), &mut graph);

    assert_eq!(app.text_buffer, "php");
}

// -------------------------------------------------------------- autosave

/// What a save asked for would leave in the file.
fn saved_text(app: &mut App, graph: &DependencyGraph, outcome: KeyOutcome) -> String {
    let KeyOutcome::SaveGroups(request) = outcome else {
        panic!("should have been saved");
    };
    let written = save_groups(&request.path, &Existing::Missing, &graph.groups).unwrap();
    app.on_groups_saved(request, Ok(()));
    written
}

/// With a config file known, joining a group writes it out there and then;
/// no separate trip through the manager.
#[test]
fn adding_to_a_group_saves_when_a_config_is_known() {
    let mut graph = test_graph();
    let mut app = App::new(Some("/tmp/bgone.toml".to_string()));

    app.on_key(ctrl('g'), &mut graph);
    app.on_key(key(KeyCode::Enter), &mut graph); // <new group...>
    for c in "php".chars() {
        app.on_key(key(KeyCode::Char(c)), &mut graph);
    }
    let outcome = app.on_key(key(KeyCode::Enter), &mut graph);

    let written = saved_text(&mut app, &graph, outcome);
    assert!(written.contains("lang/php83-extensions"), "got: {written}");
    assert!(app.status_msg.contains("saved"), "{}", app.status_msg);
}

/// Removing has to save too. If adding persisted and removing did not, a
/// delete followed by a quit would leave the member in the file.
#[test]
fn removing_from_a_group_saves_as_well() {
    let mut graph = test_graph();
    put_group(&mut graph, "php", &["lang/php83-extensions", "lang/php84-extensions"]);
    let mut app = App::new(Some("/tmp/bgone.toml".to_string()));
    app.on_key(ctrl('g'), &mut graph);
    app.on_key(ctrl('g'), &mut graph);
    assert_eq!(app.input_mode, InputMode::GroupManage);

    app.on_key(key(KeyCode::Down), &mut graph);
    let outcome = app.on_key(key(KeyCode::Char('d')), &mut graph);

    let written = saved_text(&mut app, &graph, outcome);
    assert!(
        !written.contains("php83"),
        "the removal must reach the file: {written}"
    );
    assert!(written.contains("php84"));
}

/// Without a config file there is nowhere to write, and stopping to demand
/// a path mid-edit would be worse than saying so.
#[test]
fn adding_without_a_config_says_it_is_unsaved_rather_than_prompting() {
    let mut graph = test_graph();
    let mut app = App::new(None);

    app.on_key(ctrl('g'), &mut graph);
    app.on_key(key(KeyCode::Enter), &mut graph);
    for c in "php".chars() {
        app.on_key(key(KeyCode::Char(c)), &mut graph);
    }
    app.on_key(key(KeyCode::Enter), &mut graph);

    assert_eq!(app.input_mode, InputMode::Normal, "must not interrupt");
    assert_eq!(members(&graph, "php"), vec!["lang/php83-extensions"]);
    assert!(app.status_msg.contains("unsaved"), "{}", app.status_msg);
}

/// A group with no name would be unusable and unremovable from the manager.
#[test]
fn a_blank_group_name_is_refused() {
    let mut graph = test_graph();
    let mut app = App::new(None);
    app.on_key(ctrl('g'), &mut graph);
    app.on_key(key(KeyCode::Enter), &mut graph);

    for c in "   ".chars() {
        app.on_key(key(KeyCode::Char(c)), &mut graph);
    }
    app.on_key(key(KeyCode::Enter), &mut graph);

    assert_eq!(app.input_mode, InputMode::GroupNewName, "still asking");
    assert!(graph.groups.is_empty(), "no group was created");
}

// ---------------------------------------------------------------- manage

fn app_in_manager(graph: &mut DependencyGraph) -> App {
    let mut app = App::new(None);
    app.on_key(ctrl('g'), graph);
    app.on_key(ctrl('g'), graph);
    assert_eq!(app.input_mode, InputMode::GroupManage);
    app
}

#[test]
fn manage_deletes_a_member_and_then_the_empty_group() {
    let mut graph = test_graph();
    put_group(&mut graph, "php", &["lang/php83-extensions", "lang/php84-extensions"]);
    let mut app = app_in_manager(&mut graph);

    // rows: [group php] [php83] [php84]
    app.on_key(key(KeyCode::Down), &mut graph);
    app.on_key(key(KeyCode::Char('d')), &mut graph);
    assert_eq!(members(&graph, "php"), vec!["lang/php84-extensions"]);

    // Removing the last member takes the group with it
    app.on_key(key(KeyCode::Down), &mut graph);
    app.on_key(key(KeyCode::Char('d')), &mut graph);
    assert!(
        graph.groups.is_empty(),
        "an empty group should not linger: {:?}",
        graph.groups
    );
}

#[test]
fn manage_deletes_a_whole_group_from_its_header() {
    let mut graph = test_graph();
    put_group(&mut graph, "php", &["lang/php83-extensions"]);
    put_group(&mut graph, "ssl", &["security/x"]);
    let mut app = app_in_manager(&mut graph);

    app.on_key(key(KeyCode::Char('d')), &mut graph);

    assert!(!has_group(&graph, "php"));
    assert!(has_group(&graph, "ssl"), "only one group goes");
}

#[test]
fn manage_cursor_is_clamped_and_closes_on_esc() {
    let mut graph = test_graph();
    put_group(&mut graph, "php", &["lang/php83-extensions"]);
    let mut app = app_in_manager(&mut graph);

    for _ in 0..9 {
        app.on_key(key(KeyCode::Down), &mut graph);
    }
    assert_eq!(app.group_cursor, 1, "one header plus one member");

    app.on_key(key(KeyCode::Esc), &mut graph);
    assert_eq!(app.input_mode, InputMode::Normal);
}

// ----------------------------------------------------------- config path

#[test]
fn saving_without_a_config_asks_for_one_then_remembers_it() {
    let mut graph = test_graph();
    put_group(&mut graph, "php", &["lang/php83-extensions"]);
    let mut app = app_in_manager(&mut graph);

    app.on_key(key(KeyCode::Char('s')), &mut graph);
    assert_eq!(app.input_mode, InputMode::ConfigPath, "must ask where");

    for c in "/tmp/groups.toml".chars() {
        app.on_key(key(KeyCode::Char(c)), &mut graph);
    }
    let outcome = app.on_key(key(KeyCode::Enter), &mut graph);
    let written = saved_text(&mut app, &graph, outcome);

    assert_eq!(app.input_mode, InputMode::GroupManage);
    assert!(written.contains("php"), "got: {written}");

    // A second save goes straight there without asking again
    assert_eq!(app.config_path.as_deref(), Some("/tmp/groups.toml"));
    let outcome = app.on_key(key(KeyCode::Char('s')), &mut graph);
    saved_text(&mut app, &graph, outcome);
    assert_eq!(app.input_mode, InputMode::GroupManage);
    assert!(app.status_msg.contains("Saved"), "{}", app.status_msg);
}

#[test]
fn escaping_the_path_prompt_writes_nothing() {
    let mut graph = test_graph();
    put_group(&mut graph, "php", &["lang/php83-extensions"]);
    let mut app = app_in_manager(&mut graph);

    app.on_key(key(KeyCode::Char('s')), &mut graph);
    app.on_key(key(KeyCode::Char('x')), &mut graph);
    app.on_key(key(KeyCode::Esc), &mut graph);

    assert_eq!(app.input_mode, InputMode::GroupManage);
    assert!(app.config_path.is_none(), "nothing was chosen");
}

// ------------------------------------------------------------ normal mode

/// Space sets what it is on.
#[test]
fn space_toggles_the_option_under_the_cursor() {
    let mut graph = test_graph();
    let mut app = App::new(None);
    app.selected = Some(first_option_row(&graph));

    assert!(!graph.is_dirty());
    app.on_key(key(KeyCode::Char(' ')), &mut graph);
    assert!(graph.is_dirty(), "Space should have toggled an option");
}

/// Quitting always asks, whether or not anything has changed — Esc and
/// Ctrl+C are pressed by reflex, and one press must not end the session.
#[test]
fn quitting_always_asks_first() {
    let mut graph = test_graph();
    let mut app = App::new(None);

    assert!(!graph.is_dirty());
    assert_eq!(
        app.on_key(key(KeyCode::Char('q')), &mut graph),
        KeyOutcome::Continue
    );
    assert_eq!(app.input_mode, InputMode::ConfirmQuit);

    // Cancel, change something, and ask again
    app.on_key(key(KeyCode::Char('c')), &mut graph);
    assert_eq!(app.input_mode, InputMode::Normal);

    app.selected = Some(first_option_row(&graph));
    app.on_key(key(KeyCode::Char(' ')), &mut graph);
    assert!(graph.is_dirty());
    assert_eq!(
        app.on_key(key(KeyCode::Char('q')), &mut graph),
        KeyOutcome::Continue
    );
    assert_eq!(app.input_mode, InputMode::ConfirmQuit);

    assert_eq!(
        app.on_key(key(KeyCode::Char('d')), &mut graph),
        KeyOutcome::Finish(TuiAction::QuitWithoutSaving)
    );
}

/// The three ways out, each reachable both by its letter and by walking the
/// buttons to it.
#[test]
fn the_leaving_box_offers_save_discard_and_cancel() {
    let mut graph = test_graph();

    let mut ask = |k: Key| {
        let mut app = App::new(None);
        app.on_key(key(KeyCode::Esc), &mut graph);
        assert_eq!(app.input_mode, InputMode::ConfirmQuit);
        let outcome = app.on_key(k, &mut graph);
        (app.input_mode, outcome)
    };

    assert_eq!(
        ask(key(KeyCode::Char('s'))).1,
        KeyOutcome::Finish(TuiAction::SaveAndQuit)
    );
    assert_eq!(
        ask(key(KeyCode::Char('d'))).1,
        KeyOutcome::Finish(TuiAction::QuitWithoutSaving)
    );
    assert_eq!(ask(key(KeyCode::Char('c'))).0, InputMode::Normal);

    // The box opens on "Save and exit", so Enter saves...
    assert_eq!(
        ask(key(KeyCode::Enter)).1,
        KeyOutcome::Finish(TuiAction::SaveAndQuit)
    );

    // ...and one step right of it discards
    let mut app = App::new(None);
    app.on_key(key(KeyCode::Esc), &mut graph);
    app.on_key(key(KeyCode::Right), &mut graph);
    assert_eq!(app.confirm_choice, ConfirmChoice::Discard);
    assert_eq!(
        app.on_key(key(KeyCode::Enter), &mut graph),
        KeyOutcome::Finish(TuiAction::QuitWithoutSaving)
    );
}

/// Asked twice and answered the same way: the second Esc — or Ctrl+C — is
/// taken as the answer rather than waiting to be pointed at a button.
#[test]
fn a_second_escape_discards() {
    for quit in [key(KeyCode::Esc), ctrl('c')] {
        let mut graph = test_graph();
        let mut app = App::new(None);
        app.selected = Some(first_option_row(&graph));
        app.on_key(key(KeyCode::Char(' ')), &mut graph);

        assert_eq!(app.on_key(quit, &mut graph), KeyOutcome::Continue);
        assert_eq!(app.input_mode, InputMode::ConfirmQuit);
        assert_eq!(
            app.on_key(quit, &mut graph),
            KeyOutcome::Finish(TuiAction::QuitWithoutSaving),
            "a second {quit:?} must not need a button pressed"
        );
    }
}

/// Ctrl+S writes without leaving, so a long session is not all riding on
/// getting out cleanly at the end.
#[test]
fn ctrl_s_saves_in_place_and_stays() {
    let mut graph = test_graph();
    let mut app = App::new(None);

    assert_eq!(app.on_key(ctrl('s'), &mut graph), KeyOutcome::SaveInPlace);
    let anchor = graph.anchor_at(app.selected.unwrap_or(0));
    app.perform_save(
        &graph,
        anchor,
        None,
        Some(Ok(String::from("Saved 3 options across 2 files"))),
    );
    assert_eq!(app.input_mode, InputMode::Normal);
    assert_eq!(
        app.important_msg.as_deref(),
        Some("Saved 3 options across 2 files"),
        "the result must go where the header cannot hide it"
    );

    // Plain `s` asks first, with < Save and exit > preselected, so
    // ending the session is never one unguarded letter; Enter confirms.
    assert_eq!(
        app.on_key(key(KeyCode::Char('s')), &mut graph),
        KeyOutcome::Continue
    );
    assert_eq!(app.input_mode, InputMode::ConfirmQuit);
    assert_eq!(app.confirm_choice, ConfirmChoice::Save);
    assert_eq!(
        app.on_key(key(KeyCode::Enter), &mut graph),
        KeyOutcome::Finish(TuiAction::SaveAndQuit)
    );
}

/// `o` matches `s`: the confirmation opens on < Save and exit >.
#[test]
fn bare_o_asks_before_saving_and_exiting() {
    let mut graph = test_graph();
    let mut app = App::new(None);

    assert_eq!(
        app.on_key(key(KeyCode::Char('o')), &mut graph),
        KeyOutcome::Continue
    );
    assert_eq!(app.input_mode, InputMode::ConfirmQuit);
    assert_eq!(app.confirm_choice, ConfirmChoice::Save);
}

// ------------------------------------------------------------------ paste

/// Pasting where there is no field must do nothing.
#[test]
fn pasting_outside_a_field_is_ignored() {
    let mut graph = test_graph();
    let mut app = App::new(None);

    app.on_paste("notes with an s and a q in them", &mut graph);
    assert_eq!(app.input_mode, InputMode::Normal);
}

/// A paste into the search bar types its first line — a pasted newline
/// must not act as Enter — with control characters dropped, and the
/// filter narrows exactly as if it had been typed.
#[test]
fn pasting_into_search_types_the_first_line() {
    let mut graph = test_graph();
    let mut app = App::new(None);
    app.on_key(key(KeyCode::Char('/')), &mut graph);
    assert_eq!(app.input_mode, InputMode::Search);

    app.on_paste("php83\nsecond line", &mut graph);
    assert_eq!(graph.search_query, "php83");
    assert_eq!(app.input_mode, InputMode::Search, "no Enter smuggled in");
    assert!(
        !listed_test_rows(&graph).iter().any(|o| o.contains("php84")),
        "the filter must have narrowed"
    );
}

/// The prompt fields take a paste through the same editing seam as typing.
#[test]
fn pasting_into_a_prompt_fills_the_buffer() {
    let mut graph = test_graph();
    let mut app = App::new(None);
    app.input_mode = InputMode::GroupNewName;

    app.on_paste("php\tset", &mut graph);
    assert_eq!(app.text_buffer, "phpset", "control characters are dropped");
}

/// Origins of the ports visible in the current row list.
fn listed_test_rows(graph: &DependencyGraph) -> Vec<String> {
    graph
        .visible_rows
        .iter()
        .filter_map(|r| match &r.kind {
            RowKind::Port { origin, .. } => Some(origin.clone()),
            _ => None,
        })
        .collect()
}

/// A failing write is reported rather than swallowed or fatal.
#[test]
fn a_failed_save_says_so_and_carries_on() {
    let mut graph = test_graph();
    let mut app = App::new(None);

    assert_eq!(app.on_key(ctrl('s'), &mut graph), KeyOutcome::SaveInPlace);
    let anchor = graph.anchor_at(app.selected.unwrap_or(0));
    app.perform_save(
        &graph,
        anchor,
        None,
        Some(Err(String::from("read-only file system"))),
    );
    assert!(
        app.important_msg
            .as_deref()
            .unwrap_or("")
            .contains("read-only file system"),
        "message said {:?}",
        app.important_msg
    );
}

/// The save result has to be readable even while questions are still out.
#[test]
fn the_save_message_shows_even_while_resolving() {
    // A short origin keeps the header's target brief: the 90-column frame
    // truncates from the right, and what matters here is precedence, not
    // packing.
    let graph = built(vec![fixture_port("www/a")], &["www/a"]);
    let mut app = App::new(None);
    app.outstanding = 2;
    app.important_msg = Some(String::from("Saved 3 options across 2 files"));

    let out = screen(&graph, &app);
    assert!(
        out.contains("Saved 3 options across 2 files"),
        "got:\n{out}"
    );
    assert!(out.contains("resolving 2 port(s)"), "got:\n{out}");
}

/// A dead worker zeroes the outstanding count, and the header says the
/// resolver stopped.
#[test]
fn a_dead_resolver_unpins_the_header() {
    let graph = test_graph();
    let mut app = App::new(None);
    app.outstanding = 3;
    app.pending.push(question("www/gone", Options::AsShipped));

    app.mark_resolver_dead();
    assert_eq!(app.outstanding, 0, "nothing will ever answer these");
    assert!(app.pending.is_empty(), "there is nothing left to ask");

    let out = screen(&graph, &app);
    assert!(out.contains("[resolver stopped]"), "got:\n{out}");
}

/// Being in a group changes what a keystroke does — Space here also moves
/// every other member — so it has to be visible on the row itself.
#[test]
fn a_grouped_port_is_labelled_on_its_row() {
    let mut graph = test_graph();
    put_group(&mut graph, "php", &["lang/php83-extensions"]);

    let mut app = App::new(None);
    let screen = screen(&graph, &app);

    assert!(
        screen.contains("lang/php83-extensions  [php]"),
        "a member must say which group it is in:\n{screen}"
    );
    assert!(
        !screen.contains("lang/php84-extensions  [php]"),
        "a port that is not in the group must not be labelled:\n{screen}"
    );
}

/// Shift + H takes the ports with nothing to decide out of the way, and
/// leaves the cursor on what it was reading.
#[test]
fn shift_h_hides_the_ports_with_no_options() {
    let mut app_port = fixture_port("www/app");
    fixture_option(&mut app_port, "SSL", false, "DEFINE", "");
    fixture_edge(&mut app_port, "devel/leaf", None);

    let mut graph = built(vec![app_port, fixture_port("devel/leaf")], &["www/app"]);

    let mut app = App::new(None);
    app.selected = Some(row_of_port(&graph, "www/app"));

    let shift_h = Key { code: KeyCode::Char('H'), ctrl: false, shift: true };

    app.on_key(shift_h, &mut graph);
    assert!(graph.hide_optionless);
    assert!(
        port_row_index(&graph, "devel/leaf").is_none(),
        "the leaf has nothing to decide and should be out of the way"
    );
    assert!(port_row_index(&graph, "www/app").is_some());
    assert_eq!(
        under_cursor(&graph, &app),
        "port www/app",
        "hiding must not lose the row being read"
    );

    app.on_key(shift_h, &mut graph);
    assert!(!graph.hide_optionless);
    assert!(port_row_index(&graph, "devel/leaf").is_some());
}

/// A list taller than its window scrolls with the cursor.
#[test]
fn the_window_follows_the_cursor_off_the_bottom() {
    // Everything fits: no scrolling, ever
    assert_eq!(scroll_window(3, 0, 10), 0);
    assert_eq!(scroll_window(3, 2, 10), 0);

    // It only moves once the cursor would leave the window...
    assert_eq!(scroll_window(20, 0, 5), 0);
    assert_eq!(scroll_window(20, 4, 5), 0);
    assert_eq!(scroll_window(20, 5, 5), 1);

    // ...and stops at the end rather than scrolling past it
    assert_eq!(scroll_window(20, 19, 5), 15);
    assert_eq!(scroll_window(20, 100, 5), 15);
}

/// The window is exactly as tall as the room it was given: a marker drawn
/// over an edge row would hide the entry just moved onto.
#[test]
fn a_scrolled_dialog_says_where_in_the_list_it_is() {
    let lines = |n: usize| -> Vec<Line> {
        (0..n).map(|i| Line::of(format!("row {i}"), plain())).collect()
    };

    let (shown, note) = windowed_lines(lines(20), 12, 5);
    assert_eq!(shown.len(), 5);
    assert_eq!(note.as_deref(), Some("  showing 9-13 of 20"));

    let (shown, note) = windowed_lines(lines(3), 0, 5);
    assert_eq!(shown.len(), 3);
    assert_eq!(note, None, "nothing to say when it all fits");
}

/// A dialog with more groups than rows still draws the one under the
/// cursor, wherever in the list it is.
#[test]
fn the_group_dialog_draws_the_row_the_cursor_is_on() {
    let names: Vec<String> = (0..40).map(|i| format!("group{i:02}")).collect();
    let groups: Vec<Group> = names
        .iter()
        .map(|n| Group { name: n.clone(), members: vec!["www/app".to_string()] })
        .collect();

    let screen = shown(&group_assign("www/app", &groups, 39, SCREEN));
    assert!(
        screen.contains("group39"),
        "the row under the cursor was never drawn:\n{screen}"
    );
    assert!(screen.contains("showing "), "and it must say where it is");
}

/// Keeping the row still is only half of it. A change *above* the cursor
/// renumbers it, and the list widget then scrolls by exactly enough to
/// bring the new number into view — parking the row against the bottom
/// edge, several screens from where the eye already was.
#[test]
fn the_row_stays_where_it_is_on_the_screen() {
    // Every one of these sorts before www/zzz, so opening them renumbers it
    let mut ports = Vec::new();
    let origins: Vec<String> = (0..6).map(|i| format!("www/a{i}")).collect();
    for origin in &origins {
        let mut p = fixture_port(origin);
        for opt in ["ONE", "TWO", "THREE"] {
            fixture_option(&mut p, opt, false, "DEFINE", "");
        }
        ports.push(p);
    }
    let mut zzz = fixture_port("www/zzz");
    fixture_option(&mut zzz, "ZED", false, "DEFINE", "");
    ports.push(zzz);

    let mut targets: Vec<&str> = origins.iter().map(|s| s.as_str()).collect();
    targets.push("www/zzz");
    let mut graph = built(ports, &targets);
    graph.collapse_all();

    let mut app = App::new(None);
    app.viewport_height = 10;
    // Reading www/zzz, five rows down the screen
    let zzz = row_of_port(&graph, "www/zzz");
    app.selected = Some(zzz);
    app.offset = zzz.saturating_sub(5);
    assert_eq!(
        app.selected.unwrap() - app.offset,
        5
    );

    // Open everything: www/aaa gains six option rows above the cursor
    app.on_key(key(KeyCode::Char('+')), &mut graph);
    app.on_key(key(KeyCode::Char('+')), &mut graph);

    assert_eq!(
        under_cursor(&graph, &app),
        "port www/zzz",
        "the cursor must still be on the port it was reading"
    );
    let moved = row_of_port(&graph, "www/zzz");
    assert!(moved > zzz, "the row number must have moved");
    assert_eq!(
        app.selected.unwrap() - app.offset,
        5,
        "and it must still be five rows down the screen"
    );
}

/// Ctrl+R is reported rather than performed, so the dispatch stays free of
/// the terminal.
#[test]
fn ctrl_r_asks_for_a_repaint_instead_of_doing_one() {
    let mut graph = test_graph();
    let mut app = App::new(None);
    assert_eq!(app.on_key(ctrl('r'), &mut graph), KeyOutcome::Redraw);
}

/// A graph with a real dependency edge, so there is a relationship row to
/// follow.
fn linked_graph() -> DependencyGraph {
    let mut app_port = fixture_port("www/app");
    fixture_option(&mut app_port, "DOCS", true, "DEFINE", "");
    fixture_edge(&mut app_port, "devel/lib", None);
    let mut lib = fixture_port("devel/lib");
    fixture_option(&mut lib, "DOCS", true, "DEFINE", "");
    built(vec![app_port, lib], &["www/app"])
}

#[test]
fn enter_follows_a_relationship_and_backspace_retraces() {
    let mut graph = linked_graph();
    let mut app = App::new(None);

    let requires_entry = graph
        .visible_rows
        .iter()
        .position(|r| matches!(&r.kind, RowKind::RequiresEntry { .. }))
        .expect("www/app requires devel/lib");
    app.selected = Some(requires_entry);

    assert_eq!(
        app.on_key(key(KeyCode::Enter), &mut graph),
        KeyOutcome::Continue,
        "Enter on a relationship row follows it rather than pressing OK"
    );
    let landed = app.selected.unwrap();
    assert!(
        matches!(&graph.visible_rows[landed].kind,
                 RowKind::Port { origin, .. } if origin == "devel/lib"),
        "should have jumped to devel/lib"
    );

    app.on_key(key(KeyCode::Backspace), &mut graph);
    let back = app.selected.unwrap();
    assert!(
        matches!(&graph.visible_rows[back].kind,
                 RowKind::Port { origin, .. } if origin == "www/app"),
        "Backspace should retrace to where the jump started"
    );
}

/// Enter anywhere else presses OK.
#[test]
fn enter_off_a_relationship_row_still_presses_ok() {
    let mut graph = test_graph();
    let mut app = App::new(None);
    assert_eq!(
        app.on_key(key(KeyCode::Enter), &mut graph),
        KeyOutcome::Finish(TuiAction::SaveAndQuit)
    );
}

fn groups_of(pairs: &[(&str, &[&str])]) -> Vec<Group> {
    pairs
        .iter()
        .map(|(n, m)| Group { name: n.to_string(), members: texts(m) })
        .collect()
}

const SCREEN: Area = Area { x: 0, y: 0, width: 90, height: 24 };

fn text_of(line: &Line) -> String {
    line.spans.iter().map(|s| s.text.as_str()).collect()
}

/// A dialog as text.
fn shown(modal: &Modal) -> String {
    let lines: Vec<String> = modal.lines.iter().map(text_of).collect();
    format!("{}\n{}", modal.title, lines.join("\n"))
}

/// A frame as text.
fn screen(graph: &DependencyGraph, app: &App) -> String {
    let mut lines = vec![text_of(&header_line(graph, app, 90))];
    lines.extend(graph.visible_rows.iter().map(|r| text_of(&row_line(graph, r))));
    lines.extend(footer_lines(app, graph).iter().map(text_of));
    lines.push(text_of(&button_row(app.focus)));
    if let Some(modal) = modal_of(app, graph, SCREEN) {
        lines.push(shown(&modal));
    }
    lines.join("\n")
}

#[test]
fn manage_rows_lists_each_group_then_its_members() {
    let groups = groups_of(&[("a", &["www/one", "www/two"]), ("b", &["www/three"])]);
    let rows = manage_rows(&groups);

    let described: Vec<String> = rows
        .iter()
        .map(|r| match r {
            ManageRow::Group(name) => format!("group {name}"),
            ManageRow::Member { group, origin } => format!("  {group}/{origin}"),
        })
        .collect();

    assert_eq!(
        described,
        vec![
            "group a",
            "  a/www/one",
            "  a/www/two",
            "group b",
            "  b/www/three",
        ]
    );
}

#[test]
fn assign_dialog_offers_every_group_and_a_new_one() {
    let groups = groups_of(&[("php-extensions", &["lang/php83-extensions"])]);
    let out = shown(&group_assign("lang/php84-extensions", &groups, 0, SCREEN));

    assert!(out.contains("Add to group"));
    assert!(out.contains("lang/php84-extensions"));
    assert!(out.contains("php-extensions"));
    assert!(out.contains("<new group...>"));
}

/// A port already in the group is still shown, marked, rather than silently
/// missing from the list.
#[test]
fn assign_dialog_marks_a_group_the_port_already_belongs_to() {
    let groups = groups_of(&[("php-extensions", &["lang/php83-extensions"])]);
    let out = shown(&group_assign("lang/php83-extensions", &groups, 0, SCREEN));
    assert!(out.contains("already a member"), "got:\n{out}");
}

#[test]
fn manage_dialog_shows_members_and_where_a_save_would_go() {
    let mut graph = test_graph();
    put_group(&mut graph, "php-extensions", &["lang/php83-extensions"]);

    let unsaved = shown(&group_manage(&graph, 0, &None, SCREEN));
    assert!(unsaved.contains("lang/php83-extensions"));
    assert!(
        unsaved.contains("no config file yet"),
        "the manager must say a save will ask for a path:\n{unsaved}"
    );

    let saved = shown(&group_manage(&graph, 0, &Some("/etc/bgone.toml".to_string()), SCREEN));
    assert!(saved.contains("/etc/bgone.toml"), "got:\n{saved}");
}

#[test]
fn manage_dialog_says_so_when_there_are_no_groups() {
    let graph = test_graph();
    let out = shown(&group_manage(&graph, 0, &None, SCREEN));
    assert!(out.contains("No groups yet"), "got:\n{out}");
}

/// The caret has to be visible, or moving it is guesswork.
#[test]
fn the_prompt_marks_where_the_caret_is() {
    // Caret in the middle: the character it sits on is picked out
    let out = shown(&prompt("New group", "Name:", "abcdef", 3, SCREEN));
    assert!(out.contains("abcdef"), "got:\n{out}");

    // Caret past the end still renders, on a blank cell
    let out = shown(&prompt("New group", "Name:", "abc", 3, SCREEN));
    assert!(out.contains("abc"), "got:\n{out}");

    // ...and an empty field is fine
    let out = shown(&prompt("New group", "Name:", "", 0, SCREEN));
    assert!(out.contains("Name:"), "got:\n{out}");
}

#[test]
fn prompt_shows_the_question_and_what_has_been_typed() {
    let out = shown(&prompt("New group", "Name a group:", "php-ext", 7, SCREEN));
    assert!(out.contains("New group"));
    assert!(out.contains("Name a group:"));
    assert!(out.contains("php-ext"));
}

// ------------------------------------------------------- sequence fuzzing
//
// Seeded random key and paste sequences over the whole vocabulary, interleaved
// with answers, stale ones included, and with a resolver that dies. The seed
// prints in every failure.

struct FuzzRng(u32);

impl FuzzRng {
    fn next(&mut self) -> u32 {
        let mut x = self.0;
        x ^= x << 13;
        x ^= x >> 17;
        x ^= x << 5;
        self.0 = x;
        x
    }

    fn below(&mut self, n: usize) -> usize {
        (self.next() as usize) % n.max(1)
    }
}

/// Ports with a SINGLE group, an implication, a shared dependency and an
/// option-conditional edge — enough structure for cascades, jumps and
/// arrivals to mean something.
fn fuzz_graph() -> DependencyGraph {
    let mut a = fixture_port("www/alpha");
    fixture_option(&mut a, "MYSQL", true, "SINGLE", "BACKEND");
    fixture_option(&mut a, "PGSQL", false, "SINGLE", "BACKEND");
    fixture_option(&mut a, "NJS", false, "DEFINE", "");
    fixture_option(&mut a, "STREAM", false, "DEFINE", "");
    a.options[2].implies = vec!["STREAM".to_string()];
    fixture_edge(&mut a, "devel/shared", Some("NJS"));
    let mut b = fixture_port("databases/beta");
    fixture_option(&mut b, "DOCS", true, "DEFINE", "");
    fixture_edge(&mut b, "devel/shared", None);
    let s = fixture_port("devel/shared");
    built(vec![a, b, s], &["www/alpha", "databases/beta"])
}

fn fuzz_app() -> App {
    App::new(Some(String::from("/tmp/bgone.toml")))
}

fn fuzz_event(r: &mut FuzzRng) -> Key {
    let plain = [
        KeyCode::Char(' '),
        KeyCode::Enter,
        KeyCode::Tab,
        KeyCode::BackTab,
        KeyCode::Esc,
        KeyCode::Up,
        KeyCode::Down,
        KeyCode::PageUp,
        KeyCode::PageDown,
        KeyCode::Home,
        KeyCode::End,
        KeyCode::Backspace,
        KeyCode::Delete,
        KeyCode::Char('q'),
        KeyCode::Char('c'),
        KeyCode::Char('o'),
        KeyCode::Char('s'),
        KeyCode::Char('d'),
        KeyCode::Char('/'),
        KeyCode::Char('='),
        KeyCode::Char('-'),
        KeyCode::Char('+'),
        KeyCode::Char('_'),
        KeyCode::Char('H'),
        KeyCode::Char('x'),
        KeyCode::Char('ü'),
        KeyCode::Other,
        KeyCode::Other,
        KeyCode::Other,
    ];
    match r.below(10) {
        0 | 1 => ctrl(['s', 'g', 'l', 'r', 'c', 'f', 'h', 'a'][r.below(8)]),
        2 => Key { code: KeyCode::Char('H'), ctrl: false, shift: true },
        _ => key(plain[r.below(plain.len())]),
    }
}

/// SINGLE holds exactly one member, RADIO at most one.
fn single_groups_hold(graph: &DependencyGraph) -> Result<(), String> {
    let mut counts: Vec<((String, String, String), usize)> = Vec::new();
    for o in graph.real_options() {
        if o.group_type == "SINGLE" || o.group_type == "RADIO" {
            let key = (
                o.port_origin.clone(),
                o.group_type.clone(),
                o.group_name.clone(),
            );
            match counts.iter_mut().find(|c| c.0 == key) {
                Some(c) => c.1 += usize::from(o.enabled),
                None => counts.push((key, usize::from(o.enabled))),
            }
        }
    }
    for ((port, ty, group), set) in counts {
        if (ty == "SINGLE" && set != 1) || (ty == "RADIO" && set > 1) {
            return Err(format!("{ty} {group} on {port} holds {set} set members"));
        }
    }
    Ok(())
}

fn states_snapshot(graph: &DependencyGraph) -> Vec<(String, String, bool)> {
    graph
        .real_options()
        .iter()
        .map(|o| (o.port_origin.clone(), o.name.clone(), o.enabled))
        .collect()
}

fn ui_fuzz(seed: u32, steps: usize) {
    let mut rng = FuzzRng(if seed == 0 { 0x9e37_79b9 } else { seed });
    let mut graph = fuzz_graph();
    let mut app = fuzz_app();
    let sys = SystemOptions::default();
    let mut resolver_dead = false;
    let mut arrivals = 0usize;

    for step in 0..steps {
        let check = |what: &str, result: Result<(), String>| {
            if let Err(e) = result {
                panic!("ui fuzz seed {seed} step {step} ({what}): {e}");
            }
        };

        match rng.below(12) {
            // Synthesized resolver answers, the way the event loop folds
            // them in.
            9 if !resolver_dead => {
                match rng.below(3) {
                    // A stale answer: computed for an option set that is
                    // not the port's current one. Folding it in must
                    // change nothing.
                    0 => {
                        let mut facts = fixture_port("www/alpha");
                        fixture_option(&mut facts, "GHOST", true, "DEFINE", "");
                        fixture_edge(&mut facts, "devel/ghost-dep", None);
                        let before = states_snapshot(&graph);
                        let answers = vec![reply("www/alpha".to_string(), Options::Exactly(vec!["GHOST".to_string()]), Ok(facts))];
                        app.merge(&mut graph, &sys, &answers);
                        if states_snapshot(&graph) != before {
                            panic!(
                                "ui fuzz seed {seed} step {step}: a stale answer moved state"
                            );
                        }
                    }
                    // A fresh arrival, cascading like a real discovery.
                    1 => {
                        arrivals += 1;
                        let origin = format!("devel/arrival{arrivals}");
                        let mut facts = fixture_port(&origin);
                        fixture_option(&mut facts, "DOCS", true, "DEFINE", "");
                        let answers = vec![reply(origin, Options::AsShipped, Ok(facts))];
                        app.merge(&mut graph, &sys, &answers);
                    }
                    // A failure answer: reported, never fatal.
                    _ => {
                        let answers = vec![reply("www/alpha".to_string(), Options::AsShipped, Err("make exploded".to_string()))];
                        app.merge(&mut graph, &sys, &answers);
                    }
                }
            }
            // The dead-resolver nemesis: the counter zeroes and nothing
            // stays pinned.
            10 if !resolver_dead && rng.below(8) == 0 => {
                app.outstanding += 3; // as if questions were out
                app.mark_resolver_dead();
                resolver_dead = true;
                assert_eq!(app.outstanding, 0, "a dead resolver must unpin");
                assert!(app.pending.is_empty());
            }
            // Paste, awkward shapes included.
            11 => {
                let payloads = [
                    "grüße",
                    "s q o c",
                    "php83\nrm -rf /\n",
                    "tab\there",
                    "",
                    "ß",
                ];
                app.on_paste(payloads[rng.below(payloads.len())], &mut graph);
            }
            _ => {
                let event = fuzz_event(&mut rng);
                match app.on_key(event, &mut graph) {
                    KeyOutcome::SaveInPlace => {
                        let anchor = graph.anchor_at(app.selected.unwrap_or(0));
                        app.perform_save(&graph, anchor, None, Some(Ok(String::from("Saved"))));
                    }
                    KeyOutcome::SaveGroups(request) => app.on_groups_saved(request, Ok(())),
                    KeyOutcome::Finish(_) => {
                        // The session ended; a new one starts, as the
                        // binary would.
                        app = fuzz_app();
                    }
                    KeyOutcome::Continue | KeyOutcome::Redraw => {}
                }
            }
        }

        check("groups", single_groups_hold(&graph));
        for (i, q) in app.pending.iter().enumerate() {
            if app.pending[i + 1..].contains(q) {
                panic!("ui fuzz seed {seed} step {step}: duplicate pending question {q:?}");
            }
        }
        if app.pending.len() > 64 {
            panic!(
                "ui fuzz seed {seed} step {step}: pending grew to {} — a queue that only grows is the loop signature",
                app.pending.len()
            );
        }

        if step % 7 == 0 {
            // The render smoke: every frame must draw without panicking,
            // whatever the state machine got itself into.
            screen(&graph, &app);
        }
    }
}

#[test]
fn ui_fuzz_fixed_seeds_stay_green() {
    ui_fuzz(5, 400);
    ui_fuzz(6, 400);
}

/// Presses and repeats act; releases do not. A terminal reporting releases
/// would otherwise run every handler twice per keystroke.
#[test]
fn only_key_releases_are_ignored() {
    assert!(key_acts(KeyEventKind::Press));
    assert!(key_acts(KeyEventKind::Repeat));
    assert!(!key_acts(KeyEventKind::Release));
}
