//! The parts of the interface, one at a time.

use bgone::facts::{OptionFacts, PortFacts};
use bgone::graph::fold::{next_sibling_index, prev_sibling_index};
use bgone::graph::rows::matches_search;
use bgone::graph::DependencyGraph;
use bgone::makeenv::MakeEnv;
use bgone::reader::{assignment_values, SystemOptions};
use bgone::ui::draw::{color, field_spans, selectable_line, target_text, Color};
use bgone::ui::field::{edit_field, first_line, is_backspace, KeyCode};
use bgone::ui::list::recenter_offset;
use bgone::ui::modal::{centered_rect, Area};
use bgone::ui::{next_focus, prev_focus, tree_op, ConfirmChoice, Focus, RecenterPosition, TreeOp};

#[test]
fn stops_go_round_both_ways() {
    for f in [Focus::List, Focus::Okay, Focus::Cancel] {
        assert_eq!(prev_focus(next_focus(f)), f);
        assert_eq!(next_focus(next_focus(next_focus(f))), f);
    }
    assert_eq!(next_focus(Focus::List), Focus::Okay);
    for c in [ConfirmChoice::Save, ConfirmChoice::Discard, ConfirmChoice::Cancel] {
        assert_eq!(c.next().prev(), c);
        assert_eq!(c.next().next().next(), c);
    }
    let p = RecenterPosition::Middle;
    assert_eq!(p.next(), RecenterPosition::Top);
    assert_eq!(p.next().next().next(), p);
    assert_eq!(p.label(), "middle");
}

#[test]
fn tree_keys_widen_when_repeated() {
    assert_eq!(tree_op('=', true), Some(TreeOp::ExpandNode));
    assert_eq!(tree_op('-', false), Some(TreeOp::CollapseNode));
    assert_eq!(tree_op('+', false), Some(TreeOp::ExpandSection));
    assert_eq!(tree_op('+', true), Some(TreeOp::ExpandAll));
    assert_eq!(tree_op('_', false), Some(TreeOp::CollapseSection));
    assert_eq!(tree_op('_', true), Some(TreeOp::CollapseAll));
    assert_eq!(tree_op('x', true), None);
}

#[test]
fn recentering_places_the_row() {
    assert_eq!(recenter_offset(50, 20, 100, RecenterPosition::Middle), 40);
    assert_eq!(recenter_offset(50, 20, 100, RecenterPosition::Top), 50);
    assert_eq!(recenter_offset(50, 20, 100, RecenterPosition::Bottom), 31);
    assert_eq!(recenter_offset(3, 20, 100, RecenterPosition::Middle), 0);
    assert_eq!(recenter_offset(3, 0, 100, RecenterPosition::Middle), 3);
    assert_eq!(recenter_offset(9, 20, 5, RecenterPosition::Top), 4);
}

#[test]
fn siblings_step_over_what_is_nested() {
    let depths = [0, 1, 2, 1, 0];
    assert_eq!(next_sibling_index(&depths, 1), 3);
    assert_eq!(next_sibling_index(&depths, 3), 4, "past the last one, outward");
    assert_eq!(next_sibling_index(&depths, 4), 4);
    assert_eq!(prev_sibling_index(&depths, 3), 1);
    assert_eq!(prev_sibling_index(&depths, 1), 0);
    assert_eq!(prev_sibling_index(&depths, 0), 0);
}

#[test]
fn a_box_sits_in_the_middle_and_never_overhangs() {
    let screen = Area { x: 0, y: 0, width: 80, height: 24 };
    let r = centered_rect(64, 7, screen);
    assert_eq!((r.x, r.y, r.width, r.height), (8, 8, 64, 7));
    let r = centered_rect(200, 200, screen);
    assert_eq!((r.x, r.y, r.width, r.height), (0, 0, 80, 24));
}

#[test]
fn a_field_is_edited_at_its_caret() {
    let mut text = String::from("abc");
    let mut caret = 1;
    assert!(edit_field(&mut text, &mut caret, KeyCode::Char('X'), false));
    assert_eq!((text.as_str(), caret), ("aXbc", 2));
    assert!(edit_field(&mut text, &mut caret, KeyCode::Backspace, false));
    assert_eq!((text.as_str(), caret), ("abc", 1), "rubbing out undoes typing");
    assert!(!edit_field(&mut text, &mut caret, KeyCode::Up, false));
    caret = 99;
    edit_field(&mut text, &mut caret, KeyCode::Right, false);
    assert_eq!(caret, 3, "the caret stays in the text");
    assert!(is_backspace(KeyCode::Char('h'), true) && !is_backspace(KeyCode::Char('h'), false));
    assert_eq!(first_line("one\ttwo\nthree"), "onetwo".chars().collect::<Vec<char>>());
    assert!(first_line("").is_empty());
}

#[test]
fn lines_carry_their_text() {
    let line = field_spans("abc", 1, color(Color::Yellow));
    let text: String = line.spans.iter().map(|s| s.text.as_str()).collect();
    assert_eq!(text, "abc");
    assert!(line.spans.iter().any(|s| s.text == "b" && s.style.reversed));
    let line = selectable_line("name", true, false);
    let text: String = line.spans.iter().map(|s| s.text.as_str()).collect();
    assert!(text.contains("name") && text.contains('>'), "{text}");
}

#[test]
fn a_query_matches_part_of_an_origin() {
    assert!(matches_search("", "www/nginx"));
    assert!(matches_search("ngin", "www/nginx"));
    assert!(!matches_search("apache", "www/nginx"));
}

#[test]
fn only_assignments_assign() {
    assert_eq!(assignment_values("+= A B").as_deref(), Some("A B"));
    assert_eq!(assignment_values(" ?=A").as_deref(), Some("A"));
    assert_eq!(assignment_values("_FORCE=A"), None);
}

/// The primitive underneath a choice: one option, and nothing that follows.
#[test]
fn one_option_can_be_set_by_itself() {
    let option = |name: &str, implies: &[&str]| OptionFacts {
        name: name.to_string(),
        description: String::new(),
        group_type: "DEFINE".to_string(),
        group_name: String::new(),
        default_on: false,
        implies: implies.iter().map(|s| s.to_string()).collect(),
        prevents: Vec::new(),
    };
    let facts = PortFacts {
        origin: "www/app".to_string(),
        pkgname: "app-1".to_string(),
        pkgbase: "app".to_string(),
        flavours: Vec::new(),
        options: vec![option("A", &["B"]), option("B", &[])],
        deps: Vec::new(),
        unresolved: Vec::new(),
        source_mtime: 0,
    };
    let mut g = DependencyGraph::from_facts(
        &vec![facts],
        &vec!["www/app".to_string()],
        &SystemOptions::default(),
    );
    g.set_option_state("www/app", "A", true);
    let a = g.option_instances("www/app", "A")[0];
    let b = g.option_instances("www/app", "B")[0];
    assert!(g.option_nodes[a].enabled && !g.option_nodes[b].enabled);
    assert!(g.option_instances("www/app", "C").is_empty());
    assert_eq!(target_text(&g), " Target: www/app  (1 ports)");
}

/// The port is evaluated as it ships, or under exactly the options named, with
/// nothing of this machine's own laid over it.
#[test]
fn make_is_asked_for_the_port_alone() {
    let mut env = MakeEnv::new("/usr/ports");
    env.arch = Some("aarch64".to_string());
    env.flags = vec!["-q".to_string()];
    let args = env.make_args("/usr/ports/www/app", None);
    assert_eq!(args[..3], ["-C", "/usr/ports/www/app", "-q"]);
    assert!(args.contains(&"ARCH=aarch64".to_string()));
    assert!(args.contains(&"__MAKE_CONF=/dev/null".to_string()));
    assert!(args.contains(&"PORT_DBDIR=/nonexistent".to_string()));
    assert!(!args.iter().any(|a| a.starts_with("OPTIONS_OVERRIDE=")));

    let pinned = env.make_args("/usr/ports/www/app", Some(&vec!["A".to_string(), "B".to_string()]));
    assert_eq!(pinned[..args.len()], args[..]);
    assert_eq!(pinned[args.len()..], ["OPTIONS_OVERRIDE=A B"]);
}

/// What ports are resolved as is told apart, setting by setting.
#[test]
fn targets_are_told_apart() {
    let mut names = Vec::new();
    for arch in [None, Some("amd64"), Some("aarch64")] {
        for osrel in [None, Some("14.4"), Some("15.0")] {
            for jail in [None, Some("a"), Some("b")] {
                let mut env = MakeEnv::new("/usr/ports");
                env.arch = arch.map(str::to_string);
                env.osrel = osrel.map(str::to_string);
                env.via_jail = jail.map(str::to_string);
                names.push(env.describe_target());
            }
        }
    }
    assert_eq!(names[0], "host");
    assert_eq!(names[1], "host (poudriere jail a)");
    assert!(names.contains(&"ARCH=amd64 OSREL=14.4 (poudriere jail b)".to_string()));
    let all = names.len();
    names.sort();
    names.dedup();
    assert_eq!(names.len(), all);
}
