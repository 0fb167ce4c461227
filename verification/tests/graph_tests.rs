//! The list of ports: what pulls what in, what a choice changes, and what is
//! written of it.

use bgone::exporter::{make_conf_block, merged_make_conf, option_files, stats_of};
use bgone::facts::{DepEntry, OptionFacts, Polarity, PortFacts};
use bgone::graph::targets::{missing_warning, needs_listing, select_targets, TargetError};
use bgone::graph::walk::{second_question, Answer, Walk};
use bgone::graph::{DependencyGraph, NodeId, Provenance, RowKind};
use bgone::oracle::Options;
use bgone::reader::{origin_of_folder, read_options_file, SystemOptions};

fn texts(items: &[&str]) -> Vec<String> {
    items.iter().map(|s| s.to_string()).collect()
}

fn port(origin: &str) -> PortFacts {
    let name = origin.split('/').nth(1).unwrap();
    PortFacts {
        origin: origin.to_string(),
        pkgname: format!("{name}-1.0"),
        pkgbase: name.to_string(),
        flavours: Vec::new(),
        options: Vec::new(),
        deps: Vec::new(),
        unresolved: Vec::new(),
        source_mtime: 0,
    }
}

fn with_option(mut p: PortFacts, name: &str, on: bool, kind: &str, group: &str) -> PortFacts {
    p.options.push(OptionFacts {
        name: name.to_string(),
        description: String::new(),
        group_type: kind.to_string(),
        group_name: group.to_string(),
        default_on: on,
        implies: Vec::new(),
        prevents: Vec::new(),
    });
    p
}

fn plain(p: PortFacts, name: &str, on: bool) -> PortFacts {
    with_option(p, name, on, "DEFINE", "")
}

fn with_dep(mut p: PortFacts, to: &str, via: Option<&str>, polarity: Polarity) -> PortFacts {
    p.deps.push(DepEntry {
        origin: to.to_string(),
        flavour: None,
        class: "RUN".to_string(),
        via_option: via.map(str::to_string),
        polarity,
    });
    p
}

fn declare(p: &mut PortFacts, name: &str, implies: &[&str], prevents: &[&str]) {
    let o = p.options.iter_mut().find(|o| o.name == name).unwrap();
    o.implies = texts(implies);
    o.prevents = texts(prevents);
}

fn graph(facts: Vec<PortFacts>, roots: &[&str]) -> DependencyGraph {
    let mut g = DependencyGraph::from_facts(&facts, &texts(roots), &SystemOptions::default());
    g.expand_all();
    g
}

fn is_on(g: &DependencyGraph, origin: &str, name: &str) -> bool {
    let ids = g.option_instances(origin, name);
    assert_eq!(ids.len(), 1);
    g.option_nodes[ids[0]].enabled
}

fn row_of(g: &DependencyGraph, origin: &str, name: &str) -> usize {
    g.visible_rows
        .iter()
        .position(|r| match r.node_id {
            NodeId::Option(id) => {
                g.option_nodes[id].port_origin == origin && g.option_nodes[id].name == name
            }
            _ => false,
        })
        .unwrap()
}

fn listed(g: &DependencyGraph) -> Vec<String> {
    g.visible_rows
        .iter()
        .filter_map(|r| match &r.kind {
            RowKind::Port { origin, .. } => Some(origin.clone()),
            _ => None,
        })
        .collect()
}

/// Ports are listed alphabetically and once, however they are asked for.
#[test]
fn ports_are_listed_in_order_and_once() {
    let app = with_dep(port("www/app"), "devel/lib", None, Polarity::On);
    let app = with_dep(app, "devel/lib", None, Polarity::On);
    let g = graph(vec![app, port("devel/lib"), port("aaa/first")], &["www/app", "aaa/first"]);
    assert_eq!(listed(&g), vec!["aaa/first", "devel/lib", "www/app"]);
    assert_eq!(g.listed_port_count(), 3);
    assert_eq!(g.live_count(), 3);
    let asked: Vec<&str> = g.requested_ports().iter().map(|p| p.origin.as_str()).collect();
    assert_eq!(asked, vec!["www/app", "aaa/first"]);
    let lib = g.port_index("devel/lib").unwrap();
    assert!(matches!(g.ports[lib].provenance, Provenance::Dependency));
}

/// An option pulls a port in when it is on, another when it is off, and a cycle
/// that nothing reaches is not pulled in.
#[test]
fn options_decide_what_is_pulled_in() {
    let app = plain(port("www/app"), "SSL", true);
    let app = with_dep(app, "security/openssl", Some("SSL"), Polarity::On);
    let app = with_dep(app, "security/none", Some("SSL"), Polarity::Off);
    let a = with_dep(port("security/openssl"), "devel/ring", None, Polarity::On);
    let ring = with_dep(port("devel/ring"), "security/openssl", None, Polarity::On);
    let mut g = graph(vec![app, a, ring, port("security/none")], &["www/app"]);

    assert!(g.is_live("security/openssl") && g.is_live("devel/ring"));
    assert!(!g.is_live("security/none"));

    let touched = g.toggle_option(row_of(&g, "www/app", "SSL"));
    assert_eq!(touched, vec!["www/app"]);
    assert!(!g.is_live("security/openssl") && !g.is_live("devel/ring"));
    assert!(g.is_live("security/none"));
    assert_eq!(listed(&g), vec!["security/none", "www/app"]);
    assert!(g.is_dirty());
    assert_eq!(g.changed_ports(), vec!["www/app"]);

    g.toggle_option(row_of(&g, "www/app", "SSL"));
    assert!(!g.is_dirty(), "pressing twice changes nothing");
    assert_eq!(listed(&g), vec!["devel/ring", "security/openssl", "www/app"]);
}

/// A `SINGLE` keeps exactly one of its members, a `RADIO` at most one.
#[test]
fn exclusive_groups_hold() {
    let p = with_option(port("www/app"), "MYSQL", true, "SINGLE", "DB");
    let p = with_option(p, "PGSQL", false, "SINGLE", "DB");
    let p = with_option(p, "GTK", false, "RADIO", "GUI");
    let p = with_option(p, "QT", true, "RADIO", "GUI");
    let mut g = graph(vec![p], &["www/app"]);

    g.toggle_option(row_of(&g, "www/app", "MYSQL"));
    assert!(is_on(&g, "www/app", "MYSQL"), "the last member stays");
    g.toggle_option(row_of(&g, "www/app", "PGSQL"));
    assert!(!is_on(&g, "www/app", "MYSQL") && is_on(&g, "www/app", "PGSQL"));

    g.toggle_option(row_of(&g, "www/app", "GTK"));
    assert!(is_on(&g, "www/app", "GTK") && !is_on(&g, "www/app", "QT"));
    g.toggle_option(row_of(&g, "www/app", "GTK"));
    assert!(!is_on(&g, "www/app", "GTK") && !is_on(&g, "www/app", "QT"));
}

/// What is set implies what is set, and prevents nothing that is.
#[test]
fn declarations_are_kept() {
    let mut p = port("www/app");
    for name in ["A", "B", "C", "D"] {
        p = plain(p, name, false);
    }
    declare(&mut p, "A", &["B"], &[]);
    declare(&mut p, "B", &["C"], &[]);
    declare(&mut p, "D", &[], &["A"]);
    let mut g = graph(vec![p], &["www/app"]);
    let states = |g: &DependencyGraph| -> Vec<bool> {
        ["A", "B", "C", "D"].iter().map(|n| is_on(g, "www/app", n)).collect()
    };

    g.apply_choice("www/app", "D", true);
    assert_eq!(states(&g), vec![false, false, false, true]);
    g.apply_choice("www/app", "A", true);
    assert_eq!(states(&g), vec![true, true, true, false], "D gives way, B and C follow");
    g.apply_choice("www/app", "C", false);
    assert_eq!(states(&g), vec![false, false, false, false], "what leads to C goes with it");
    g.apply_choice("www/app", "A", true);
    g.apply_choice("www/app", "D", true);
    assert_eq!(states(&g), vec![false, true, true, true], "A gives way");
}

/// A choice on one member of a group is made on all of them, and a port that
/// joins takes over what the others have.
#[test]
fn a_group_moves_together() {
    let a = plain(plain(port("lang/a"), "SOAP", false), "ONLY", true);
    let b = plain(port("lang/b"), "SOAP", false);
    let c = plain(port("lang/c"), "SOAP", false);
    let mut g = graph(vec![a, b, c], &["lang/a", "lang/b", "lang/c"]);
    g.enroll("php", "lang/a");
    g.enroll("php", "lang/b");
    assert!(g.is_member("php", "lang/b") && !g.is_member("php", "lang/c"));

    let touched = g.apply_choice("lang/a", "SOAP", true);
    assert_eq!(touched, vec!["lang/a", "lang/b"]);
    assert!(is_on(&g, "lang/b", "SOAP") && !is_on(&g, "lang/c", "SOAP"));

    g.enroll("php", "lang/c");
    assert_eq!(g.adopt_group_options("php", "lang/c"), 1);
    assert!(is_on(&g, "lang/c", "SOAP"));
    assert_eq!(g.adopt_group_options("php", "lang/c"), 0, "already in line");

    g.dismiss("php", "lang/a");
    assert_eq!(g.apply_choice("lang/a", "SOAP", false), vec!["lang/a"]);
    assert!(is_on(&g, "lang/b", "SOAP"));
    g.disband("php");
    assert!(g.groups.is_empty());
}

/// The search looks at origins, whatever their case.
#[test]
fn searching_ignores_case() {
    let mut g = graph(vec![port("www/Apache24"), port("net/curl")], &["www/Apache24", "net/curl"]);
    g.search_query = "aPACHE".to_string();
    g.rebuild_visible_rows();
    assert_eq!(listed(&g), vec!["www/Apache24"]);
    assert_eq!(g.ports.len(), 2, "nothing else has changed");
}

/// Ports with nothing to decide can be hidden; one that could not be read is
/// not among them.
#[test]
fn hiding_leaves_what_was_not_read() {
    let app = plain(port("www/app"), "SSL", true);
    let app = with_dep(app, "devel/leaf", None, Polarity::On);
    let app = with_dep(app, "devel/broken", None, Polarity::On);
    let mut g = graph(vec![app, port("devel/leaf"), port("devel/broken")], &["www/app"]);
    g.mark_unread("devel/broken");
    assert_eq!(g.unevaluated_ports(), vec!["devel/broken"]);
    g.hide_optionless = true;
    g.rebuild_visible_rows();
    assert_eq!(g.optionless_count(), 1);
    assert_eq!(listed(&g), vec!["devel/broken", "www/app"]);
}

/// The files of an export hold every option once, and read back as what is set.
#[test]
fn what_is_exported_reads_back() {
    let app = plain(plain(port("www/app"), "SSL", true), "DOCS", false);
    let app = with_dep(app, "devel/lib", Some("SSL"), Polarity::On);
    let lib = plain(port("devel/lib"), "DOCS", true);
    let mut g = graph(vec![app, lib], &["www/app"]);

    let files = option_files(&g);
    assert_eq!(files.len(), 2);
    assert_eq!(files[1].folder, "www_app");
    assert_eq!(
        files[1].content,
        "# This file is auto-generated by bgone.\n\
         # Options for app-1.0\n\
         _OPTIONS_READ=app-1.0\n\
         _FILE_COMPLETE_OPTIONS_LIST=DOCS SSL\n\
         OPTIONS_FILE_UNSET+=DOCS\n\
         OPTIONS_FILE_SET+=SSL\n"
    );
    let stats = stats_of(&files);
    assert_eq!(stats.files_written, 2);
    assert_eq!(stats.options_saved, 3);

    let mut saved = SystemOptions::default();
    for f in &files {
        saved.read_port_file(&f.folder, &f.content);
    }
    assert!(saved.get_state("www/app", "SSL", false));
    assert!(!saved.get_state("www/app", "DOCS", true));
    assert!(saved.get_state("devel/lib", "DOCS", false));
    assert!(saved.get_state("devel/lib", "OTHER", true), "else the default");

    // A port that nothing pulls in leaves nothing behind
    g.toggle_option(row_of(&g, "www/app", "SSL"));
    let files = option_files(&g);
    assert_eq!(files.len(), 1);
    assert_eq!(files[0].folder, "www_app");
}

/// The block holds what every port agrees on, and reads back; what a port says
/// for itself comes before it.
#[test]
fn the_managed_block_reads_back() {
    let a = plain(plain(port("www/a"), "DOCS", true), "SSL", true);
    let b = plain(plain(port("www/b"), "DOCS", true), "SSL", false);
    let g = graph(vec![a, b], &["www/a", "www/b"]);

    let block = make_conf_block(&g);
    assert!(block.starts_with("# BEGIN bgone"), "{block}");
    assert!(block.ends_with("# END bgone\n"), "{block}");
    assert!(block.contains("OPTIONS_SET+=DOCS\n"), "{block}");
    assert!(!block.contains("SSL"), "{block}");

    let merged = merged_make_conf(&g, "CFLAGS+=-O2\n");
    assert!(merged.starts_with("CFLAGS+=-O2\n"), "{merged}");
    assert_eq!(merged_make_conf(&g, &merged), merged);

    let mut saved = SystemOptions::default();
    saved.read_make_conf(&merged);
    assert!(saved.get_state("x/y", "DOCS", false));
    saved.read_port_file("x_y", "OPTIONS_FILE_UNSET+=DOCS\n");
    assert!(!saved.get_state("x/y", "DOCS", false), "the port's own file comes first");
}

#[test]
fn an_options_file_is_read_line_by_line() {
    let read = read_options_file("# c\nOPTIONS_FILE_SET+=A\n  OPTIONS_FILE_UNSET+=B\nX=1\n");
    assert_eq!(read.get("A"), Some(&true));
    assert_eq!(read.get("B"), Some(&false));
    assert_eq!(read.get("X"), None);
    assert_eq!(origin_of_folder("www_py-django_x"), Some("www/py-django_x".to_string()));
    assert_eq!(origin_of_folder("plain"), None);
}

#[test]
fn patterns_name_ports_of_the_tree() {
    let listing = texts(&["www/py-a", "www/py-b", "net/curl"]);
    let patterns = texts(&["www/py-*", "net/gone", "net/curl"]);
    let there = [false, false, true];
    assert!(needs_listing(&patterns));
    assert!(!needs_listing(&texts(&["net/curl"])));

    let t = select_targets(&patterns, &listing, &there.to_vec(), "/usr/ports", true).unwrap();
    assert_eq!(t.origins, vec!["net/curl", "www/py-a", "www/py-b"]);
    assert_eq!(t.unmatched, vec!["net/gone"]);
    assert!(missing_warning(&t.unmatched).contains("net/gone"));

    let e = select_targets(&patterns, &listing, &there.to_vec(), "/usr/ports", false).unwrap_err();
    assert_eq!(
        e.message(),
        "No matching ports found for pattern(s): 'net/gone' under /usr/ports"
    );
    let none = texts(&["x/none"]);
    assert!(select_targets(&none, &listing, &vec![false], "/p", true).is_err());
}

/// The walk asks about every port that can be reached, and says which could not
/// be read.
#[test]
fn a_walk_reaches_everything_once() {
    let app = plain(port("www/app"), "SSL", true);
    let app = with_dep(app, "devel/lib", Some("SSL"), Polarity::On);
    let app = with_dep(app, "devel/gone", None, Polarity::On);
    let lib = with_dep(port("devel/lib"), "www/app", None, Polarity::On);
    let tree = [app, lib];
    let saved = SystemOptions::default();

    let mut walk = Walk::start(&texts(&["www/app"]));
    let mut asked = Vec::new();
    while !walk.is_done() {
        let mut answers = Vec::new();
        for q in walk.questions() {
            assert_eq!(q.options, Options::AsShipped);
            asked.push(q.origin.clone());
            let found = tree.iter().find(|f| f.origin == q.origin);
            answers.push(Answer {
                shipped: found.cloned().ok_or(String::from("no such port")),
                exact: None,
            });
        }
        walk.advance(&answers, &saved);
    }
    asked.sort();
    assert_eq!(asked, vec!["devel/gone", "devel/lib", "www/app"]);
    assert_eq!(walk.failures.len(), 1);
    assert_eq!(walk.failures[0].origin, "devel/gone");
    assert_eq!(walk.failures[0].why, "no such port");

    let failures = std::mem::take(&mut walk.failures);
    let g = walk.finish("www/app");
    assert_eq!(g.live_count(), 3);
    assert_eq!(g.unevaluated_ports(), vec!["devel/gone"]);
    let patterns = texts(&["www/app"]);
    let targets = select_targets(&patterns, &Vec::new(), &vec![true], "/p", false).unwrap();
    assert!(g.check_read(&targets, &failures, &patterns, "/p").is_ok());
}

#[test]
fn a_list_of_which_nothing_was_read_is_an_error() {
    let mut walk = Walk::start(&texts(&["www/app"]));
    let answers = vec![Answer { shipped: Err("make failed".to_string()), exact: None }];
    walk.advance(&answers, &SystemOptions::default());
    let failures = std::mem::take(&mut walk.failures);
    let g = walk.finish("www/app");
    let patterns = texts(&["www/app"]);
    let targets = select_targets(&patterns, &Vec::new(), &vec![true], "/p", false).unwrap();
    let e = g.check_read(&targets, &failures, &patterns, "/p").unwrap_err();
    assert!(matches!(e, TargetError::Unevaluated { .. }));
    assert_eq!(e.message(), "Could not evaluate any of 'www/app' under /p: make failed");
}

/// A port is asked again where what is saved for it is not what it ships with.
#[test]
fn saved_options_ask_a_second_question() {
    let p = plain(plain(port("www/app"), "SSL", true), "DOCS", false);
    let mut saved = SystemOptions::default();
    assert_eq!(second_question(&p, &saved), None);
    saved.read_port_file("www_app", "OPTIONS_FILE_SET+=DOCS\n");
    let mut set = second_question(&p, &saved).unwrap();
    set.sort();
    assert_eq!(set, vec!["DOCS", "SSL"]);
}

/// Settling asks about what changed, takes in what that pulls in, and marks
/// what cannot be read.
#[test]
fn settling_follows_what_changed() {
    let app = plain(port("www/app"), "SSL", false);
    let mut g = graph(vec![app], &["www/app"]);
    g.apply_choice("www/app", "SSL", true);

    let saved = SystemOptions::default();
    let mut settling = g.begin_resettle(&g.changed_ports());
    let mut rounds = 0;
    while !settling.asking.is_empty() {
        rounds += 1;
        let mut answers = Vec::new();
        for q in &settling.asking {
            answers.push(match q.origin.as_str() {
                "www/app" => {
                    assert_eq!(q.options, Options::Exactly(texts(&["SSL"])));
                    let p = plain(port("www/app"), "SSL", false);
                    let p = with_dep(p, "devel/new", None, Polarity::On);
                    Ok(with_dep(p, "devel/bad", None, Polarity::On))
                }
                "devel/new" => Ok(port("devel/new")),
                _ => Err("no".to_string()),
            });
        }
        g.resettle(&mut settling, &answers, &saved);
        assert!(rounds < 9);
    }
    g.rebuild_visible_rows();
    assert!(g.is_live("devel/new"));
    assert!(settling.outcome.arrived.contains(&"devel/new".to_string()));
    assert_eq!(settling.outcome.failed.len(), 1);
    assert_eq!(settling.outcome.failed[0].origin, "devel/bad");
}

/// Settling goes on until nothing new turns up: what an arrival pulls in arrives
/// too, and so does what only the options saved for it pull in.
#[test]
fn settling_goes_on_until_nothing_is_new() {
    let app = plain(port("www/app"), "SSL", false);
    let mut g = graph(vec![app], &["www/app"]);
    g.apply_choice("www/app", "SSL", true);
    let mut saved = SystemOptions::default();
    saved.read_port_file("devel_b", "OPTIONS_FILE_SET+=EXTRA\n");

    let pulled = |origin: &str, options: &Options| -> Vec<&str> {
        match origin {
            "www/app" => vec!["devel/a"],
            "devel/a" => vec!["devel/b"],
            "devel/b" if *options == Options::Exactly(texts(&["EXTRA"])) => vec!["devel/c"],
            "devel/c" => vec!["devel/a", "devel/d"],
            _ => vec![],
        }
    };
    let mut settling = g.begin_resettle(&texts(&["www/app", "www/gone"]));
    let mut asked: Vec<Vec<String>> = Vec::new();
    while !settling.asking.is_empty() {
        asked.push(settling.asking.iter().map(|q| q.origin.clone()).collect());
        let mut answers = Vec::new();
        for q in &settling.asking {
            let mut p = port(&q.origin);
            match q.origin.as_str() {
                "www/app" => p = plain(p, "SSL", false),
                "devel/b" => p = plain(p, "EXTRA", false),
                _ => {}
            }
            for d in pulled(&q.origin, &q.options) {
                p = with_dep(p, d, None, Polarity::On);
            }
            answers.push(Ok(p));
        }
        g.resettle(&mut settling, &answers, &saved);
        assert!(asked.len() < 9);
    }
    let once = |o: &str| vec![o.to_string()];
    assert_eq!(
        asked,
        vec![
            once("www/app"),
            once("devel/a"),
            once("devel/b"),
            once("devel/b"),
            once("devel/c"),
            once("devel/d")
        ]
    );
    assert_eq!(settling.outcome.arrived, texts(&["devel/a", "devel/b", "devel/c", "devel/d"]));
    assert!(settling.outcome.failed.is_empty());
    for p in &g.ports {
        for d in &p.requires {
            assert!(g.port_index(d).is_some(), "{d}");
        }
    }
    g.rebuild_visible_rows();
    assert_eq!(g.live_count(), 5);
}

/// Opening and closing touch rows only, and an anchor finds its row again.
#[test]
fn folding_keeps_the_row() {
    let app = plain(plain(port("www/app"), "A", true), "B", true);
    let mut g = graph(vec![app, port("aaa/x")], &["www/app", "aaa/x"]);
    let row = row_of(&g, "www/app", "B");
    let anchor = g.anchor_at(row).unwrap();
    g.collapse_all();
    assert_eq!(g.visible_rows.len(), 2);
    let at = g.row_of_anchor(&anchor).unwrap();
    assert!(matches!(&g.visible_rows[at].kind, RowKind::Port { origin, .. } if origin == "www/app"));
    g.expand_all();
    assert_eq!(g.row_of_anchor(&anchor), Some(row));
    assert_eq!(g.enclosing_port(row), g.port_index("www/app"));
}

fn shape(g: &DependencyGraph) -> Vec<(usize, bool, NodeId)> {
    g.visible_rows.iter().map(|r| (r.depth, r.is_expanded, r.node_id)).collect()
}

fn written(g: &DependencyGraph) -> (Vec<(String, String)>, String) {
    let files = option_files(g).into_iter().map(|f| (f.folder, f.content)).collect();
    (files, make_conf_block(g))
}

/// Closing a row and opening it again brings back the rows there were, and a
/// second press changes nothing.
#[test]
fn opening_brings_back_what_was_folded() {
    let app = plain(port("www/app"), "SSL", true);
    let app = with_dep(app, "devel/lib", Some("SSL"), Polarity::On);
    let app = with_dep(app, "devel/other", None, Polarity::On);
    let mut g = graph(vec![app, port("devel/lib"), port("devel/other")], &["www/app"]);
    let before = shape(&g);
    for row in 0..before.len() {
        if !g.visible_rows[row].is_expanded {
            continue;
        }
        g.collapse_node(row);
        let closed = shape(&g);
        assert!(closed.len() < before.len(), "row {row} has something beneath it");
        g.collapse_node(row);
        assert_eq!(shape(&g), closed);
        g.expand_node(row);
        assert_eq!(shape(&g), before);
    }
}

/// What is open, searched for or hidden has no say in what is written.
#[test]
fn what_is_out_of_sight_is_written() {
    let app = plain(port("www/app"), "SSL", true);
    let app = with_dep(app, "devel/lib", Some("SSL"), Polarity::On);
    let lib = plain(port("devel/lib"), "DOCS", true);
    let mut g = graph(vec![app, lib], &["www/app"]);
    let before = written(&g);
    assert_eq!(before.0.len(), 2);
    g.collapse_all();
    assert_eq!(written(&g), before);
    g.expand_subtree(0);
    assert_eq!(written(&g), before);
    g.search_query = "nothing".to_string();
    g.hide_optionless = true;
    g.rebuild_visible_rows();
    assert!(g.visible_rows.is_empty());
    assert_eq!(written(&g), before);
}

/// A press reaches the groups of the port it is made on and no other port.
#[test]
fn a_press_stays_in_its_groups() {
    let a = plain(port("lang/a"), "SOAP", false);
    let b = plain(port("lang/b"), "SOAP", false);
    let c = plain(port("lang/c"), "SOAP", false);
    let mut g = graph(vec![a, b, c], &["lang/a", "lang/b", "lang/c"]);
    g.enroll("php", "lang/a");
    g.enroll("php", "lang/b");
    g.toggle_option(row_of(&g, "lang/b", "SOAP"));
    assert!(is_on(&g, "lang/a", "SOAP") && is_on(&g, "lang/b", "SOAP"));
    assert!(!is_on(&g, "lang/c", "SOAP"));
}

/// The options of a group stand together, behind those in none.
#[test]
fn options_of_a_group_stand_together() {
    let p = with_option(port("www/app"), "B1", false, "RADIO", "BETA");
    let p = with_option(p, "A2", false, "RADIO", "ALPHA");
    let p = plain(p, "ZZ", true);
    let p = with_option(p, "B0", false, "RADIO", "BETA");
    let p = with_option(p, "A1", true, "RADIO", "ALPHA");
    let names: Vec<String> =
        bgone::facts::list_options(&p.options).into_iter().map(|o| o.name).collect();
    assert_eq!(names, vec!["ZZ", "A1", "A2", "B0", "B1"]);
}

/// What an option implies is turned on as if it had been pressed: what prevents
/// it gives way.
#[test]
fn what_is_implied_is_not_left_prevented() {
    let p = plain(plain(plain(port("www/app"), "X", false), "Y", false), "Z", true);
    let mut p = plain(p, "LEADS", true);
    declare(&mut p, "X", &["Y"], &[]);
    declare(&mut p, "Z", &[], &["Y"]);
    declare(&mut p, "LEADS", &["Z"], &[]);
    let mut g = graph(vec![p], &["www/app"]);
    assert_eq!(g.toggle_option(row_of(&g, "www/app", "X")), vec!["www/app"]);
    assert!(is_on(&g, "www/app", "X") && is_on(&g, "www/app", "Y"));
    assert!(!is_on(&g, "www/app", "Z") && !is_on(&g, "www/app", "LEADS"));
}

/// A press that cannot be met changes nothing, and touches no port.
#[test]
fn a_refused_press_changes_nothing() {
    let p = with_option(port("www/app"), "MYSQL", true, "SINGLE", "DB");
    let p = with_option(p, "PGSQL", false, "SINGLE", "DB");
    let mut p = p;
    for (name, on) in [("X", false), ("W", false), ("OTHER", true), ("MID", true), ("END", true)] {
        p = plain(p, name, on);
    }
    declare(&mut p, "X", &["W"], &[]);
    declare(&mut p, "OTHER", &[], &["X"]);
    declare(&mut p, "MYSQL", &["MID"], &["X"]);
    declare(&mut p, "MID", &["END"], &[]);
    let mut g = graph(vec![p], &["www/app"]);
    let before: Vec<bool> = g.option_nodes.iter().map(|o| o.enabled).collect();
    for name in ["X", "END", "MID", "MYSQL"] {
        let touched = g.toggle_option(row_of(&g, "www/app", name));
        assert!(touched.is_empty(), "{name}: {touched:?}");
        let now: Vec<bool> = g.option_nodes.iter().map(|o| o.enabled).collect();
        assert_eq!(now, before, "{name}");
    }
}

/// What a press implies may outrank it: where the implied option prevents what
/// was pressed, or takes its place in a group, the implied one stands.
#[test]
fn what_is_implied_may_outrank_the_press() {
    let mut p = plain(plain(plain(port("www/app"), "X", false), "Y", false), "Z", true);
    declare(&mut p, "X", &["Y"], &[]);
    declare(&mut p, "Y", &[], &["X"]);
    let mut g = graph(vec![p], &["www/app"]);
    assert_eq!(g.toggle_option(row_of(&g, "www/app", "X")), vec!["www/app"]);
    assert!(is_on(&g, "www/app", "Y") && !is_on(&g, "www/app", "X"));
    assert!(is_on(&g, "www/app", "Z"));

    let p = with_option(port("www/app"), "GTK", false, "RADIO", "GUI");
    let mut p = with_option(p, "QT", false, "RADIO", "GUI");
    declare(&mut p, "GTK", &["QT"], &[]);
    let mut g = graph(vec![p], &["www/app"]);
    assert_eq!(g.toggle_option(row_of(&g, "www/app", "GTK")), vec!["www/app"]);
    assert!(is_on(&g, "www/app", "QT") && !is_on(&g, "www/app", "GTK"));
}

/// A member of a group that takes the place of another takes what leads to that
/// one with it.
#[test]
fn what_leads_to_a_displaced_member_goes_too() {
    let p = with_option(port("www/app"), "GTK", false, "RADIO", "GUI");
    let p = with_option(p, "QT", true, "RADIO", "GUI");
    let mut p = plain(p, "THEME", true);
    declare(&mut p, "THEME", &["QT"], &[]);
    let mut g = graph(vec![p], &["www/app"]);
    g.toggle_option(row_of(&g, "www/app", "GTK"));
    assert!(is_on(&g, "www/app", "GTK"));
    assert!(!is_on(&g, "www/app", "QT") && !is_on(&g, "www/app", "THEME"));
}

/// The ports that a choice reports are those whose options it changed.
#[test]
fn only_what_changed_is_reported() {
    let a = plain(port("lang/a"), "SOAP", false);
    let b = plain(port("lang/b"), "SOAP", true);
    let c = plain(port("lang/c"), "OTHER", false);
    let mut g = graph(vec![a, b, c], &["lang/a", "lang/b", "lang/c"]);
    for origin in ["lang/a", "lang/b", "lang/c", "lang/away"] {
        g.enroll("php", origin);
    }
    assert_eq!(g.apply_choice("lang/a", "SOAP", true), vec!["lang/a"]);
    assert!(g.apply_choice("lang/a", "SOAP", true).is_empty());
    assert_eq!(g.apply_choice("lang/b", "SOAP", false), vec!["lang/b", "lang/a"]);
    assert!(g.apply_choice("lang/c", "NONE", true).is_empty());
}

/// What pulls a port in is told whether it does so by an option that is on, by
/// one that is off, or by none.
#[test]
fn every_edge_shows_at_its_end() {
    let app = plain(plain(port("www/app"), "SSL", true), "GNUTLS", false);
    let app = with_dep(app, "security/tls", Some("SSL"), Polarity::Off);
    let app = with_dep(app, "security/tls", Some("GNUTLS"), Polarity::On);
    let app = with_dep(app, "devel/lib", None, Polarity::On);
    let app = with_dep(app, "devel/lib", Some("SSL"), Polarity::On);
    let g = graph(vec![app, port("security/tls"), port("devel/lib")], &["www/app"]);
    let entries = |origin: &str| -> Vec<(String, Option<String>)> {
        let p = &g.ports[g.port_index(origin).unwrap()];
        p.required_by.iter().map(|e| (e.origin.clone(), e.via_option.clone())).collect()
    };
    assert_eq!(
        entries("security/tls"),
        vec![
            ("www/app".to_string(), Some("GNUTLS".to_string())),
            ("www/app".to_string(), Some("SSL".to_string())),
        ]
    );
    assert_eq!(entries("devel/lib"), vec![("www/app".to_string(), None)]);
    assert!(entries("www/app").is_empty());
}

/// A port that joins a group keeps one member of each exclusive group set: that
/// of the group it joins before its own.
#[test]
fn joining_keeps_one_of_each() {
    let a = plain(plain(plain(port("lang/a"), "ONE", true), "TWO", true), "QT", false);
    let b = with_option(port("lang/b"), "OWN", true, "RADIO", "R");
    let b = with_option(b, "ONE", false, "RADIO", "R");
    let b = with_option(b, "TWO", false, "RADIO", "R");
    let b = with_option(b, "QT", true, "SINGLE", "S");
    let b = with_option(b, "GTK", false, "SINGLE", "S");
    let mut g = graph(vec![a, b], &["lang/a", "lang/b"]);
    g.enroll("php", "lang/a");
    g.enroll("php", "lang/b");
    assert_eq!(g.adopt_group_options("php", "lang/b"), 2);
    let on: Vec<&str> = ["OWN", "ONE", "TWO", "QT", "GTK"]
        .into_iter()
        .filter(|n| is_on(&g, "lang/b", n))
        .collect();
    assert_eq!(on, vec!["ONE", "QT"]);
}

/// Every row that stands for something is found again by its anchor, and falls
/// to its port once all is closed.
#[test]
fn anchors_find_their_rows() {
    let app = plain(port("www/app"), "SSL", true);
    let app = with_dep(app, "devel/lib", Some("SSL"), Polarity::On);
    let app = with_dep(app, "devel/other", None, Polarity::On);
    let mut g = graph(vec![app, port("devel/lib"), port("devel/other")], &["www/app"]);
    let rows = g.visible_rows.len();
    let mut anchors = Vec::new();
    for row in 0..rows {
        let anchor = g.anchor_at(row).unwrap();
        if !matches!(g.visible_rows[row].node_id, NodeId::Ref | NodeId::Info) {
            assert_eq!(g.row_of_anchor(&anchor), Some(row));
        }
        anchors.push((anchor, g.enclosing_port(row).unwrap()));
    }
    g.collapse_all();
    for (anchor, port) in anchors {
        let at = g.row_of_anchor(&anchor).unwrap();
        assert!(matches!(g.visible_rows[at].node_id, NodeId::Port(p) if p == port));
    }
}

/// A change is one only while it differs from what was loaded, on a port that is
/// pulled in.
#[test]
fn a_change_can_be_taken_back() {
    let app = plain(port("www/app"), "SSL", true);
    let app = with_dep(app, "devel/lib", Some("SSL"), Polarity::On);
    let lib = plain(port("devel/lib"), "DOCS", true);
    let mut g = graph(vec![app, lib], &["www/app"]);
    assert!(!g.is_dirty());
    g.toggle_option(row_of(&g, "www/app", "SSL"));
    assert!(g.is_dirty() && !g.is_live("devel/lib"));
    g.set_option_state("devel/lib", "DOCS", false);
    g.toggle_option(row_of(&g, "www/app", "SSL"));
    assert!(g.is_dirty() && g.is_live("devel/lib"), "the choice made meanwhile counts again");
    g.toggle_option(row_of(&g, "devel/lib", "DOCS"));
    assert!(!g.is_dirty());
}

/// The files of an export read back as what is set, in whichever order they are
/// read, and say nothing of a port that is not pulled in.
#[test]
fn all_files_read_back_in_any_order() {
    let app = plain(plain(port("www/app"), "SSL", true), "DOCS", false);
    let app = with_dep(app, "devel/lib", Some("DOCS"), Polarity::On);
    let app = with_dep(app, "net/tool", None, Polarity::On);
    let lib = plain(port("devel/lib"), "DOCS", true);
    let tool = plain(port("net/tool"), "IPV6", false);
    let g = graph(vec![app, lib, tool], &["www/app"]);
    let files = option_files(&g);
    for backwards in [false, true] {
        let mut saved = SystemOptions::default();
        let mut order: Vec<usize> = (0..files.len()).collect();
        if backwards {
            order.reverse();
        }
        for n in order {
            saved.read_port_file(&files[n].folder, &files[n].content);
        }
        for shipped in [false, true] {
            assert!(saved.get_state("www/app", "SSL", shipped));
            assert!(!saved.get_state("www/app", "DOCS", shipped));
            assert!(!saved.get_state("net/tool", "IPV6", shipped));
            assert_eq!(saved.get_state("devel/lib", "DOCS", shipped), shipped);
        }
    }
}

/// Two options of one name that are set alike read back as they are set.
#[test]
fn options_of_one_name_read_back() {
    let app = plain(plain(plain(port("www/app"), "SSL", true), "DOCS", false), "SSL", true);
    let g = graph(vec![app], &["www/app"]);
    let files = option_files(&g);
    assert_eq!(files.len(), 1);
    let mut saved = SystemOptions::default();
    saved.read_port_file(&files[0].folder, &files[0].content);
    for shipped in [false, true] {
        assert!(saved.get_state("www/app", "SSL", shipped));
        assert!(!saved.get_state("www/app", "DOCS", shipped));
    }
}
