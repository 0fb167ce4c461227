//! Which ports a tree holds, and what is remembered of them.

use bgone::facts::{DepEntry, OptionFacts, Polarity, PortFacts, Unresolved};
use bgone::indexer::{
    enumerate_ports, is_category, stale_origins, store_facts, CategoryDir, OriginNumbers, PortDir,
};
use bgone::makeenv::MakeEnv;
use bgone::oracle::{Oracle, Step};
use bgone::resolve::{
    failure_message, newest_makefile_mtime, queries, tagged, DirEntry, REASON_MALFORMED,
    REASON_NO_SUCH_PORT, US,
};

fn category(name: &str, ports: &[(&str, bool)]) -> CategoryDir {
    CategoryDir {
        name: name.to_string(),
        ports: ports
            .iter()
            .map(|(n, m)| PortDir { name: n.to_string(), has_makefile: *m })
            .collect(),
    }
}

#[test]
fn a_tree_holds_the_directories_with_a_makefile() {
    assert!(is_category("www"));
    assert!(!is_category(".git"));
    assert!(!is_category("Mk"));
    let tree = vec![
        category("www", &[("nginx", true), ("files", false)]),
        category("Mk", &[("Uses", true)]),
        category("devel", &[("git", true)]),
    ];
    assert_eq!(enumerate_ports(&tree), vec!["devel/git", "www/nginx"]);
}

#[test]
fn the_newest_makefile_is_what_counts() {
    let entry = |name: &str, mtime: Option<i64>| DirEntry { name: name.to_string(), mtime };
    let dir = vec![
        entry("distinfo", Some(99)),
        entry("Makefile", Some(5)),
        entry("Makefile.inc", Some(7)),
    ];
    assert_eq!(newest_makefile_mtime(&dir), Some(7));
    assert_eq!(newest_makefile_mtime(&vec![entry("distinfo", Some(99))]), None);
    assert_eq!(newest_makefile_mtime(&vec![entry("Makefile", None)]), None);
}

#[test]
fn a_failure_gives_the_first_line() {
    assert_eq!(failure_message("x/y", " one\ntwo\n"), "x/y: make failed: one");
    assert_eq!(failure_message("x/y", ""), "x/y: make failed: (no output)");
}

#[test]
fn every_query_is_tagged() {
    assert_eq!(tagged("K", "V"), format!("K{US}V"));
    let all = queries();
    assert!(all.iter().all(|q| q.contains(US)));
    assert!(all.iter().any(|q| q.starts_with("PKGNAME")));
}

/// A remembered reply is read; a port without one is evaluated, and what comes
/// of it is new.
#[test]
fn a_port_is_evaluated_only_where_nothing_is_remembered() {
    let oracle = Oracle::new(MakeEnv::new("/usr/ports"), "cache.db", true);
    assert_eq!(oracle.ports_dir(), "/usr/ports");
    assert_eq!(oracle.target(), "host");
    assert!(oracle.tree_readable());
    assert_eq!(oracle.on_age(Some(4)), Step::LookUp { mtime: 4 });
    assert_eq!(
        oracle.on_lookup(4, Some("r".to_string())),
        Step::Read { reply: "r".to_string(), mtime: 4, is_new: false }
    );
    assert_eq!(oracle.on_lookup(4, None), Step::Evaluate);
    assert_eq!(
        oracle.on_evaluated("r".to_string(), 4),
        Step::Read { reply: "r".to_string(), mtime: 4, is_new: true }
    );

    let away = Oracle::new(MakeEnv::new("/nowhere"), "cache.db", false);
    assert_eq!(away.on_age(None), Step::LookUpNewest);
    assert_eq!(
        away.on_newest(Some((9, "old".to_string()))),
        Step::Read { reply: "old".to_string(), mtime: 9, is_new: false }
    );
    assert_eq!(away.on_newest(None), Step::NotRemembered);

    let reply = format!("PKGNAME{US}app-1.0\nOPTIONS{US}A\n");
    let (facts, keep) = Oracle::read("www/app", &reply, 4, true);
    assert_eq!(facts.unwrap().pkgname, "app-1.0");
    assert!(keep);
    let (facts, keep) = Oracle::read("www/app", "", 4, true);
    assert!(facts.unwrap_err().message().contains("www/app"));
    assert!(!keep);
}

fn numbers(items: &[(&str, i64)]) -> OriginNumbers {
    let mut map = OriginNumbers::new();
    for (origin, n) in items {
        map.put(origin, *n);
    }
    map
}

/// An edge to a port that is not there is recorded rather than skipped, and an
/// edge from a port to itself is none.
#[test]
fn facts_become_rows() {
    let dep = |origin: &str, via: Option<&str>| DepEntry {
        origin: origin.to_string(),
        flavour: None,
        class: "LIB".to_string(),
        via_option: via.map(str::to_string),
        polarity: Polarity::On,
    };
    let facts = PortFacts {
        origin: "www/app".to_string(),
        pkgname: "app-1".to_string(),
        pkgbase: "app".to_string(),
        flavours: Vec::new(),
        options: vec![OptionFacts {
            name: "SSL".to_string(),
            description: String::new(),
            group_type: "DEFINE".to_string(),
            group_name: String::new(),
            default_on: true,
            implies: Vec::new(),
            prevents: Vec::new(),
        }],
        deps: vec![
            dep("devel/lib", Some("SSL")),
            dep("devel/gone", None),
            dep("www/app", None),
        ],
        unresolved: vec![Unresolved { raw_entry: "junk".to_string(), reason: REASON_MALFORMED }],
        source_mtime: 1,
    };
    let ids = numbers(&[("www/app", 7), ("devel/lib", 8)]);
    let plan = store_facts(&facts, &ids).unwrap();
    assert_eq!(plan.port_id, 7);
    assert_eq!(plan.edges.len(), 1);
    assert_eq!(plan.edges[0].to_id, 8);
    assert_eq!(plan.edges[0].via_option.as_deref(), Some("SSL"));
    let unresolved: Vec<(&str, &str)> = plan
        .unresolved
        .iter()
        .map(|u| (u.raw_entry.as_str(), u.reason))
        .collect();
    assert_eq!(unresolved, vec![("devel/gone", REASON_NO_SUCH_PORT), ("junk", REASON_MALFORMED)]);
    assert!(store_facts(&facts, &numbers(&[])).is_none());
}

#[test]
fn a_port_is_stale_once_its_makefiles_change() {
    let origins: Vec<String> = ["a/a", "b/b", "c/c", "d/d"].iter().map(|s| s.to_string()).collect();
    let cached = numbers(&[("a/a", 1), ("b/b", 1), ("d/d", 4)]);
    let on_disk = vec![Some(1), Some(2), Some(3), None];
    let (stale, fresh) = stale_origins(&cached, &origins, &on_disk);
    assert_eq!(stale, vec!["b/b", "c/c", "d/d"]);
    assert_eq!(fresh, 1);
}
