//! Where each setting comes from, and what a list of ports names.

use bgone::cli::{first_set, parse_ports_list, Cli, Derived, Spec, Typed};
use bgone::config::Config;
use bgone::poudriere::Poudriere;

fn texts(items: &[&str]) -> Vec<String> {
    items.iter().map(|s| s.to_string()).collect()
}

/// A command line on which nothing was given.
fn bare() -> Cli {
    Cli {
        command: None,
        config: None,
        db_path: "bgone_cache.db".to_string(),
        ports_dir: "/usr/ports".to_string(),
        jail_arch: None,
        osversion: None,
        opsys: None,
        osrel: None,
        options_dir: "/var/db/ports".to_string(),
        make_conf: None,
        dry_run: false,
        force_reset: false,
        ignore_missing: false,
        file: None,
        poudriere_etc: "/usr/local/etc".to_string(),
        poudriere_jail: None,
        poudriere_ports: None,
        poudriere_set: None,
        poudriere_optionsdir: None,
        origins: Vec::new(),
    }
}

fn nothing_typed() -> Typed {
    Typed {
        db_path: false,
        ports_dir: false,
        jail_arch: false,
        osversion: false,
        opsys: false,
        osrel: false,
        options_dir: false,
        make_conf: false,
        dry_run: false,
        force_reset: false,
        ignore_missing: false,
        file: false,
        origins: false,
    }
}

fn resolved(mut cli: Cli, typed: Typed, config: Config) -> Cli {
    cli.resolve(typed, Some(&config), &None, &None);
    cli
}

#[test]
fn test_ports_file_parses_mixed_delimiters_and_comments() {
    let origins = parse_ports_list(
        "# Core infrastructure\n\
         www/apache24, databases/postgresql16-server  lang/python311 # inline comment\n\
         \n\
         \t# Wildcards\n\
         www/py-*,\tnet/curl\n",
    );

    assert_eq!(
        origins,
        vec![
            "www/apache24",
            "databases/postgresql16-server",
            "lang/python311",
            "www/py-*",
            "net/curl",
        ]
    );
}

#[test]
fn test_collect_targets_merges_positional_origins_with_file_entries() {
    let mut cli = bare();
    cli.origins = texts(&["www/apache24"]);
    cli.file = Some("ports.txt".to_string());
    let targets = cli.collect_targets(&Some("net/curl\nwww/py-*\n".to_string()));

    assert_eq!(
        targets,
        vec![
            "www/apache24".to_string(),
            "net/curl".to_string(),
            "www/py-*".to_string(),
        ]
    );
}

#[test]
fn test_collect_targets_without_file_returns_positional_origins() {
    let mut cli = bare();
    cli.origins = texts(&["www/apache24", "net/curl"]);
    assert_eq!(
        cli.collect_targets(&None),
        vec!["www/apache24".to_string(), "net/curl".to_string()]
    );
}

#[test]
fn test_ports_list_ignores_fully_commented_and_blank_content() {
    assert!(parse_ports_list("# nothing here\n\n   \n#more\n").is_empty());
}

/// The three-way rule: a default applies when nothing else speaks, the config
/// beats the default, and an explicitly-passed argument beats the config.
#[test]
fn test_config_sits_between_defaults_and_explicit_arguments() {
    let config = || Config { options_dir: Some("/from/config".to_string()), ..Config::default() };

    // Nothing set anywhere: the built-in default stands
    let cli = resolved(bare(), nothing_typed(), Config::default());
    assert_eq!(cli.options_dir, "/var/db/ports");

    // Config speaks, the command line does not
    assert_eq!(resolved(bare(), nothing_typed(), config()).options_dir, "/from/config");

    // Both speak: the command line wins
    let cli = Cli { options_dir: "/from/cli".to_string(), ..bare() };
    let typed = Typed { options_dir: true, ..nothing_typed() };
    assert_eq!(resolved(cli, typed, config()).options_dir, "/from/cli");
}

/// Flags go through the same rule.
#[test]
fn test_a_boolean_flag_follows_the_same_precedence() {
    let config = |on: Option<bool>| Config { ignore_missing: on, ..Config::default() };
    assert!(!resolved(bare(), nothing_typed(), config(None)).ignore_missing, "default is off");
    assert!(resolved(bare(), nothing_typed(), config(Some(true))).ignore_missing);

    let cli = Cli { ignore_missing: true, ..bare() };
    let typed = Typed { ignore_missing: true, ..nothing_typed() };
    assert!(
        resolved(cli, typed, config(Some(false))).ignore_missing,
        "passing the flag beats a config that turns it off"
    );
}

/// A config is a delta: whatever it omits keeps whatever it would otherwise
/// have had, and omission is never itself an error.
#[test]
fn test_a_partial_config_leaves_everything_else_alone() {
    let config = Config { ignore_missing: Some(true), ..Config::default() };
    let cli = resolved(bare(), nothing_typed(), config);

    assert!(cli.ignore_missing);
    assert_eq!(cli.options_dir, "/var/db/ports");
    assert_eq!(cli.db_path, "bgone_cache.db");
    assert!(cli.make_conf.is_none());
    assert!(cli.file.is_none());
    assert!(!cli.dry_run);
    assert!(cli.origins.is_empty());

    // ...and an entirely empty config changes nothing at all
    let cli = resolved(bare(), nothing_typed(), Config::default());
    assert_eq!(cli.options_dir, bare().options_dir);
}

/// `origins` and `--file` are separate arguments, so a config supplying one and
/// a command line supplying the other leaves both in play.
#[test]
fn test_config_origins_and_command_line_file_both_apply() {
    let config = || Config { origins: Some(texts(&["www/nginx"])), ..Config::default() };

    let cli = Cli { file: Some("/cli/list".to_string()), ..bare() };
    let typed = Typed { file: true, ..nothing_typed() };
    let cli = resolved(cli, typed, config());
    assert_eq!(cli.origins, vec!["www/nginx"]);
    assert_eq!(cli.file, Some("/cli/list".to_string()));

    // Explicit origins replace the config's rather than appending to them
    let cli = Cli { origins: texts(&["www/apache24"]), ..bare() };
    let typed = Typed { origins: true, ..nothing_typed() };
    assert_eq!(resolved(cli, typed, config()).origins, vec!["www/apache24"]);
}

/// `ports_dir` resolves the same for a preheat and for a configure run.
#[test]
fn test_config_reaches_the_ports_dir_on_either_side_of_the_subcommand() {
    let config = || Config { ports_dir: Some("/from/config".to_string()), ..Config::default() };
    assert_eq!(resolved(bare(), nothing_typed(), config()).ports_dir, "/from/config");

    let configuring = Cli { origins: texts(&["www/nginx"]), ..bare() };
    let typed = Typed { origins: true, ..nothing_typed() };
    assert_eq!(resolved(configuring, typed, config()).ports_dir, "/from/config");

    let explicit = Cli { ports_dir: "/from/cli".to_string(), ..bare() };
    let typed = Typed { ports_dir: true, ..nothing_typed() };
    assert_eq!(resolved(explicit, typed, config()).ports_dir, "/from/cli");
}

/// What each side names of poudriere.
#[test]
fn a_spec_holds_what_was_named() {
    assert!(!bare().spec().is_given());
    let cli = Cli { poudriere_set: Some("www".to_string()), ..bare() };
    assert!(cli.spec().is_given());
    assert_eq!(cli.spec().set, Some("www".to_string()));

    let config = Config { poudriere_ports: Some("HEAD".to_string()), ..Config::default() };
    assert!(config.spec().is_given());
    assert_eq!(config.spec().tree, Some("HEAD".to_string()));
    assert!(!Config::default().spec().is_given());
}

/// Nothing named, nothing derived, whether or not poudriere is there.
#[test]
fn nothing_named_derives_nothing() {
    let spec = Spec { jail: None, tree: None, set: None, optionsdir: None };
    let p = Poudriere::new("/usr/local/etc");
    assert!(bgone::cli::derive(&p, false, &spec, None, None).unwrap().is_none());
    assert!(bgone::cli::derive(&p, true, &spec, None, None).unwrap().is_none());
}

/// The directory named outright wins over the one composed.
#[test]
fn an_options_directory_named_outright_is_taken() {
    let spec = Spec {
        jail: None,
        tree: Some("HEAD".to_string()),
        set: None,
        optionsdir: Some("mine".to_string()),
    };
    let p = Poudriere::new("/etc");
    let derived = bgone::cli::derive(&p, true, &spec, None, Some("/ports".to_string())).unwrap().unwrap();
    assert_eq!(derived.options_dir.as_deref(), Some("/etc/poudriere.d/mine-options"));
    assert_eq!(derived.ports_dir.as_deref(), Some("/ports"));
    assert_eq!(derived.jail_arch, None);
}

/// The first that says anything is taken.
#[test]
fn the_first_that_is_set_wins() {
    let t = |s: &str| Some(s.to_string());
    assert_eq!(first_set(t("a"), t("b"), t("c"), t("d")), t("a"));
    assert_eq!(first_set(None, None, t("c"), t("d")), t("c"));
    assert_eq!(first_set(None, None, None, None), None);
}

/// What was typed is kept whatever the config and poudriere say.
#[test]
fn what_was_typed_is_kept() {
    let mut cli = Cli {
        jail_arch: Some("i386".to_string()),
        db_path: "mine.db".to_string(),
        ..bare()
    };
    let typed = Typed { jail_arch: true, db_path: true, ..nothing_typed() };
    let config = Config {
        jail_arch: Some("arm64".to_string()),
        db_path: Some("its.db".to_string()),
        ..Config::default()
    };
    let derived = Some(Derived {
        jail_arch: Some("amd64".to_string()),
        osversion: Some("1404000".to_string()),
        osrel: None,
        ports_dir: None,
        options_dir: None,
    });
    cli.resolve(typed, Some(&config), &derived, &None);
    assert_eq!(cli.jail_arch.as_deref(), Some("i386"));
    assert_eq!(cli.db_path, "mine.db");
    assert_eq!(cli.osversion.as_deref(), Some("1404000"));
}
