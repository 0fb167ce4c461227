//! Reading poudriere's configuration, and how it feeds argument resolution.

use bgone::cli::{Cli, Derived, Typed};
use bgone::config::Config;
use bgone::poudriere::{
    attr_value, freebsd_version, header_path, JailFiles, Poudriere, PoudriereError,
};

fn t(s: &str) -> Option<String> {
    Some(s.to_string())
}

fn names(items: &[&str]) -> Vec<String> {
    items.iter().map(|s| s.to_string()).collect()
}

fn header(version: &str) -> String {
    format!("/* param.h */\n#undef __FreeBSD_version\n#define __FreeBSD_version {version}\n")
}

fn jail_files(arch: &str, version: &str, osversion: &str) -> JailFiles {
    JailFiles {
        arch: t(&format!("{arch}\n")),
        version: t(&format!("{version}\n")),
        mnt: t("/jails/it\n"),
        header: Some(header(osversion)),
    }
}

fn release() -> JailFiles {
    jail_files("amd64.amd64", "14.4-RELEASE", "1404000")
}

#[test]
fn a_jails_facts_come_out_in_the_forms_the_ports_framework_wants() {
    let p = Poudriere::new("/usr/local/etc");
    let facts = p.jail("freebsd_14-4x64", &names(&["freebsd_14-4x64"]), &release()).unwrap();

    // `arch` is stored host.target; what a port is built *for* is the target.
    assert_eq!(facts.arch, "amd64");
    // OSREL drops everything from the first '-', per bsd.port.mk:1152.
    assert_eq!(facts.osrel, "14.4");
    // OSVERSION is not a stored property at all — it comes from the jail's
    // own param.h, the same file bsd.port.mk reads.
    assert_eq!(facts.osversion, "1404000");
    assert_eq!(facts.mnt, "/jails/it");
}

/// A cross-built jail stores two different halves; the second is the one that
/// matters.
#[test]
fn a_cross_jail_resolves_to_its_target_architecture() {
    let p = Poudriere::new("/usr/local/etc");
    let files = jail_files("amd64.aarch64", "14.4-RELEASE", "1404000");
    let facts = p.jail("arm64", &names(&["arm64"]), &files).unwrap();
    assert_eq!(
        facts.arch, "aarch64",
        "the host half is not what we build for"
    );
}

#[test]
fn a_ports_tree_resolves_to_its_mount_point() {
    let p = Poudriere::new("/usr/local/etc");
    assert_eq!(
        p.ports_dir("HEAD", &names(&["HEAD"]), &t("/mnt/HEAD\n")).unwrap(),
        "/mnt/HEAD"
    );
}

/// The non-empty of (jail, tree, set) joined with '-', then '-options'.
#[test]
fn the_options_directory_is_composed_exactly_as_poudriere_composes_it() {
    let p = Poudriere::new("/usr/local/etc");
    let d = |name: &str| format!("/usr/local/etc/poudriere.d/{name}");

    assert_eq!(p.options_dir(&None, &None, &None), d("options"));
    assert_eq!(p.options_dir(&t("j"), &None, &None), d("j-options"));
    // Tree alone: what survives replacing a jail.
    assert_eq!(p.options_dir(&None, &t("HEAD"), &None), d("HEAD-options"));
    assert_eq!(p.options_dir(&t("j"), &t("HEAD"), &None), d("j-HEAD-options"));
    assert_eq!(
        p.options_dir(&t("j"), &t("HEAD"), &t("s")),
        d("j-HEAD-s-options")
    );
    assert_eq!(
        p.options_dir(&None, &t("HEAD"), &t("s")),
        d("HEAD-s-options")
    );
    // The `-o` escape hatch names it outright.
    assert_eq!(p.named_options_dir("custom"), d("custom-options"));
}

/// Naming a jail that is not there is an error, and the message says what is.
#[test]
fn an_unknown_jail_names_the_ones_that_exist() {
    let p = Poudriere::new("/usr/local/etc");
    let found = names(&["freebsd_14-4x64"]);
    let err = p.jail("typo", &found, &release()).unwrap_err().message();
    assert!(err.contains("typo"), "{err}");
    assert!(
        err.contains("freebsd_14-4x64"),
        "should list what is configured: {err}"
    );
}

#[test]
fn an_unknown_ports_tree_names_the_ones_that_exist() {
    let p = Poudriere::new("/usr/local/etc");
    let err = p.ports_dir("nope", &names(&["HEAD"]), &None).unwrap_err().message();
    assert!(err.contains("nope") && err.contains("HEAD"), "{err}");
}

/// A jail recorded but not mounted. OSVERSION could be computed back from the
/// release, but inferring it would be a guess, and a wrong OSVERSION silently
/// changes which options a port defines.
#[test]
fn a_jail_without_readable_headers_is_an_error_naming_the_file() {
    let p = Poudriere::new("/usr/local/etc");
    let files = JailFiles { header: None, ..release() };
    let err = p.jail("unbuilt", &names(&["unbuilt"]), &files).unwrap_err().message();
    assert!(err.contains("param.h"), "{err}");
    assert!(
        err.contains("--osversion"),
        "should say how to proceed: {err}"
    );
}

/// What a jail does not record is named.
#[test]
fn a_jail_that_lacks_a_property_is_an_error_naming_it() {
    let p = Poudriere::new("/usr/local/etc");
    let found = names(&["j"]);
    let blank = t(" \n");
    let missing = [
        (JailFiles { arch: None, ..release() }, "arch"),
        (JailFiles { version: blank.clone(), ..release() }, "version"),
        (JailFiles { mnt: blank.clone(), ..release() }, "mount point"),
        (JailFiles { header: t("nothing\n"), ..release() }, "__FreeBSD_version"),
    ];
    for (files, what) in missing {
        let err = p.jail("j", &found, &files).unwrap_err().message();
        assert!(err.contains(what), "{err}");
    }
    let err = p.ports_dir("HEAD", &names(&["HEAD"]), &None).unwrap_err();
    assert!(matches!(err, PoudriereError::NoTreeMount { .. }));
    assert!(err.message().contains("HEAD"), "{}", err.message());
}

#[test]
fn the_pieces_of_the_store_are_read_as_they_stand() {
    let p = Poudriere::new("/etc");
    assert_eq!(p.root(), "/etc/poudriere.d");
    assert_eq!(p.attr_path("jails", "j", "arch"), "/etc/poudriere.d/jails/j/arch");
    assert_eq!(header_path("/jails/j"), "/jails/j/usr/include/sys/param.h");
    assert_eq!(attr_value(&t("  amd64\n")), t("amd64"));
    assert_eq!(attr_value(&t("\n")), None);
    assert_eq!(attr_value(&None), None);
    assert_eq!(freebsd_version(&header("1500012")), t("1500012"));
    assert_eq!(freebsd_version("#define __FreeBSD_version\n"), None);
    assert_eq!(p.jails(&names(&["b", "a"])), names(&["a", "b"]));
    assert_eq!(p.trees(&names(&["t2", "t1"])), names(&["t1", "t2"]));
}

fn bare(etc: &str) -> Cli {
    Cli {
        command: None,
        config: None,
        db_path: "bgone_cache.db".to_string(),
        ports_dir: "/usr/ports".to_string(),
        jail_arch: None,
        osversion: None,
        opsys: None,
        osrel: None,
        options_dir: "/var/db/ports".to_string(),
        make_conf: None,
        dry_run: false,
        force_reset: false,
        ignore_missing: false,
        file: None,
        poudriere_etc: etc.to_string(),
        poudriere_jail: None,
        poudriere_ports: None,
        poudriere_set: None,
        poudriere_optionsdir: None,
        origins: Vec::new(),
    }
}

fn nothing_typed() -> Typed {
    Typed {
        db_path: false,
        ports_dir: false,
        jail_arch: false,
        osversion: false,
        opsys: false,
        osrel: false,
        options_dir: false,
        make_conf: false,
        dry_run: false,
        force_reset: false,
        ignore_missing: false,
        file: false,
        origins: false,
    }
}

/// What a spec derives on a host with one jail and one tree.
fn derived(etc: &str, spec: &bgone::cli::Spec) -> Option<Derived> {
    let p = Poudriere::new(etc);
    let jail = spec
        .jail
        .as_ref()
        .map(|name| p.jail(name, &names(&["freebsd_14-4x64"]), &release()).unwrap());
    let ports = spec
        .tree
        .as_ref()
        .map(|tree| p.ports_dir(tree, &names(&["HEAD"]), &t("/etc/ports-mnt/HEAD")).unwrap());
    bgone::cli::derive(&p, true, spec, jail, ports).unwrap()
}

fn resolved(mut cli: Cli, typed: Typed, config: Option<&Config>) -> Cli {
    let of_cli = derived("/etc", &cli.spec());
    let of_config = config.and_then(|c| derived("/etc", &c.spec()));
    cli.resolve(typed, config, &of_cli, &of_config);
    cli
}

/// Tier 2 over tier 5: naming a jail fills in what you would otherwise type.
#[test]
fn naming_a_jail_supplies_the_resolution_target() {
    let cli = Cli {
        poudriere_jail: t("freebsd_14-4x64"),
        poudriere_ports: t("HEAD"),
        ..bare("/etc")
    };
    let cli = resolved(cli, nothing_typed(), None);

    assert_eq!(cli.jail_arch.as_deref(), Some("amd64"));
    assert_eq!(cli.osversion.as_deref(), Some("1404000"));
    assert_eq!(cli.ports_dir, "/etc/ports-mnt/HEAD");
}

/// Tier 1 over tier 2: an explicit argument beats what the jail says.
#[test]
fn a_typed_argument_beats_the_jail_it_would_have_come_from() {
    let cli = Cli {
        poudriere_jail: t("freebsd_14-4x64"),
        jail_arch: t("i386"),
        osversion: t("1300000"),
        ..bare("/etc")
    };
    let typed = Typed { jail_arch: true, osversion: true, ..nothing_typed() };
    let cli = resolved(cli, typed, None);

    assert_eq!(cli.jail_arch.as_deref(), Some("i386"));
    assert_eq!(cli.osversion.as_deref(), Some("1300000"));
}

/// Tier 3 over tier 4: within the config file, what is written explicitly beats
/// what its own poudriere spec derives.
#[test]
fn an_explicit_config_setting_beats_the_configs_own_poudriere_spec() {
    let config = Config {
        poudriere_etc: t("/etc"),
        poudriere_jail: t("freebsd_14-4x64"),
        jail_arch: t("powerpc64"),
        ..Config::default()
    };
    let cli = resolved(bare("/etc"), nothing_typed(), Some(&config));

    assert_eq!(cli.jail_arch.as_deref(), Some("powerpc64"), "written beats derived");
    // Untouched by the explicit setting, so it still comes from the jail.
    assert_eq!(cli.osversion.as_deref(), Some("1404000"));
}

/// Tier 2 over tier 3, the one worth stating outright: a jail named on the
/// command line overrides a setting written in the config file. Naming a jail
/// at the prompt is deliberate, and command-line-beats-config is the rule that
/// stays predictable when the two interleave.
#[test]
fn a_jail_named_on_the_command_line_beats_an_explicit_config_setting() {
    let config = Config { jail_arch: t("powerpc64"), ..Config::default() };
    let cli = Cli { poudriere_jail: t("freebsd_14-4x64"), ..bare("/etc") };
    let cli = resolved(cli, nothing_typed(), Some(&config));

    assert_eq!(cli.jail_arch.as_deref(), Some("amd64"));
}

/// The options directory follows the same ladder, and naming only the tree
/// gives the tree-keyed directory that survives replacing a jail.
#[test]
fn the_options_directory_resolves_through_the_same_tiers() {
    let cli = Cli { poudriere_ports: t("HEAD"), ..bare("/etc") };
    let cli = resolved(cli, nothing_typed(), None);
    assert_eq!(cli.options_dir, "/etc/poudriere.d/HEAD-options");

    let cli = Cli {
        poudriere_ports: t("HEAD"),
        options_dir: "/elsewhere".to_string(),
        ..bare("/etc")
    };
    let typed = Typed { options_dir: true, ..nothing_typed() };
    assert_eq!(resolved(cli, typed, None).options_dir, "/elsewhere");
}

/// Mentioning poudriere at neither tier leaves everything exactly as it was.
#[test]
fn without_a_poudriere_spec_nothing_changes() {
    let cli = resolved(bare("/etc"), nothing_typed(), None);

    assert!(cli.jail_arch.is_none());
    assert!(cli.osversion.is_none());
    assert_eq!(cli.ports_dir, "/usr/ports");
}

/// Asking for poudriere where there is none is refused rather than ignored.
#[test]
fn a_poudriere_argument_on_a_host_without_poudriere_is_refused() {
    let cli = Cli { poudriere_jail: t("whatever"), ..bare("/nowhere") };
    let p = Poudriere::new("/nowhere");
    let err = bgone::cli::derive(&p, false, &cli.spec(), None, None).unwrap_err().message();
    assert!(err.contains("poudriere.d"), "{err}");
}
