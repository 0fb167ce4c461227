use bgone::facts::Polarity;
use bgone::makeenv::MakeEnv;
use bgone::resolve::{
    parse_dep_entry, parse_reply, REASON_ABSOLUTE, REASON_EMPTY_ORIGIN, REASON_MALFORMED,
    REASON_UNEXPANDED, RS, US,
};

// ------------------------------------------------- the depends-entry grammar

/// The shapes a depends entry actually takes, and what bmake's own rule
/// makes of them.
#[test]
fn a_depends_entry_resolves_to_its_second_field() {
    let origin = |e: &str| parse_dep_entry(e).unwrap().0;

    // A library names the port after the colon.
    assert_eq!(origin("libpcre2-8.so:devel/pcre2"), "devel/pcre2");

    // A path in the first field is full of `word/word`, none of it a port.
    assert_eq!(
        origin("/usr/local/libexec/at-spi2-registryd:accessibility/at-spi2-core"),
        "accessibility/at-spi2-core"
    );

    // Version constraints belong to the first field and are not origins.
    assert_eq!(origin("p5-Net-DNS>=1.01:dns/p5-Net-DNS"), "dns/p5-Net-DNS");

    // A third field is a make target. `:?.*` discards it, and so do we.
    assert_eq!(origin("bison:devel/bison:build"), "devel/bison");

    // `+` and `.` are part of an origin.
    assert_eq!(
        origin("libsigc-2.0.so:devel/libsigc++20"),
        "devel/libsigc++20"
    );

    // `audio/mpg123` is another port than this one.
    assert_eq!(origin("mpg123.el>0:audio/mpg123.el"), "audio/mpg123.el");
}

/// An empty flavour is missing information, not a broken entry.
#[test]
fn a_trailing_empty_flavour_keeps_the_dependency() {
    assert_eq!(
        parse_dep_entry("pyxdg>0:devel/py-pyxdg@").unwrap(),
        ("devel/py-pyxdg".to_string(), None)
    );
}

#[test]
fn a_flavour_is_kept_apart_from_the_origin() {
    assert_eq!(
        parse_dep_entry("foo:devel/py-setuptools@py311").unwrap(),
        ("devel/py-setuptools".to_string(), Some("py311".to_string()))
    );
    assert_eq!(
        parse_dep_entry("foo:devel/plain").unwrap(),
        ("devel/plain".to_string(), None)
    );
}

/// Refused rather than interpreted. Each of these means the port is wrong or
/// unresolvable in this configuration, and guessing would put an edge
/// somewhere arbitrary.
#[test]
fn entries_that_name_no_port_are_refused_with_a_reason() {
    // bsd.port.mk:4068 warns about this shape itself
    assert_eq!(
        parse_dep_entry("foo:/usr/ports/devel/bar"),
        Err(REASON_ABSOLUTE)
    );
    // make expands everything, so a survivor means the variable is unset
    assert_eq!(
        parse_dep_entry("foo:devel/${UNSET_VERSION}"),
        Err(REASON_UNEXPANDED)
    );
    assert_eq!(parse_dep_entry("no-colon-at-all"), Err(REASON_MALFORMED));
    // `libtdb.so:${SAMBA_TDB_PORT}` with the variable unset
    assert_eq!(parse_dep_entry("libtdb.so:"), Err(REASON_EMPTY_ORIGIN));
    // No colon at all: not a depends entry in the first place. This is what
    // a stray `\` merging two assignments produces — the swallowed
    // `JOSE_RUN_DEPENDS=` arrives as a word in the previous option's list.
    assert_eq!(parse_dep_entry("JOSE_RUN_DEPENDS="), Err(REASON_MALFORMED));
    assert_eq!(parse_dep_entry("test:@flavour"), Err(REASON_MALFORMED));
    assert_eq!(parse_dep_entry(""), Err(REASON_MALFORMED));
}

// ------------------------------------------------------------ reply parsing

fn reply(fields: &[(&str, &str)]) -> String {
    fields
        .iter()
        .map(|(k, v)| format!("{k}{US}{v}\n"))
        .collect()
}

fn record(items: &[(&str, &str)]) -> String {
    items
        .iter()
        .map(|(a, b)| format!("{a}{US}{b}{RS}"))
        .collect::<Vec<_>>()
        .join(" ")
}

#[test]
fn a_reply_becomes_options_with_their_grouping_and_defaults() {
    let text = reply(&[
        ("PKGNAME", "fontforge-20230101_2"),
        ("PKGBASE", "fontforge"),
        ("OPTIONS", "DOCS TANGO 2012 GTK3"),
        ("DEFAULTS", "DOCS TANGO GTK3"),
        (
            "DESC",
            &record(&[
                ("TANGO", "Tango theme"),
                // Descriptions are arbitrary text: spaces, punctuation,
                // apostrophes. This is why the separators are control
                // characters rather than anything printable.
                ("GTK3", "Include freetype's internal debugger, v2"),
            ]),
        ),
        ("GRP_SINGLE", &record(&[("THEME", "TANGO 2012")])),
        ("GRP_RADIO", &record(&[("GUI", "GTK3")])),
    ]);

    let facts = parse_reply("print/fontforge", &text, 0).unwrap();
    assert_eq!(facts.pkgname, "fontforge-20230101_2");
    assert_eq!(facts.options.len(), 4);

    let opt = |n: &str| facts.options.iter().find(|o| o.name == n).unwrap();
    assert_eq!(
        opt("GTK3").description,
        "Include freetype's internal debugger, v2"
    );
    assert_eq!(opt("TANGO").group_type, "SINGLE");
    assert_eq!(opt("TANGO").group_name, "THEME");
    assert_eq!(opt("GTK3").group_type, "RADIO");
    assert_eq!(opt("DOCS").group_type, "DEFINE");
    assert!(opt("DOCS").default_on);
    // A purely numeric option name is real — textproc/rxp has `8` and `16`,
    // and print/fontforge has `2012`.
    assert!(!opt("2012").default_on);
    assert_eq!(opt("2012").group_name, "THEME");
}

#[test]
fn both_dependency_polarities_are_read_with_their_class() {
    let text = reply(&[
        ("PKGNAME", "app-1.0"),
        ("OPTIONS", "SSL"),
        ("DEP_LIB", "libpcre2-8.so:devel/pcre2"),
        ("DEP_RUN", "bash:shells/bash"),
        (
            "OPTDEP_LIB_ON",
            &record(&[("SSL", "libssl.so:security/openssl")]),
        ),
        (
            "OPTDEP_RUN_OFF",
            &record(&[("SSL", "gnutls:security/gnutls")]),
        ),
    ]);

    let facts = parse_reply("www/app", &text, 0).unwrap();
    let find = |origin: &str| facts.deps.iter().find(|d| d.origin == origin).unwrap();

    assert_eq!(find("devel/pcre2").class, "LIB");
    assert!(find("devel/pcre2").via_option.is_none());
    assert_eq!(find("shells/bash").class, "RUN");

    assert_eq!(find("security/openssl").via_option.as_deref(), Some("SSL"));
    assert_eq!(find("security/openssl").polarity, Polarity::On);

    // The `_OFF` form
    assert_eq!(find("security/gnutls").polarity, Polarity::Off);
    assert_eq!(find("security/gnutls").class, "RUN");
}

#[test]
fn implications_and_conflicts_are_read() {
    let text = reply(&[
        ("PKGNAME", "nginx-1.0"),
        ("OPTIONS", "NJS STREAM HTTP DEBUG"),
        ("IMPLIES", &record(&[("NJS", "STREAM HTTP")])),
        ("PREVENTS", &record(&[("DEBUG", "STREAM")])),
    ]);

    let facts = parse_reply("www/nginx", &text, 0).unwrap();
    let opt = |n: &str| facts.options.iter().find(|o| o.name == n).unwrap();
    assert_eq!(opt("NJS").implies, vec!["STREAM", "HTTP"]);
    assert_eq!(opt("DEBUG").prevents, vec!["STREAM"]);
    assert!(opt("HTTP").implies.is_empty());
}

/// An entry make could not resolve is recorded, not dropped.
#[test]
fn unresolvable_entries_are_carried_out_of_the_reply() {
    let text = reply(&[
        ("PKGNAME", "app-1.0"),
        ("OPTIONS", ""),
        ("DEP_LIB", "libfoo.so:devel/foo garbage /abs:/usr/ports/x/y"),
    ]);

    let facts = parse_reply("www/app", &text, 0).unwrap();
    assert_eq!(facts.deps.len(), 1);
    assert_eq!(facts.deps[0].origin, "devel/foo");
    assert_eq!(facts.unresolved.len(), 2);
    assert!(facts
        .unresolved
        .iter()
        .any(|u| u.reason == REASON_MALFORMED));
    assert!(facts.unresolved.iter().any(|u| u.reason == REASON_ABSOLUTE));
}

#[test]
fn an_empty_pkgname_is_an_error_rather_than_a_blank_port() {
    let text = reply(&[("PKGNAME", ""), ("OPTIONS", "A")]);
    assert!(parse_reply("www/app", &text, 0).is_err());
}

/// Every query is tagged, so a field that prints nothing cannot shift the
/// meaning of the ones after it.
#[test]
fn fields_are_matched_by_tag_not_by_position() {
    let text = reply(&[
        ("OPTIONS", "A B"),
        ("PKGNAME", "app-1.0"),
        ("DEFAULTS", "B"),
    ]);
    let facts = parse_reply("www/app", &text, 0).unwrap();
    assert_eq!(facts.pkgname, "app-1.0");
    assert_eq!(facts.options.len(), 2);
    assert!(
        facts
            .options
            .iter()
            .find(|o| o.name == "B")
            .unwrap()
            .default_on
    );
}

#[test]
fn the_resolved_target_is_named_for_the_cache_metadata() {
    let mut env = MakeEnv::new("/usr/ports");
    assert_eq!(env.describe_target(), "host");
    env.arch = Some("aarch64".into());
    env.osversion = Some("1404000".into());
    assert_eq!(env.describe_target(), "ARCH=aarch64 OSVERSION=1404000");

    // Where it came from, when it was not typed by hand
    env.via_jail = Some("freebsd_14-4x64".into());
    assert_eq!(
        env.describe_target(),
        "ARCH=aarch64 OSVERSION=1404000 (poudriere jail freebsd_14-4x64)"
    );
}
