//! The command line, and how each setting is found among what was typed, what
//! the config file says and what a poudriere spec implies.
use crate::config;
use crate::config::{Config, ConfigView};
use crate::poudriere;
use crate::poudriere::{JailFacts, JailView, Poudriere, PoudriereError, PoudriereErrorView};
use crate::path;
use crate::text;
use vstd::prelude::*;

verus! {

#[derive(Debug, PartialEq, Eq)]
pub enum Commands {
    /// Fill the cache ahead of time, so a later session starts warm.
    Index {
        /// Discard the cache before preheating.
        force: bool,
        /// Preheat every port in the tree rather than the targets given.
        all: bool,
        /// Ports to preheat.
        origins: Vec<String>,
    },
}

/// The arguments of a run.
#[derive(Debug)]
pub struct Cli {
    pub command: Option<Commands>,
    pub config: Option<String>,
    pub db_path: String,
    pub ports_dir: String,
    pub jail_arch: Option<String>,
    pub osversion: Option<String>,
    pub opsys: Option<String>,
    pub osrel: Option<String>,
    pub options_dir: String,
    pub make_conf: Option<String>,
    pub dry_run: bool,
    pub force_reset: bool,
    pub ignore_missing: bool,
    pub file: Option<String>,
    pub poudriere_etc: String,
    pub poudriere_jail: Option<String>,
    pub poudriere_ports: Option<String>,
    pub poudriere_set: Option<String>,
    pub poudriere_optionsdir: Option<String>,
    pub origins: Vec<String>,
}

/// What the settings of a run say.
pub struct CliView {
    pub command: Option<Commands>,
    pub config: Option<Seq<char>>,
    pub db_path: Seq<char>,
    pub ports_dir: Seq<char>,
    pub jail_arch: Option<Seq<char>>,
    pub osversion: Option<Seq<char>>,
    pub opsys: Option<Seq<char>>,
    pub osrel: Option<Seq<char>>,
    pub options_dir: Seq<char>,
    pub make_conf: Option<Seq<char>>,
    pub dry_run: bool,
    pub force_reset: bool,
    pub ignore_missing: bool,
    pub file: Option<Seq<char>>,
    pub poudriere_etc: Seq<char>,
    pub poudriere_jail: Option<Seq<char>>,
    pub poudriere_ports: Option<Seq<char>>,
    pub poudriere_set: Option<Seq<char>>,
    pub poudriere_optionsdir: Option<Seq<char>>,
    pub origins: Seq<Seq<char>>,
}

impl View for Cli {
    type V = CliView;

    open spec fn view(&self) -> CliView {
        CliView {
            command: self.command,
            config: text::opt_text(self.config),
            db_path: self.db_path@,
            ports_dir: self.ports_dir@,
            jail_arch: text::opt_text(self.jail_arch),
            osversion: text::opt_text(self.osversion),
            opsys: text::opt_text(self.opsys),
            osrel: text::opt_text(self.osrel),
            options_dir: self.options_dir@,
            make_conf: text::opt_text(self.make_conf),
            dry_run: self.dry_run,
            force_reset: self.force_reset,
            ignore_missing: self.ignore_missing,
            file: text::opt_text(self.file),
            poudriere_etc: self.poudriere_etc@,
            poudriere_jail: text::opt_text(self.poudriere_jail),
            poudriere_ports: text::opt_text(self.poudriere_ports),
            poudriere_set: text::opt_text(self.poudriere_set),
            poudriere_optionsdir: text::opt_text(self.poudriere_optionsdir),
            origins: text::texts(self.origins@),
        }
    }
}

/// Which arguments were given on the command line rather than left to their
/// defaults.
#[derive(Debug, Clone, Copy)]
pub struct Typed {
    pub db_path: bool,
    pub ports_dir: bool,
    pub jail_arch: bool,
    pub osversion: bool,
    pub opsys: bool,
    pub osrel: bool,
    pub options_dir: bool,
    pub make_conf: bool,
    pub dry_run: bool,
    pub force_reset: bool,
    pub ignore_missing: bool,
    pub file: bool,
    pub origins: bool,
}

/// What a poudriere spec names.
#[derive(Debug)]
pub struct Spec {
    pub jail: Option<String>,
    pub tree: Option<String>,
    pub set: Option<String>,
    pub optionsdir: Option<String>,
}

/// What a `Spec` says.
pub struct SpecView {
    pub jail: Option<Seq<char>>,
    pub tree: Option<Seq<char>>,
    pub set: Option<Seq<char>>,
    pub optionsdir: Option<Seq<char>>,
}

impl View for Spec {
    type V = SpecView;

    open spec fn view(&self) -> SpecView {
        SpecView {
            jail: text::opt_text(self.jail),
            tree: text::opt_text(self.tree),
            set: text::opt_text(self.set),
            optionsdir: text::opt_text(self.optionsdir),
        }
    }
}

/// Whether a spec names anything.
pub open spec fn names_something(s: SpecView) -> bool {
    s.jail is Some || s.tree is Some || s.set is Some || s.optionsdir is Some
}

impl Spec {
    /// Whether the spec names anything. Most runs mention poudriere nowhere.
    pub fn is_given(&self) -> (r: bool)
        ensures
            r == names_something(self@),
    {
        self.jail.is_some() || self.tree.is_some() || self.set.is_some()
            || self.optionsdir.is_some()
    }
}

/// What a poudriere spec resolves to, once what it names has been read.
#[derive(Debug)]
pub struct Derived {
    pub jail_arch: Option<String>,
    pub osversion: Option<String>,
    pub osrel: Option<String>,
    pub ports_dir: Option<String>,
    pub options_dir: Option<String>,
}

/// What a `Derived` says.
pub struct DerivedView {
    pub jail_arch: Option<Seq<char>>,
    pub osversion: Option<Seq<char>>,
    pub osrel: Option<Seq<char>>,
    pub ports_dir: Option<Seq<char>>,
    pub options_dir: Option<Seq<char>>,
}

impl View for Derived {
    type V = DerivedView;

    open spec fn view(&self) -> DerivedView {
        DerivedView {
            jail_arch: text::opt_text(self.jail_arch),
            osversion: text::opt_text(self.osversion),
            osrel: text::opt_text(self.osrel),
            ports_dir: text::opt_text(self.ports_dir),
            options_dir: text::opt_text(self.options_dir),
        }
    }
}

/// What a spec resolves to, given what its jail says and where its tree lives.
pub open spec fn derived_of(
    root: Seq<char>,
    spec: SpecView,
    jail: Option<JailView>,
    ports_dir: Option<Seq<char>>,
) -> DerivedView {
    DerivedView {
        jail_arch: match jail {
            Some(j) => Some(j.arch),
            None => None,
        },
        osversion: match jail {
            Some(j) => Some(j.osversion),
            None => None,
        },
        osrel: match jail {
            Some(j) => Some(j.osrel),
            None => None,
        },
        ports_dir,
        options_dir: Some(
            match spec.optionsdir {
                Some(name) => path::below(root, name + "-options"@),
                None => path::below(
                    root,
                    poudriere::options_name(spec.jail, spec.tree, spec.set),
                ),
            },
        ),
    }
}

/// What a jail that may not have been asked for says.
pub open spec fn opt_jail(jail: Option<JailFacts>) -> Option<JailView> {
    match jail {
        Some(j) => Some(j@),
        None => None,
    }
}

/// What one tier's poudriere spec resolves to: nothing where it names nothing,
/// and an error where poudriere is not there to be asked.
///
/// `jail` and `ports_dir` are what was read of the jail and the tree that the
/// spec names.
pub fn derive(
    poudriere: &Poudriere,
    available: bool,
    spec: &Spec,
    jail: Option<JailFacts>,
    ports_dir: Option<String>,
) -> (r: Result<Option<Derived>, PoudriereError>)
    ensures
        match r {
            Ok(None) => !names_something(spec@),
            Ok(Some(d)) => names_something(spec@) && available && d@ == derived_of(
                poudriere@,
                spec@,
                opt_jail(jail),
                text::opt_text(ports_dir),
            ),
            Err(e) => names_something(spec@) && !available && e@
                == (PoudriereErrorView::NotAvailable { root: poudriere@ }),
        },
{
    if !spec.is_given() {
        return Ok(None);
    }
    if !available {
        return Err(PoudriereError::NotAvailable { root: poudriere.root().to_owned() });
    }
    let options_dir = match &spec.optionsdir {
        Some(name) => poudriere.named_options_dir(name.as_str()),
        None => poudriere.options_dir(&spec.jail, &spec.tree, &spec.set),
    };
    Ok(
        Some(
            match jail {
                Some(j) => Derived {
                    jail_arch: Some(j.arch),
                    osversion: Some(j.osversion),
                    osrel: Some(j.osrel),
                    ports_dir,
                    options_dir: Some(options_dir),
                },
                None => Derived {
                    jail_arch: None,
                    osversion: None,
                    osrel: None,
                    ports_dir,
                    options_dir: Some(options_dir),
                },
            },
        ),
    )
}

/// The first of four that says anything.
pub open spec fn first_of(
    a: Option<Seq<char>>,
    b: Option<Seq<char>>,
    c: Option<Seq<char>>,
    d: Option<Seq<char>>,
) -> Option<Seq<char>> {
    if a is Some {
        a
    } else if b is Some {
        b
    } else if c is Some {
        c
    } else {
        d
    }
}

/// The first tier that says anything. Precedence is the order of the
/// candidates.
pub fn first_set(
    a: Option<String>,
    b: Option<String>,
    c: Option<String>,
    d: Option<String>,
) -> (r: Option<String>)
    ensures
        text::opt_text(r) == first_of(
            text::opt_text(a),
            text::opt_text(b),
            text::opt_text(c),
            text::opt_text(d),
        ),
{
    if a.is_some() {
        a
    } else if b.is_some() {
        b
    } else if c.is_some() {
        c
    } else {
        d
    }
}

/// What a config that may not be there sets.
pub open spec fn config_or_blank(config: Option<ConfigView>) -> ConfigView {
    match config {
        Some(c) => c,
        None => config::blank_config(),
    }
}

/// What a spec that may not be there resolves to.
pub open spec fn derived_or_blank(d: Option<DerivedView>) -> DerivedView {
    match d {
        Some(d) => d,
        None => DerivedView {
            jail_arch: None,
            osversion: None,
            osrel: None,
            ports_dir: None,
            options_dir: None,
        },
    }
}

/// A setting that always has a value: what was typed, else what the spec typed
/// on the command line implies, else what the config says, else what the spec
/// in the config implies, else the default.
pub open spec fn settled(
    current: Seq<char>,
    typed: bool,
    by_cli: Option<Seq<char>>,
    in_config: Option<Seq<char>>,
    by_config: Option<Seq<char>>,
) -> Seq<char> {
    match first_of(
        if typed {
            Some(current)
        } else {
            None
        },
        by_cli,
        in_config,
        by_config,
    ) {
        Some(v) => v,
        None => current,
    }
}

/// A setting that may have no value, by the same tiers.
pub open spec fn settled_opt(
    current: Option<Seq<char>>,
    typed: bool,
    by_cli: Option<Seq<char>>,
    in_config: Option<Seq<char>>,
    by_config: Option<Seq<char>>,
) -> Option<Seq<char>> {
    match first_of(
        if typed {
            current
        } else {
            None
        },
        by_cli,
        in_config,
        by_config,
    ) {
        Some(v) => Some(v),
        None => current,
    }
}

/// A setting that no spec implies.
pub open spec fn filled<T>(current: T, typed: bool, in_config: Option<T>) -> T {
    match in_config {
        Some(v) => if typed {
            current
        } else {
            v
        },
        None => current,
    }
}

/// A setting that no spec implies and that may have no value.
pub open spec fn filled_opt<T>(current: Option<T>, typed: bool, in_config: Option<T>) -> Option<T> {
    if in_config is Some && !typed {
        in_config
    } else {
        current
    }
}

/// The settings of a run, each found on its own.
pub open spec fn resolved(
    cli: CliView,
    typed: Typed,
    config: Option<ConfigView>,
    cli_spec: Option<DerivedView>,
    cfg_spec: Option<DerivedView>,
) -> CliView {
    let c = config_or_blank(config);
    let a = derived_or_blank(cli_spec);
    let b = derived_or_blank(cfg_spec);
    CliView {
        options_dir: settled(
            cli.options_dir,
            typed.options_dir,
            a.options_dir,
            c.options_dir,
            b.options_dir,
        ),
        ports_dir: settled(
            cli.ports_dir,
            typed.ports_dir,
            a.ports_dir,
            c.ports_dir,
            b.ports_dir,
        ),
        jail_arch: settled_opt(
            cli.jail_arch,
            typed.jail_arch,
            a.jail_arch,
            c.jail_arch,
            b.jail_arch,
        ),
        osversion: settled_opt(
            cli.osversion,
            typed.osversion,
            a.osversion,
            c.osversion,
            b.osversion,
        ),
        osrel: settled_opt(cli.osrel, typed.osrel, a.osrel, c.osrel, b.osrel),
        opsys: filled_opt(cli.opsys, typed.opsys, c.opsys),
        db_path: filled(cli.db_path, typed.db_path, c.db_path),
        make_conf: filled_opt(cli.make_conf, typed.make_conf, c.make_conf),
        file: filled_opt(cli.file, typed.file, c.file),
        origins: filled(cli.origins, typed.origins, c.origins),
        dry_run: filled(cli.dry_run, typed.dry_run, c.dry_run),
        force_reset: filled(cli.force_reset, typed.force_reset, c.force_reset),
        ignore_missing: filled(cli.ignore_missing, typed.ignore_missing, c.ignore_missing),
        ..cli
    }
}

/// Nothing that was typed on the command line is ever overridden.
pub proof fn what_was_typed_stays(
    cli: CliView,
    typed: Typed,
    config: Option<ConfigView>,
    cli_spec: Option<DerivedView>,
    cfg_spec: Option<DerivedView>,
)
    ensures
        ({
            let r = resolved(cli, typed, config, cli_spec, cfg_spec);
            &&& typed.options_dir ==> r.options_dir == cli.options_dir
            &&& typed.ports_dir ==> r.ports_dir == cli.ports_dir
            &&& typed.jail_arch && cli.jail_arch is Some ==> r.jail_arch == cli.jail_arch
            &&& typed.osversion && cli.osversion is Some ==> r.osversion == cli.osversion
            &&& typed.osrel && cli.osrel is Some ==> r.osrel == cli.osrel
            &&& typed.opsys ==> r.opsys == cli.opsys
            &&& typed.db_path ==> r.db_path == cli.db_path
            &&& typed.make_conf ==> r.make_conf == cli.make_conf
            &&& typed.file ==> r.file == cli.file
            &&& typed.origins ==> r.origins == cli.origins
            &&& typed.dry_run ==> r.dry_run == cli.dry_run
            &&& typed.force_reset ==> r.force_reset == cli.force_reset
            &&& typed.ignore_missing ==> r.ignore_missing == cli.ignore_missing
        }),
{
}

/// Whether a setting that a spec can imply is what the first tier says that
/// says anything.
pub open spec fn from_its_tier(
    got: Option<Seq<char>>,
    own: Option<Seq<char>>,
    typed: bool,
    by_cli: Option<Seq<char>>,
    in_config: Option<Seq<char>>,
    by_config: Option<Seq<char>>,
) -> bool {
    let open = !typed || own is None;
    &&& !open ==> got == own
    &&& open && by_cli is Some ==> got == by_cli
    &&& open && by_cli is None && in_config is Some ==> got == in_config
    &&& open && by_cli is None && in_config is None && by_config is Some ==> got == by_config
    &&& by_cli is None && in_config is None && by_config is None ==> got == own
}

/// What was typed comes before what the spec that was typed implies, that
/// before what the config sets, that before what the spec in the config
/// implies, and the default comes last. A setting that no spec implies is what
/// was typed, else what the config sets, else the default. What names the
/// config and the specs is left as it is.
pub proof fn the_first_tier_that_speaks_decides(
    cli: CliView,
    typed: Typed,
    c: ConfigView,
    a: DerivedView,
    b: DerivedView,
)
    ensures
        ({
            let r = resolved(cli, typed, Some(c), Some(a), Some(b));
            &&& from_its_tier(
                Some(r.options_dir),
                Some(cli.options_dir),
                typed.options_dir,
                a.options_dir,
                c.options_dir,
                b.options_dir,
            )
            &&& from_its_tier(
                Some(r.ports_dir),
                Some(cli.ports_dir),
                typed.ports_dir,
                a.ports_dir,
                c.ports_dir,
                b.ports_dir,
            )
            &&& from_its_tier(
                r.jail_arch,
                cli.jail_arch,
                typed.jail_arch,
                a.jail_arch,
                c.jail_arch,
                b.jail_arch,
            )
            &&& from_its_tier(
                r.osversion,
                cli.osversion,
                typed.osversion,
                a.osversion,
                c.osversion,
                b.osversion,
            )
            &&& from_its_tier(r.osrel, cli.osrel, typed.osrel, a.osrel, c.osrel, b.osrel)
            &&& !typed.opsys && c.opsys is Some ==> r.opsys == c.opsys
            &&& c.opsys is None ==> r.opsys == cli.opsys
            &&& !typed.make_conf && c.make_conf is Some ==> r.make_conf == c.make_conf
            &&& c.make_conf is None ==> r.make_conf == cli.make_conf
            &&& !typed.file && c.file is Some ==> r.file == c.file
            &&& c.file is None ==> r.file == cli.file
            &&& !typed.db_path && c.db_path is Some ==> Some(r.db_path) == c.db_path
            &&& c.db_path is None ==> r.db_path == cli.db_path
            &&& !typed.origins && c.origins is Some ==> Some(r.origins) == c.origins
            &&& c.origins is None ==> r.origins == cli.origins
            &&& !typed.dry_run && c.dry_run is Some ==> Some(r.dry_run) == c.dry_run
            &&& c.dry_run is None ==> r.dry_run == cli.dry_run
            &&& !typed.force_reset && c.force_reset is Some ==> Some(r.force_reset)
                == c.force_reset
            &&& c.force_reset is None ==> r.force_reset == cli.force_reset
            &&& !typed.ignore_missing && c.ignore_missing is Some ==> Some(r.ignore_missing)
                == c.ignore_missing
            &&& c.ignore_missing is None ==> r.ignore_missing == cli.ignore_missing
            &&& r.command == cli.command
            &&& r.config == cli.config
            &&& r.poudriere_etc == cli.poudriere_etc
            &&& r.poudriere_jail == cli.poudriere_jail
            &&& r.poudriere_ports == cli.poudriere_ports
            &&& r.poudriere_set == cli.poudriere_set
            &&& r.poudriere_optionsdir == cli.poudriere_optionsdir
        }),
{
}

/// What a spec implies: the architecture and the version of its jail, where
/// one is named, where its tree lives, and an options directory below the
/// root. One that is named is called so before `-options`.
pub proof fn a_spec_implies_what_it_names(
    root: Seq<char>,
    spec: SpecView,
    j: JailView,
    tree: Option<Seq<char>>,
)
    ensures
        ({
            let d = derived_of(root, spec, Some(j), tree);
            &&& d.jail_arch == Some(j.arch)
            &&& d.osversion == Some(j.osversion)
            &&& d.osrel == Some(j.osrel)
            &&& d.ports_dir == tree
            &&& spec.optionsdir matches Some(name) ==> d.options_dir == Some(
                path::below(root, name + "-options"@),
            )
            &&& spec.optionsdir is None && spec.jail is None && spec.tree is None && spec.set
                is None ==> d.options_dir == Some(path::below(root, "options"@))
        }),
        ({
            let d = derived_of(root, spec, None, tree);
            &&& d.jail_arch is None
            &&& d.osversion is None
            &&& d.osrel is None
            &&& d.ports_dir == tree
            &&& d.options_dir == derived_of(root, spec, Some(j), tree).options_dir
        }),
{
    if spec.jail is None && spec.tree is None && spec.set is None {
        poudriere::the_options_directory_is_named_by_what_is_given(None, None, None);
    }
}

/// A run without a config and without a spec is as it was typed.
pub proof fn nothing_given_changes_nothing(cli: CliView, typed: Typed)
    ensures
        resolved(cli, typed, None, None, None) == cli,
{
}

fn settle(
    current: &String,
    typed: bool,
    by_cli: Option<String>,
    in_config: Option<String>,
    by_config: Option<String>,
) -> (r: String)
    ensures
        r@ == settled(
            current@,
            typed,
            text::opt_text(by_cli),
            text::opt_text(in_config),
            text::opt_text(by_config),
        ),
{
    let first = if typed {
        Some(current.clone())
    } else {
        None
    };
    match first_set(first, by_cli, in_config, by_config) {
        Some(v) => v,
        None => current.clone(),
    }
}

fn settle_opt(
    current: &Option<String>,
    typed: bool,
    by_cli: Option<String>,
    in_config: Option<String>,
    by_config: Option<String>,
) -> (r: Option<String>)
    ensures
        text::opt_text(r) == settled_opt(
            text::opt_text(*current),
            typed,
            text::opt_text(by_cli),
            text::opt_text(in_config),
            text::opt_text(by_config),
        ),
{
    let first = if typed {
        text::copy_opt(current)
    } else {
        None
    };
    match first_set(first, by_cli, in_config, by_config) {
        Some(v) => Some(v),
        None => text::copy_opt(current),
    }
}

/// Sets a text to what the config says, unless it was typed.
fn fill(current: &mut String, typed: bool, in_config: &Option<String>)
    ensures
        final(current)@ == filled(old(current)@, typed, text::opt_text(*in_config)),
{
    if !typed {
        if let Some(v) = in_config {
            *current = v.clone();
        }
    }
}

/// Sets what may have no value to what the config says, unless it was typed.
fn fill_opt(current: &mut Option<String>, typed: bool, in_config: &Option<String>)
    ensures
        text::opt_text(*final(current)) == filled_opt(
            text::opt_text(*old(current)),
            typed,
            text::opt_text(*in_config),
        ),
{
    if !typed && in_config.is_some() {
        *current = text::copy_opt(in_config);
    }
}

/// Sets a flag to what the config says, unless it was typed.
fn fill_flag(current: &mut bool, typed: bool, in_config: Option<bool>)
    ensures
        *final(current) == filled(*old(current), typed, in_config),
{
    if !typed {
        if let Some(v) = in_config {
            *current = v;
        }
    }
}

/// Copies of what a spec resolves to, or of nothing.
fn copy_derived(d: &Option<Derived>) -> (r: Derived)
    ensures
        r@ == derived_or_blank(
            match *d {
                Some(x) => Some(x@),
                None => None,
            },
        ),
{
    match d {
        Some(x) => Derived {
            jail_arch: text::copy_opt(&x.jail_arch),
            osversion: text::copy_opt(&x.osversion),
            osrel: text::copy_opt(&x.osrel),
            ports_dir: text::copy_opt(&x.ports_dir),
            options_dir: text::copy_opt(&x.options_dir),
        },
        None => Derived {
            jail_arch: None,
            osversion: None,
            osrel: None,
            ports_dir: None,
            options_dir: None,
        },
    }
}

/// What a spec that may not be there resolves to.
pub open spec fn opt_derived(d: Option<Derived>) -> Option<DerivedView> {
    match d {
        Some(x) => Some(x@),
        None => None,
    }
}

/// What a config that may not be there says.
pub open spec fn opt_config(c: Option<&Config>) -> Option<ConfigView> {
    match c {
        Some(x) => Some(x@),
        None => None,
    }
}

impl Cli {
    /// Finds every setting among the five tiers, in order: what was typed; what
    /// a spec on the command line implies; what the config says; what a spec in
    /// the config implies; the default, which is in place already.
    pub fn resolve(
        &mut self,
        typed: Typed,
        config: Option<&Config>,
        cli_spec: &Option<Derived>,
        cfg_spec: &Option<Derived>,
    )
        ensures
            final(self)@ == resolved(
                old(self)@,
                typed,
                opt_config(config),
                opt_derived(*cli_spec),
                opt_derived(*cfg_spec),
            ),
    {
        let a = copy_derived(cli_spec);
        let b = copy_derived(cfg_spec);
        let blank = Config::default();
        let c = match config {
            Some(x) => x,
            None => &blank,
        };
        proof {
            assert(c@ == config_or_blank(opt_config(config)));
        }
        self.options_dir = settle(
            &self.options_dir,
            typed.options_dir,
            a.options_dir,
            text::copy_opt(&c.options_dir),
            b.options_dir,
        );
        self.ports_dir = settle(
            &self.ports_dir,
            typed.ports_dir,
            a.ports_dir,
            text::copy_opt(&c.ports_dir),
            b.ports_dir,
        );
        self.jail_arch = settle_opt(
            &self.jail_arch,
            typed.jail_arch,
            a.jail_arch,
            text::copy_opt(&c.jail_arch),
            b.jail_arch,
        );
        self.osversion = settle_opt(
            &self.osversion,
            typed.osversion,
            a.osversion,
            text::copy_opt(&c.osversion),
            b.osversion,
        );
        self.osrel = settle_opt(
            &self.osrel,
            typed.osrel,
            a.osrel,
            text::copy_opt(&c.osrel),
            b.osrel,
        );
        fill_opt(&mut self.opsys, typed.opsys, &c.opsys);
        self.apply_config(typed, c);
    }

    /// Applies the config to every argument that was not typed and that no
    /// spec implies.
    fn apply_config(&mut self, typed: Typed, c: &Config)
        ensures
            final(self)@ == (CliView {
                db_path: filled(old(self)@.db_path, typed.db_path, c@.db_path),
                make_conf: filled_opt(old(self)@.make_conf, typed.make_conf, c@.make_conf),
                file: filled_opt(old(self)@.file, typed.file, c@.file),
                origins: filled(old(self)@.origins, typed.origins, c@.origins),
                dry_run: filled(old(self)@.dry_run, typed.dry_run, c@.dry_run),
                force_reset: filled(old(self)@.force_reset, typed.force_reset, c@.force_reset),
                ignore_missing: filled(
                    old(self)@.ignore_missing,
                    typed.ignore_missing,
                    c@.ignore_missing,
                ),
                ..old(self)@
            }),
    {
        fill(&mut self.db_path, typed.db_path, &c.db_path);
        fill_opt(&mut self.make_conf, typed.make_conf, &c.make_conf);
        fill_opt(&mut self.file, typed.file, &c.file);
        if !typed.origins {
            if let Some(list) = &c.origins {
                self.origins = text::copy_texts(list);
            }
        }
        fill_flag(&mut self.dry_run, typed.dry_run, c.dry_run);
        fill_flag(&mut self.force_reset, typed.force_reset, c.force_reset);
        fill_flag(&mut self.ignore_missing, typed.ignore_missing, c.ignore_missing);
    }

    /// The poudriere spec of the command line.
    pub fn spec(&self) -> (r: Spec)
        ensures
            r@ == (SpecView {
                jail: self@.poudriere_jail,
                tree: self@.poudriere_ports,
                set: self@.poudriere_set,
                optionsdir: self@.poudriere_optionsdir,
            }),
    {
        Spec {
            jail: text::copy_opt(&self.poudriere_jail),
            tree: text::copy_opt(&self.poudriere_ports),
            set: text::copy_opt(&self.poudriere_set),
            optionsdir: text::copy_opt(&self.poudriere_optionsdir),
        }
    }

    /// Collects every requested target: the origins, then what the port-list
    /// file holds, if one was given. `content` is what was read of it.
    pub fn collect_targets(&self, content: &Option<String>) -> (r: Vec<String>)
        ensures
            text::texts(r@) == self@.origins + match *content {
                Some(c) => listed_in(c@),
                None => seq![],
            },
    {
        let mut targets = text::copy_texts(&self.origins);
        match content {
            Some(c) => {
                let listed = parse_ports_list(c.as_str());
                text::append(&mut targets, &listed);
            },
            None => {
                proof {
                    assert(self@.origins + Seq::<Seq<char>>::empty() =~= self@.origins);
                }
            },
        }
        targets
    }
}

impl Config {
    /// The poudriere spec of the config.
    pub fn spec(&self) -> (r: Spec)
        ensures
            r@ == (SpecView {
                jail: self@.poudriere_jail,
                tree: self@.poudriere_ports,
                set: self@.poudriere_set,
                optionsdir: self@.poudriere_optionsdir,
            }),
    {
        Spec {
            jail: text::copy_opt(&self.poudriere_jail),
            tree: text::copy_opt(&self.poudriere_ports),
            set: text::copy_opt(&self.poudriere_set),
            optionsdir: text::copy_opt(&self.poudriere_optionsdir),
        }
    }
}

/// A line without its comment, and with blanks for its commas.
pub open spec fn entries_line(line: Seq<char>) -> Seq<char> {
    let kept = line.take(text::find_from(line, '#', 0));
    Seq::new(
        kept.len(),
        |i: int|
            if kept[i] == ',' {
                ' '
            } else {
                kept[i]
            },
    )
}

/// The entries of the first `n` lines of a port list.
pub open spec fn entries_upto(lines: Seq<Seq<char>>, n: int) -> Seq<Seq<char>>
    decreases n,
{
    if n <= 0 {
        seq![]
    } else {
        entries_upto(lines, n - 1) + text::words_of(entries_line(lines[n - 1]))
    }
}

/// The entries of a port list: parted by commas or any whitespace, with `#`
/// starting a comment that runs to the end of its line.
pub open spec fn listed_in(content: Seq<char>) -> Seq<Seq<char>> {
    let lines = text::lines_of(content);
    entries_upto(lines, lines.len() as int)
}

fn line_entries(line: &str) -> (r: Vec<String>)
    ensures
        text::texts(r@) == text::words_of(entries_line(line@)),
{
    let v = text::chars_of(line);
    let k: usize = text::find_char(v.as_slice(), '#', 0);
    let ghost want = entries_line(line@);
    let mut kept: Vec<char> = Vec::new();
    let mut i: usize = 0;
    while i < k
        invariant
            i <= k <= v@.len(),
            k == text::find_from(v@, '#', 0),
            v@ == line@,
            want == entries_line(line@),
            kept@.len() == i,
            forall|j: int| 0 <= j < i ==> #[trigger] kept@[j] == want[j],
        decreases k - i,
    {
        kept.push(
            if v[i] == ',' {
                ' '
            } else {
                v[i]
            },
        );
        i += 1;
    }
    proof {
        assert(kept@ =~= want);
    }
    text::words(text::string_of(&kept).as_str())
}

/// Splits what a port-list file holds into single origins and patterns.
pub fn parse_ports_list(content: &str) -> (r: Vec<String>)
    ensures
        text::texts(r@) == listed_in(content@),
{
    let lines = text::lines(content);
    let ghost lv = text::texts(lines@);
    let mut out: Vec<String> = Vec::new();
    let mut n: usize = 0;
    proof {
        assert(text::texts(out@) =~= seq![]);
    }
    while n < lines.len()
        invariant
            n <= lines@.len(),
            lv == text::texts(lines@),
            text::texts(out@) == entries_upto(lv, n as int),
        decreases lines@.len() - n,
    {
        proof {
            assert(lv[n as int] == lines@[n as int]@);
        }
        let more = line_entries(lines[n].as_str());
        text::append(&mut out, &more);
        n += 1;
    }
    proof {
        assert(lv.len() == lines@.len());
    }
    out
}

} // verus!
