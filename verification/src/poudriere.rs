//! What poudriere's configuration says, so that a jail is named instead of
//! being transcribed: a store of one file per property, read as text.
use crate::order;
use crate::path;
use crate::text;
use crate::text::same;
use vstd::prelude::*;

verus! {

/// What a jail says about itself.
#[derive(Debug, Clone, PartialEq, Eq)]
pub struct JailFacts {
    /// The *target* architecture, e.g. `amd64`.
    pub arch: String,
    /// `14.4`, not `14.4-RELEASE`.
    pub osrel: String,
    /// `__FreeBSD_version`, read out of the jail's own headers.
    pub osversion: String,
    /// Where the jail is mounted.
    pub mnt: String,
}

/// What a `JailFacts` says.
pub struct JailView {
    pub arch: Seq<char>,
    pub osrel: Seq<char>,
    pub osversion: Seq<char>,
    pub mnt: Seq<char>,
}

impl View for JailFacts {
    type V = JailView;

    open spec fn view(&self) -> JailView {
        JailView {
            arch: self.arch@,
            osrel: self.osrel@,
            osversion: self.osversion@,
            mnt: self.mnt@,
        }
    }
}

/// Why poudriere's configuration does not say what was asked of it.
#[derive(Debug, PartialEq, Eq)]
pub enum PoudriereError {
    NoJail { name: String, known: Vec<String>, root: String },
    NoTree { name: String, known: Vec<String>, root: String },
    NoArch { jail: String },
    NoVersion { jail: String },
    NoJailMount { jail: String },
    NoTreeMount { tree: String },
    NoHeader { header: String },
    NoOsversion { header: String },
    /// A spec was given, but poudriere is not configured here.
    NotAvailable { root: String },
}

/// What a `PoudriereError` says.
pub enum PoudriereErrorView {
    NoJail { name: Seq<char>, known: Seq<Seq<char>>, root: Seq<char> },
    NoTree { name: Seq<char>, known: Seq<Seq<char>>, root: Seq<char> },
    NoArch { jail: Seq<char> },
    NoVersion { jail: Seq<char> },
    NoJailMount { jail: Seq<char> },
    NoTreeMount { tree: Seq<char> },
    NoHeader { header: Seq<char> },
    NoOsversion { header: Seq<char> },
    NotAvailable { root: Seq<char> },
}

impl View for PoudriereError {
    type V = PoudriereErrorView;

    open spec fn view(&self) -> PoudriereErrorView {
        match *self {
            PoudriereError::NoJail { name, known, root } => PoudriereErrorView::NoJail {
                name: name@,
                known: text::texts(known@),
                root: root@,
            },
            PoudriereError::NoTree { name, known, root } => PoudriereErrorView::NoTree {
                name: name@,
                known: text::texts(known@),
                root: root@,
            },
            PoudriereError::NoArch { jail } => PoudriereErrorView::NoArch { jail: jail@ },
            PoudriereError::NoVersion { jail } => PoudriereErrorView::NoVersion { jail: jail@ },
            PoudriereError::NoJailMount { jail } => PoudriereErrorView::NoJailMount { jail: jail@ },
            PoudriereError::NoTreeMount { tree } => PoudriereErrorView::NoTreeMount { tree: tree@ },
            PoudriereError::NoHeader { header } => PoudriereErrorView::NoHeader {
                header: header@,
            },
            PoudriereError::NoOsversion { header } => PoudriereErrorView::NoOsversion {
                header: header@,
            },
            PoudriereError::NotAvailable { root } => PoudriereErrorView::NotAvailable {
                root: root@,
            },
        }
    }
}

/// What is there, said to someone who asked for something that is not.
pub open spec fn suggestion(known: Seq<Seq<char>>, root: Seq<char>) -> Seq<char> {
    if known.len() == 0 {
        " (nothing configured under "@ + root + ")"@
    } else {
        "; configured: "@ + text::joined(known, ", "@)
    }
}

/// How an error is told.
pub open spec fn error_text(e: PoudriereErrorView) -> Seq<char> {
    match e {
        PoudriereErrorView::NoJail { name, known, root } => {
            "poudriere has no jail named '"@ + name + "'"@ + suggestion(known, root)
        },
        PoudriereErrorView::NoTree { name, known, root } => {
            "poudriere has no ports tree named '"@ + name + "'"@ + suggestion(known, root)
        },
        PoudriereErrorView::NoArch { jail } => "jail '"@ + jail + "' has no arch recorded"@,
        PoudriereErrorView::NoVersion { jail } => "jail '"@ + jail + "' has no version recorded"@,
        PoudriereErrorView::NoJailMount { jail } => {
            "jail '"@ + jail + "' has no mount point recorded"@
        },
        PoudriereErrorView::NoTreeMount { tree } => {
            "ports tree '"@ + tree + "' has no mount point recorded"@
        },
        PoudriereErrorView::NoHeader { header } => {
            "cannot read "@ + header
                + " — is the jail built and mounted? Pass --osversion to override"@
        },
        PoudriereErrorView::NoOsversion { header } => header + " defines no __FreeBSD_version"@,
        PoudriereErrorView::NotAvailable { root } => {
            "--poudriere-* was given but "@ + root
                + " does not exist. Drop the argument to configure without poudriere."@
        },
    }
}

fn suggest(known: &Vec<String>, root: &str) -> (r: String)
    ensures
        r@ == suggestion(text::texts(known@), root@),
{
    proof {
        assert(text::texts(known@).len() == known@.len());
    }
    if known.len() == 0 {
        text::concat3(" (nothing configured under ", root, ")")
    } else {
        text::concat2("; configured: ", text::join(known, ", ").as_str())
    }
}

impl PoudriereError {
    /// How this is told.
    pub fn message(&self) -> (r: String)
        ensures
            r@ == error_text(self@),
    {
        match self {
            PoudriereError::NoJail { name, known, root } => {
                let mut r = text::concat3("poudriere has no jail named '", name.as_str(), "'");
                r.append(suggest(known, root.as_str()).as_str());
                r
            },
            PoudriereError::NoTree { name, known, root } => {
                let mut r = text::concat3(
                    "poudriere has no ports tree named '",
                    name.as_str(),
                    "'",
                );
                r.append(suggest(known, root.as_str()).as_str());
                r
            },
            PoudriereError::NoArch { jail } => {
                text::concat3("jail '", jail.as_str(), "' has no arch recorded")
            },
            PoudriereError::NoVersion { jail } => {
                text::concat3("jail '", jail.as_str(), "' has no version recorded")
            },
            PoudriereError::NoJailMount { jail } => {
                text::concat3("jail '", jail.as_str(), "' has no mount point recorded")
            },
            PoudriereError::NoTreeMount { tree } => {
                text::concat3("ports tree '", tree.as_str(), "' has no mount point recorded")
            },
            PoudriereError::NoHeader { header } => {
                text::concat3(
                    "cannot read ",
                    header.as_str(),
                    " — is the jail built and mounted? Pass --osversion to override",
                )
            },
            PoudriereError::NoOsversion { header } => {
                text::concat2(header.as_str(), " defines no __FreeBSD_version")
            },
            PoudriereError::NotAvailable { root } => {
                text::concat3(
                    "--poudriere-* was given but ",
                    root.as_str(),
                    " does not exist. Drop the argument to configure without poudriere.",
                )
            },
        }
    }
}

/// What a property file holds: nothing where it is blank.
pub open spec fn property(content: Seq<char>) -> Option<Seq<char>> {
    let value = text::trimmed(content);
    if value.len() == 0 {
        None
    } else {
        Some(value)
    }
}

/// What a property file holds. One that could not be read holds nothing, as a
/// property that is not set does.
pub fn attr_value(content: &Option<String>) -> (r: Option<String>)
    ensures
        text::opt_text(r) == match *content {
            Some(c) => property(c@),
            None => None,
        },
{
    match content {
        Some(c) => {
            let value = text::trim(c.as_str());
            if value.as_str().is_empty() {
                None
            } else {
                Some(value)
            }
        },
        None => None,
    }
}

/// What a port is built for: of `host.target`, the target.
pub open spec fn target_arch_of(raw: Seq<char>) -> Seq<char> {
    raw.skip(text::find_last(raw, '.') + 1)
}

/// What a port is built for: of `host.target`, the target.
pub fn target_arch(raw: &str) -> (r: String)
    ensures
        r@ == target_arch_of(raw@),
{
    let head = text::rsplit_head(raw, '.');
    let v = text::chars_of(raw);
    proof {
        lemma_find_last(v@, '.');
    }
    match head {
        Some(h) => {
            let k: usize = text::chars_of(h.as_str()).len();
            proof {
                assert(h@ == v@.take(text::find_last(v@, '.')));
                assert(k == text::find_last(v@, '.'));
            }
            let n: usize = v.len();
            let r = text::string_of(&text::slice_of(v.as_slice(), k + 1, n));
            proof {
                assert(r@ =~= target_arch_of(raw@));
            }
            r
        },
        None => {
            proof {
                assert(raw@.skip(0) =~= raw@);
            }
            raw.to_owned()
        },
    }
}

/// The place of the last `c`, or the one before the first.
proof fn lemma_find_last(s: Seq<char>, c: char)
    ensures
        -1 <= text::find_last(s, c) < s.len(),
    decreases s.len(),
{
    if s.len() > 0 && s.last() != c {
        lemma_find_last(s.drop_last(), c);
    }
}

/// A release without what follows the first `-`.
pub open spec fn osrel_of(version: Seq<char>) -> Seq<char> {
    text::trimmed(version.take(text::find_from(version, '-', 0)))
}

/// A release without what follows the first `-`.
pub fn osrel(version: &str) -> (r: String)
    ensures
        r@ == osrel_of(version@),
{
    let v = text::chars_of(version);
    let k: usize = text::find_char(v.as_slice(), '-', 0);
    let head = text::string_of(&text::slice_of(v.as_slice(), 0, k));
    proof {
        assert(head@ =~= version@.take(k as int));
    }
    text::trim(head.as_str())
}

/// Whether a line of a header defines the version and gives it a value.
pub open spec fn defines_version(line: Seq<char>) -> bool {
    let w = text::words_of(line);
    w.len() >= 3 && w[0] == "#define"@ && w[1] == "__FreeBSD_version"@
}

/// The version that the first line from `i` on to define it gives.
pub open spec fn version_from(lines: Seq<Seq<char>>, i: int) -> Option<Seq<char>>
    decreases lines.len() - i,
{
    if i < 0 || i >= lines.len() {
        None
    } else if defines_version(lines[i]) {
        Some(text::words_of(lines[i])[2])
    } else {
        version_from(lines, i + 1)
    }
}

/// Pulls `__FreeBSD_version` out of a jail's header.
pub fn freebsd_version(header: &str) -> (r: Option<String>)
    ensures
        text::opt_text(r) == version_from(text::lines_of(header@), 0),
{
    let lines = text::lines(header);
    let ghost lv = text::texts(lines@);
    let mut i: usize = 0;
    while i < lines.len()
        invariant
            i <= lines@.len(),
            lv == text::texts(lines@),
            lv == text::lines_of(header@),
            version_from(lv, 0) == version_from(lv, i as int),
        decreases lines@.len() - i,
    {
        proof {
            assert(lv[i as int] == lines@[i as int]@);
        }
        let words = text::words(lines[i].as_str());
        let ghost wv = text::texts(words@);
        if words.len() >= 3 {
            proof {
                assert(wv[0] == words@[0]@);
                assert(wv[1] == words@[1]@);
                assert(wv[2] == words@[2]@);
            }
            if same(words[0].as_str(), "#define") && same(
                words[1].as_str(),
                "__FreeBSD_version",
            ) {
                return Some(words[2].clone());
            }
        }
        proof {
            assert(wv.len() == words@.len());
        }
        i += 1;
    }
    None
}

/// What was read of a jail: its property files and the header of the system in
/// it, each where it could be read.
#[derive(Debug)]
pub struct JailFiles {
    pub arch: Option<String>,
    pub version: Option<String>,
    pub mnt: Option<String>,
    pub header: Option<String>,
}

/// What a `JailFiles` says.
pub struct JailFilesView {
    pub arch: Option<Seq<char>>,
    pub version: Option<Seq<char>>,
    pub mnt: Option<Seq<char>>,
    pub header: Option<Seq<char>>,
}

impl View for JailFiles {
    type V = JailFilesView;

    open spec fn view(&self) -> JailFilesView {
        JailFilesView {
            arch: text::opt_text(self.arch),
            version: text::opt_text(self.version),
            mnt: text::opt_text(self.mnt),
            header: text::opt_text(self.header),
        }
    }
}

/// What a property file that may not be there holds.
pub open spec fn property_in(file: Option<Seq<char>>) -> Option<Seq<char>> {
    match file {
        Some(c) => property(c),
        None => None,
    }
}

/// Where the header that defines the version is.
pub open spec fn header_of(mnt: Seq<char>) -> Seq<char> {
    path::below(mnt, "usr/include/sys/param.h"@)
}

/// Where the header that defines the version is.
pub fn header_path(mnt: &str) -> (r: String)
    ensures
        r@ == header_of(mnt@),
{
    path::join(mnt, "usr/include/sys/param.h")
}

/// Everything a jail can tell about how to resolve ports for it.
pub open spec fn jail_of(name: Seq<char>, files: JailFilesView) -> Result<
    JailView,
    PoudriereErrorView,
> {
    match property_in(files.arch) {
        None => Err(PoudriereErrorView::NoArch { jail: name }),
        Some(arch) => match property_in(files.version) {
            None => Err(PoudriereErrorView::NoVersion { jail: name }),
            Some(version) => match property_in(files.mnt) {
                None => Err(PoudriereErrorView::NoJailMount { jail: name }),
                Some(mnt) => match files.header {
                    None => Err(PoudriereErrorView::NoHeader { header: header_of(mnt) }),
                    Some(header) => match version_from(text::lines_of(header), 0) {
                        None => Err(PoudriereErrorView::NoOsversion { header: header_of(mnt) }),
                        Some(osversion) => Ok(
                            JailView {
                                arch: target_arch_of(arch),
                                osrel: osrel_of(version),
                                osversion,
                                mnt,
                            },
                        ),
                    },
                },
            },
        },
    }
}

/// Everything a jail can tell about how to resolve ports for it, out of what
/// was read of it.
pub fn read_jail(name: &str, files: &JailFiles) -> (r: Result<JailFacts, PoudriereError>)
    ensures
        match r {
            Ok(j) => jail_of(name@, files@) == Ok::<JailView, PoudriereErrorView>(j@),
            Err(e) => jail_of(name@, files@) == Err::<JailView, PoudriereErrorView>(e@),
        },
{
    let arch = match attr_value(&files.arch) {
        Some(a) => a,
        None => {
            return Err(PoudriereError::NoArch { jail: name.to_owned() });
        },
    };
    let version = match attr_value(&files.version) {
        Some(v) => v,
        None => {
            return Err(PoudriereError::NoVersion { jail: name.to_owned() });
        },
    };
    let mnt = match attr_value(&files.mnt) {
        Some(m) => m,
        None => {
            return Err(PoudriereError::NoJailMount { jail: name.to_owned() });
        },
    };
    let header = match &files.header {
        Some(h) => h,
        None => {
            return Err(PoudriereError::NoHeader { header: header_path(mnt.as_str()) });
        },
    };
    match freebsd_version(header.as_str()) {
        None => Err(PoudriereError::NoOsversion { header: header_path(mnt.as_str()) }),
        Some(osversion) => Ok(
            JailFacts {
                arch: target_arch(arch.as_str()),
                osrel: osrel(version.as_str()),
                osversion,
                mnt,
            },
        ),
    }
}

/// A poudriere installation, identified by its etc directory.
#[derive(Debug, Clone)]
pub struct Poudriere {
    pub poudriered: String,
}

impl View for Poudriere {
    type V = Seq<char>;

    open spec fn view(&self) -> Seq<char> {
        self.poudriered@
    }
}

/// What a jail of this name tells, where it is among those found.
pub open spec fn named_jail(
    root: Seq<char>,
    name: Seq<char>,
    found: Seq<Seq<char>>,
    files: JailFilesView,
) -> Result<JailView, PoudriereErrorView> {
    if found.contains(name) {
        jail_of(name, files)
    } else {
        Err(PoudriereErrorView::NoJail { name, known: order::text_sort(found), root })
    }
}

/// Where a tree of this name lives, where it is among those found.
pub open spec fn named_tree(
    root: Seq<char>,
    name: Seq<char>,
    found: Seq<Seq<char>>,
    mnt: Option<Seq<char>>,
) -> Result<Seq<char>, PoudriereErrorView> {
    if found.contains(name) {
        match property_in(mnt) {
            Some(dir) => Ok(dir),
            None => Err(PoudriereErrorView::NoTreeMount { tree: name }),
        }
    } else {
        Err(PoudriereErrorView::NoTree { name, known: order::text_sort(found), root })
    }
}

/// Those of some names that are given and not empty, in order.
pub open spec fn given(names: Seq<Option<Seq<char>>>) -> Seq<Seq<char>>
    decreases names.len(),
{
    if names.len() == 0 {
        seq![]
    } else {
        let rest = given(names.drop_last());
        match names.last() {
            Some(n) => if n.len() > 0 {
                rest.push(n)
            } else {
                rest
            },
            None => rest,
        }
    }
}

/// The name of the options directory: the names that are given joined by `-`,
/// then `-options`; just `options` where none is.
pub open spec fn options_name(
    jail: Option<Seq<char>>,
    tree: Option<Seq<char>>,
    set: Option<Seq<char>>,
) -> Seq<char> {
    let parts = given(seq![jail, tree, set]);
    if parts.len() == 0 {
        "options"@
    } else {
        text::joined(parts, "-"@) + "-options"@
    }
}

/// Puts a name on a list, if it is given and not empty.
fn give(parts: &mut Vec<String>, name: &Option<String>)
    ensures
        text::texts(final(parts)@) == match text::opt_text(*name) {
            Some(n) => if n.len() > 0 {
                text::texts(old(parts)@).push(n)
            } else {
                text::texts(old(parts)@)
            },
            None => text::texts(old(parts)@),
        },
{
    broadcast use text::lemma_texts_push;

    if let Some(n) = name {
        if !n.as_str().is_empty() {
            parts.push(n.clone());
        }
    }
}

impl Poudriere {
    /// `etc` is poudriere's configuration root.
    pub fn new(etc: &str) -> (r: Self)
        ensures
            r@ == path::below(etc@, "poudriere.d"@),
    {
        Poudriere { poudriered: path::join(etc, "poudriere.d") }
    }

    pub fn root(&self) -> (r: &str)
        ensures
            r@ == self@,
    {
        self.poudriered.as_str()
    }

    /// Where one property of one jail or ports tree is kept.
    pub fn attr_path(&self, kind: &str, name: &str, property: &str) -> (r: String)
        ensures
            r@ == path::below(path::below(path::below(self@, kind@), name@), property@),
    {
        let a = path::join(self.poudriered.as_str(), kind);
        let b = path::join(a.as_str(), name);
        path::join(b.as_str(), property)
    }

    /// Names of the configured jails, in order, out of the directories found.
    pub fn jails(&self, found: &Vec<String>) -> (r: Vec<String>)
        ensures
            text::texts(r@) == order::text_sort(text::texts(found@)),
    {
        order::sorted_texts(found)
    }

    /// Names of the configured ports trees, in order, out of the directories
    /// found.
    pub fn trees(&self, found: &Vec<String>) -> (r: Vec<String>)
        ensures
            text::texts(r@) == order::text_sort(text::texts(found@)),
    {
        order::sorted_texts(found)
    }

    /// Everything a jail can tell about how to resolve ports for it. One that
    /// is not there is an error, which says what is.
    pub fn jail(&self, name: &str, found: &Vec<String>, files: &JailFiles) -> (r: Result<
        JailFacts,
        PoudriereError,
    >)
        ensures
            ({
                let want = named_jail(self@, name@, text::texts(found@), files@);
                match r {
                    Ok(j) => want == Ok::<JailView, PoudriereErrorView>(j@),
                    Err(e) => want == Err::<JailView, PoudriereErrorView>(e@),
                }
            }),
    {
        if !text::holds(found, name) {
            return Err(
                PoudriereError::NoJail {
                    name: name.to_owned(),
                    known: self.jails(found),
                    root: self.poudriered.clone(),
                },
            );
        }
        read_jail(name, files)
    }

    /// Where a named ports tree lives, out of what was read of its mount point.
    /// One that is not there is an error, which says what is.
    pub fn ports_dir(&self, tree: &str, found: &Vec<String>, mnt: &Option<String>) -> (r: Result<
        String,
        PoudriereError,
    >)
        ensures
            ({
                let want = named_tree(
                    self@,
                    tree@,
                    text::texts(found@),
                    text::opt_text(*mnt),
                );
                match r {
                    Ok(dir) => want == Ok::<Seq<char>, PoudriereErrorView>(dir@),
                    Err(e) => want == Err::<Seq<char>, PoudriereErrorView>(e@),
                }
            }),
    {
        if !text::holds(found, tree) {
            return Err(
                PoudriereError::NoTree {
                    name: tree.to_owned(),
                    known: self.trees(found),
                    root: self.poudriered.clone(),
                },
            );
        }
        match attr_value(mnt) {
            Some(m) => Ok(m),
            None => Err(PoudriereError::NoTreeMount { tree: tree.to_owned() }),
        }
    }

    /// The options directory that poudriere would write to, given the same
    /// jail, tree and set.
    pub fn options_dir(
        &self,
        jail: &Option<String>,
        tree: &Option<String>,
        set: &Option<String>,
    ) -> (r: String)
        ensures
            r@ == path::below(
                self@,
                options_name(text::opt_text(*jail), text::opt_text(*tree), text::opt_text(*set)),
            ),
    {
        let ghost names = seq![
            text::opt_text(*jail),
            text::opt_text(*tree),
            text::opt_text(*set),
        ];
        let mut parts: Vec<String> = Vec::new();
        proof {
            assert(text::texts(parts@) =~= given(names.take(0)));
            assert(names.take(1).drop_last() =~= names.take(0));
            assert(names.take(2).drop_last() =~= names.take(1));
            assert(names.drop_last() =~= names.take(2));
        }
        give(&mut parts, jail);
        proof {
            assert(text::texts(parts@) == given(names.take(1)));
        }
        give(&mut parts, tree);
        proof {
            assert(text::texts(parts@) == given(names.take(2)));
        }
        give(&mut parts, set);
        proof {
            assert(text::texts(parts@) == given(names));
            assert(text::texts(parts@).len() == parts@.len());
        }
        let name = if parts.len() == 0 {
            "options".to_owned()
        } else {
            text::concat2(text::join(&parts, "-").as_str(), "-options")
        };
        path::join(self.poudriered.as_str(), name.as_str())
    }

    /// A directory named outright rather than composed.
    pub fn named_options_dir(&self, name: &str) -> (r: String)
        ensures
            r@ == path::below(self@, name@ + "-options"@),
    {
        path::join(self.poudriered.as_str(), text::concat2(name, "-options").as_str())
    }
}

/// Whether a name is there and says something.
pub open spec fn is_given(name: Option<Seq<char>>) -> bool {
    name is Some && name->0.len() > 0
}

/// The options directory is called by the jail, the tree and the set that are
/// given, in this order and with a dash between them, and then `-options`. It
/// is just `options` where none is.
pub proof fn the_options_directory_is_named_by_what_is_given(
    jail: Option<Seq<char>>,
    tree: Option<Seq<char>>,
    set: Option<Seq<char>>,
)
    ensures
        !is_given(jail) && !is_given(tree) && !is_given(set) ==> options_name(jail, tree, set)
            == "options"@,
        is_given(jail) && !is_given(tree) && !is_given(set) ==> options_name(jail, tree, set)
            == jail->0 + "-options"@,
        !is_given(jail) && is_given(tree) && !is_given(set) ==> options_name(jail, tree, set)
            == tree->0 + "-options"@,
        is_given(jail) && is_given(tree) && !is_given(set) ==> options_name(jail, tree, set)
            == jail->0 + "-"@ + tree->0 + "-options"@,
        !is_given(jail) && !is_given(tree) && is_given(set) ==> options_name(jail, tree, set)
            == set->0 + "-options"@,
        is_given(jail) && !is_given(tree) && is_given(set) ==> options_name(jail, tree, set)
            == jail->0 + "-"@ + set->0 + "-options"@,
        !is_given(jail) && is_given(tree) && is_given(set) ==> options_name(jail, tree, set)
            == tree->0 + "-"@ + set->0 + "-options"@,
        is_given(jail) && is_given(tree) && is_given(set) ==> options_name(jail, tree, set)
            == jail->0 + "-"@ + tree->0 + "-"@ + set->0 + "-options"@,
{
    let names = seq![jail, tree, set];
    assert(names.drop_last() =~= seq![jail, tree]);
    assert(seq![jail, tree].drop_last() =~= seq![jail]);
    assert(seq![jail].drop_last() =~= seq![]);
    let one = given(seq![jail]);
    let two = given(seq![jail, tree]);
    let all = given(names);
    assert(given(seq![]) =~= seq![]);
    assert(one =~= if is_given(jail) {
        seq![jail->0]
    } else {
        seq![]
    });
    assert(two == if is_given(tree) {
        one.push(tree->0)
    } else {
        one
    });
    assert(all == if is_given(set) {
        two.push(set->0)
    } else {
        two
    });
    assert(is_given(tree) ==> two.drop_last() =~= one);
    assert(is_given(set) ==> all.drop_last() =~= two);
    reveal_with_fuel(text::joined, 4);
}

/// The version of a jail is what the first line of its header that defines it
/// and gives it a value says.
pub proof fn the_first_definition_is_the_version(lines: Seq<Seq<char>>, from: int, i: int)
    requires
        0 <= from <= i < lines.len(),
        is_definition(lines[i]),
        forall|j: int| from <= j < i ==> !is_definition(#[trigger] lines[j]),
    ensures
        version_from(lines, from) == Some(text::words_of(lines[i])[2]),
    decreases i - from,
{
    if from < i {
        assert(!is_definition(lines[from]));
        the_first_definition_is_the_version(lines, from + 1, i);
    }
}

/// Whether a line defines the version and gives it a value.
pub open spec fn is_definition(line: Seq<char>) -> bool {
    let w = text::words_of(line);
    w.len() >= 3 && w[0] == "#define"@ && w[1] == "__FreeBSD_version"@
}

proof fn lemma_last_found(s: Seq<char>, c: char)
    ensures
        ({
            let k = text::find_last(s, c);
            &&& -1 <= k < s.len()
            &&& k >= 0 ==> s[k] == c
            &&& forall|j: int| k < j < s.len() ==> s[j] != c
        }),
    decreases s.len(),
{
    if s.len() > 0 && s.last() != c {
        lemma_last_found(s.drop_last(), c);
        assert(forall|j: int| 0 <= j < s.len() - 1 ==> s[j] == s.drop_last()[j]);
    }
}

/// Whether a property is there and says something.
pub open spec fn is_recorded(file: Option<Seq<char>>) -> bool {
    file is Some && text::trimmed(file->0).len() > 0
}

/// Of what is recorded as the architecture of a jail, what stands behind the
/// last dot is what its ports are built for, and all of it where it has none.
pub proof fn the_target_stands_behind_the_last_dot(raw: Seq<char>, head: Seq<char>, tail: Seq<char>)
    requires
        !tail.contains('.'),
    ensures
        target_arch_of(tail) == tail,
        raw == head.push('.') + tail ==> target_arch_of(raw) == tail,
{
    lemma_last_found(tail, '.');
    let k = text::find_last(tail, '.');
    if k >= 0 {
        assert(tail[k] == '.');
    }
    assert(tail.skip(0) =~= tail);
    if raw == head.push('.') + tail {
        lemma_last_found(raw, '.');
        let at = text::find_last(raw, '.');
        let h = head.len() as int;
        assert(raw[h] == '.');
        if at > h {
            assert(raw[at] == tail[at - h - 1]);
        }
        assert(raw.skip(h + 1) =~= tail);
    }
}

/// The release of a jail is its version up to the first dash, without the space
/// around it.
pub proof fn the_release_ends_at_the_first_dash(version: Seq<char>, head: Seq<char>, tail: Seq<char>)
    requires
        !head.contains('-'),
    ensures
        osrel_of(head) == text::trimmed(head),
        version == head.push('-') + tail ==> osrel_of(version) == text::trimmed(head),
{
    text::lemma_find_from_is(head, '-', 0, head.len() as int);
    assert(head.take(head.len() as int) =~= head);
    if version == head.push('-') + tail {
        let h = head.len() as int;
        assert forall|j: int| 0 <= j < h implies version[j] != '-' by {
            assert(version[j] == head[j]);
        }
        assert(version[h] == '-');
        text::lemma_find_from_is(version, '-', 0, h);
        assert(version.take(h) =~= head);
    }
}

/// A jail tells what is recorded of it, each without the space around it, where
/// its architecture, its version and its mount point are recorded and its
/// header can be read and defines a version. Else it is told what is missing.
pub proof fn a_jail_tells_what_is_recorded(name: Seq<char>, files: JailFilesView)
    ensures
        match jail_of(name, files) {
            Ok(j) => {
                &&& is_recorded(files.arch) && is_recorded(files.version) && is_recorded(files.mnt)
                &&& j.arch == target_arch_of(text::trimmed(files.arch->0))
                &&& j.osrel == osrel_of(text::trimmed(files.version->0))
                &&& j.mnt == text::trimmed(files.mnt->0)
                &&& files.header is Some
                &&& version_from(text::lines_of(files.header->0), 0) == Some(j.osversion)
            },
            Err(PoudriereErrorView::NoArch { jail }) => jail == name && !is_recorded(files.arch),
            Err(PoudriereErrorView::NoVersion { jail }) => jail == name && !is_recorded(
                files.version,
            ),
            Err(PoudriereErrorView::NoJailMount { jail }) => jail == name && !is_recorded(
                files.mnt,
            ),
            Err(PoudriereErrorView::NoHeader { header }) => {
                &&& files.header is None
                &&& header == path::below(text::trimmed(files.mnt->0), "usr/include/sys/param.h"@)
            },
            Err(PoudriereErrorView::NoOsversion { header }) => {
                &&& files.header is Some
                &&& version_from(text::lines_of(files.header->0), 0) is None
                &&& header == path::below(text::trimmed(files.mnt->0), "usr/include/sys/param.h"@)
            },
            Err(_) => false,
        },
{
}

/// A jail or a tree is known where it is among those that are there, and a tree
/// lives where its mount point says. One that is not there is told with all that
/// are.
pub proof fn only_what_is_there_is_known(
    root: Seq<char>,
    name: Seq<char>,
    found: Seq<Seq<char>>,
    files: JailFilesView,
    mnt: Option<Seq<char>>,
)
    ensures
        found.contains(name) ==> named_jail(root, name, found, files) == jail_of(name, files),
        !found.contains(name) ==> {
            &&& named_jail(root, name, found, files) matches Err(
                PoudriereErrorView::NoJail { name: n, known, root: r },
            )
            &&& n == name && r == root
            &&& forall|x: Seq<char>| #[trigger] known.contains(x) <==> found.contains(x)
        },
        found.contains(name) && is_recorded(mnt) ==> named_tree(root, name, found, mnt) == Ok::<
            Seq<char>,
            PoudriereErrorView,
        >(text::trimmed(mnt->0)),
        found.contains(name) && !is_recorded(mnt) ==> named_tree(root, name, found, mnt) == Err::<
            Seq<char>,
            PoudriereErrorView,
        >(PoudriereErrorView::NoTreeMount { tree: name }),
        !found.contains(name) ==> {
            &&& named_tree(root, name, found, mnt) matches Err(
                PoudriereErrorView::NoTree { name: n, known, root: r },
            )
            &&& n == name && r == root
            &&& forall|x: Seq<char>| #[trigger] known.contains(x) <==> found.contains(x)
        },
{
    broadcast use vstd::seq_lib::group_to_multiset_ensures;

    order::lemma_texts_order();
    order::lemma_sort(found, order::texts_le());
}

} // verus!
