//! The optional TOML configuration: what it may set, and how the groups are
//! written back into it.
use crate::graph::{Group, GroupView};
use crate::order;
use crate::text;
use vstd::multiset::Multiset;
use vstd::prelude::*;

verus! {

/// Everything a config file may set.
///
/// Each field mirrors the long form of a command-line argument. A field that is
/// absent is simply unspecified.
#[derive(Debug)]
pub struct Config {
    pub db_path: Option<String>,
    pub options_dir: Option<String>,
    pub make_conf: Option<String>,
    pub file: Option<String>,
    pub origins: Option<Vec<String>>,
    pub dry_run: Option<bool>,
    pub force_reset: Option<bool>,
    pub ignore_missing: Option<bool>,
    pub ports_dir: Option<String>,
    pub jail_arch: Option<String>,
    pub osversion: Option<String>,
    pub opsys: Option<String>,
    pub osrel: Option<String>,
    pub poudriere_etc: Option<String>,
    pub poudriere_jail: Option<String>,
    pub poudriere_ports: Option<String>,
    pub poudriere_set: Option<String>,
    /// Names the options directory outright rather than composing it.
    pub poudriere_optionsdir: Option<String>,
    /// Named sets of ports whose option choices are kept in step, by name.
    pub groups: Vec<Group>,
}

/// What a `Config` says.
pub struct ConfigView {
    pub db_path: Option<Seq<char>>,
    pub options_dir: Option<Seq<char>>,
    pub make_conf: Option<Seq<char>>,
    pub file: Option<Seq<char>>,
    pub origins: Option<Seq<Seq<char>>>,
    pub dry_run: Option<bool>,
    pub force_reset: Option<bool>,
    pub ignore_missing: Option<bool>,
    pub ports_dir: Option<Seq<char>>,
    pub jail_arch: Option<Seq<char>>,
    pub osversion: Option<Seq<char>>,
    pub opsys: Option<Seq<char>>,
    pub osrel: Option<Seq<char>>,
    pub poudriere_etc: Option<Seq<char>>,
    pub poudriere_jail: Option<Seq<char>>,
    pub poudriere_ports: Option<Seq<char>>,
    pub poudriere_set: Option<Seq<char>>,
    pub poudriere_optionsdir: Option<Seq<char>>,
    pub groups: Seq<GroupView>,
}

/// The texts of a list that may not be there.
pub open spec fn opt_texts(v: Option<Vec<String>>) -> Option<Seq<Seq<char>>> {
    match v {
        Some(list) => Some(text::texts(list@)),
        None => None,
    }
}

impl View for Config {
    type V = ConfigView;

    open spec fn view(&self) -> ConfigView {
        ConfigView {
            db_path: text::opt_text(self.db_path),
            options_dir: text::opt_text(self.options_dir),
            make_conf: text::opt_text(self.make_conf),
            file: text::opt_text(self.file),
            origins: opt_texts(self.origins),
            dry_run: self.dry_run,
            force_reset: self.force_reset,
            ignore_missing: self.ignore_missing,
            ports_dir: text::opt_text(self.ports_dir),
            jail_arch: text::opt_text(self.jail_arch),
            osversion: text::opt_text(self.osversion),
            opsys: text::opt_text(self.opsys),
            osrel: text::opt_text(self.osrel),
            poudriere_etc: text::opt_text(self.poudriere_etc),
            poudriere_jail: text::opt_text(self.poudriere_jail),
            poudriere_ports: text::opt_text(self.poudriere_ports),
            poudriere_set: text::opt_text(self.poudriere_set),
            poudriere_optionsdir: text::opt_text(self.poudriere_optionsdir),
            groups: order::views(self.groups@),
        }
    }
}

impl Default for Config {
    /// A config that sets nothing.
    fn default() -> (r: Self)
        ensures
            r@ == blank_config(),
    {
        let r = Config {
            db_path: None,
            options_dir: None,
            make_conf: None,
            file: None,
            origins: None,
            dry_run: None,
            force_reset: None,
            ignore_missing: None,
            ports_dir: None,
            jail_arch: None,
            osversion: None,
            opsys: None,
            osrel: None,
            poudriere_etc: None,
            poudriere_jail: None,
            poudriere_ports: None,
            poudriere_set: None,
            poudriere_optionsdir: None,
            groups: Vec::new(),
        };
        proof {
            assert(r@.groups =~= seq![]);
        }
        r
    }
}

/// A config that sets nothing.
pub open spec fn blank_config() -> ConfigView {
    ConfigView {
        db_path: None,
        options_dir: None,
        make_conf: None,
        file: None,
        origins: None,
        dry_run: None,
        force_reset: None,
        ignore_missing: None,
        ports_dir: None,
        jail_arch: None,
        osversion: None,
        opsys: None,
        osrel: None,
        poudriere_etc: None,
        poudriere_jail: None,
        poudriere_ports: None,
        poudriere_set: None,
        poudriere_optionsdir: None,
        groups: seq![],
    }
}

/// A list of values of a TOML document.
#[verifier::external_type_specification]
#[verifier::external_body]
pub struct ExArray(toml_edit::Array);

/// A table of a TOML document.
#[verifier::external_type_specification]
#[verifier::external_body]
pub struct ExTable(toml_edit::Table);

/// A TOML document that can be edited.
#[verifier::external_type_specification]
#[verifier::external_body]
pub struct ExDocument(toml_edit::DocumentMut);

/// Why a text is no TOML document.
#[verifier::external_type_specification]
#[verifier::external_body]
pub struct ExTomlError(toml_edit::TomlError);

/// The texts in a list.
pub uninterp spec fn array_texts(a: toml_edit::Array) -> Seq<Seq<char>>;

/// The lists of texts in a table, each with its key, in order.
pub uninterp spec fn table_lists(t: toml_edit::Table) -> Seq<(Seq<char>, Seq<Seq<char>>)>;

/// Whether a table was made by the functions below: it holds nothing but lists
/// of texts, it is written with a header of its own, and nothing is laid out in
/// it by hand.
pub uninterp spec fn is_plain(t: toml_edit::Table) -> bool;

/// Whether a document was made by reading a text and by the functions below,
/// so that nothing but TOML is in it.
pub uninterp spec fn is_tidy(d: toml_edit::DocumentMut) -> bool;

/// The lists of texts in the table `groups` of a document, each with its key,
/// in order; none where there is no such table of lists of texts.
pub uninterp spec fn document_groups(d: toml_edit::DocumentMut) -> Option<
    Seq<(Seq<char>, Seq<Seq<char>>)>,
>;

/// The top-level keys of a document other than `groups`, each with its value
/// written out in TOML, comments and layout aside.
pub uninterp spec fn document_rest(d: toml_edit::DocumentMut) -> Map<Seq<char>, Seq<char>>;

/// The comments of a document but for those that belong to the key `groups`, to
/// what stands under it or to its header.
pub uninterp spec fn document_comments(d: toml_edit::DocumentMut) -> Multiset<Seq<char>>;

/// Whether a text is a TOML document.
pub uninterp spec fn is_toml(text: Seq<char>) -> bool;

/// What the table `groups` of a TOML text holds, as `document_groups` says.
pub uninterp spec fn toml_groups(text: Seq<char>) -> Option<
    Seq<(Seq<char>, Seq<Seq<char>>)>,
>;

/// What else a TOML text holds, as `document_rest` says.
pub uninterp spec fn toml_rest(text: Seq<char>) -> Map<Seq<char>, Seq<char>>;

/// The comments of a TOML text, as `document_comments` says.
pub uninterp spec fn toml_comments(text: Seq<char>) -> Multiset<Seq<char>>;

/// `toml_edit::Array::new`: a list without values.
#[verifier::external_body]
fn new_array() -> (r: toml_edit::Array)
    ensures
        array_texts(r) == Seq::<Seq<char>>::empty(),
{
    toml_edit::Array::new()
}

/// `toml_edit::Array::push`: puts a text behind the values of a list.
#[verifier::external_body]
fn push_text(array: &mut toml_edit::Array, value: &str)
    ensures
        array_texts(*final(array)) == array_texts(*old(array)).push(value@),
{
    array.push(value);
}

/// `toml_edit::Table::new`: a table without keys, which is written with a header
/// of its own.
#[verifier::external_body]
fn new_table() -> (r: toml_edit::Table)
    ensures
        is_plain(r),
        table_lists(r) == Seq::<(Seq<char>, Seq<Seq<char>>)>::empty(),
{
    toml_edit::Table::new()
}

/// `toml_edit::Table::insert`, with a list as the value: a key that is not in
/// the table goes behind those that are. A table of nothing but lists of texts
/// has no keys but theirs.
#[verifier::external_body]
fn insert_list(table: &mut toml_edit::Table, key: &str, list: toml_edit::Array)
    requires
        is_plain(*old(table)),
        forall|i: int|
            0 <= i < table_lists(*old(table)).len() ==> (#[trigger] table_lists(*old(table))[i]).0
                != key@,
    ensures
        is_plain(*final(table)),
        table_lists(*final(table)) == table_lists(*old(table)).push((key@, array_texts(list))),
{
    table.insert(key, toml_edit::value(list));
}

/// `toml_edit::Table::set_implicit`, with `false`: the table is written with a
/// header of its own. What it holds stays as it is.
#[verifier::external_body]
fn set_explicit(table: &mut toml_edit::Table)
    requires
        is_plain(*old(table)),
    ensures
        is_plain(*final(table)),
        table_lists(*final(table)) == table_lists(*old(table)),
{
    table.set_implicit(false);
}

/// `toml_edit::DocumentMut`'s `FromStr`: reads a text, if it is a TOML
/// document. An empty text is one, and holds nothing.
#[verifier::external_body]
fn parse_document(source: &str) -> (r: Result<toml_edit::DocumentMut, toml_edit::TomlError>)
    ensures
        r is Ok == is_toml(source@),
        source@.len() == 0 ==> r is Ok,
        match r {
            Ok(d) => is_tidy(d) && document_groups(d) == toml_groups(source@) && document_rest(d)
                == toml_rest(source@) && document_comments(d) == toml_comments(source@) && (
            source@.len() == 0 ==> document_rest(d) == Map::<Seq<char>, Seq<char>>::empty()
                && document_comments(d) == Multiset::<Seq<char>>::empty()),
            Err(_) => true,
        },
{
    source.parse()
}

/// `toml_edit::Table::remove` on a document, for the key under which groups
/// stand: the other keys stay as they are.
#[verifier::external_body]
fn remove_groups(doc: &mut toml_edit::DocumentMut, key: &str)
    requires
        key@ == "groups"@,
    ensures
        is_tidy(*old(doc)) ==> is_tidy(*final(doc)),
        document_groups(*final(doc)) is None,
        document_rest(*final(doc)) == document_rest(*old(doc)),
        document_comments(*final(doc)) == document_comments(*old(doc)),
{
    doc.remove(key);
}

/// `toml_edit::Table::insert` on a document, for the key under which groups
/// stand and a table as the value, in the place of what was there: the other
/// keys stay as they are.
#[verifier::external_body]
fn insert_groups(doc: &mut toml_edit::DocumentMut, key: &str, table: toml_edit::Table)
    requires
        key@ == "groups"@,
        is_plain(table),
    ensures
        is_tidy(*old(doc)) ==> is_tidy(*final(doc)),
        document_groups(*final(doc)) == Some(table_lists(table)),
        document_rest(*final(doc)) == document_rest(*old(doc)),
        document_comments(*final(doc)) == document_comments(*old(doc)),
{
    doc.insert(key, toml_edit::Item::Table(table));
}

/// `toml_edit::DocumentMut`'s `Display`: the text of a document. It is a TOML
/// document again, and reading it gives back what was written, comments among
/// it. How it is laid out is not stated. Blank lines and the order of the keys
/// come from the text that was read, but not of every text: keys with dots in
/// them are gathered where the first of them stands, and carriage returns at the
/// ends of lines are dropped.
#[verifier::external_body]
fn document_text(doc: &toml_edit::DocumentMut) -> (r: String)
    requires
        is_tidy(*doc),
    ensures
        is_toml(r@),
        toml_groups(r@) == document_groups(*doc),
        toml_rest(r@) == document_rest(*doc),
        toml_comments(r@) == document_comments(*doc),
{
    doc.to_string()
}

/// What was found where a config file is to be written.
#[derive(Debug, PartialEq, Eq)]
pub enum Existing {
    /// No such file.
    Missing,
    /// A file that could not be read.
    Unreadable,
    Text(String),
}

/// Why the groups could not be saved.
#[derive(Debug, PartialEq, Eq)]
pub enum SaveError {
    Unreadable { path: String },
    NotToml { path: String },
    Unwritable { path: String },
}

/// How an error is told.
pub open spec fn save_error_text(e: SaveError) -> Seq<char> {
    match e {
        SaveError::Unreadable { path } => "Could not read config file "@ + path@,
        SaveError::NotToml { path } => "Config file "@ + path@ + " is not valid TOML"@,
        SaveError::Unwritable { path } => "Could not write config file "@ + path@,
    }
}

impl SaveError {
    /// How this is told.
    pub fn message(&self) -> (r: String)
        ensures
            r@ == save_error_text(*self),
    {
        match self {
            SaveError::Unreadable { path } => text::concat2(
                "Could not read config file ",
                path.as_str(),
            ),
            SaveError::NotToml { path } => text::concat3(
                "Config file ",
                path.as_str(),
                " is not valid TOML",
            ),
            SaveError::Unwritable { path } => text::concat2(
                "Could not write config file ",
                path.as_str(),
            ),
        }
    }
}

/// Groups, as the lists of a table.
pub open spec fn group_lists(groups: Seq<GroupView>) -> Seq<(Seq<char>, Seq<Seq<char>>)> {
    Seq::new(groups.len(), |i: int| (groups[i].name, groups[i].members))
}

/// What is to stand under `groups`: nothing at all where there are none.
pub open spec fn wanted_groups(groups: Seq<GroupView>) -> Option<
    Seq<(Seq<char>, Seq<Seq<char>>)>,
> {
    if groups.len() == 0 {
        None
    } else {
        Some(group_lists(groups))
    }
}

/// No two groups have the same name.
pub open spec fn named_apart(groups: Seq<GroupView>) -> bool {
    forall|i: int, j: int|
        0 <= i < j < groups.len() ==> (#[trigger] groups[i]).name != (#[trigger] groups[j]).name
}

/// What a text to start from holds besides groups.
pub open spec fn kept_rest(existing: Existing) -> Map<Seq<char>, Seq<char>> {
    match existing {
        Existing::Text(t) => toml_rest(t@),
        _ => Map::empty(),
    }
}

/// The comments of a text to start from.
pub open spec fn kept_comments(existing: Existing) -> Multiset<Seq<char>> {
    match existing {
        Existing::Text(t) => toml_comments(t@),
        _ => Multiset::empty(),
    }
}

/// Whether there is a document to start from: none that could not be read, and
/// none that is no TOML.
pub open spec fn can_start(existing: Existing) -> bool {
    match existing {
        Existing::Missing => true,
        Existing::Unreadable => false,
        Existing::Text(t) => is_toml(t@),
    }
}

/// Builds the table of the groups.
fn groups_table(groups: &Vec<Group>) -> (r: toml_edit::Table)
    requires
        named_apart(order::views(groups@)),
    ensures
        is_plain(r),
        table_lists(r) == group_lists(order::views(groups@)),
{
    let ghost gv = order::views(groups@);
    let ghost want = group_lists(gv);
    let mut table = new_table();
    let mut n: usize = 0;
    proof {
        assert(table_lists(table) =~= want.take(0));
    }
    while n < groups.len()
        invariant
            n <= groups@.len(),
            gv == order::views(groups@),
            want == group_lists(gv),
            named_apart(gv),
            is_plain(table),
            table_lists(table) == want.take(n as int),
        decreases groups@.len() - n,
    {
        proof {
            assert(gv[n as int] == groups@[n as int]@);
        }
        let ghost members = gv[n as int].members;
        let mut list = new_array();
        let mut m: usize = 0;
        proof {
            assert(array_texts(list) =~= members.take(0));
        }
        while m < groups[n].members.len()
            invariant
                n < groups@.len(),
                m <= groups@[n as int].members@.len(),
                members == text::texts(groups@[n as int].members@),
                array_texts(list) == members.take(m as int),
            decreases groups@[n as int].members@.len() - m,
        {
            push_text(&mut list, groups[n].members[m].as_str());
            proof {
                assert(members[m as int] == groups@[n as int].members@[m as int]@);
                assert(members.take(m + 1) =~= members.take(m as int).push(members[m as int]));
            }
            m += 1;
        }
        proof {
            assert(members.take(members.len() as int) =~= members);
            assert forall|i: int| 0 <= i < table_lists(table).len() implies (
            #[trigger] table_lists(table)[i]).0 != gv[n as int].name by {
                assert(table_lists(table)[i] == want[i]);
                assert(gv[i].name != gv[n as int].name);
            }
        }
        insert_list(&mut table, groups[n].name.as_str(), list);
        proof {
            assert(want.take(n + 1) =~= want.take(n as int).push(want[n as int]));
        }
        n += 1;
    }
    proof {
        assert(want.len() == groups@.len());
        assert(want.take(want.len() as int) =~= want);
    }
    set_explicit(&mut table);
    table
}

/// The text to write so that a config file holds these groups and the rest of
/// it is left as it was.
///
/// The document is edited rather than written anew, because a config is
/// something a person writes and comes back to. A file that does not exist yet
/// is created holding just the groups. No groups at all take the table away.
pub fn save_groups(path: &str, existing: &Existing, groups: &Vec<Group>) -> (r: Result<
    String,
    SaveError,
>)
    requires
        named_apart(order::views(groups@)),
    ensures
        match r {
            Ok(t) => can_start(*existing) && is_toml(t@) && toml_groups(t@) == wanted_groups(
                order::views(groups@),
            ) && toml_rest(t@) == kept_rest(*existing) && toml_comments(t@) == kept_comments(*existing),
            Err(SaveError::Unreadable { path: p }) => *existing is Unreadable && p@ == path@,
            Err(SaveError::NotToml { path: p }) => !(*existing is Unreadable) && !can_start(
                *existing,
            ) && p@ == path@,
            Err(SaveError::Unwritable { .. }) => false,
        },
{
    let source = match existing {
        Existing::Missing => String::new(),
        Existing::Unreadable => {
            return Err(SaveError::Unreadable { path: path.to_owned() });
        },
        Existing::Text(t) => t.clone(),
    };
    let mut doc = match parse_document(source.as_str()) {
        Ok(d) => d,
        Err(_) => {
            return Err(SaveError::NotToml { path: path.to_owned() });
        },
    };
    proof {
        assert(order::views(groups@).len() == groups@.len());
    }
    if groups.len() == 0 {
        remove_groups(&mut doc, "groups");
    } else {
        let table = groups_table(groups);
        insert_groups(&mut doc, "groups", table);
    }
    Ok(document_text(&doc))
}

} // verus!
