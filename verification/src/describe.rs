//! Reading what a port says of itself as JSON: its package name, its options
//! and their defaults.
use crate::text;
use crate::text::same;
use vstd::prelude::*;

verus! {

/// A JSON value.
#[verifier::external_type_specification]
#[verifier::external_body]
pub struct ExValue(serde_json::Value);

/// Why a text is no JSON.
#[verifier::external_type_specification]
#[verifier::external_body]
pub struct ExJsonError(serde_json::Error);

/// The value that a JSON text says, if it is one.
pub uninterp spec fn json_of(text: Seq<char>) -> Option<serde_json::Value>;

/// The members of a JSON object, each with its key; none of any other value.
pub uninterp spec fn members_of(v: serde_json::Value) -> Option<
    Seq<(Seq<char>, serde_json::Value)>,
>;

/// The items of a JSON array; none of any other value.
pub uninterp spec fn items_of(v: serde_json::Value) -> Option<Seq<serde_json::Value>>;

/// The text of a JSON string; none of any other value.
pub uninterp spec fn text_of(v: serde_json::Value) -> Option<Seq<char>>;

/// `serde_json::from_str`: the value that a text says, or an error where it is
/// no JSON.
#[verifier::external_body]
fn parse_json(source: &str) -> (r: Result<serde_json::Value, serde_json::Error>)
    ensures
        match r {
            Ok(v) => json_of(source@) == Some(v),
            Err(_) => json_of(source@) is None,
        },
{
    serde_json::from_str(source)
}

/// The members of an object, as strings and values.
pub open spec fn pairs_view(v: Seq<(String, serde_json::Value)>) -> Seq<
    (Seq<char>, serde_json::Value),
> {
    Seq::new(v.len(), |i: int| (v[i].0@, v[i].1))
}

/// `serde_json::Value::as_object`: the members of an object in the order in
/// which its map is walked, which is that of the keys.
#[verifier::external_body]
fn members(value: &serde_json::Value) -> (r: Option<Vec<(String, serde_json::Value)>>)
    ensures
        match r {
            Some(list) => members_of(*value) == Some(pairs_view(list@)),
            None => members_of(*value) is None,
        },
{
    value.as_object().map(|o| o.iter().map(|(k, v)| (k.clone(), v.clone())).collect())
}

/// `serde_json::Value::as_array`: the items of an array.
#[verifier::external_body]
fn items(value: &serde_json::Value) -> (r: Option<&Vec<serde_json::Value>>)
    ensures
        match r {
            Some(list) => items_of(*value) == Some(list@),
            None => items_of(*value) is None,
        },
{
    value.as_array()
}

/// `serde_json::Value::as_str`: the text of a string.
#[verifier::external_body]
fn as_text(value: &serde_json::Value) -> (r: Option<&str>)
    ensures
        match r {
            Some(t) => text_of(*value) == Some(t@),
            None => text_of(*value) is None,
        },
{
    value.as_str()
}

/// What a port says of itself.
#[derive(Debug, Clone, PartialEq, Eq)]
pub struct PortDetails {
    pub origin: String,
    pub pkgbase: String,
    pub pkgname: String,
    /// Every option the port defines.
    pub complete_options_list: Vec<String>,
    /// Of those, the ones on by default.
    pub options_default: Vec<String>,
    pub source_mtime: i64,
}

/// What a `PortDetails` says.
pub struct DetailsView {
    pub origin: Seq<char>,
    pub pkgbase: Seq<char>,
    pub pkgname: Seq<char>,
    pub complete_options_list: Seq<Seq<char>>,
    pub options_default: Seq<Seq<char>>,
    pub source_mtime: i64,
}

impl View for PortDetails {
    type V = DetailsView;

    open spec fn view(&self) -> DetailsView {
        DetailsView {
            origin: self.origin@,
            pkgbase: self.pkgbase@,
            pkgname: self.pkgname@,
            complete_options_list: text::texts(self.complete_options_list@),
            options_default: text::texts(self.options_default@),
            source_mtime: self.source_mtime,
        }
    }
}

/// Why a port's own description could not be used.
#[derive(Debug, PartialEq, Eq)]
pub enum DescribeError {
    NotJson { origin: String },
    NotObject { origin: String },
    NoPkgname { origin: String },
    EmptyPkgname { origin: String },
}

/// How an error is told.
pub open spec fn error_text(e: DescribeError) -> Seq<char> {
    match e {
        DescribeError::NotJson { origin } => origin@ + ": unparseable describe-json"@,
        DescribeError::NotObject { origin } => origin@ + ": describe-json was not an object"@,
        DescribeError::NoPkgname { origin } => origin@ + ": describe-json had no pkgname"@,
        DescribeError::EmptyPkgname { origin } => {
            origin@ + ": describe-json reported an empty pkgname"@
        },
    }
}

impl DescribeError {
    /// How this is told.
    pub fn message(&self) -> (r: String)
        ensures
            r@ == error_text(*self),
    {
        match self {
            DescribeError::NotJson { origin } => text::concat2(
                origin.as_str(),
                ": unparseable describe-json",
            ),
            DescribeError::NotObject { origin } => text::concat2(
                origin.as_str(),
                ": describe-json was not an object",
            ),
            DescribeError::NoPkgname { origin } => text::concat2(
                origin.as_str(),
                ": describe-json had no pkgname",
            ),
            DescribeError::EmptyPkgname { origin } => text::concat2(
                origin.as_str(),
                ": describe-json reported an empty pkgname",
            ),
        }
    }
}

/// The place of the first member with this key, from `i` on.
pub open spec fn member_from(
    list: Seq<(Seq<char>, serde_json::Value)>,
    key: Seq<char>,
    i: int,
) -> Option<int>
    decreases list.len() - i,
{
    if i < 0 || i >= list.len() {
        None
    } else if list[i].0 == key {
        Some(i)
    } else {
        member_from(list, key, i + 1)
    }
}

/// The member of a value with this key.
pub open spec fn member(v: serde_json::Value, key: Seq<char>) -> Option<serde_json::Value> {
    match members_of(v) {
        None => None,
        Some(list) => match member_from(list, key, 0) {
            Some(i) => Some(list[i].1),
            None => None,
        },
    }
}

/// The first member of an object from `i` on that has a package name.
pub open spec fn flavour_from(list: Seq<(Seq<char>, serde_json::Value)>, i: int) -> Option<int>
    decreases list.len() - i,
{
    if i < 0 || i >= list.len() {
        None
    } else if member(list[i].1, "pkgname"@) is Some {
        Some(i)
    } else {
        flavour_from(list, i + 1)
    }
}

/// The text of a member without the blanks round it, nothing where it is not
/// there or no text.
pub open spec fn field_of(v: serde_json::Value, key: Seq<char>) -> Seq<char> {
    match member(v, key) {
        None => text::trimmed(seq![]),
        Some(m) => match text_of(m) {
            Some(t) => text::trimmed(t),
            None => text::trimmed(seq![]),
        },
    }
}

/// The texts among the first `n` items, without the blanks round them and
/// without those that are blank.
pub open spec fn texts_upto(items: Seq<serde_json::Value>, n: int) -> Seq<Seq<char>>
    decreases n,
{
    if n <= 0 {
        seq![]
    } else {
        let rest = texts_upto(items, n - 1);
        match text_of(items[n - 1]) {
            Some(t) => if text::trimmed(t).len() > 0 {
                rest.push(text::trimmed(t))
            } else {
                rest
            },
            None => rest,
        }
    }
}

/// The texts of a member that is a list.
pub open spec fn list_of(v: serde_json::Value, key: Seq<char>) -> Seq<Seq<char>> {
    match member(v, key) {
        None => seq![],
        Some(m) => match items_of(m) {
            None => seq![],
            Some(items) => texts_upto(items, items.len() as int),
        },
    }
}

/// The name of a package without its version, where the port does not say it.
pub open spec fn base_of(pkgbase: Seq<char>, pkgname: Seq<char>) -> Seq<char> {
    if pkgbase.len() > 0 {
        pkgbase
    } else {
        match text::before_last(pkgname, '-') {
            Some(b) => b,
            None => pkgname,
        }
    }
}

/// What one document says of a port, if it gives a package name.
pub open spec fn details_in(
    doc: serde_json::Value,
    origin: Seq<char>,
    source_mtime: i64,
) -> Option<DetailsView> {
    let pkgname = field_of(doc, "pkgname"@);
    if pkgname.len() == 0 {
        None
    } else {
        Some(
            DetailsView {
                origin,
                pkgbase: base_of(field_of(doc, "pkgbase"@), pkgname),
                pkgname,
                complete_options_list: list_of(doc, "complete_options_list"@),
                options_default: list_of(doc, "options_default"@),
                source_mtime,
            },
        )
    }
}

/// The document to read in what a port says: the whole, or that of its first
/// flavour where it has flavours.
pub open spec fn document_in(root: serde_json::Value) -> Option<serde_json::Value> {
    match members_of(root) {
        None => None,
        Some(list) => if member_from(list, "pkgname"@, 0) is Some {
            Some(root)
        } else {
            match flavour_from(list, 0) {
                Some(i) => Some(list[i].1),
                None => None,
            }
        },
    }
}

fn find_member(list: &Vec<(String, serde_json::Value)>, key: &str) -> (r: Option<usize>)
    ensures
        match r {
            Some(i) => i < list@.len() && member_from(pairs_view(list@), key@, 0) == Some(i as int),
            None => member_from(pairs_view(list@), key@, 0) is None,
        },
{
    let ghost pv = pairs_view(list@);
    let mut i: usize = 0;
    while i < list.len()
        invariant
            i <= list@.len(),
            pv == pairs_view(list@),
            member_from(pv, key@, 0) == member_from(pv, key@, i as int),
        decreases list@.len() - i,
    {
        if same(list[i].0.as_str(), key) {
            return Some(i);
        }
        i += 1;
    }
    None
}

fn find_flavour(list: &Vec<(String, serde_json::Value)>) -> (r: Option<usize>)
    ensures
        match r {
            Some(i) => i < list@.len() && flavour_from(pairs_view(list@), 0) == Some(i as int),
            None => flavour_from(pairs_view(list@), 0) is None,
        },
{
    let ghost pv = pairs_view(list@);
    let mut i: usize = 0;
    while i < list.len()
        invariant
            i <= list@.len(),
            pv == pairs_view(list@),
            flavour_from(pv, 0) == flavour_from(pv, i as int),
        decreases list@.len() - i,
    {
        if let Some(inner) = members(&list[i].1) {
            if find_member(&inner, "pkgname").is_some() {
                return Some(i);
            }
        }
        i += 1;
    }
    None
}

/// The text of a member without the blanks round it.
fn field(doc: &Vec<(String, serde_json::Value)>, key: &str, Ghost(v): Ghost<serde_json::Value>) -> (r:
    String)
    requires
        members_of(v) == Some(pairs_view(doc@)),
    ensures
        r@ == field_of(v, key@),
{
    if let Some(i) = find_member(doc, key) {
        if let Some(t) = as_text(&doc[i].1) {
            return text::trim(t);
        }
    }
    let blank = String::new();
    proof {
        assert(blank@ =~= seq![]);
    }
    text::trim(blank.as_str())
}

/// The texts of a member that is a list. A make variable that is empty is
/// written as a list of one empty text, so blank ones are dropped.
fn string_list(
    doc: &Vec<(String, serde_json::Value)>,
    key: &str,
    Ghost(v): Ghost<serde_json::Value>,
) -> (r: Vec<String>)
    requires
        members_of(v) == Some(pairs_view(doc@)),
    ensures
        text::texts(r@) == list_of(v, key@),
{
    broadcast use text::lemma_texts_push;

    let mut out: Vec<String> = Vec::new();
    proof {
        assert(text::texts(out@) =~= seq![]);
    }
    if let Some(i) = find_member(doc, key) {
        if let Some(list) = items(&doc[i].1) {
            let mut n: usize = 0;
            while n < list.len()
                invariant
                    n <= list@.len(),
                    text::texts(out@) == texts_upto(list@, n as int),
                decreases list@.len() - n,
            {
                if let Some(t) = as_text(&list[n]) {
                    let trimmed = text::trim(t);
                    if !trimmed.as_str().is_empty() {
                        out.push(trimmed);
                    }
                }
                n += 1;
            }
        }
    }
    out
}

/// What a document says of a port: the whole of what it says, or that of its
/// first flavour.
pub fn read_details(root: &serde_json::Value, origin: &str, source_mtime: i64) -> (r: Result<
    PortDetails,
    DescribeError,
>)
    ensures
        match r {
            Ok(d) => document_in(*root) is Some && details_in(
                document_in(*root)->0,
                origin@,
                source_mtime,
            ) == Some(d@),
            Err(DescribeError::NotObject { origin: o }) => members_of(*root) is None && o@
                == origin@,
            Err(DescribeError::NoPkgname { origin: o }) => members_of(*root) is Some
                && document_in(*root) is None && o@ == origin@,
            Err(DescribeError::EmptyPkgname { origin: o }) => document_in(*root) is Some
                && details_in(document_in(*root)->0, origin@, source_mtime) is None && o@
                == origin@,
            Err(DescribeError::NotJson { .. }) => false,
        },
{
    let whole = match members(root) {
        Some(list) => list,
        None => {
            return Err(DescribeError::NotObject { origin: origin.to_owned() });
        },
    };
    let ghost mut v = *root;
    let doc = if find_member(&whole, "pkgname").is_some() {
        whole
    } else {
        match find_flavour(&whole) {
            None => {
                return Err(DescribeError::NoPkgname { origin: origin.to_owned() });
            },
            Some(i) => {
                proof {
                    v = whole@[i as int].1;
                    lemma_flavour(pairs_view(whole@), 0);
                }
                match members(&whole[i].1) {
                    Some(list) => list,
                    None => {
                        return Err(DescribeError::NoPkgname { origin: origin.to_owned() });
                    },
                }
            },
        }
    };
    let pkgname = field(&doc, "pkgname", Ghost(v));
    if pkgname.as_str().is_empty() {
        return Err(DescribeError::EmptyPkgname { origin: origin.to_owned() });
    }
    let said = field(&doc, "pkgbase", Ghost(v));
    let pkgbase = if said.as_str().is_empty() {
        match text::rsplit_head(pkgname.as_str(), '-') {
            Some(b) => b,
            None => pkgname.clone(),
        }
    } else {
        said
    };
    Ok(
        PortDetails {
            origin: origin.to_owned(),
            pkgbase,
            pkgname,
            complete_options_list: string_list(&doc, "complete_options_list", Ghost(v)),
            options_default: string_list(&doc, "options_default", Ghost(v)),
            source_mtime,
        },
    )
}

/// A flavour that was found has members.
proof fn lemma_flavour(list: Seq<(Seq<char>, serde_json::Value)>, i: int)
    ensures
        flavour_from(list, i) is Some ==> members_of(list[flavour_from(list, i)->0].1) is Some,
    decreases list.len() - i,
{
    if 0 <= i < list.len() && member(list[i].1, "pkgname"@) is None {
        lemma_flavour(list, i + 1);
    }
}

/// Pulls the fields that are used out of what a port says of itself as JSON.
pub fn parse_describe_json(source: &str, origin: &str, source_mtime: i64) -> (r: Result<
    PortDetails,
    DescribeError,
>)
    ensures
        match r {
            Ok(d) => json_of(source@) is Some && document_in(json_of(source@)->0) is Some
                && details_in(document_in(json_of(source@)->0)->0, origin@, source_mtime) == Some(
                d@,
            ),
            Err(DescribeError::NotJson { origin: o }) => json_of(source@) is None && o@ == origin@,
            Err(DescribeError::NotObject { origin: o }) => json_of(source@) is Some && members_of(
                json_of(source@)->0,
            ) is None && o@ == origin@,
            Err(DescribeError::NoPkgname { origin: o }) => json_of(source@) is Some && members_of(
                json_of(source@)->0,
            ) is Some && document_in(json_of(source@)->0) is None && o@ == origin@,
            Err(DescribeError::EmptyPkgname { origin: o }) => json_of(source@) is Some
                && document_in(json_of(source@)->0) is Some && details_in(
                document_in(json_of(source@)->0)->0,
                origin@,
                source_mtime,
            ) is None && o@ == origin@,
        },
{
    match parse_json(source) {
        Ok(root) => read_details(&root, origin, source_mtime),
        Err(_) => Err(DescribeError::NotJson { origin: origin.to_owned() }),
    }
}

/// What there is to do about a port whose details may be remembered.
#[derive(Debug, Clone, Copy, PartialEq, Eq, Structural)]
pub enum Freshness {
    /// What is remembered still matches the Makefiles.
    Fresh,
    /// The port has to be asked.
    Stale,
    /// There is no Makefile to read.
    Missing,
}

/// What there is to do about a port, by the age of what is remembered and that
/// of its Makefiles.
pub open spec fn freshness_of(cached: Option<i64>, on_disk: Option<i64>) -> Freshness {
    match on_disk {
        None => Freshness::Missing,
        Some(now) => if cached == Some(now) {
            Freshness::Fresh
        } else {
            Freshness::Stale
        },
    }
}

/// What there is to do about a port.
pub fn freshness(cached: Option<i64>, on_disk: Option<i64>) -> (r: Freshness)
    ensures
        r == freshness_of(cached, on_disk),
{
    match on_disk {
        None => Freshness::Missing,
        Some(now) => match cached {
            Some(then) => if then == now {
                Freshness::Fresh
            } else {
                Freshness::Stale
            },
            None => Freshness::Stale,
        },
    }
}

/// What came of describing ports.
#[derive(Debug, Clone, Copy, PartialEq, Eq, Structural)]
pub struct DescribeStats {
    pub described: usize,
    pub cached: usize,
    pub failed: usize,
}

/// Whether a text is one of some items, but for the space around it, and says
/// something.
pub open spec fn is_said(items: Seq<serde_json::Value>, x: Seq<char>) -> bool {
    x.len() > 0 && exists|i: int|
        0 <= i < items.len() && text_of(#[trigger] items[i]) is Some && text::trimmed(
            text_of(items[i])->0,
        ) == x
}

proof fn lemma_texts(items: Seq<serde_json::Value>, n: int, x: Seq<char>)
    requires
        0 <= n <= items.len(),
    ensures
        texts_upto(items, n).contains(x) <==> is_said(items.take(n), x),
    decreases n,
{
    let first = items.take(n);
    if n > 0 {
        lemma_texts(items, n - 1, x);
        let less = items.take(n - 1);
        assert(first[n - 1] == items[n - 1]);
        assert forall|i: int| 0 <= i < n - 1 implies #[trigger] first[i] == less[i] by {}
        let rest = texts_upto(items, n - 1);
        if let Some(t) = text_of(items[n - 1]) {
            let more = rest.push(text::trimmed(t));
            assert(more.drop_last() =~= rest);
            crate::order::lemma_contains_last(more, x);
        }
        if is_said(less, x) {
            let i = choose|i: int|
                0 <= i < less.len() && text_of(#[trigger] less[i]) is Some && text::trimmed(
                    text_of(less[i])->0,
                ) == x;
            assert(first[i] == less[i]);
        }
        if is_said(first, x) {
            let i = choose|i: int|
                0 <= i < first.len() && text_of(#[trigger] first[i]) is Some && text::trimmed(
                    text_of(first[i])->0,
                ) == x;
            if i < n - 1 {
                assert(first[i] == less[i]);
            }
        }
    } else {
        assert(first.len() == 0);
    }
}

proof fn lemma_member_found(list: Seq<(Seq<char>, serde_json::Value)>, key: Seq<char>, from: int)
    requires
        0 <= from <= list.len(),
    ensures
        match member_from(list, key, from) {
            Some(i) => from <= i < list.len() && list[i].0 == key,
            None => forall|j: int| from <= j < list.len() ==> (#[trigger] list[j]).0 != key,
        },
    decreases list.len() - from,
{
    if from < list.len() && list[from].0 != key {
        lemma_member_found(list, key, from + 1);
    }
}

proof fn lemma_flavour_found(list: Seq<(Seq<char>, serde_json::Value)>, from: int)
    requires
        0 <= from <= list.len(),
    ensures
        match flavour_from(list, from) {
            Some(i) => from <= i < list.len() && member(list[i].1, "pkgname"@) is Some && forall|
                j: int,
            |
                from <= j < i ==> member((#[trigger] list[j]).1, "pkgname"@) is None,
            None => forall|j: int|
                from <= j < list.len() ==> member((#[trigger] list[j]).1, "pkgname"@) is None,
        },
    decreases list.len() - from,
{
    if from < list.len() && member(list[from].1, "pkgname"@) is None {
        lemma_flavour_found(list, from + 1);
    }
}

/// Whether a value is an object with this key.
pub open spec fn has_key(v: serde_json::Value, key: Seq<char>) -> bool {
    members_of(v) is Some && exists|i: int|
        0 <= i < members_of(v)->0.len() && (#[trigger] (members_of(v)->0)[i]).0 == key
}

proof fn lemma_has_key(v: serde_json::Value, key: Seq<char>)
    ensures
        member(v, key) is Some <==> has_key(v, key),
{
    if let Some(list) = members_of(v) {
        lemma_member_found(list, key, 0);
    }
}

/// What describes a port is the whole document where that names a package, and
/// else the first of its members that does.
pub proof fn the_first_that_names_a_package_is_read(
    root: serde_json::Value,
    list: Seq<(Seq<char>, serde_json::Value)>,
)
    requires
        members_of(root) == Some(list),
    ensures
        has_key(root, "pkgname"@) ==> document_in(root) == Some(root),
        !has_key(root, "pkgname"@) ==> match document_in(root) {
            Some(doc) => exists|i: int|
                0 <= i < list.len() && doc == (#[trigger] list[i]).1 && has_key(doc, "pkgname"@)
                    && forall|j: int| 0 <= j < i ==> !has_key((#[trigger] list[j]).1, "pkgname"@),
            None => forall|j: int|
                0 <= j < list.len() ==> !has_key((#[trigger] list[j]).1, "pkgname"@),
        },
{
    lemma_has_key(root, "pkgname"@);
    lemma_flavour_found(list, 0);
    assert forall|j: int| 0 <= j < list.len() implies has_key((#[trigger] list[j]).1, "pkgname"@)
        == (member(list[j].1, "pkgname"@) is Some) by {
        lemma_has_key(list[j].1, "pkgname"@);
    }
}

/// A description gives the name of the package, the name without its version,
/// every option of the port and every one that ships set, and no others.
pub proof fn a_description_is_read_whole(
    doc: serde_json::Value,
    origin: Seq<char>,
    mtime: i64,
    name: Seq<char>,
    options: serde_json::Value,
    shipped: serde_json::Value,
)
    requires
        member(doc, "pkgname"@) is Some,
        text_of(member(doc, "pkgname"@)->0) == Some(name),
        member(doc, "complete_options_list"@) == Some(options),
        member(doc, "options_default"@) == Some(shipped),
        items_of(options) is Some,
        items_of(shipped) is Some,
    ensures
        match details_in(doc, origin, mtime) {
            None => text::trimmed(name).len() == 0,
            Some(d) => {
                &&& text::trimmed(name).len() > 0
                &&& d.origin == origin
                &&& d.pkgname == text::trimmed(name)
                &&& d.source_mtime == mtime
                &&& member(doc, "pkgbase"@) is None ==> match text::before_last(d.pkgname, '-') {
                    Some(b) => d.pkgbase == b,
                    None => d.pkgbase == d.pkgname,
                }
                &&& forall|x: Seq<char>| #[trigger]
                    d.complete_options_list.contains(x) <==> is_said(items_of(options)->0, x)
                &&& forall|x: Seq<char>| #[trigger]
                    d.options_default.contains(x) <==> is_said(items_of(shipped)->0, x)
            },
        },
{
    let a = items_of(options)->0;
    let b = items_of(shipped)->0;
    assert(a.take(a.len() as int) =~= a);
    assert(b.take(b.len() as int) =~= b);
    assert(text::trimmed(Seq::<char>::empty()).len() == 0) by {
        let ends = text::trimming_takes_the_ends(Seq::<char>::empty());
    }
    assert forall|x: Seq<char>| #[trigger]
        texts_upto(a, a.len() as int).contains(x) <==> is_said(a, x) by {
        lemma_texts(a, a.len() as int, x);
    }
    assert forall|x: Seq<char>| #[trigger]
        texts_upto(b, b.len() as int).contains(x) <==> is_said(b, x) by {
        lemma_texts(b, b.len() as int, x);
    }
}

} // verus!
