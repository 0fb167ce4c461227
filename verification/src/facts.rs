//! What an evaluation reports about a port.
use crate::order;
use crate::order::Ordered;
use crate::text;
use crate::text::{copy_opt, copy_texts};
use vstd::prelude::*;

verus! {

/// Whether a dependency applies when its option is on or off.
///
/// `FOO_RUN_DEPENDS` applies when `FOO` is set; `FOO_RUN_DEPENDS_OFF` when it is
/// not.
#[derive(Debug, Clone, Copy, PartialEq, Eq, Structural)]
pub enum Polarity {
    On,
    Off,
}

impl Polarity {
    /// The tag that names this polarity in a query.
    pub fn as_str(self) -> (r: &'static str)
        ensures
            r@ == polarity_text(self),
    {
        match self {
            Polarity::On => "ON",
            Polarity::Off => "OFF",
        }
    }
}

/// The tag that names a polarity in a query.
pub open spec fn polarity_text(p: Polarity) -> Seq<char> {
    match p {
        Polarity::On => "ON"@,
        Polarity::Off => "OFF"@,
    }
}

/// One option of a port.
#[derive(Debug, PartialEq, Eq)]
pub struct OptionFacts {
    pub name: String,
    pub description: String,
    /// `DEFINE`, or `SINGLE`/`MULTI`/`RADIO`/`GROUP` when the option belongs to
    /// a group.
    pub group_type: String,
    pub group_name: String,
    pub default_on: bool,
    pub implies: Vec<String>,
    pub prevents: Vec<String>,
}

/// What an `OptionFacts` says.
pub struct OptionFactsView {
    pub name: Seq<char>,
    pub description: Seq<char>,
    pub group_type: Seq<char>,
    pub group_name: Seq<char>,
    pub default_on: bool,
    pub implies: Seq<Seq<char>>,
    pub prevents: Seq<Seq<char>>,
}

impl View for OptionFacts {
    type V = OptionFactsView;

    open spec fn view(&self) -> OptionFactsView {
        OptionFactsView {
            name: self.name@,
            description: self.description@,
            group_type: self.group_type@,
            group_name: self.group_name@,
            default_on: self.default_on,
            implies: text::texts(self.implies@),
            prevents: text::texts(self.prevents@),
        }
    }
}

impl Clone for OptionFacts {
    fn clone(&self) -> (r: Self)
        ensures
            r@ == self@,
    {
        OptionFacts {
            name: self.name.clone(),
            description: self.description.clone(),
            group_type: self.group_type.clone(),
            group_name: self.group_name.clone(),
            default_on: self.default_on,
            implies: copy_texts(&self.implies),
            prevents: copy_texts(&self.prevents),
        }
    }
}

/// One dependency of a port.
#[derive(Debug, PartialEq, Eq)]
pub struct DepEntry {
    pub origin: String,
    /// The `@flavour` suffix, which selects which build of the target is wanted.
    pub flavour: Option<String>,
    pub class: String,
    /// `None` for an unconditional dependency.
    pub via_option: Option<String>,
    pub polarity: Polarity,
}

/// What a `DepEntry` says.
pub struct DepView {
    pub origin: Seq<char>,
    pub flavour: Option<Seq<char>>,
    pub class: Seq<char>,
    pub via_option: Option<Seq<char>>,
    pub polarity: Polarity,
}

impl View for DepEntry {
    type V = DepView;

    open spec fn view(&self) -> DepView {
        DepView {
            origin: self.origin@,
            flavour: text::opt_text(self.flavour),
            class: self.class@,
            via_option: text::opt_text(self.via_option),
            polarity: self.polarity,
        }
    }
}

impl Clone for DepEntry {
    fn clone(&self) -> (r: Self)
        ensures
            r@ == self@,
    {
        DepEntry {
            origin: self.origin.clone(),
            flavour: copy_opt(&self.flavour),
            class: self.class.clone(),
            via_option: copy_opt(&self.via_option),
            polarity: self.polarity,
        }
    }
}

/// A depends entry that named nothing that can be pointed at.
#[derive(Debug, PartialEq, Eq)]
pub struct Unresolved {
    pub raw_entry: String,
    pub reason: &'static str,
}

/// What an `Unresolved` says: the entry and the reason.
pub struct UnresolvedView {
    pub raw_entry: Seq<char>,
    pub reason: Seq<char>,
}

impl View for Unresolved {
    type V = UnresolvedView;

    open spec fn view(&self) -> UnresolvedView {
        UnresolvedView { raw_entry: self.raw_entry@, reason: self.reason@ }
    }
}

impl Clone for Unresolved {
    fn clone(&self) -> (r: Self)
        ensures
            r@ == self@,
    {
        Unresolved { raw_entry: self.raw_entry.clone(), reason: self.reason }
    }
}

/// Everything that one evaluation reports about a port.
#[derive(Debug, Clone, PartialEq, Eq)]
pub struct PortFacts {
    pub origin: String,
    pub pkgname: String,
    pub pkgbase: String,
    pub flavours: Vec<String>,
    pub options: Vec<OptionFacts>,
    pub deps: Vec<DepEntry>,
    pub unresolved: Vec<Unresolved>,
    pub source_mtime: i64,
}

/// What a `PortFacts` says.
pub struct FactsView {
    pub origin: Seq<char>,
    pub pkgname: Seq<char>,
    pub pkgbase: Seq<char>,
    pub flavours: Seq<Seq<char>>,
    pub options: Seq<OptionFactsView>,
    pub deps: Seq<DepView>,
    pub unresolved: Seq<UnresolvedView>,
    pub source_mtime: i64,
}

impl View for PortFacts {
    type V = FactsView;

    open spec fn view(&self) -> FactsView {
        FactsView {
            origin: self.origin@,
            pkgname: self.pkgname@,
            pkgbase: self.pkgbase@,
            flavours: text::texts(self.flavours@),
            options: order::views(self.options@),
            deps: order::views(self.deps@),
            unresolved: order::views(self.unresolved@),
            source_mtime: self.source_mtime,
        }
    }
}

/// The order in which a port's options are listed: those in no group first,
/// then each group whole, by group name, group type and option name.
pub open spec fn option_le(a: OptionFactsView, b: OptionFactsView) -> bool {
    let ga = a.group_name.len() > 0;
    let gb = b.group_name.len() > 0;
    if ga != gb {
        gb
    } else if a.group_name != b.group_name {
        order::text_le(a.group_name, b.group_name)
    } else if a.group_type != b.group_type {
        order::text_le(a.group_type, b.group_type)
    } else {
        order::text_le(a.name, b.name)
    }
}

impl Ordered for OptionFacts {
    open spec fn before(a: OptionFactsView, b: OptionFactsView) -> bool {
        option_le(a, b)
    }

    fn no_later(&self, other: &Self) -> (r: bool) {
        let ga = !self.group_name.as_str().is_empty();
        let gb = !other.group_name.as_str().is_empty();
        if ga != gb {
            gb
        } else if self.group_name != other.group_name {
            order::at_most(self.group_name.as_str(), other.group_name.as_str())
        } else if self.group_type != other.group_type {
            order::at_most(self.group_type.as_str(), other.group_type.as_str())
        } else {
            order::at_most(self.name.as_str(), other.name.as_str())
        }
    }

    fn copied(&self) -> (r: Self) {
        self.clone()
    }
}

/// A port's options in the order in which they are listed.
pub open spec fn listed_options(options: Seq<OptionFactsView>) -> Seq<OptionFactsView> {
    order::sort_of(options, |a: OptionFactsView, b: OptionFactsView| option_le(a, b))
}

/// The order in which options are listed is an order.
proof fn lemma_option_order()
    ensures
        order::is_order(|a: OptionFactsView, b: OptionFactsView| option_le(a, b)),
{
    let le = |a: OptionFactsView, b: OptionFactsView| option_le(a, b);
    assert forall|x: OptionFactsView, y: OptionFactsView| #[trigger] le(x, y) || le(y, x) by {
        order::lemma_text_total(x.group_name, y.group_name);
        order::lemma_text_total(x.group_type, y.group_type);
        order::lemma_text_total(x.name, y.name);
    }
    assert forall|x: OptionFactsView, y: OptionFactsView, z: OptionFactsView| #[trigger]
        le(x, y) && #[trigger] le(y, z) implies le(x, z) by {
        lemma_option_trans(x, y, z);
    }
}

proof fn lemma_option_trans(x: OptionFactsView, y: OptionFactsView, z: OptionFactsView)
    requires
        option_le(x, y),
        option_le(y, z),
    ensures
        option_le(x, z),
{
    if x.group_name != y.group_name && y.group_name != z.group_name && order::text_le(
        x.group_name,
        y.group_name,
    ) && order::text_le(y.group_name, z.group_name) {
        order::lemma_text_trans(x.group_name, y.group_name, z.group_name);
        if x.group_name == z.group_name {
            order::lemma_text_same(x.group_name, y.group_name);
        }
    } else if x.group_name == y.group_name && y.group_name == z.group_name {
        if x.group_type != y.group_type && y.group_type != z.group_type {
            order::lemma_text_trans(x.group_type, y.group_type, z.group_type);
            if x.group_type == z.group_type {
                order::lemma_text_same(x.group_type, y.group_type);
            }
        } else if x.group_type == y.group_type && y.group_type == z.group_type {
            order::lemma_text_trans(x.name, y.name, z.name);
        }
    }
}

/// Options are listed with those in no group first and every group whole: what
/// stands between two options of a group is of the group too.
pub proof fn groups_are_listed_whole(options: Seq<OptionFactsView>, i: int, j: int, k: int)
    requires
        0 <= i <= j <= k < listed_options(options).len(),
    ensures
        listed_options(options)[i].group_name == listed_options(options)[k].group_name
            ==> listed_options(options)[j].group_name == listed_options(options)[i].group_name,
        listed_options(options)[j].group_name.len() == 0 ==> listed_options(
            options,
        )[i].group_name.len() == 0,
        listed_options(options).to_multiset() == options.to_multiset(),
{
    let le = |a: OptionFactsView, b: OptionFactsView| option_le(a, b);
    let r = listed_options(options);
    lemma_option_order();
    order::lemma_sort(options, le);
    if i < j {
        assert(le(r[i], r[j]));
    }
    if j < k {
        assert(le(r[j], r[k]));
    }
    if r[i].group_name == r[k].group_name && r[j].group_name != r[i].group_name
        && r[i].group_name.len() > 0 {
        order::lemma_text_same(r[i].group_name, r[j].group_name);
    }
    if r[i].group_name.len() == 0 && r[j].group_name.len() == 0 {
        assert(r[i].group_name =~= r[j].group_name);
    }
}

/// Listing options leaves none out and adds none.
pub proof fn lemma_listed_whole(options: Seq<OptionFactsView>)
    ensures
        listed_options(options).to_multiset() == options.to_multiset(),
        listed_options(options).len() == options.len(),
{
    broadcast use vstd::seq_lib::group_to_multiset_ensures;

    lemma_option_order();
    order::lemma_sort(options, |a: OptionFactsView, b: OptionFactsView| option_le(a, b));
    assert(options.to_multiset().len() == options.len());
    assert(listed_options(options).to_multiset().len() == listed_options(options).len());
}

/// A port's options in the order in which they are listed.
pub fn list_options(options: &Vec<OptionFacts>) -> (r: Vec<OptionFacts>)
    ensures
        order::views(r@) == listed_options(order::views(options@)),
{
    let r = order::sort(options);
    proof {
        assert((|a: OptionFactsView, b: OptionFactsView| OptionFacts::before(a, b)) =~= (|
            a: OptionFactsView,
            b: OptionFactsView,
        | option_le(a, b)));
    }
    r
}

} // verus!
