//! How a graph grows: ports are added at the end, and what they depend on is
//! recorded as it becomes known.
use super::fold;
use super::live;
use super::rows;
use super::{
    DependencyGraph, GraphView, Mode, OptionNode, OptionView, PortEntry, PortView, Provenance,
    SectionState,
};
use crate::facts;
use crate::facts::{DepEntry, DepView, FactsView, OptionFacts, OptionFactsView, Polarity, PortFacts};
use crate::graph;
use crate::order;
use crate::reader;
use crate::reader::{SavedView, SystemOptions};
use crate::text;
use crate::text::{opt_is, trim};
use vstd::hash_map::StringHashMap;
use vstd::prelude::*;

verus! {

/// A port about to be added to a graph. The three lists beside the options say
/// of each whether it is set, and what it pulls in when it is on and off.
pub struct Seedling {
    pub origin: String,
    pub provenance: Provenance,
    pub resolved: bool,
    pub requires: Vec<String>,
    pub options: Vec<OptionFacts>,
    pub enabled: Vec<bool>,
    pub on: Vec<Vec<String>>,
    pub off: Vec<Vec<String>>,
}

/// What a `Seedling` says.
pub struct SeedView {
    pub origin: Seq<char>,
    pub provenance: Provenance,
    pub resolved: bool,
    pub requires: Seq<Seq<char>>,
    pub options: Seq<OptionFactsView>,
    pub enabled: Seq<bool>,
    pub on: Seq<Seq<Seq<char>>>,
    pub off: Seq<Seq<Seq<char>>>,
}

/// What lists of strings hold.
pub open spec fn text_lists(v: Seq<Vec<String>>) -> Seq<Seq<Seq<char>>> {
    Seq::new(v.len(), |i: int| text::texts(v[i]@))
}

impl View for Seedling {
    type V = SeedView;

    open spec fn view(&self) -> SeedView {
        SeedView {
            origin: self.origin@,
            provenance: self.provenance,
            resolved: self.resolved,
            requires: text::texts(self.requires@),
            options: order::views(self.options@),
            enabled: self.enabled@,
            on: text_lists(self.on@),
            off: text_lists(self.off@),
        }
    }
}

/// Every option has its state and its dependencies.
pub open spec fn seed_ok(s: SeedView) -> bool {
    s.enabled.len() == s.options.len() && s.on.len() == s.options.len() && s.off.len()
        == s.options.len()
}

/// The `i`th option of a port as it is added.
pub open spec fn seed_option(s: SeedView, i: int, port: usize, base: nat) -> OptionView {
    let o = s.options[i];
    OptionView {
        id: (base + i) as usize,
        port_origin: s.origin,
        name: o.name,
        description: o.description,
        enabled: s.enabled[i],
        initial_enabled: s.enabled[i],
        group_type: o.group_type,
        group_name: o.group_name,
        is_expanded: false,
        last_single_seq: 0,
        subtree_seq: 0,
        subtree_mode: Mode::Unset,
        parent_port: port,
        dep_origins: s.on[i],
        dep_origins_off: s.off[i],
        dep_idx: seq![],
        dep_idx_off: seq![],
        implies: o.implies,
        prevents: o.prevents,
    }
}

/// The options of a port as it is added.
pub open spec fn seed_options(s: SeedView, port: usize, base: nat) -> Seq<OptionView> {
    Seq::new(s.options.len(), |i: int| seed_option(s, i, port, base))
}

/// A port as it is added. One that was asked for by name is open on arrival.
pub open spec fn seed_port(s: SeedView, port: usize, base: nat) -> PortView {
    PortView {
        id: port,
        origin: s.origin,
        provenance: s.provenance,
        resolved: s.resolved,
        options: Seq::new(s.options.len(), |i: int| (base + i) as usize),
        requires: s.requires,
        requires_idx: seq![],
        required_by: seq![],
        is_expanded: s.provenance == Provenance::Requested,
        last_single_seq: 0,
        subtree_seq: 0,
        subtree_mode: Mode::Unset,
        requires_section: graph::closed_section(),
        required_by_section: graph::closed_section(),
    }
}

/// A graph with a port added at the end: every number in it stays what it was.
pub open spec fn planted(g: GraphView, s: SeedView) -> GraphView {
    let port = g.ports.len() as usize;
    GraphView {
        ports: g.ports.push(seed_port(s, port, g.options.len())),
        options: g.options + seed_options(s, port, g.options.len()),
        by_origin: g.by_origin.insert(s.origin, port),
        live: g.live.push(false),
        ..g
    }
}

/// What adding a port keeps.
pub proof fn lemma_planted(g: GraphView, s: SeedView)
    requires
        graph::shape_ok(g.ports, g.options),
        graph::index_ok(g.ports, g.by_origin),
        !g.by_origin.contains_key(s.origin),
        seed_ok(s),
        g.ports.len() < usize::MAX,
        g.options.len() + s.options.len() <= usize::MAX,
    ensures
        graph::shape_ok(planted(g, s).ports, planted(g, s).options),
        graph::index_ok(planted(g, s).ports, planted(g, s).by_origin),
        g.live.len() == g.ports.len() ==> planted(g, s).live.len() == planted(g, s).ports.len(),
{
    let h = planted(g, s);
    let p = g.ports.len() as int;
    let base = g.options.len();
    assert forall|i: int| 0 <= i < h.ports.len() implies #[trigger] graph::port_ok(
        h.ports,
        h.options,
        i,
    ) by {
        if i < p {
            assert(graph::port_ok(g.ports, g.options, i));
            assert(h.ports[i] == g.ports[i]);
            assert forall|j: int| 0 <= j < h.ports[i].options.len() implies (
            #[trigger] h.ports[i].options[j]) < h.options.len()
                && h.options[h.ports[i].options[j] as int].parent_port == i by {
                let k = g.ports[i].options[j];
                assert(k < g.options.len());
                assert(h.options[k as int] == g.options[k as int]);
            }
        } else {
            let q = h.ports[i];
            assert(q == seed_port(s, p as usize, base));
            assert forall|j: int| 0 <= j < q.options.len() implies (#[trigger] q.options[j])
                < h.options.len() && h.options[q.options[j] as int].parent_port == i by {
                assert(q.options[j] == base + j);
                assert(h.options[base + j] == seed_option(s, j, p as usize, base));
            }
        }
    }
    assert forall|k: int| 0 <= k < h.options.len() implies #[trigger] graph::option_ok(
        h.ports,
        h.options,
        k,
    ) by {
        if k < base {
            assert(graph::option_ok(g.ports, g.options, k));
            assert(h.options[k] == g.options[k]);
            let q = g.options[k].parent_port as int;
            assert(h.ports[q] == g.ports[q]);
        } else {
            assert(h.options[k] == seed_option(s, k - base, p as usize, base));
            assert(h.ports[p].options[k - base] == k);
        }
    }
    assert forall|i: int| 0 <= i < h.ports.len() implies h.by_origin.contains_key(
        (#[trigger] h.ports[i]).origin,
    ) && h.by_origin[h.ports[i].origin] == i by {
        if i < p {
            assert(h.ports[i] == g.ports[i]);
            assert(g.by_origin.contains_key(g.ports[i].origin));
        }
    }
    assert forall|o: Seq<char>| #[trigger] h.by_origin.contains_key(o) implies h.by_origin[o]
        < h.ports.len() && h.ports[h.by_origin[o] as int].origin == o by {
        if o != s.origin {
            assert(g.by_origin.contains_key(o));
        }
    }
}

/// Whether a dependency is one that an option brings when it is on, or off, or,
/// where no option is named, one that a port has whatever its options say.
pub open spec fn brings(d: DepView, via: Option<Seq<char>>, off: bool) -> bool {
    d.via_option == via && (via is None || (d.polarity == Polarity::Off) == off)
}

/// The origins of those of the first `n` dependencies.
pub open spec fn brought_upto(
    deps: Seq<DepView>,
    via: Option<Seq<char>>,
    off: bool,
    n: int,
) -> Seq<Seq<char>>
    decreases n,
{
    if n <= 0 {
        seq![]
    } else {
        let rest = brought_upto(deps, via, off, n - 1);
        if brings(deps[n - 1], via, off) {
            rest.push(deps[n - 1].origin)
        } else {
            rest
        }
    }
}

/// The origins of the dependencies that a port has whatever its options say,
/// in order, each once.
pub open spec fn plain_deps(deps: Seq<DepView>) -> Seq<Seq<char>> {
    order::text_set(brought_upto(deps, None, false, deps.len() as int))
}

/// The origins of the dependencies that an option brings when it is on, or off,
/// in order, each once.
pub open spec fn option_deps(deps: Seq<DepView>, name: Seq<char>, off: bool) -> Seq<Seq<char>> {
    order::text_set(brought_upto(deps, Some(name), off, deps.len() as int))
}

/// The origins of the dependencies that a port has whatever its options say.
pub fn find_plain_deps(deps: &Vec<DepEntry>) -> (r: Vec<String>)
    ensures
        text::texts(r@) == plain_deps(order::views(deps@)),
{
    broadcast use text::lemma_texts_push;

    let ghost dv = order::views(deps@);
    let mut out: Vec<String> = Vec::new();
    let mut n: usize = 0;
    proof {
        assert(text::texts(out@) =~= seq![]);
    }
    while n < deps.len()
        invariant
            n <= deps@.len(),
            dv == order::views(deps@),
            text::texts(out@) == brought_upto(dv, None, false, n as int),
        decreases deps@.len() - n,
    {
        proof {
            assert(dv[n as int] == deps@[n as int]@);
        }
        if deps[n].via_option.is_none() {
            out.push(deps[n].origin.clone());
        }
        n += 1;
    }
    order::sorted_texts_once(&out)
}

/// The origins of the dependencies that an option brings when it is on, or off.
pub fn find_option_deps(deps: &Vec<DepEntry>, name: &str, off: bool) -> (r: Vec<String>)
    ensures
        text::texts(r@) == option_deps(order::views(deps@), name@, off),
{
    broadcast use text::lemma_texts_push;

    let ghost dv = order::views(deps@);
    let mut out: Vec<String> = Vec::new();
    let mut n: usize = 0;
    proof {
        assert(text::texts(out@) =~= seq![]);
    }
    while n < deps.len()
        invariant
            n <= deps@.len(),
            dv == order::views(deps@),
            text::texts(out@) == brought_upto(dv, Some(name@), off, n as int),
        decreases deps@.len() - n,
    {
        proof {
            assert(dv[n as int] == deps@[n as int]@);
        }
        if opt_is(&deps[n].via_option, name) && (deps[n].polarity == Polarity::Off) == off {
            out.push(deps[n].origin.clone());
        }
        n += 1;
    }
    order::sorted_texts_once(&out)
}

/// What is known of a port that was just evaluated: its options as listed, set
/// as the user's saved configuration says, and no dependencies yet.
pub open spec fn fresh_seed(f: FactsView, saved: SavedView) -> SeedView {
    let options = facts::listed_options(f.options);
    SeedView {
        origin: f.origin,
        provenance: Provenance::Dependency,
        resolved: true,
        requires: seq![],
        options,
        enabled: Seq::new(
            options.len(),
            |i: int| reader::state_of(saved, f.origin, options[i].name, options[i].default_on),
        ),
        on: Seq::new(options.len(), |i: int| seq![]),
        off: Seq::new(options.len(), |i: int| seq![]),
    }
}

/// Package names with that of a port, where it has one.
pub open spec fn with_package(
    names: Map<Seq<char>, Seq<char>>,
    origin: Seq<char>,
    pkgname: Seq<char>,
) -> Map<Seq<char>, Seq<char>> {
    if text::trimmed(pkgname).len() > 0 {
        names.insert(origin, pkgname)
    } else {
        names
    }
}

/// A graph with an evaluated port added, unless it is in it.
pub open spec fn added(g: GraphView, f: FactsView, saved: SavedView) -> GraphView {
    if g.by_origin.contains_key(f.origin) {
        g
    } else {
        let h = planted(g, fresh_seed(f, saved));
        GraphView { pkg_names: with_package(g.pkg_names, f.origin, f.pkgname), ..h }
    }
}

/// Where an evaluated port is once it has been added.
pub open spec fn added_at(g: GraphView, f: FactsView) -> int {
    if g.by_origin.contains_key(f.origin) {
        g.by_origin[f.origin] as int
    } else {
        g.ports.len() as int
    }
}

/// The options of a graph with those of one port told what they pull in.
pub open spec fn options_told(g: GraphView, i: int, deps: Seq<DepView>) -> Seq<OptionView> {
    Seq::new(
        g.options.len(),
        |k: int|
            if graph::listed(g.ports[i].options, k) {
                OptionView {
                    dep_origins: option_deps(deps, g.options[k].name, false),
                    dep_origins_off: option_deps(deps, g.options[k].name, true),
                    ..g.options[k]
                }
            } else {
                g.options[k]
            },
    )
}

/// A graph in which what an evaluation said of a port's dependencies is
/// recorded.
pub open spec fn told(g: GraphView, origin: Seq<char>, f: FactsView) -> GraphView {
    match graph::index_of(g, origin) {
        None => g,
        Some(i) => {
            let p = g.ports[i as int];
            GraphView {
                ports: g.ports.update(
                    i as int,
                    PortView { requires: plain_deps(f.deps), resolved: true, ..p },
                ),
                options: options_told(g, i as int, f.deps),
                ..g
            }
        },
    }
}

/// What an option pulls in as it is set, by origin.
pub open spec fn origins_now(o: OptionView) -> Seq<Seq<char>> {
    if o.enabled {
        o.dep_origins
    } else {
        o.dep_origins_off
    }
}

/// What a port and the first `m` of its options pull in, by origin.
pub open spec fn wanted_upto(p: PortView, options: Seq<OptionView>, m: int) -> Seq<Seq<char>>
    decreases m,
{
    if m <= 0 {
        p.requires
    } else {
        wanted_upto(p, options, m - 1) + origins_now(options[p.options[m - 1] as int])
    }
}

/// Those of the first `n` origins that are not in the list.
pub open spec fn unknown_upto(
    origins: Seq<Seq<char>>,
    by: Map<Seq<char>, usize>,
    n: int,
) -> Seq<Seq<char>>
    decreases n,
{
    if n <= 0 {
        seq![]
    } else {
        let rest = unknown_upto(origins, by, n - 1);
        if by.contains_key(origins[n - 1]) {
            rest
        } else {
            rest.push(origins[n - 1])
        }
    }
}

/// What a port pulls in, as its options are set, that is not in the list: in
/// order, each once.
pub open spec fn unknown_to(g: GraphView, origin: Seq<char>) -> Seq<Seq<char>> {
    match graph::index_of(g, origin) {
        None => seq![],
        Some(i) => {
            let p = g.ports[i as int];
            let wanted = wanted_upto(p, g.options, p.options.len() as int);
            order::text_set(unknown_upto(wanted, g.by_origin, wanted.len() as int))
        },
    }
}

/// Recording dependencies keeps what the parts of a graph refer to.
pub proof fn lemma_told(g: GraphView, origin: Seq<char>, f: FactsView)
    requires
        graph::shape_ok(g.ports, g.options),
        graph::index_ok(g.ports, g.by_origin),
    ensures
        graph::shape_ok(told(g, origin, f).ports, told(g, origin, f).options),
        graph::index_ok(told(g, origin, f).ports, g.by_origin),
        fold::ports_alike(told(g, origin, f).ports, g.ports),
        fold::options_alike(told(g, origin, f).options, g.options),
{
    let h = told(g, origin, f);
    assert(fold::ports_alike(h.ports, g.ports));
    assert(fold::options_alike(h.options, g.options));
    fold::lemma_alike_shape(h, g);
}

impl DependencyGraph {
    /// Adds a port at the end.
    pub fn plant(&mut self, s: Seedling) -> (r: usize)
        requires
            graph::shape_ok(old(self)@.ports, old(self)@.options),
            graph::index_ok(old(self)@.ports, old(self)@.by_origin),
            !old(self)@.by_origin.contains_key(s@.origin),
            seed_ok(s@),
        ensures
            final(self)@ == planted(old(self)@, s@),
            r == old(self)@.ports.len(),
            graph::shape_ok(final(self)@.ports, final(self)@.options),
            graph::index_ok(final(self)@.ports, final(self)@.by_origin),
            old(self)@.live.len() == old(self)@.ports.len() ==> final(self)@.live.len()
                == final(self)@.ports.len(),
    {
        broadcast use order::lemma_views_push;

        let ghost g = self@;
        let ghost sv = s@;
        let port_id: usize = self.ports.len();
        let base: usize = self.option_nodes.len();
        let mut ids: Vec<usize> = Vec::new();
        let mut i: usize = 0;
        let ghost all = seed_options(sv, port_id, base as nat);
        proof {
            assert(g.options + all.take(0) =~= g.options);
        }
        while i < s.options.len()
            invariant
                i <= s.options@.len(),
                sv == s@,
                seed_ok(sv),
                base == g.options.len(),
                port_id == g.ports.len(),
                all == seed_options(sv, port_id, base as nat),
                self@ == (GraphView { options: g.options + all.take(i as int), ..g }),
                self.option_nodes@.len() == base + i,
                ids@ == Seq::new(i as nat, |j: int| (base + j) as usize),
            decreases s.options@.len() - i,
        {
            let opt_id: usize = self.option_nodes.len();
            let enabled = s.enabled[i];
            proof {
                assert(sv.options[i as int] == s.options@[i as int]@);
                assert(sv.on[i as int] == text::texts(s.on@[i as int]@));
                assert(sv.off[i as int] == text::texts(s.off@[i as int]@));
            }
            let node = OptionNode {
                id: opt_id,
                port_origin: s.origin.clone(),
                name: s.options[i].name.clone(),
                description: s.options[i].description.clone(),
                enabled,
                initial_enabled: enabled,
                group_type: s.options[i].group_type.clone(),
                group_name: s.options[i].group_name.clone(),
                is_expanded: false,
                last_single_seq: 0,
                subtree_seq: 0,
                subtree_mode: Mode::Unset,
                parent_port: port_id,
                dep_origins: text::copy_texts(&s.on[i]),
                dep_origins_off: text::copy_texts(&s.off[i]),
                dep_idx: Vec::new(),
                dep_idx_off: Vec::new(),
                implies: text::copy_texts(&s.options[i].implies),
                prevents: text::copy_texts(&s.options[i].prevents),
            };
            proof {
                assert(node@.dep_idx =~= seq![]);
                assert(node@.dep_idx_off =~= seq![]);
                assert(node@ == all[i as int]);
            }
            let ghost before = self@.options;
            self.option_nodes.push(node);
            ids.push(opt_id);
            proof {
                assert(self@.options == before.push(all[i as int]));
                assert(before.push(all[i as int]) =~= g.options + all.take(i + 1));
                assert(ids@ =~= Seq::new((i + 1) as nat, |j: int| (base + j) as usize));
            }
            i += 1;
        }
        proof {
            assert(all.take(all.len() as int) =~= all);
        }
        let entry = PortEntry {
            id: port_id,
            origin: s.origin.clone(),
            provenance: s.provenance,
            resolved: s.resolved,
            options: ids,
            requires: text::copy_texts(&s.requires),
            requires_idx: Vec::new(),
            required_by: Vec::new(),
            is_expanded: s.provenance == Provenance::Requested,
            last_single_seq: 0,
            subtree_seq: 0,
            subtree_mode: Mode::Unset,
            requires_section: SectionState { is_expanded: false, last_single_seq: 0 },
            required_by_section: SectionState { is_expanded: false, last_single_seq: 0 },
        };
        proof {
            assert(entry@.requires_idx =~= seq![]);
            assert(entry@.required_by =~= seq![]);
            assert(entry@.options =~= seed_port(sv, port_id, base as nat).options);
            assert(entry@ == seed_port(sv, port_id, base as nat));
        }
        self.ports.push(entry);
        self.by_origin.insert(s.origin.clone(), port_id);
        self.live.push(false);
        proof {
            assert(self.option_nodes.len() == self.option_nodes@.len());
            assert(self.ports.len() == self.ports@.len());
            lemma_planted(g, sv);
        }
        port_id
    }

    /// Remembers the package name of a port, where it has one.
    pub fn note_package(&mut self, origin: &str, pkgname: &str)
        ensures
            final(self)@ == (GraphView {
                pkg_names: with_package(old(self)@.pkg_names, origin@, pkgname@),
                ..old(self)@
            }),
    {
        let t = trim(pkgname);
        if !t.as_str().is_empty() {
            let ghost before = self@.pkg_names;
            self.pkg_names.insert(origin.to_owned(), pkgname.to_owned());
            proof {
                assert(self@.pkg_names =~= before.insert(origin@, pkgname@));
            }
        }
    }

    /// Adds a port the walk had not reached, with its options set the way the
    /// user's saved configuration says.
    ///
    /// Appended rather than inserted in place: parts of the graph refer to
    /// ports by number. `order` carries the alphabetical reading instead.
    pub fn add_port(&mut self, f: &PortFacts, sys_opts: &SystemOptions) -> (r: usize)
        requires
            graph::shape_ok(old(self)@.ports, old(self)@.options),
            graph::index_ok(old(self)@.ports, old(self)@.by_origin),
        ensures
            final(self)@ == added(old(self)@, f@, sys_opts@),
            r == added_at(old(self)@, f@),
            r < final(self)@.ports.len(),
            graph::shape_ok(final(self)@.ports, final(self)@.options),
            graph::index_ok(final(self)@.ports, final(self)@.by_origin),
            old(self)@.live.len() == old(self)@.ports.len() ==> final(self)@.live.len()
                == final(self)@.ports.len(),
    {
        if let Some(existing) = self.port_index(f.origin.as_str()) {
            return existing;
        }
        let options = facts::list_options(&f.options);
        let ghost ov = order::views(options@);
        let ghost saved = sys_opts@;
        let mut enabled: Vec<bool> = Vec::new();
        let mut on: Vec<Vec<String>> = Vec::new();
        let mut off: Vec<Vec<String>> = Vec::new();
        let mut i: usize = 0;
        while i < options.len()
            invariant
                i <= options@.len(),
                ov == order::views(options@),
                saved == sys_opts@,
                enabled@.len() == i,
                on@.len() == i,
                off@.len() == i,
                forall|j: int|
                    0 <= j < i ==> #[trigger] enabled@[j] == reader::state_of(
                        saved,
                        f@.origin,
                        ov[j].name,
                        ov[j].default_on,
                    ),
                forall|j: int| 0 <= j < i ==> (#[trigger] on@[j])@.len() == 0,
                forall|j: int| 0 <= j < i ==> (#[trigger] off@[j])@.len() == 0,
            decreases options@.len() - i,
        {
            proof {
                assert(ov[i as int] == options@[i as int]@);
            }
            enabled.push(
                sys_opts.get_state(
                    f.origin.as_str(),
                    options[i].name.as_str(),
                    options[i].default_on,
                ),
            );
            on.push(Vec::new());
            off.push(Vec::new());
            i += 1;
        }
        let s = Seedling {
            origin: f.origin.clone(),
            provenance: Provenance::Dependency,
            resolved: true,
            requires: Vec::new(),
            options,
            enabled,
            on,
            off,
        };
        proof {
            let want = fresh_seed(f@, saved);
            assert(s@.requires =~= want.requires);
            assert(s@.enabled =~= want.enabled);
            assert forall|j: int| 0 <= j < s@.on.len() implies s@.on[j] =~= want.on[j] by {
                assert(on@[j]@.len() == 0);
            }
            assert(s@.on =~= want.on);
            assert forall|j: int| 0 <= j < s@.off.len() implies s@.off[j] =~= want.off[j] by {
                assert(off@[j]@.len() == 0);
            }
            assert(s@.off =~= want.off);
            assert(s@ == want);
        }
        let id = self.plant(s);
        self.note_package(f.origin.as_str(), f.pkgname.as_str());
        id
    }

    /// Records what make said a port depends on under the options now set, and
    /// reports the origins that answer mentions which the graph has never seen.
    ///
    /// Does *not* reindex or recompute reachability; the caller does it once per
    /// batch instead.
    pub fn apply_resolution(&mut self, origin: &str, f: &PortFacts) -> (r: Vec<String>)
        requires
            graph::shape_ok(old(self)@.ports, old(self)@.options),
            graph::index_ok(old(self)@.ports, old(self)@.by_origin),
        ensures
            final(self)@ == told(old(self)@, origin@, f@),
            text::texts(r@) == unknown_to(final(self)@, origin@),
            graph::shape_ok(final(self)@.ports, final(self)@.options),
            graph::index_ok(final(self)@.ports, final(self)@.by_origin),
    {
        broadcast use text::lemma_texts_push;

        let ghost g = self@;
        let port_id = match self.port_index(origin) {
            Some(i) => i,
            None => {
                let r: Vec<String> = Vec::new();
                proof {
                    assert(text::texts(r@) =~= seq![]);
                }
                return r;
            },
        };
        let ghost p = g.ports[port_id as int];
        let ghost deps = f@.deps;
        proof {
            assert(p == self.ports@[port_id as int]@);
            assert(graph::port_ok(g.ports, g.options, port_id as int));
        }
        let plain = find_plain_deps(&f.deps);
        self.ports[port_id].requires = plain;
        self.ports[port_id].resolved = true;
        let ghost p2 = PortView { requires: plain_deps(deps), resolved: true, ..p };
        let ghost ports = g.ports.update(port_id as int, p2);
        let n: usize = self.ports[port_id].options.len();
        let mut m: usize = 0;
        proof {
            assert(self@.ports =~= ports);
        }
        while m < n
            invariant
                m <= n,
                n == p.options.len(),
                port_id < g.ports.len(),
                p == g.ports[port_id as int],
                ports == g.ports.update(port_id as int, p2),
                p2.options == p.options,
                deps == order::views(f.deps@),
                graph::port_ok(g.ports, g.options, port_id as int),
                self@ == (GraphView { ports, options: self@.options, ..g }),
                self.option_nodes@.len() == g.options.len(),
                forall|k: int|
                    0 <= k < g.options.len() ==> #[trigger] self@.options[k] == (if graph::listed(
                        p.options.take(m as int),
                        k,
                    ) {
                        options_told(g, port_id as int, deps)[k]
                    } else {
                        g.options[k]
                    }),
            decreases n - m,
        {
            proof {
                assert(self@.ports.len() == self.ports@.len());
                assert(self@.ports[port_id as int] == self.ports@[port_id as int]@);
            }
            let k = self.ports[port_id].options[m];
            let ghost before = self@.options;
            proof {
                assert(p.options[m as int] == k);
                assert(graph::listed(p.options, k as int));
                assert(before[k as int] == self.option_nodes@[k as int]@);
                assert(before[k as int].name == g.options[k as int].name);
            }
            let on = find_option_deps(&f.deps, self.option_nodes[k].name.as_str(), false);
            let off = find_option_deps(&f.deps, self.option_nodes[k].name.as_str(), true);
            self.option_nodes[k].dep_origins = on;
            self.option_nodes[k].dep_origins_off = off;
            proof {
                let a = p.options.take(m as int);
                let b = p.options.take(m + 1);
                assert(b[m as int] == k);
                assert(!graph::listed(a, k as int)) by {
                    if graph::listed(a, k as int) {
                        let q = choose|q: int| 0 <= q < a.len() && #[trigger] a[q] == k as int;
                        assert(p.options[q] == p.options[m as int]);
                    }
                }
                assert forall|j: int| 0 <= j < g.options.len() implies #[trigger] self@.options[j]
                    == (if graph::listed(b, j) {
                    options_told(g, port_id as int, deps)[j]
                } else {
                    g.options[j]
                }) by {
                    if graph::listed(a, j) {
                        let q = choose|q: int| 0 <= q < a.len() && #[trigger] a[q] == j;
                        assert(b[q] == j);
                    }
                    if graph::listed(b, j) && j != k {
                        let q = choose|q: int| 0 <= q < b.len() && #[trigger] b[q] == j;
                        assert(a[q] == j);
                    }
                    if j != k {
                        assert(self@.options[j] == before[j]);
                    }
                }
            }
            m += 1;
        }
        let ghost h = told(g, origin@, f@);
        proof {
            assert(p.options.take(n as int) =~= p.options);
            assert(self@.options =~= h.options);
            assert(self@ == h);
            lemma_told(g, origin@, f@);
            assert(h.ports[port_id as int] == p2);
            assert(self@.ports[port_id as int] == self.ports@[port_id as int]@);
        }
        let mut wanted = text::copy_texts(&self.ports[port_id].requires);
        m = 0;
        while m < n
            invariant
                m <= n,
                n == p2.options.len(),
                p2 == h.ports[port_id as int],
                port_id < h.ports.len(),
                self@ == h,
                graph::shape_ok(h.ports, h.options),
                text::texts(wanted@) == wanted_upto(p2, h.options, m as int),
            decreases n - m,
        {
            proof {
                assert(self@.ports.len() == self.ports@.len());
                assert(self@.ports[port_id as int] == self.ports@[port_id as int]@);
                assert(graph::port_ok(h.ports, h.options, port_id as int));
            }
            let k = self.ports[port_id].options[m];
            proof {
                assert(p2.options[m as int] == k);
                assert(self@.options.len() == self.option_nodes@.len());
                assert(h.options[k as int] == self.option_nodes@[k as int]@);
            }
            if self.option_nodes[k].enabled {
                text::append(&mut wanted, &self.option_nodes[k].dep_origins);
            } else {
                text::append(&mut wanted, &self.option_nodes[k].dep_origins_off);
            }
            m += 1;
        }
        let ghost wv = text::texts(wanted@);
        let mut unknown: Vec<String> = Vec::new();
        m = 0;
        proof {
            assert(text::texts(unknown@) =~= seq![]);
        }
        while m < wanted.len()
            invariant
                m <= wanted@.len(),
                wv == text::texts(wanted@),
                self@ == h,
                text::texts(unknown@) == unknown_upto(wv, h.by_origin, m as int),
            decreases wanted@.len() - m,
        {
            proof {
                assert(wv[m as int] == wanted@[m as int]@);
            }
            if !self.by_origin.contains_key(wanted[m].as_str()) {
                unknown.push(wanted[m].clone());
            }
            m += 1;
        }
        proof {
            assert(wv.len() == wanted@.len());
        }
        order::sorted_texts_once(&unknown)
    }

    /// A graph that holds nothing yet.
    pub fn empty(title: &str) -> (r: Self)
        ensures
            r@ == empty_graph(title@),
            r@.wf(),
    {
        let r = DependencyGraph {
            root_origin: title.to_owned(),
            ports: Vec::new(),
            option_nodes: Vec::new(),
            by_origin: StringHashMap::new(),
            live: Vec::new(),
            order: Vec::new(),
            visible_rows: Vec::new(),
            pkg_names: StringHashMap::new(),
            groups: Vec::new(),
            hide_optionless: false,
            global_mode: Mode::Unset,
            last_global_seq: 0,
            current_seq: 0,
            search_query: String::new(),
        };
        proof {
            let e = empty_graph(title@);
            assert(r@.ports =~= e.ports);
            assert(r@.options =~= e.options);
            assert(r@.rows =~= e.rows);
            assert(r@.pkg_names =~= e.pkg_names);
            assert(r@.groups =~= e.groups);
            assert(r@.live =~= e.live);
            assert(r@.order =~= e.order);
            assert(r@.search =~= e.search);
        }
        r
    }
}

/// A graph that holds nothing yet.
pub open spec fn empty_graph(title: Seq<char>) -> GraphView {
    GraphView {
        root_origin: title,
        ports: seq![],
        options: seq![],
        by_origin: Map::empty(),
        live: seq![],
        order: seq![],
        rows: seq![],
        pkg_names: Map::empty(),
        groups: seq![],
        hide_optionless: false,
        global_mode: Mode::Unset,
        last_global_seq: 0,
        current_seq: 0,
        search: seq![],
    }
}

} // verus!
