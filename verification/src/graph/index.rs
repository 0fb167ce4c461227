//! What is derived from the set of ports: the alphabetical order, the indices
//! that origins resolve to, and the edges turned round.
use super::live;
use super::{DependencyGraph, GraphView, OptionView, PortView, RequiredBy, RequiredByView};
use crate::graph;
use crate::order;
use crate::order::Ordered;
use crate::text;
use vstd::hash_map::StringHashMap;
use vstd::prelude::*;

verus! {

/// A port's origin with its place in the list of ports.
pub struct Keyed {
    pub key: String,
    pub id: usize,
}

impl View for Keyed {
    type V = (Seq<char>, usize);

    open spec fn view(&self) -> (Seq<char>, usize) {
        (self.key@, self.id)
    }
}

impl Ordered for Keyed {
    open spec fn before(a: (Seq<char>, usize), b: (Seq<char>, usize)) -> bool {
        order::text_le(a.0, b.0)
    }

    fn no_later(&self, other: &Self) -> (r: bool) {
        order::at_most(self.key.as_str(), other.key.as_str())
    }

    fn copied(&self) -> (r: Self) {
        Keyed { key: self.key.clone(), id: self.id }
    }
}

/// The order of keyed places, by origin.
pub open spec fn keyed_le() -> spec_fn((Seq<char>, usize), (Seq<char>, usize)) -> bool {
    |a: (Seq<char>, usize), b: (Seq<char>, usize)| order::text_le(a.0, b.0)
}

/// Texts, each with its place.
pub open spec fn keyed_of(keys: Seq<Seq<char>>) -> Seq<(Seq<char>, usize)> {
    Seq::new(keys.len(), |i: int| (keys[i], i as usize))
}

/// The places of texts, in the order of the texts.
pub open spec fn ranks(keys: Seq<Seq<char>>) -> Seq<usize> {
    let sorted = order::sort_of(keyed_of(keys), keyed_le());
    Seq::new(sorted.len(), |i: int| sorted[i].1)
}

/// The origins of ports.
pub open spec fn origins(ports: Seq<PortView>) -> Seq<Seq<char>> {
    Seq::new(ports.len(), |i: int| ports[i].origin)
}

/// The places of the ports, alphabetised by origin.
pub open spec fn order_of(ports: Seq<PortView>) -> Seq<usize> {
    ranks(origins(ports))
}

/// The order of keyed places is an order.
proof fn lemma_keyed_order()
    ensures
        order::is_order(keyed_le()),
{
    let le = keyed_le();
    assert forall|x: (Seq<char>, usize), y: (Seq<char>, usize)| #[trigger] le(x, y) || le(
        y,
        x,
    ) by {
        order::lemma_text_total(x.0, y.0);
    }
    assert forall|x: (Seq<char>, usize), y: (Seq<char>, usize), z: (Seq<char>, usize)| #[trigger]
        le(x, y) && #[trigger] le(y, z) implies le(x, z) by {
        order::lemma_text_trans(x.0, y.0, z.0);
    }
}

/// The places of texts in the order of the texts are all the places, each
/// once.
pub proof fn lemma_ranks(keys: Seq<Seq<char>>)
    requires
        keys.len() <= usize::MAX,
    ensures
        ranks(keys).len() == keys.len(),
        graph::in_range(ranks(keys), keys.len()),
        ranks(keys).no_duplicates(),
        forall|i: int, j: int|
            0 <= i < j < keys.len() ==> order::text_le(
                keys[#[trigger] ranks(keys)[i] as int],
                keys[#[trigger] ranks(keys)[j] as int],
            ),
        forall|k: int| 0 <= k < keys.len() ==> #[trigger] graph::listed(ranks(keys), k),
{
    broadcast use vstd::seq_lib::group_to_multiset_ensures;

    let all = keyed_of(keys);
    let s = order::sort_of(all, keyed_le());
    let r = ranks(keys);
    lemma_keyed_order();
    order::lemma_sort(all, keyed_le());
    assert(all.no_duplicates());
    all.lemma_multiset_has_no_duplicates();
    s.lemma_multiset_has_no_duplicates_conv();
    assert forall|i: int| 0 <= i < s.len() implies (#[trigger] s[i]).1 < keys.len()
        && s[i].0 == keys[s[i].1 as int] by {
        assert(s.contains(s[i]));
        assert(all.contains(s[i]));
    }
    assert forall|i: int, j: int|
        0 <= i < j < keys.len() implies #[trigger] r[i] != #[trigger] r[j] && order::text_le(
        keys[r[i] as int],
        keys[r[j] as int],
    ) by {
        assert(s[i] != s[j]);
        assert(keyed_le()(s[i], s[j]));
    }
    assert forall|k: int| 0 <= k < keys.len() implies #[trigger] graph::listed(r, k) by {
        assert(all[k] == (keys[k], k as usize));
        assert(all.contains(all[k]));
        assert(s.contains(all[k]));
        let m = choose|m: int| 0 <= m < s.len() && s[m] == all[k];
        assert(r[m] == k);
    }
}

/// The list holds every port once, in alphabetical order.
pub proof fn ports_are_listed_once_in_order(g: GraphView)
    requires
        g.ports.len() <= usize::MAX,
    ensures
        reindexed(g).order.len() == g.ports.len(),
        reindexed(g).order.no_duplicates(),
        forall|k: int| 0 <= k < g.ports.len() ==> #[trigger] graph::listed(reindexed(g).order, k),
        forall|i: int, j: int|
            0 <= i < j < g.ports.len() ==> order::text_le(
                g.ports[#[trigger] reindexed(g).order[i] as int].origin,
                g.ports[#[trigger] reindexed(g).order[j] as int].origin,
            ),
{
    let o = origins(g.ports);
    lemma_ranks(o);
    assert forall|i: int, j: int| 0 <= i < j < g.ports.len() implies order::text_le(
        g.ports[#[trigger] reindexed(g).order[i] as int].origin,
        g.ports[#[trigger] reindexed(g).order[j] as int].origin,
    ) by {
        assert(graph::in_range(ranks(o), o.len()));
        assert(ranks(o)[i] < o.len() && ranks(o)[j] < o.len());
        assert(o[ranks(o)[i] as int] == g.ports[ranks(o)[i] as int].origin);
        assert(o[ranks(o)[j] as int] == g.ports[ranks(o)[j] as int].origin);
    }
}

/// The places of those of the origins that are in the list, in their order.
pub open spec fn places(origins: Seq<Seq<char>>, by: Map<Seq<char>, usize>) -> Seq<usize>
    decreases origins.len(),
{
    if origins.len() == 0 {
        seq![]
    } else {
        let rest = places(origins.drop_last(), by);
        if by.contains_key(origins.last()) {
            rest.push(by[origins.last()])
        } else {
            rest
        }
    }
}

/// A port with its unconditional dependencies resolved.
pub open spec fn port_placed(p: PortView, by: Map<Seq<char>, usize>) -> PortView {
    PortView { requires_idx: places(p.requires, by), ..p }
}

/// An option with its dependencies resolved.
pub open spec fn option_placed(o: OptionView, by: Map<Seq<char>, usize>) -> OptionView {
    OptionView {
        dep_idx: places(o.dep_origins, by),
        dep_idx_off: places(o.dep_origins_off, by),
        ..o
    }
}

/// The options with their dependencies resolved.
pub open spec fn options_placed(options: Seq<OptionView>, by: Map<Seq<char>, usize>) -> Seq<
    OptionView,
> {
    Seq::new(options.len(), |k: int| option_placed(options[k], by))
}

/// The edges from a port to each of some others, by an option or without one,
/// each with what it means for the port at its end.
pub open spec fn edges_from(
    origin: Seq<char>,
    via_option: Option<Seq<char>>,
    deps: Seq<Seq<char>>,
) -> Seq<(Seq<char>, RequiredByView)> {
    Seq::new(deps.len(), |d: int| (deps[d], RequiredByView { origin, via_option }))
}

/// The edges by which the first `m` options of a port pull others in, when they
/// are on or when they are off.
pub open spec fn option_edges(p: PortView, options: Seq<OptionView>, m: int) -> Seq<
    (Seq<char>, RequiredByView),
>
    decreases m,
{
    if m <= 0 {
        seq![]
    } else {
        let o = options[p.options[m - 1] as int];
        option_edges(p, options, m - 1) + edges_from(p.origin, Some(o.name), o.dep_origins)
            + edges_from(p.origin, Some(o.name), o.dep_origins_off)
    }
}

/// The edges by which a port pulls others in whatever its options say.
pub open spec fn plain_edges(p: PortView) -> Seq<(Seq<char>, RequiredByView)> {
    edges_from(p.origin, None, p.requires)
}

/// The edges out of the first `n` ports.
pub open spec fn edges_upto(ports: Seq<PortView>, options: Seq<OptionView>, n: int) -> Seq<
    (Seq<char>, RequiredByView),
>
    decreases n,
{
    if n <= 0 {
        seq![]
    } else {
        let p = ports[n - 1];
        edges_upto(ports, options, n - 1) + option_edges(p, options, p.options.len() as int)
            + plain_edges(p)
    }
}

/// What the edges that end at a port mean for it.
pub open spec fn entries_to(edges: Seq<(Seq<char>, RequiredByView)>, origin: Seq<char>) -> Seq<
    RequiredByView,
>
    decreases edges.len(),
{
    if edges.len() == 0 {
        seq![]
    } else {
        let rest = entries_to(edges.drop_last(), origin);
        if edges.last().0 == origin {
            rest.push(edges.last().1)
        } else {
            rest
        }
    }
}

/// The order of `required by` entries: by origin, an unconditional entry
/// before those by option.
pub open spec fn entry_le(a: RequiredByView, b: RequiredByView) -> bool {
    if a.origin != b.origin {
        order::text_le(a.origin, b.origin)
    } else {
        match a.via_option {
            None => true,
            Some(x) => match b.via_option {
                None => false,
                Some(y) => order::text_le(x, y),
            },
        }
    }
}

/// The order of entries as a relation.
pub open spec fn entries_le() -> spec_fn(RequiredByView, RequiredByView) -> bool {
    |a: RequiredByView, b: RequiredByView| entry_le(a, b)
}

/// Whether an entry is kept: a parent that needs a port whatever its options
/// say is not listed again for each option that names it.
pub open spec fn entry_kept(all: Seq<RequiredByView>) -> spec_fn(RequiredByView) -> bool {
    |e: RequiredByView|
        e.via_option is None || !all.contains(
            RequiredByView { origin: e.origin, via_option: None },
        )
}

/// The `required by` list that raw entries make: in order, each once, without
/// the conditional entries of a parent that has an unconditional one.
pub open spec fn entries_listed(raw: Seq<RequiredByView>) -> Seq<RequiredByView> {
    let all = order::set_of(raw, entries_le());
    all.filter(entry_kept(all))
}

/// The ports with the edges turned round.
pub open spec fn ports_inverted(ports: Seq<PortView>, options: Seq<OptionView>) -> Seq<PortView> {
    let edges = edges_upto(ports, options, ports.len() as int);
    Seq::new(
        ports.len(),
        |i: int|
            PortView { required_by: entries_listed(entries_to(edges, ports[i].origin)), ..ports[i] },
    )
}

/// A graph with all that is derived from its set of ports recomputed.
pub open spec fn reindexed(g: GraphView) -> GraphView {
    let ports = Seq::new(g.ports.len(), |i: int| port_placed(g.ports[i], g.by_origin));
    let options = options_placed(g.options, g.by_origin);
    GraphView {
        ports: ports_inverted(ports, options),
        options,
        order: order_of(g.ports),
        ..g
    }
}

impl Ordered for RequiredBy {
    open spec fn before(a: RequiredByView, b: RequiredByView) -> bool {
        entry_le(a, b)
    }

    fn no_later(&self, other: &Self) -> (r: bool) {
        if self.origin != other.origin {
            return order::at_most(self.origin.as_str(), other.origin.as_str());
        }
        match &self.via_option {
            None => true,
            Some(x) => match &other.via_option {
                None => false,
                Some(y) => order::at_most(x.as_str(), y.as_str()),
            },
        }
    }

    fn copied(&self) -> (r: Self) {
        RequiredBy { origin: self.origin.clone(), via_option: text::copy_opt(&self.via_option) }
    }
}

/// Entries have an order, in which two that come no later than each other are
/// the same.
pub proof fn lemma_entries_order()
    ensures
        order::is_order(entries_le()),
        forall|a: RequiredByView, b: RequiredByView| #[trigger]
            entries_le()(a, b) && entries_le()(b, a) ==> a == b,
{
    let le = entries_le();
    assert forall|x: RequiredByView, y: RequiredByView| #[trigger] le(x, y) || le(y, x) by {
        order::lemma_text_total(x.origin, y.origin);
        if x.via_option is Some && y.via_option is Some {
            order::lemma_text_total(x.via_option->0, y.via_option->0);
        }
    }
    assert forall|x: RequiredByView, y: RequiredByView, z: RequiredByView| #[trigger]
        le(x, y) && #[trigger] le(y, z) implies le(x, z) by {
        if x.origin != y.origin && y.origin != z.origin {
            order::lemma_text_trans(x.origin, y.origin, z.origin);
            if x.origin == z.origin {
                order::lemma_text_same(x.origin, y.origin);
            }
        }
        if x.via_option is Some && y.via_option is Some && z.via_option is Some && x.origin
            == y.origin && y.origin == z.origin {
            order::lemma_text_trans(x.via_option->0, y.via_option->0, z.via_option->0);
        }
    }
    assert forall|x: RequiredByView, y: RequiredByView| #[trigger]
        le(x, y) && le(y, x) implies x == y by {
        if x.origin != y.origin {
            order::lemma_text_same(x.origin, y.origin);
        }
        if x.via_option is Some && y.via_option is Some {
            order::lemma_text_same(x.via_option->0, y.via_option->0);
        }
    }
}

/// The places of texts, in the order of the texts.
pub fn rank(keys: &Vec<String>) -> (r: Vec<usize>)
    ensures
        r@ == ranks(text::texts(keys@)),
{
    broadcast use order::lemma_views_push;

    let ghost kv = text::texts(keys@);
    let mut keyed: Vec<Keyed> = Vec::new();
    let mut i: usize = 0;
    while i < keys.len()
        invariant
            i <= keys@.len(),
            kv == text::texts(keys@),
            order::views(keyed@) == keyed_of(kv).take(i as int),
        decreases keys@.len() - i,
    {
        keyed.push(Keyed { key: keys[i].clone(), id: i });
        proof {
            assert(kv[i as int] == keys@[i as int]@);
            assert(keyed_of(kv).take(i + 1) =~= keyed_of(kv).take(i as int).push(
                (kv[i as int], i),
            ));
        }
        i += 1;
    }
    proof {
        assert(keyed_of(kv).take(kv.len() as int) =~= keyed_of(kv));
    }
    let sorted = order::sort(&keyed);
    proof {
        assert((|a: (Seq<char>, usize), b: (Seq<char>, usize)| Keyed::before(a, b))
            =~= keyed_le());
    }
    let ghost sv = order::views(sorted@);
    let mut out: Vec<usize> = Vec::new();
    i = 0;
    while i < sorted.len()
        invariant
            i <= sorted@.len(),
            sv == order::views(sorted@),
            out@.len() == i,
            forall|j: int| 0 <= j < i ==> #[trigger] out@[j] == sv[j].1,
        decreases sorted@.len() - i,
    {
        out.push(sorted[i].id);
        i += 1;
    }
    proof {
        assert(out@ =~= ranks(kv));
    }
    out
}

/// The places of the ports, alphabetised by origin.
fn alphabetise(ports: &Vec<super::PortEntry>) -> (r: Vec<usize>)
    ensures
        r@ == order_of(order::views(ports@)),
{
    broadcast use text::lemma_texts_push;

    let ghost all = origins(order::views(ports@));
    let mut keys: Vec<String> = Vec::new();
    let mut i: usize = 0;
    proof {
        assert(text::texts(keys@) =~= all.take(0));
    }
    while i < ports.len()
        invariant
            i <= ports@.len(),
            all == origins(order::views(ports@)),
            text::texts(keys@) == all.take(i as int),
        decreases ports@.len() - i,
    {
        keys.push(ports[i].origin.clone());
        proof {
            assert(all.take(i + 1) =~= all.take(i as int).push(ports@[i as int]@.origin));
        }
        i += 1;
    }
    proof {
        assert(all.take(all.len() as int) =~= all);
    }
    rank(&keys)
}

/// The places of those of the origins that are in the list, in their order.
fn places_of(origins: &Vec<String>, by: &StringHashMap<usize>) -> (r: Vec<usize>)
    ensures
        r@ == places(text::texts(origins@), by@),
{
    let ghost all = text::texts(origins@);
    let mut out: Vec<usize> = Vec::new();
    let mut i: usize = 0;
    while i < origins.len()
        invariant
            i <= origins@.len(),
            all == text::texts(origins@),
            out@ == places(all.take(i as int), by@),
        decreases origins@.len() - i,
    {
        proof {
            assert(all.take(i + 1).drop_last() =~= all.take(i as int));
            assert(all.take(i + 1).last() == origins@[i as int]@);
        }
        if let Some(p) = by.get(origins[i].as_str()) {
            out.push(*p);
        }
        i += 1;
    }
    proof {
        assert(all.take(all.len() as int) =~= all);
    }
    out
}

/// Edges one after the other mean what each of the parts means.
proof fn lemma_entries_push(
    edges: Seq<(Seq<char>, RequiredByView)>,
    e: (Seq<char>, RequiredByView),
    origin: Seq<char>,
)
    ensures
        entries_to(edges.push(e), origin) == if e.0 == origin {
            entries_to(edges, origin).push(e.1)
        } else {
            entries_to(edges, origin)
        },
{
    assert(edges.push(e).drop_last() =~= edges);
}

/// What has been collected for each port is what the edges so far mean for it.
spec fn collected(
    inv: Seq<Vec<RequiredBy>>,
    ports: Seq<PortView>,
    edges: Seq<(Seq<char>, RequiredByView)>,
) -> bool {
    &&& inv.len() == ports.len()
    &&& forall|t: int|
        0 <= t < inv.len() ==> order::views((#[trigger] inv[t])@) == entries_to(
            edges,
            ports[t].origin,
        )
}

/// Records one edge at the port where it ends.
fn add_edge(
    inv: &mut Vec<Vec<RequiredBy>>,
    by: &StringHashMap<usize>,
    dep: &String,
    entry: RequiredBy,
    Ghost(ports): Ghost<Seq<PortView>>,
    Ghost(edges): Ghost<Seq<(Seq<char>, RequiredByView)>>,
)
    requires
        graph::index_ok(ports, by@),
        collected(old(inv)@, ports, edges),
    ensures
        collected(final(inv)@, ports, edges.push((dep@, entry@))),
{
    broadcast use order::lemma_views_push;

    let ghost e = (dep@, entry@);
    proof {
        assert forall|t: int| 0 <= t < ports.len() implies (#[trigger] ports[t].origin == dep@)
            == (by@.contains_key(dep@) && by@[dep@] == t) by {
            assert(by@.contains_key(ports[t].origin) && by@[ports[t].origin] == t);
        }
        assert forall|t: int| 0 <= t < ports.len() implies #[trigger] entries_to(
            edges.push(e),
            ports[t].origin,
        ) == if e.0 == ports[t].origin {
            entries_to(edges, ports[t].origin).push(e.1)
        } else {
            entries_to(edges, ports[t].origin)
        } by {
            lemma_entries_push(edges, e, ports[t].origin);
        }
    }
    if let Some(p) = by.get(dep.as_str()) {
        let ghost before = inv@;
        let at: usize = *p;
        inv[at].push(entry);
        proof {
            assert forall|t: int| 0 <= t < inv@.len() implies order::views(
                (#[trigger] inv@[t])@,
            ) == entries_to(edges.push(e), ports[t].origin) by {
                assert(order::views(before[t]@) == entries_to(edges, ports[t].origin));
                assert(ports[t].origin == dep@ <==> t == at);
            }
        }
    } else {
        proof {
            assert forall|t: int| 0 <= t < inv@.len() implies order::views(
                (#[trigger] inv@[t])@,
            ) == entries_to(edges.push(e), ports[t].origin) by {
                assert(ports[t].origin != dep@);
            }
        }
    }
}

/// Records the edges from a port to each of some others.
fn add_edges(
    inv: &mut Vec<Vec<RequiredBy>>,
    by: &StringHashMap<usize>,
    deps: &Vec<String>,
    origin: &str,
    via: &Option<String>,
    Ghost(ports): Ghost<Seq<PortView>>,
    Ghost(edges): Ghost<Seq<(Seq<char>, RequiredByView)>>,
)
    requires
        graph::index_ok(ports, by@),
        collected(old(inv)@, ports, edges),
    ensures
        collected(
            final(inv)@,
            ports,
            edges + edges_from(origin@, text::opt_text(*via), text::texts(deps@)),
        ),
{
    let ghost dv = text::texts(deps@);
    let ghost all = edges_from(origin@, text::opt_text(*via), dv);
    let mut d: usize = 0;
    proof {
        assert(edges + all.take(0) =~= edges);
    }
    while d < deps.len()
        invariant
            d <= deps@.len(),
            dv == text::texts(deps@),
            all == edges_from(origin@, text::opt_text(*via), dv),
            graph::index_ok(ports, by@),
            collected(inv@, ports, edges + all.take(d as int)),
        decreases deps@.len() - d,
    {
        let via_option = match via {
            Some(name) => Some(name.clone()),
            None => None,
        };
        let entry = RequiredBy { origin: origin.to_owned(), via_option };
        proof {
            assert(dv[d as int] == deps@[d as int]@);
            assert(text::opt_text(entry.via_option) == text::opt_text(*via));
            assert(all[d as int] == (deps@[d as int]@, entry@));
            assert(edges + all.take(d + 1) =~= (edges + all.take(d as int)).push(all[d as int]));
        }
        add_edge(inv, by, &deps[d], entry, Ghost(ports), Ghost(edges + all.take(d as int)));
        d += 1;
    }
    proof {
        assert(all.take(all.len() as int) =~= all);
    }
}

/// Whether a port pulls another in whatever its options say.
pub open spec fn needs(ports: Seq<PortView>, from: Seq<char>, to: Seq<char>) -> bool {
    exists|q: int|
        0 <= q < ports.len() && (#[trigger] ports[q]).origin == from && ports[q].requires.contains(
            to,
        )
}

/// Whether an option pulls a port in, when it is on or when it is off.
pub open spec fn names_it(o: OptionView, name: Seq<char>, to: Seq<char>) -> bool {
    o.name == name && (o.dep_origins.contains(to) || o.dep_origins_off.contains(to))
}

/// Whether a port pulls another in by its option of this name.
pub open spec fn needs_by(
    ports: Seq<PortView>,
    options: Seq<OptionView>,
    from: Seq<char>,
    name: Seq<char>,
    to: Seq<char>,
) -> bool {
    exists|q: int, m: int|
        0 <= q < ports.len() && 0 <= m < ports[q].options.len() && ports[q].origin == from
            && names_it(options[(#[trigger] ports[q].options[m]) as int], name, to)
}

/// Whether an edge leads to a port, with this meaning for it.
spec fn has_edge(
    edges: Seq<(Seq<char>, RequiredByView)>,
    to: Seq<char>,
    e: RequiredByView,
) -> bool {
    edges.contains((to, e))
}

proof fn lemma_edges_add(
    a: Seq<(Seq<char>, RequiredByView)>,
    b: Seq<(Seq<char>, RequiredByView)>,
    to: Seq<char>,
    e: RequiredByView,
)
    ensures
        has_edge(a + b, to, e) == (has_edge(a, to, e) || has_edge(b, to, e)),
{
    let x = (to, e);
    if (a + b).contains(x) {
        let i = choose|i: int| 0 <= i < (a + b).len() && (a + b)[i] == x;
        if i < a.len() {
            assert(a[i] == x);
        } else {
            assert(b[i - a.len()] == x);
        }
    }
    if a.contains(x) {
        let i = choose|i: int| 0 <= i < a.len() && a[i] == x;
        assert((a + b)[i] == x);
    }
    if b.contains(x) {
        let i = choose|i: int| 0 <= i < b.len() && b[i] == x;
        assert((a + b)[i + a.len()] == x);
    }
}

proof fn lemma_edges_from(
    origin: Seq<char>,
    via: Option<Seq<char>>,
    deps: Seq<Seq<char>>,
    to: Seq<char>,
    e: RequiredByView,
)
    ensures
        has_edge(edges_from(origin, via, deps), to, e) == (e.origin == origin && e.via_option == via
            && deps.contains(to)),
{
    let all = edges_from(origin, via, deps);
    if all.contains((to, e)) {
        let i = choose|i: int| 0 <= i < all.len() && all[i] == (to, e);
        assert(deps[i] == to);
    }
    if e.origin == origin && e.via_option == via && deps.contains(to) {
        let i = choose|i: int| 0 <= i < deps.len() && deps[i] == to;
        assert(all[i] == (to, e));
    }
}

proof fn lemma_option_edges(
    p: PortView,
    options: Seq<OptionView>,
    k: int,
    to: Seq<char>,
    e: RequiredByView,
)
    requires
        0 <= k <= p.options.len(),
    ensures
        has_edge(option_edges(p, options, k), to, e) == (e.origin == p.origin && e.via_option is Some
            && exists|m: int|
            0 <= m < k && names_it(
                options[(#[trigger] p.options[m]) as int],
                e.via_option->0,
                to,
            )),
    decreases k,
{
    if k > 0 {
        let o = options[p.options[k - 1] as int];
        let a = option_edges(p, options, k - 1);
        let b = edges_from(p.origin, Some(o.name), o.dep_origins);
        let c = edges_from(p.origin, Some(o.name), o.dep_origins_off);
        lemma_option_edges(p, options, k - 1, to, e);
        lemma_edges_add(a, b, to, e);
        lemma_edges_add(a + b, c, to, e);
        lemma_edges_from(p.origin, Some(o.name), o.dep_origins, to, e);
        lemma_edges_from(p.origin, Some(o.name), o.dep_origins_off, to, e);
        if e.via_option is Some && exists|m: int|
            0 <= m < k && names_it(
                options[(#[trigger] p.options[m]) as int],
                e.via_option->0,
                to,
            ) {
            let m = choose|m: int|
                0 <= m < k && names_it(
                    options[(#[trigger] p.options[m]) as int],
                    e.via_option->0,
                    to,
                );
            assert(m < k - 1 || m == k - 1);
        }
        if has_edge(b, to, e) || has_edge(c, to, e) {
            assert(names_it(options[p.options[k - 1] as int], e.via_option->0, to));
        }
    } else {
        assert(option_edges(p, options, k).len() == 0);
    }
}

/// What is known of an entry by the edges out of the first `n` ports.
spec fn known_by(
    ports: Seq<PortView>,
    options: Seq<OptionView>,
    n: int,
    to: Seq<char>,
    e: RequiredByView,
) -> bool {
    match e.via_option {
        None => exists|q: int|
            0 <= q < n && (#[trigger] ports[q]).origin == e.origin && ports[q].requires.contains(to),
        Some(name) => exists|q: int, m: int|
            0 <= q < n && 0 <= m < ports[q].options.len() && ports[q].origin == e.origin
                && names_it(options[(#[trigger] ports[q].options[m]) as int], name, to),
    }
}

proof fn lemma_edges_upto(
    ports: Seq<PortView>,
    options: Seq<OptionView>,
    n: int,
    to: Seq<char>,
    e: RequiredByView,
)
    requires
        0 <= n <= ports.len(),
    ensures
        has_edge(edges_upto(ports, options, n), to, e) == known_by(ports, options, n, to, e),
    decreases n,
{
    if n > 0 {
        let p = ports[n - 1];
        let a = edges_upto(ports, options, n - 1);
        let b = option_edges(p, options, p.options.len() as int);
        lemma_edges_upto(ports, options, n - 1, to, e);
        lemma_edges_add(a, b, to, e);
        lemma_edges_add(a + b, plain_edges(p), to, e);
        lemma_option_edges(p, options, p.options.len() as int, to, e);
        lemma_edges_from(p.origin, None, p.requires, to, e);
        match e.via_option {
            None => {
                if known_by(ports, options, n, to, e) {
                    let q = choose|q: int|
                        0 <= q < n && (#[trigger] ports[q]).origin == e.origin
                            && ports[q].requires.contains(to);
                    assert(q < n - 1 || q == n - 1);
                }
                if has_edge(plain_edges(p), to, e) {
                    assert(ports[n - 1].origin == e.origin);
                }
            },
            Some(name) => {
                if known_by(ports, options, n, to, e) {
                    let (q, m) = choose|q: int, m: int|
                        0 <= q < n && 0 <= m < ports[q].options.len() && ports[q].origin == e.origin
                            && names_it(
                            options[(#[trigger] ports[q].options[m]) as int],
                            name,
                            to,
                        );
                    if q == n - 1 {
                        assert(names_it(options[p.options[m] as int], name, to));
                    } else {
                        assert(names_it(options[ports[q].options[m] as int], name, to));
                    }
                }
                if has_edge(b, to, e) {
                    let m = choose|m: int|
                        0 <= m < p.options.len() && names_it(
                            options[(#[trigger] p.options[m]) as int],
                            e.via_option->0,
                            to,
                        );
                    assert(names_it(options[ports[n - 1].options[m] as int], name, to));
                }
                if known_by(ports, options, n - 1, to, e) {
                    let (q, m) = choose|q: int, m: int|
                        0 <= q < n - 1 && 0 <= m < ports[q].options.len() && ports[q].origin
                            == e.origin && names_it(
                            options[(#[trigger] ports[q].options[m]) as int],
                            name,
                            to,
                        );
                    assert(names_it(options[ports[q].options[m] as int], name, to));
                }
            },
        }
    } else {
        assert(edges_upto(ports, options, n).len() == 0);
    }
}

proof fn lemma_entries_to(
    edges: Seq<(Seq<char>, RequiredByView)>,
    to: Seq<char>,
    e: RequiredByView,
)
    ensures
        entries_to(edges, to).contains(e) == has_edge(edges, to, e),
    decreases edges.len(),
{
    if edges.len() > 0 {
        let rest = edges.drop_last();
        lemma_entries_to(rest, to, e);
        order::lemma_contains_last(edges, (to, e));
        let r = entries_to(edges, to);
        if edges.last().0 == to {
            assert(r.drop_last() =~= entries_to(rest, to));
            order::lemma_contains_last(r, e);
        }
    }
}

/// What is kept of a list is what is in it and passes.
proof fn lemma_filter_holds(
    s: Seq<RequiredByView>,
    keep: spec_fn(RequiredByView) -> bool,
    e: RequiredByView,
)
    ensures
        s.filter(keep).contains(e) == (s.contains(e) && keep(e)),
    decreases s.len(),
{
    reveal(Seq::filter);
    if s.len() > 0 {
        let t = s.drop_last();
        let r = s.filter(keep);
        lemma_filter_holds(t, keep, e);
        order::lemma_contains_last(s, e);
        if keep(s.last()) {
            assert(r.drop_last() =~= t.filter(keep));
            order::lemma_contains_last(r, e);
        }
    }
}

/// What is kept of a list in strict order is in strict order.
proof fn lemma_filter_strict(s: Seq<RequiredByView>, keep: spec_fn(RequiredByView) -> bool)
    requires
        order::in_strict_order(s, entries_le()),
    ensures
        order::in_strict_order(s.filter(keep), entries_le()),
    decreases s.len(),
{
    reveal(Seq::filter);
    if s.len() > 0 {
        let t = s.drop_last();
        let f = t.filter(keep);
        lemma_filter_strict(t, keep);
        assert forall|i: int| 0 <= i < f.len() implies entries_le()(#[trigger] f[i], s.last())
            && !entries_le()(s.last(), f[i]) by {
            assert(f.contains(f[i]));
            lemma_filter_holds(t, keep, f[i]);
            let j = choose|j: int| 0 <= j < t.len() && t[j] == f[i];
            assert(s[j] == f[i]);
            assert(s[s.len() - 1] == s.last());
        }
    }
}

/// The `required by` list of a port is every edge that leads to it, turned
/// round: each parent that needs it whatever its options say, and each option of
/// any other parent that pulls it in when it is on or when it is off. It is in
/// order, and nothing stands in it twice.
pub proof fn every_edge_is_turned_round(
    ports: Seq<PortView>,
    options: Seq<OptionView>,
    i: int,
    e: RequiredByView,
)
    requires
        0 <= i < ports.len(),
    ensures
        ports_inverted(ports, options)[i].required_by.contains(e) <==> match e.via_option {
            None => needs(ports, e.origin, ports[i].origin),
            Some(name) => needs_by(ports, options, e.origin, name, ports[i].origin) && !needs(
                ports,
                e.origin,
                ports[i].origin,
            ),
        },
        order::in_strict_order(ports_inverted(ports, options)[i].required_by, entries_le()),
{
    let to = ports[i].origin;
    let n = ports.len() as int;
    let edges = edges_upto(ports, options, n);
    let raw = entries_to(edges, to);
    let all = order::set_of(raw, entries_le());
    let plain = RequiredByView { origin: e.origin, via_option: None };
    lemma_entries_order();
    order::lemma_set(raw, entries_le());
    lemma_edges_upto(ports, options, n, to, e);
    lemma_edges_upto(ports, options, n, to, plain);
    lemma_entries_to(edges, to, e);
    lemma_entries_to(edges, to, plain);
    assert(all.contains(e) == raw.contains(e));
    assert(all.contains(plain) == raw.contains(plain));
    lemma_filter_holds(all, entry_kept(all), e);
    lemma_filter_strict(all, entry_kept(all));
}

/// The `required by` list that raw entries make.
fn list_entries(raw: &Vec<RequiredBy>) -> (r: Vec<RequiredBy>)
    ensures
        order::views(r@) == entries_listed(order::views(raw@)),
{
    broadcast use order::lemma_views_push;

    let all = order::sorted_set(raw);
    let ghost av = order::views(all@);
    let ghost keep = entry_kept(av);
    proof {
        assert((|a: RequiredByView, b: RequiredByView| RequiredBy::before(a, b)) =~= entries_le());
        lemma_entries_order();
        order::lemma_set(order::views(raw@), entries_le());
        assert(av.take(0).filter(keep) =~= seq![]);
    }
    let mut out: Vec<RequiredBy> = Vec::new();
    let mut unconditional: Option<String> = None;
    let mut i: usize = 0;
    while i < all.len()
        invariant
            i <= all@.len(),
            av == order::views(all@),
            keep == entry_kept(av),
            order::is_order(entries_le()),
            order::in_strict_order(av, entries_le()),
            order::views(out@) == av.take(i as int).filter(keep),
            match unconditional {
                Some(s) => exists|q: int| 0 <= q < i && #[trigger] av[q].origin == s@
                    && av[q].via_option is None && forall|w: int|
                    q < w < i ==> (#[trigger] av[w]).via_option is Some,
                None => forall|w: int| 0 <= w < i ==> (#[trigger] av[w]).via_option is Some,
            },
        decreases all@.len() - i,
    {
        proof {
            assert(av[i as int] == all@[i as int]@);
            assert(av.take(i + 1).drop_last() =~= av.take(i as int));
            assert(av.take(i + 1).last() == av[i as int]);
            reveal(Seq::filter);
            lemma_unconditional(av, i as int);
        }
        match &all[i].via_option {
            None => {
                unconditional = Some(all[i].origin.clone());
                out.push(all[i].copied());
                proof {
                    assert(av[i as int].origin == (unconditional->0)@);
                }
            },
            Some(_) => {
                let covered = match &unconditional {
                    Some(s) => text::same(s.as_str(), all[i].origin.as_str()),
                    None => false,
                };
                proof {
                    if covered {
                        let q = choose|q: int|
                            0 <= q < i && #[trigger] av[q].origin == (unconditional->0)@
                                && av[q].via_option is None;
                        assert(av[q] == (RequiredByView {
                            origin: av[i as int].origin,
                            via_option: None,
                        }));
                    }
                    let plain = RequiredByView { origin: av[i as int].origin, via_option: None };
                    if av.contains(plain) {
                        let w = choose|w: int| 0 <= w < av.len() && av[w] == plain;
                        assert(w < i);
                        assert(unconditional is Some);
                        let q = choose|q: int|
                            0 <= q < i && #[trigger] av[q].origin == (unconditional->0)@
                                && av[q].via_option is None && forall|w: int|
                                q < w < i ==> (#[trigger] av[w]).via_option is Some;
                        assert(w <= q);
                        if w < q {
                            assert(entries_le()(av[w], av[q]));
                            assert(entries_le()(av[q], av[i as int]));
                            order::lemma_text_same(av[w].origin, av[q].origin);
                        }
                        assert(covered);
                    }
                    assert(covered == av.contains(plain));
                }
                if !covered {
                    out.push(all[i].copied());
                }
            },
        }
        i += 1;
    }
    proof {
        assert(av.take(av.len() as int) =~= av);
    }
    out
}

/// An unconditional entry of a parent stands before its conditional ones.
proof fn lemma_unconditional(av: Seq<RequiredByView>, i: int)
    requires
        order::in_strict_order(av, entries_le()),
        0 <= i < av.len(),
    ensures
        av[i].via_option is Some ==> forall|w: int|
            0 <= w < av.len() && #[trigger] av[w] == (RequiredByView {
                origin: av[i].origin,
                via_option: None,
            }) ==> w < i,
{
    if av[i].via_option is Some {
        assert forall|w: int|
            0 <= w < av.len() && #[trigger] av[w] == (RequiredByView {
                origin: av[i].origin,
                via_option: None,
            }) implies w < i by {
            if i < w {
                assert(entries_le()(av[i], av[w]));
            }
        }
    }
}

impl DependencyGraph {
    /// Turns every forward edge round so each port can show what pulls it in.
    pub fn build_required_by(&mut self)
        requires
            graph::shape_ok(old(self)@.ports, old(self)@.options),
            graph::index_ok(old(self)@.ports, old(self)@.by_origin),
        ensures
            final(self)@ == (GraphView {
                ports: ports_inverted(old(self)@.ports, old(self)@.options),
                ..old(self)@
            }),
    {
        let ghost ports = self@.ports;
        let ghost options = self@.options;
        let n: usize = self.ports.len();
        let mut inv: Vec<Vec<RequiredBy>> = Vec::new();
        let mut i: usize = 0;
        let ghost mut edges: Seq<(Seq<char>, RequiredByView)> = seq![];
        while i < n
            invariant
                i <= n,
                inv@.len() == i,
                forall|t: int| 0 <= t < i ==> (#[trigger] inv@[t])@.len() == 0,
            decreases n - i,
        {
            inv.push(Vec::new());
            i += 1;
        }
        proof {
            assert forall|t: int| 0 <= t < inv@.len() implies order::views(
                (#[trigger] inv@[t])@,
            ) == entries_to(edges, ports[t].origin) by {
                assert(order::views(inv@[t]@) =~= seq![]);
            }
        }
        i = 0;
        while i < n
            invariant
                i <= n,
                n == self.ports@.len(),
                *self == *old(self),
                ports == self@.ports,
                options == self@.options,
                graph::shape_ok(ports, options),
                graph::index_ok(ports, self.by_origin@),
                edges == edges_upto(ports, options, i as int),
                collected(inv@, ports, edges),
            decreases n - i,
        {
            let ghost p = ports[i as int];
            let ghost base = edges;
            proof {
                assert(p == self.ports@[i as int]@);
                assert(graph::port_ok(ports, options, i as int));
                assert(base + option_edges(p, options, 0) =~= edges);
            }
            let mut m: usize = 0;
            while m < self.ports[i].options.len()
                invariant
                    i < n,
                    n == self.ports@.len(),
                    *self == *old(self),
                    ports == self@.ports,
                    options == self@.options,
                    p == ports[i as int],
                    p == self.ports@[i as int]@,
                    m <= p.options.len(),
                    graph::shape_ok(ports, options),
                    graph::port_ok(ports, options, i as int),
                    graph::index_ok(ports, self.by_origin@),
                    edges == base + option_edges(p, options, m as int),
                    collected(inv@, ports, edges),
                decreases p.options.len() - m,
            {
                let opt_id = self.ports[i].options[m];
                let ghost o = options[opt_id as int];
                let ghost start = edges;
                proof {
                    assert(p.options[m as int] == opt_id);
                    assert(o == self.option_nodes@[opt_id as int]@);
                }
                let via = Some(self.option_nodes[opt_id].name.clone());
                add_edges(
                    &mut inv,
                    &self.by_origin,
                    &self.option_nodes[opt_id].dep_origins,
                    self.ports[i].origin.as_str(),
                    &via,
                    Ghost(ports),
                    Ghost(edges),
                );
                proof {
                    edges = edges + edges_from(p.origin, Some(o.name), o.dep_origins);
                }
                add_edges(
                    &mut inv,
                    &self.by_origin,
                    &self.option_nodes[opt_id].dep_origins_off,
                    self.ports[i].origin.as_str(),
                    &via,
                    Ghost(ports),
                    Ghost(edges),
                );
                proof {
                    edges = edges + edges_from(p.origin, Some(o.name), o.dep_origins_off);
                    assert(base + option_edges(p, options, m + 1) =~= base + option_edges(
                        p,
                        options,
                        m as int,
                    ) + edges_from(p.origin, Some(o.name), o.dep_origins) + edges_from(
                        p.origin,
                        Some(o.name),
                        o.dep_origins_off,
                    ));
                }
                m += 1;
            }
            add_edges(
                &mut inv,
                &self.by_origin,
                &self.ports[i].requires,
                self.ports[i].origin.as_str(),
                &None,
                Ghost(ports),
                Ghost(edges),
            );
            proof {
                edges = edges + plain_edges(p);
            }
            i += 1;
        }
        let ghost want = ports_inverted(ports, options);
        let mut t: usize = 0;
        while t < n
            invariant
                t <= n,
                n == ports.len(),
                want == ports_inverted(ports, options),
                edges == edges_upto(ports, options, n as int),
                collected(inv@, ports, edges),
                self@ == (GraphView { ports: self@.ports, ..old(self)@ }),
                self.ports@.len() == n,
                forall|j: int| 0 <= j < t ==> #[trigger] self@.ports[j] == want[j],
                forall|j: int| t <= j < n ==> #[trigger] self@.ports[j] == ports[j],
            decreases n - t,
        {
            let ghost before = self@.ports;
            proof {
                assert(before[t as int] == self.ports@[t as int]@);
            }
            let entries = list_entries(&inv[t]);
            self.ports[t].required_by = entries;
            proof {
                assert(self@.ports[t as int] == want[t as int]);
                assert forall|j: int| 0 <= j < n && j != t implies #[trigger] self@.ports[j]
                    == before[j] by {}
            }
            t += 1;
        }
        proof {
            assert(self@.ports =~= want);
        }
    }

    /// Recomputes everything derived from the set of ports: the alphabetical
    /// order, the indices that origins resolve to, and the edges turned round.
    pub fn reindex(&mut self)
        requires
            graph::shape_ok(old(self)@.ports, old(self)@.options),
            graph::index_ok(old(self)@.ports, old(self)@.by_origin),
        ensures
            final(self)@ == reindexed(old(self)@),
    {
        let ghost g = self@;
        let ghost by = self@.by_origin;
        self.order = alphabetise(&self.ports);
        let n: usize = self.ports.len();
        let mut i: usize = 0;
        while i < n
            invariant
                i <= n,
                n == g.ports.len(),
                by == g.by_origin,
                self@ == (GraphView { ports: self@.ports, order: order_of(g.ports), ..g }),
                self.ports@.len() == n,
                forall|j: int|
                    0 <= j < i ==> #[trigger] self@.ports[j] == port_placed(g.ports[j], by),
                forall|j: int| i <= j < n ==> #[trigger] self@.ports[j] == g.ports[j],
            decreases n - i,
        {
            let ghost before = self@.ports;
            proof {
                assert(before[i as int] == self.ports@[i as int]@);
            }
            let at = places_of(&self.ports[i].requires, &self.by_origin);
            self.ports[i].requires_idx = at;
            proof {
                assert(self@.ports[i as int] == port_placed(g.ports[i as int], by));
                assert forall|j: int| 0 <= j < n && j != i implies #[trigger] self@.ports[j]
                    == before[j] by {}
            }
            i += 1;
        }
        let ghost ports = Seq::new(g.ports.len(), |i: int| port_placed(g.ports[i], by));
        proof {
            assert(self@.ports =~= ports);
        }
        let count: usize = self.option_nodes.len();
        let mut k: usize = 0;
        while k < count
            invariant
                k <= count,
                count == g.options.len(),
                by == g.by_origin,
                self@ == (GraphView {
                    ports,
                    options: self@.options,
                    order: order_of(g.ports),
                    ..g
                }),
                self.option_nodes@.len() == count,
                forall|j: int|
                    0 <= j < k ==> #[trigger] self@.options[j] == option_placed(g.options[j], by),
                forall|j: int| k <= j < count ==> #[trigger] self@.options[j] == g.options[j],
            decreases count - k,
        {
            let ghost before = self@.options;
            proof {
                assert(before[k as int] == self.option_nodes@[k as int]@);
            }
            let on = places_of(&self.option_nodes[k].dep_origins, &self.by_origin);
            let off = places_of(&self.option_nodes[k].dep_origins_off, &self.by_origin);
            self.option_nodes[k].dep_idx = on;
            self.option_nodes[k].dep_idx_off = off;
            proof {
                assert(self@.options[k as int] == option_placed(g.options[k as int], by));
                assert forall|j: int| 0 <= j < count && j != k implies #[trigger] self@.options[j]
                    == before[j] by {}
            }
            k += 1;
        }
        proof {
            assert(self@.options =~= options_placed(g.options, by));
            lemma_placed_ok(g);
        }
        self.build_required_by();
    }

    /// Puts the graph back in order after ports were added or their
    /// dependencies were refreshed.
    pub fn settle_batch(&mut self)
        requires
            graph::shape_ok(old(self)@.ports, old(self)@.options),
            graph::index_ok(old(self)@.ports, old(self)@.by_origin),
        ensures
            final(self)@ == live::relive(reindexed(old(self)@)),
    {
        proof {
            lemma_reindexed_ok(self@);
        }
        self.reindex();
        self.recompute_live_set();
    }
}

/// Places are in range.
pub proof fn lemma_places(origins: Seq<Seq<char>>, ports: Seq<PortView>, by: Map<Seq<char>, usize>)
    requires
        graph::index_ok(ports, by),
    ensures
        graph::in_range(places(origins, by), ports.len()),
    decreases origins.len(),
{
    if origins.len() > 0 {
        lemma_places(origins.drop_last(), ports, by);
    }
}

/// Resolving origins keeps the numbers of a graph in range.
proof fn lemma_placed_ok(g: GraphView)
    requires
        graph::shape_ok(g.ports, g.options),
        graph::index_ok(g.ports, g.by_origin),
    ensures
        ({
            let ports = Seq::new(g.ports.len(), |i: int| port_placed(g.ports[i], g.by_origin));
            let options = options_placed(g.options, g.by_origin);
            graph::shape_ok(ports, options) && graph::index_ok(ports, g.by_origin)
        }),
{
    let by = g.by_origin;
    let ports = Seq::new(g.ports.len(), |i: int| port_placed(g.ports[i], by));
    let options = options_placed(g.options, by);
    assert forall|i: int| 0 <= i < ports.len() implies #[trigger] graph::port_ok(
        ports,
        options,
        i,
    ) by {
        assert(graph::port_ok(g.ports, g.options, i));
        lemma_places(g.ports[i].requires, g.ports, by);
    }
    assert forall|k: int| 0 <= k < options.len() implies #[trigger] graph::option_ok(
        ports,
        options,
        k,
    ) by {
        assert(graph::option_ok(g.ports, g.options, k));
        lemma_places(g.options[k].dep_origins, g.ports, by);
        lemma_places(g.options[k].dep_origins_off, g.ports, by);
    }
    assert(graph::index_ok(ports, by)) by {
        assert forall|i: int| 0 <= i < ports.len() implies by.contains_key(
            (#[trigger] ports[i]).origin,
        ) && by[ports[i].origin] == i by {
            assert(g.ports[i].origin == ports[i].origin);
        }
    }
}

/// Reindexing keeps the numbers of a graph in range.
pub proof fn lemma_reindexed_ok(g: GraphView)
    requires
        graph::shape_ok(g.ports, g.options),
        graph::index_ok(g.ports, g.by_origin),
    ensures
        graph::shape_ok(reindexed(g).ports, reindexed(g).options),
        graph::index_ok(reindexed(g).ports, g.by_origin),
        reindexed(g).ports.len() == g.ports.len(),
        reindexed(g).options.len() == g.options.len(),
        forall|i: int| 0 <= i < g.ports.len() ==> (#[trigger] reindexed(g).ports[i]).origin
            == g.ports[i].origin,
{
    lemma_placed_ok(g);
    let by = g.by_origin;
    let ports = Seq::new(g.ports.len(), |i: int| port_placed(g.ports[i], by));
    let options = options_placed(g.options, by);
    let r = reindexed(g);
    assert forall|i: int| 0 <= i < r.ports.len() implies #[trigger] graph::port_ok(
        r.ports,
        r.options,
        i,
    ) by {
        assert(graph::port_ok(ports, options, i));
    }
    assert forall|k: int| 0 <= k < r.options.len() implies #[trigger] graph::option_ok(
        r.ports,
        r.options,
        k,
    ) by {
        assert(graph::option_ok(ports, options, k));
    }
    assert(graph::index_ok(r.ports, by)) by {
        assert forall|i: int| 0 <= i < r.ports.len() implies by.contains_key(
            (#[trigger] r.ports[i]).origin,
        ) && by[r.ports[i].origin] == i by {
            assert(ports[i].origin == r.ports[i].origin);
        }
    }
}

} // verus!
