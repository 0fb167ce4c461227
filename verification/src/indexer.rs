//! Which ports there are to ask about, and which rows the answers become.
use crate::describe;
use crate::describe::{freshness, Freshness};
use crate::facts::{
    DepView, FactsView, OptionFactsView, Polarity, PortFacts, Unresolved, UnresolvedView,
};
use crate::order;
use crate::resolve::REASON_NO_SUCH_PORT;
use crate::text;
use crate::text::same;
use vstd::hash_map::StringHashMap;
use vstd::prelude::*;

verus! {

/// What came of an index run.
#[derive(Debug, Clone, Copy, PartialEq, Eq, Structural)]
pub struct IndexerStats {
    pub ports_indexed: usize,
    pub options_indexed: usize,
    pub edges_indexed: usize,
    pub unresolved: usize,
    /// Ports whose evaluation failed outright.
    pub failed: usize,
    /// Ports skipped because their Makefiles had not changed.
    pub cached: usize,
}

/// A directory in a category.
#[derive(Debug)]
pub struct PortDir {
    pub name: String,
    pub has_makefile: bool,
}

/// What a `PortDir` says.
pub struct PortDirView {
    pub name: Seq<char>,
    pub has_makefile: bool,
}

impl View for PortDir {
    type V = PortDirView;

    open spec fn view(&self) -> PortDirView {
        PortDirView { name: self.name@, has_makefile: self.has_makefile }
    }
}

/// An entry of the ports root with what is in it, if it is a directory that
/// could be read.
#[derive(Debug)]
pub struct CategoryDir {
    pub name: String,
    pub ports: Vec<PortDir>,
}

/// What a `CategoryDir` says.
pub struct CategoryView {
    pub name: Seq<char>,
    pub ports: Seq<PortDirView>,
}

impl View for CategoryDir {
    type V = CategoryView;

    open spec fn view(&self) -> CategoryView {
        CategoryView { name: self.name@, ports: order::views(self.ports@) }
    }
}

/// Whether a name is hidden.
pub open spec fn is_hidden(name: Seq<char>) -> bool {
    name.len() > 0 && name[0] == '.'
}

/// Whether an entry of the ports root is a category: hidden ones and those
/// that hold the framework or its products are not.
pub open spec fn is_category_name(name: Seq<char>) -> bool {
    &&& !is_hidden(name)
    &&& name != "Mk"@
    &&& name != "Templates"@
    &&& name != "Tools"@
    &&& name != "Keywords"@
    &&& name != "distfiles"@
    &&& name != "packages"@
}

fn hidden(name: &str) -> (r: bool)
    ensures
        r == is_hidden(name@),
{
    let v = text::chars_of(name);
    v.len() > 0 && v[0] == '.'
}

/// Whether an entry of the ports root is a category.
pub fn is_category(name: &str) -> (r: bool)
    ensures
        r == is_category_name(name@),
{
    !hidden(name) && !same(name, "Mk") && !same(name, "Templates") && !same(name, "Tools")
        && !same(name, "Keywords") && !same(name, "distfiles") && !same(name, "packages")
}

/// The origins of the first `n` directories of a category that are ports: not
/// hidden, and holding a Makefile.
pub open spec fn ports_upto(category: CategoryView, n: int) -> Seq<Seq<char>>
    decreases n,
{
    if n <= 0 {
        seq![]
    } else {
        let rest = ports_upto(category, n - 1);
        let p = category.ports[n - 1];
        if !is_hidden(p.name) && p.has_makefile {
            rest.push(category.name + "/"@ + p.name)
        } else {
            rest
        }
    }
}

/// The origins of the ports in the first `n` entries of the ports root.
pub open spec fn origins_upto(tree: Seq<CategoryView>, n: int) -> Seq<Seq<char>>
    decreases n,
{
    if n <= 0 {
        seq![]
    } else {
        let rest = origins_upto(tree, n - 1);
        if is_category_name(tree[n - 1].name) {
            rest + ports_upto(tree[n - 1], tree[n - 1].ports.len() as int)
        } else {
            rest
        }
    }
}

/// Every `category/port` directory holding a Makefile, in order.
pub fn enumerate_ports(tree: &Vec<CategoryDir>) -> (r: Vec<String>)
    ensures
        text::texts(r@) == order::text_sort(
            origins_upto(order::views(tree@), tree@.len() as int),
        ),
{
    broadcast use text::lemma_texts_push;

    let ghost tv = order::views(tree@);
    let mut out: Vec<String> = Vec::new();
    let mut n: usize = 0;
    proof {
        assert(text::texts(out@) =~= seq![]);
    }
    while n < tree.len()
        invariant
            n <= tree@.len(),
            tv == order::views(tree@),
            text::texts(out@) == origins_upto(tv, n as int),
        decreases tree@.len() - n,
    {
        proof {
            assert(tv[n as int] == tree@[n as int]@);
        }
        if is_category(tree[n].name.as_str()) {
            let ghost base = text::texts(out@);
            let ghost c = tv[n as int];
            let mut m: usize = 0;
            proof {
                assert(base + ports_upto(c, 0) =~= base);
            }
            while m < tree[n].ports.len()
                invariant
                    n < tree@.len(),
                    c == tree@[n as int]@,
                    m <= tree@[n as int].ports@.len(),
                    text::texts(out@) == base + ports_upto(c, m as int),
                decreases tree@[n as int].ports@.len() - m,
            {
                let ghost before = text::texts(out@);
                proof {
                    assert(c.ports[m as int] == tree@[n as int].ports@[m as int]@);
                }
                let p = &tree[n].ports[m];
                if !hidden(p.name.as_str()) && p.has_makefile {
                    out.push(text::concat3(tree[n].name.as_str(), "/", p.name.as_str()));
                    proof {
                        let o = c.name + "/"@ + c.ports[m as int].name;
                        assert(text::texts(out@) == before.push(o));
                        assert(before.push(o) =~= base + ports_upto(c, m + 1));
                    }
                }
                m += 1;
            }
            proof {
                assert(c.ports.len() == tree@[n as int].ports@.len());
            }
        }
        n += 1;
    }
    order::sorted_texts(&out)
}

/// A dependency to be written, with the row of the port it points at.
#[derive(Debug, PartialEq, Eq)]
pub struct EdgeRow {
    pub to_id: i64,
    pub flavour: Option<String>,
    pub class: String,
    /// The option it hangs on, where the port defines that option.
    pub via_option: Option<String>,
    pub polarity: Polarity,
}

/// What an `EdgeRow` says.
pub struct EdgeView {
    pub to_id: i64,
    pub flavour: Option<Seq<char>>,
    pub class: Seq<char>,
    pub via_option: Option<Seq<char>>,
    pub polarity: Polarity,
}

impl View for EdgeRow {
    type V = EdgeView;

    open spec fn view(&self) -> EdgeView {
        EdgeView {
            to_id: self.to_id,
            flavour: text::opt_text(self.flavour),
            class: self.class@,
            via_option: text::opt_text(self.via_option),
            polarity: self.polarity,
        }
    }
}

/// The rows that one port's facts become, besides those of its options.
#[derive(Debug)]
pub struct StorePlan {
    pub port_id: i64,
    pub edges: Vec<EdgeRow>,
    pub unresolved: Vec<Unresolved>,
}

/// What a `StorePlan` says.
pub struct PlanView {
    pub port_id: i64,
    pub edges: Seq<EdgeView>,
    pub unresolved: Seq<UnresolvedView>,
}

impl View for StorePlan {
    type V = PlanView;

    open spec fn view(&self) -> PlanView {
        PlanView {
            port_id: self.port_id,
            edges: order::views(self.edges@),
            unresolved: order::views(self.unresolved@),
        }
    }
}

/// Whether a port defines an option.
pub open spec fn defines(options: Seq<OptionFactsView>, name: Seq<char>) -> bool {
    exists|i: int| 0 <= i < options.len() && (#[trigger] options[i]).name == name
}

/// The option that a dependency hangs on, where the port defines it.
pub open spec fn via_of(options: Seq<OptionFactsView>, d: DepView) -> Option<Seq<char>> {
    match d.via_option {
        Some(o) => if defines(options, o) {
            Some(o)
        } else {
            None
        },
        None => None,
    }
}

/// Whether a dependency is one of a port on itself that is not worth a row:
/// one on another flavour of itself is.
pub open spec fn is_self(port_id: i64, to_id: i64, d: DepView) -> bool {
    to_id == port_id && d.flavour is None
}

/// The rows of the first `n` dependencies whose targets are known.
pub open spec fn edges_upto(
    f: FactsView,
    ids: Map<Seq<char>, i64>,
    port_id: i64,
    n: int,
) -> Seq<EdgeView>
    decreases n,
{
    if n <= 0 {
        seq![]
    } else {
        let rest = edges_upto(f, ids, port_id, n - 1);
        let d = f.deps[n - 1];
        if ids.contains_key(d.origin) && !is_self(port_id, ids[d.origin], d) {
            rest.push(
                EdgeView {
                    to_id: ids[d.origin],
                    flavour: d.flavour,
                    class: d.class,
                    via_option: via_of(f.options, d),
                    polarity: d.polarity,
                },
            )
        } else {
            rest
        }
    }
}

/// Those of the first `n` dependencies that name no port there is.
pub open spec fn dangling_upto(f: FactsView, ids: Map<Seq<char>, i64>, n: int) -> Seq<
    UnresolvedView,
>
    decreases n,
{
    if n <= 0 {
        seq![]
    } else {
        let rest = dangling_upto(f, ids, n - 1);
        let d = f.deps[n - 1];
        if ids.contains_key(d.origin) {
            rest
        } else {
            rest.push(UnresolvedView { raw_entry: d.origin, reason: REASON_NO_SUCH_PORT@ })
        }
    }
}

/// The rows that one port's facts become: nothing where the port has no row.
pub open spec fn plan_of(f: FactsView, ids: Map<Seq<char>, i64>) -> Option<PlanView> {
    if ids.contains_key(f.origin) {
        let n = f.deps.len() as int;
        Some(
            PlanView {
                port_id: ids[f.origin],
                edges: edges_upto(f, ids, ids[f.origin], n),
                unresolved: dangling_upto(f, ids, n) + f.unresolved,
            },
        )
    } else {
        None
    }
}

/// A number for each of some ports: the row it is in, or the age of its
/// Makefiles.
pub struct OriginNumbers {
    numbers: StringHashMap<i64>,
}

impl View for OriginNumbers {
    type V = Map<Seq<char>, i64>;

    closed spec fn view(&self) -> Map<Seq<char>, i64> {
        self.numbers@
    }
}

impl OriginNumbers {
    /// No port has a number.
    pub fn new() -> (r: Self)
        ensures
            r@ == Map::<Seq<char>, i64>::empty(),
    {
        OriginNumbers { numbers: StringHashMap::new() }
    }

    /// Gives a port its number.
    pub fn put(&mut self, origin: &str, number: i64)
        ensures
            final(self)@ == old(self)@.insert(origin@, number),
    {
        self.numbers.insert(origin.to_owned(), number);
    }

    /// The number of a port, if it has one.
    pub fn get(&self, origin: &str) -> (r: Option<i64>)
        ensures
            r == remembered(self@, origin@),
    {
        match self.numbers.get(origin) {
            Some(n) => Some(*n),
            None => None,
        }
    }
}

fn has_option(facts: &PortFacts, name: &str) -> (r: bool)
    ensures
        r == defines(facts@.options, name@),
{
    let ghost ov = facts@.options;
    let mut i: usize = 0;
    while i < facts.options.len()
        invariant
            i <= facts.options@.len(),
            ov == order::views(facts.options@),
            forall|j: int| 0 <= j < i ==> (#[trigger] ov[j]).name != name@,
        decreases facts.options@.len() - i,
    {
        proof {
            assert(ov[i as int] == facts.options@[i as int]@);
        }
        if same(facts.options[i].name.as_str(), name) {
            proof {
                assert(ov[i as int].name == name@);
            }
            return true;
        }
        i += 1;
    }
    false
}

/// The rows that one port's facts become, given the row of every port there
/// is. A dependency on something that has none is recorded as unresolved
/// rather than skipped.
pub fn store_facts(facts: &PortFacts, ids: &OriginNumbers) -> (r: Option<StorePlan>)
    ensures
        match r {
            Some(p) => plan_of(facts@, ids@) == Some(p@),
            None => plan_of(facts@, ids@) is None,
        },
{
    broadcast use order::lemma_views_push;

    let port_id: i64 = match ids.get(facts.origin.as_str()) {
        Some(id) => id,
        None => {
            return None;
        },
    };
    let ghost f = facts@;
    let mut edges: Vec<EdgeRow> = Vec::new();
    let mut unresolved: Vec<Unresolved> = Vec::new();
    let mut n: usize = 0;
    proof {
        assert(order::views(edges@) =~= seq![]);
        assert(order::views(unresolved@) =~= seq![]);
    }
    while n < facts.deps.len()
        invariant
            n <= facts.deps@.len(),
            f == facts@,
            order::views(edges@) == edges_upto(f, ids@, port_id, n as int),
            order::views(unresolved@) == dangling_upto(f, ids@, n as int),
        decreases facts.deps@.len() - n,
    {
        let ghost edges_before = order::views(edges@);
        let ghost unresolved_before = order::views(unresolved@);
        let d = &facts.deps[n];
        proof {
            assert(f.deps[n as int] == d@);
        }
        match ids.get(d.origin.as_str()) {
            None => {
                unresolved.push(
                    Unresolved { raw_entry: d.origin.clone(), reason: REASON_NO_SUCH_PORT },
                );
                proof {
                    let u = UnresolvedView { raw_entry: d@.origin, reason: REASON_NO_SUCH_PORT@ };
                    assert(order::views(unresolved@) == unresolved_before.push(u));
                }
            },
            Some(id) => {
                let to_id: i64 = id;
                if !(to_id == port_id && d.flavour.is_none()) {
                    let via = match &d.via_option {
                        Some(o) => if has_option(facts, o.as_str()) {
                            Some(o.clone())
                        } else {
                            None
                        },
                        None => None,
                    };
                    let row = EdgeRow {
                        to_id,
                        flavour: text::copy_opt(&d.flavour),
                        class: d.class.clone(),
                        via_option: via,
                        polarity: d.polarity,
                    };
                    proof {
                        assert(row@.via_option == via_of(f.options, d@));
                    }
                    edges.push(row);
                    proof {
                        assert(order::views(edges@) == edges_before.push(row@));
                    }
                }
            },
        }
        n += 1;
    }
    let ghost base = order::views(unresolved@);
    let ghost all = f.unresolved;
    n = 0;
    proof {
        assert(f.deps.len() == facts.deps@.len());
        assert(base + all.take(0) =~= base);
    }
    while n < facts.unresolved.len()
        invariant
            n <= facts.unresolved@.len(),
            all == order::views(facts.unresolved@),
            order::views(unresolved@) == base + all.take(n as int),
        decreases facts.unresolved@.len() - n,
    {
        let ghost before = order::views(unresolved@);
        proof {
            assert(all[n as int] == facts.unresolved@[n as int]@);
        }
        unresolved.push(facts.unresolved[n].clone());
        proof {
            assert(order::views(unresolved@) == before.push(all[n as int]));
            assert(base + all.take(n + 1) =~= (base + all.take(n as int)).push(all[n as int]));
        }
        n += 1;
    }
    proof {
        assert(all.take(all.len() as int) =~= all);
    }
    Some(StorePlan { port_id, edges, unresolved })
}

/// The age that is remembered for a port.
pub open spec fn remembered(cached: Map<Seq<char>, i64>, origin: Seq<char>) -> Option<i64> {
    if cached.contains_key(origin) {
        Some(cached[origin])
    } else {
        None
    }
}

/// Whether what is remembered of a port still matches its Makefiles.
pub open spec fn is_fresh(
    cached: Map<Seq<char>, i64>,
    origin: Seq<char>,
    on_disk: Option<i64>,
) -> bool {
    describe::freshness_of(remembered(cached, origin), on_disk) == Freshness::Fresh
}

/// Those of the first `n` ports that have to be asked.
pub open spec fn stale_upto(
    cached: Map<Seq<char>, i64>,
    origins: Seq<Seq<char>>,
    on_disk: Seq<Option<i64>>,
    n: int,
) -> Seq<Seq<char>>
    decreases n,
{
    if n <= 0 {
        seq![]
    } else {
        let rest = stale_upto(cached, origins, on_disk, n - 1);
        if is_fresh(cached, origins[n - 1], on_disk[n - 1]) {
            rest
        } else {
            rest.push(origins[n - 1])
        }
    }
}

/// The ports that have to be asked, and how many need not be: judged by the age
/// of their Makefiles, `on_disk` for each port in order.
pub fn stale_origins(
    cached: &OriginNumbers,
    origins: &Vec<String>,
    on_disk: &Vec<Option<i64>>,
) -> (r: (Vec<String>, usize))
    requires
        on_disk@.len() == origins@.len(),
    ensures
        text::texts(r.0@) == stale_upto(
            cached@,
            text::texts(origins@),
            on_disk@,
            origins@.len() as int,
        ),
        r.0@.len() + r.1 == origins@.len(),
{
    broadcast use text::lemma_texts_push;

    let ghost ov = text::texts(origins@);
    let mut stale: Vec<String> = Vec::new();
    let mut fresh: usize = 0;
    let mut n: usize = 0;
    proof {
        assert(text::texts(stale@) =~= seq![]);
    }
    while n < origins.len()
        invariant
            n <= origins@.len(),
            on_disk@.len() == origins@.len(),
            ov == text::texts(origins@),
            text::texts(stale@) == stale_upto(cached@, ov, on_disk@, n as int),
            stale@.len() + fresh == n,
        decreases origins@.len() - n,
    {
        proof {
            assert(ov[n as int] == origins@[n as int]@);
        }
        let then: Option<i64> = cached.get(origins[n].as_str());
        if freshness(then, on_disk[n]) == Freshness::Fresh {
            fresh += 1;
        } else {
            stale.push(origins[n].clone());
        }
        n += 1;
    }
    (stale, fresh)
}

/// Whether a tree holds a port of this origin: a directory with a Makefile in a
/// category, neither of them hidden.
pub open spec fn holds_port(tree: Seq<CategoryView>, x: Seq<char>) -> bool {
    exists|c: int, p: int|
        0 <= c < tree.len() && 0 <= p < tree[c].ports.len() && is_category_name(tree[c].name)
            && is_port(#[trigger] tree[c].ports[p]) && x == tree[c].name + "/"@ + tree[c].ports[p].name
}

/// Whether a directory of a category is a port.
pub open spec fn is_port(p: PortDirView) -> bool {
    p.has_makefile && !(p.name.len() > 0 && p.name[0] == '.')
}

proof fn lemma_ports_upto(category: CategoryView, n: int, x: Seq<char>)
    requires
        0 <= n <= category.ports.len(),
    ensures
        ports_upto(category, n).contains(x) <==> exists|p: int|
            0 <= p < n && is_port(#[trigger] category.ports[p]) && x == category.name + "/"@
                + category.ports[p].name,
    decreases n,
{
    if n > 0 {
        lemma_ports_upto(category, n - 1, x);
        let a = ports_upto(category, n - 1);
        let r = ports_upto(category, n);
        if is_port(category.ports[n - 1]) {
            assert(r.drop_last() =~= a);
            order::lemma_contains_last(r, x);
        }
        if a.contains(x) {
            let p = choose|p: int|
                0 <= p < n - 1 && is_port(#[trigger] category.ports[p]) && x == category.name
                    + "/"@ + category.ports[p].name;
            assert(is_port(category.ports[p]));
        }
        if exists|p: int|
            0 <= p < n && is_port(#[trigger] category.ports[p]) && x == category.name + "/"@
                + category.ports[p].name {
            let p = choose|p: int|
                0 <= p < n && is_port(#[trigger] category.ports[p]) && x == category.name + "/"@
                    + category.ports[p].name;
            assert(p < n - 1 || p == n - 1);
        }
    }
}

proof fn lemma_origins_upto(tree: Seq<CategoryView>, n: int, x: Seq<char>)
    requires
        0 <= n <= tree.len(),
    ensures
        origins_upto(tree, n).contains(x) <==> holds_port(tree.take(n), x),
    decreases n,
{
    let now = tree.take(n);
    if n > 0 {
        lemma_origins_upto(tree, n - 1, x);
        let before = tree.take(n - 1);
        let c = tree[n - 1];
        let rest = origins_upto(tree, n - 1);
        let more = ports_upto(c, c.ports.len() as int);
        lemma_ports_upto(c, c.ports.len() as int, x);
        crate::reply::lemma_in_sum(rest, more, x);
        assert(now[n - 1] == c);
        if holds_port(before, x) {
            let (i, p) = choose|i: int, p: int|
                0 <= i < before.len() && 0 <= p < before[i].ports.len() && is_category_name(
                    before[i].name,
                ) && is_port(#[trigger] before[i].ports[p]) && x == before[i].name + "/"@
                    + before[i].ports[p].name;
            assert(now[i] == before[i]);
            assert(is_port(now[i].ports[p]));
        }
        if is_category_name(c.name) && more.contains(x) {
            let p = choose|p: int|
                0 <= p < c.ports.len() && is_port(#[trigger] c.ports[p]) && x == c.name + "/"@
                    + c.ports[p].name;
            assert(is_port(now[n - 1].ports[p]));
        }
        if holds_port(now, x) {
            let (i, p) = choose|i: int, p: int|
                0 <= i < now.len() && 0 <= p < now[i].ports.len() && is_category_name(now[i].name)
                    && is_port(#[trigger] now[i].ports[p]) && x == now[i].name + "/"@
                    + now[i].ports[p].name;
            if i < n - 1 {
                assert(before[i] == now[i]);
                assert(is_port(before[i].ports[p]));
            } else {
                assert(is_port(c.ports[p]));
            }
        }
    } else {
        assert(!origins_upto(tree, n).contains(x));
    }
}

/// Enumerating a tree finds every port that it holds, and nothing else, in
/// order.
pub proof fn every_port_of_a_tree_is_found(tree: Seq<CategoryView>, x: Seq<char>)
    ensures
        ({
            let found = order::text_sort(origins_upto(tree, tree.len() as int));
            &&& found.contains(x) <==> holds_port(tree, x)
            &&& forall|i: int, j: int|
                0 <= i < j < found.len() ==> order::text_le(
                    #[trigger] found[i],
                    #[trigger] found[j],
                )
        }),
{
    let all = origins_upto(tree, tree.len() as int);
    lemma_origins_upto(tree, tree.len() as int, x);
    assert(tree.take(tree.len() as int) =~= tree);
    order::lemma_texts_order();
    order::lemma_sort(all, order::texts_le());
}

proof fn lemma_edges(f: FactsView, ids: Map<Seq<char>, i64>, port_id: i64, n: int, i: int)
    requires
        0 <= i < n <= f.deps.len(),
    ensures
        ({
            let d = f.deps[i];
            &&& ids.contains_key(d.origin) && !(ids[d.origin] == port_id && d.flavour is None)
                ==> edges_upto(f, ids, port_id, n).contains(
                EdgeView {
                    to_id: ids[d.origin],
                    flavour: d.flavour,
                    class: d.class,
                    via_option: via_of(f.options, d),
                    polarity: d.polarity,
                },
            )
            &&& !ids.contains_key(d.origin) ==> dangling_upto(f, ids, n).contains(
                UnresolvedView { raw_entry: d.origin, reason: REASON_NO_SUCH_PORT@ },
            )
        }),
    decreases n,
{
    let d = f.deps[i];
    let e = EdgeView {
        to_id: ids[d.origin],
        flavour: d.flavour,
        class: d.class,
        via_option: via_of(f.options, d),
        polarity: d.polarity,
    };
    let u = UnresolvedView { raw_entry: d.origin, reason: REASON_NO_SUCH_PORT@ };
    let a = edges_upto(f, ids, port_id, n - 1);
    let r = edges_upto(f, ids, port_id, n);
    let b = dangling_upto(f, ids, n - 1);
    let s = dangling_upto(f, ids, n);
    if i < n - 1 {
        lemma_edges(f, ids, port_id, n - 1, i);
        if a.contains(e) {
            let k = choose|k: int| 0 <= k < a.len() && a[k] == e;
            assert(r[k] == e);
        }
        if b.contains(u) {
            let k = choose|k: int| 0 <= k < b.len() && b[k] == u;
            assert(s[k] == u);
        }
    } else {
        if ids.contains_key(d.origin) && !(ids[d.origin] == port_id && d.flavour is None) {
            assert(r.last() == e);
        }
        if !ids.contains_key(d.origin) {
            assert(s.last() == u);
        }
    }
}

/// Every dependency of a port becomes a row: an edge where its target is known
/// and it is not the port itself, and an unresolved entry where it is not; and
/// what could not be resolved before is kept.
pub proof fn every_dependency_becomes_a_row(f: FactsView, ids: Map<Seq<char>, i64>, i: int)
    requires
        ids.contains_key(f.origin),
        0 <= i < f.deps.len(),
    ensures
        plan_of(f, ids) matches Some(plan) && ({
            let d = f.deps[i];
            &&& plan.port_id == ids[f.origin]
            &&& ids.contains_key(d.origin) && !(ids[d.origin] == ids[f.origin] && d.flavour is None)
                ==> plan.edges.contains(
                EdgeView {
                    to_id: ids[d.origin],
                    flavour: d.flavour,
                    class: d.class,
                    via_option: via_of(f.options, d),
                    polarity: d.polarity,
                },
            )
            &&& !ids.contains_key(d.origin) ==> plan.unresolved.contains(
                UnresolvedView { raw_entry: d.origin, reason: REASON_NO_SUCH_PORT@ },
            )
            &&& forall|u: UnresolvedView| #[trigger]
                f.unresolved.contains(u) ==> plan.unresolved.contains(u)
        }),
{
    let n = f.deps.len() as int;
    let d = f.deps[i];
    lemma_edges(f, ids, ids[f.origin], n, i);
    let a = dangling_upto(f, ids, n);
    assert forall|u: UnresolvedView| a.contains(u) || f.unresolved.contains(u) implies #[trigger] (a
        + f.unresolved).contains(u) by {
        crate::reply::lemma_in_sum(a, f.unresolved, u);
    }
    assert forall|u: UnresolvedView| #[trigger] f.unresolved.contains(u) implies (a
        + f.unresolved).contains(u) by {
        crate::reply::lemma_in_sum(a, f.unresolved, u);
    }
}

} // verus!
