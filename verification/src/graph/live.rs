//! Which ports something currently pulls in.
use super::index;
use super::{DependencyGraph, GraphView, OptionView, PortView, Provenance};
use crate::graph;
use crate::order;
use crate::reach;
use vstd::prelude::*;

verus! {

/// The ports that an option pulls in as it is set: one list when it is on and
/// another when it is off.
pub open spec fn deps_now(o: OptionView) -> Seq<usize> {
    if o.enabled {
        o.dep_idx
    } else {
        o.dep_idx_off
    }
}

/// Whether port `i` pulls in port `j`, unconditionally or by its options as
/// they are set.
pub open spec fn pulls_in(ports: Seq<PortView>, options: Seq<OptionView>, i: int, j: int) -> bool {
    ||| graph::listed(ports[i].requires_idx, j)
    ||| exists|m: int|
        0 <= m < ports[i].options.len() && graph::listed(
            deps_now(options[#[trigger] ports[i].options[m] as int]),
            j,
        )
}

/// The edges along which ports pull in others.
pub open spec fn pulls(ports: Seq<PortView>, options: Seq<OptionView>) -> spec_fn(
    int,
    int,
) -> bool {
    |i: int, j: int|
        0 <= i < ports.len() && 0 <= j < ports.len() && pulls_in(ports, options, i, j)
}

/// The ports that were asked for by name.
pub open spec fn requested(ports: Seq<PortView>) -> spec_fn(int) -> bool {
    |i: int| 0 <= i < ports.len() && ports[i].provenance == Provenance::Requested
}

/// Which ports are pulled in: those that were asked for, and those that can be
/// reached from them.
pub open spec fn live_of(ports: Seq<PortView>, options: Seq<OptionView>) -> Seq<bool> {
    Seq::new(
        ports.len(),
        |i: int| reach::reaches(requested(ports), pulls(ports, options), i),
    )
}

/// A graph with its live set recomputed.
pub open spec fn relive(g: GraphView) -> GraphView {
    GraphView { live: live_of(g.ports, g.options), ..g }
}

/// What is known while the live set is being collected: the flags say what is
/// on the worklist, whose items are distinct and reached.
spec fn collecting(
    live: Seq<bool>,
    work: Seq<usize>,
    n: nat,
    start: spec_fn(int) -> bool,
    edge: spec_fn(int, int) -> bool,
) -> bool {
    &&& live.len() == n
    &&& work.no_duplicates()
    &&& graph::in_range(work, n)
    &&& forall|j: int| 0 <= j < n ==> #[trigger] live[j] == graph::listed(work, j)
    &&& forall|i: int|
        0 <= i < work.len() ==> reach::reaches(start, edge, #[trigger] work[i] as int)
}

/// Puts the ports of a list on the worklist that are not on it yet.
fn mark_all(
    live: &mut Vec<bool>,
    work: &mut Vec<usize>,
    deps: &Vec<usize>,
    Ghost(start): Ghost<spec_fn(int) -> bool>,
    Ghost(edge): Ghost<spec_fn(int, int) -> bool>,
)
    requires
        collecting(old(live)@, old(work)@, old(live)@.len(), start, edge),
        graph::in_range(deps@, old(live)@.len()),
        forall|q: int|
            0 <= q < deps@.len() ==> reach::reaches(start, edge, #[trigger] deps@[q] as int),
    ensures
        final(live)@.len() == old(live)@.len(),
        collecting(final(live)@, final(work)@, final(live)@.len(), start, edge),
        old(work)@.len() <= final(work)@.len(),
        forall|i: int| 0 <= i < old(work)@.len() ==> #[trigger] final(work)@[i] == old(work)@[i],
        forall|j: int| graph::listed(deps@, j) ==> #[trigger] graph::listed(final(work)@, j),
{
    let ghost n = live@.len();
    let mut q: usize = 0;
    while q < deps.len()
        invariant
            q <= deps@.len(),
            n == old(live)@.len(),
            collecting(live@, work@, n, start, edge),
            graph::in_range(deps@, n),
            forall|q: int|
                0 <= q < deps@.len() ==> reach::reaches(start, edge, #[trigger] deps@[q] as int),
            old(work)@.len() <= work@.len(),
            forall|i: int| 0 <= i < old(work)@.len() ==> #[trigger] work@[i] == old(work)@[i],
            forall|p: int| 0 <= p < q ==> graph::listed(work@, #[trigger] deps@[p] as int),
        decreases deps@.len() - q,
    {
        let dep = deps[q];
        if !live[dep] {
            let ghost before = work@;
            live.set(dep, true);
            work.push(dep);
            proof {
                assert(work@[before.len() as int] == dep);
                assert forall|j: int| graph::listed(before, j) implies #[trigger] graph::listed(
                    work@,
                    j,
                ) by {
                    let i = choose|i: int| 0 <= i < before.len() && #[trigger] before[i] == j;
                    assert(work@[i] == j);
                }
                assert forall|j: int| 0 <= j < n implies #[trigger] live@[j] == graph::listed(
                    work@,
                    j,
                ) by {
                    if graph::listed(work@, j) && j != dep {
                        let i = choose|i: int| 0 <= i < work@.len() && #[trigger] work@[i] == j;
                        assert(before[i] == j);
                        assert(graph::listed(before, j));
                    }
                }
                assert(work@.no_duplicates()) by {
                    assert forall|a: int, b: int|
                        0 <= a < work@.len() && 0 <= b < work@.len() && a != b implies work@[a]
                        != work@[b] by {
                        if a == before.len() && work@[b] == dep {
                            assert(before[b] == dep as int);
                        }
                        if b == before.len() && work@[a] == dep {
                            assert(before[a] == dep as int);
                        }
                    }
                }
            }
        }
        q += 1;
    }
    proof {
        assert forall|j: int| graph::listed(deps@, j) implies #[trigger] graph::listed(
            work@,
            j,
        ) by {
            let p = choose|p: int| 0 <= p < deps@.len() && #[trigger] deps@[p] == j;
            assert(graph::listed(work@, deps@[p] as int));
        }
    }
}

impl DependencyGraph {
    /// Recomputes which ports are currently pulled in, following only options
    /// as they are set plus unconditional dependencies.
    ///
    /// Done from scratch every time: turning one option off can strand a whole
    /// subtree, and only a fresh walk from the requested ports can tell what is
    /// still reachable by some other route.
    pub fn recompute_live_set(&mut self)
        requires
            graph::shape_ok(old(self)@.ports, old(self)@.options),
        ensures
            final(self)@ == relive(old(self)@),
    {
        let ghost ports = self@.ports;
        let ghost options = self@.options;
        let ghost start = requested(ports);
        let ghost edge = pulls(ports, options);
        let n: usize = self.ports.len();
        let mut live: Vec<bool> = Vec::new();
        let mut i: usize = 0;
        while i < n
            invariant
                i <= n,
                live@ == Seq::new(i as nat, |j: int| false),
            decreases n - i,
        {
            live.push(false);
            proof {
                assert(live@ =~= Seq::new((i + 1) as nat, |j: int| false));
            }
            i += 1;
        }
        let mut roots: Vec<usize> = Vec::new();
        i = 0;
        while i < n
            invariant
                i <= n,
                n == self.ports@.len(),
                ports == order::views(self.ports@),
                start == requested(ports),
                graph::in_range(roots@, n as nat),
                forall|q: int| 0 <= q < roots@.len() ==> start(#[trigger] roots@[q] as int),
                forall|j: int| 0 <= j < i && #[trigger] start(j) ==> graph::listed(roots@, j),
            decreases n - i,
        {
            proof {
                assert(ports[i as int] == self.ports@[i as int]@);
            }
            let ghost before = roots@;
            if self.ports[i].provenance == Provenance::Requested {
                roots.push(i);
                proof {
                    assert(roots@[before.len() as int] == i);
                }
            }
            proof {
                assert forall|j: int| 0 <= j < i + 1 && #[trigger] start(j) implies graph::listed(
                    roots@,
                    j,
                ) by {
                    if j < i {
                        let q = choose|q: int| 0 <= q < before.len() && #[trigger] before[q] == j;
                        assert(roots@[q] == j);
                    }
                }
            }
            i += 1;
        }
        let mut work: Vec<usize> = Vec::new();
        proof {
            assert forall|q: int| 0 <= q < roots@.len() implies reach::reaches(
                start,
                edge,
                #[trigger] roots@[q] as int,
            ) by {
                reach::lemma_start_reached(start, edge, roots@[q] as int);
            }
        }
        mark_all(&mut live, &mut work, &roots, Ghost(start), Ghost(edge));
        proof {
            assert forall|j: int| #[trigger] start(j) implies graph::listed(work@, j) by {
                assert(graph::listed(roots@, j));
            }
        }
        let mut head: usize = 0;
        while head < work.len()
            invariant
                head <= work@.len(),
                n == self.ports@.len(),
                *self == *old(self),
                ports == self@.ports,
                options == self@.options,
                graph::shape_ok(ports, options),
                start == requested(ports),
                edge == pulls(ports, options),
                collecting(live@, work@, n as nat, start, edge),
                forall|j: int| #[trigger] start(j) ==> graph::listed(work@, j),
                forall|i: int, j: int|
                    0 <= i < head && #[trigger] edge(work@[i] as int, j) ==> graph::listed(
                        work@,
                        j,
                    ),
            decreases n - head,
        {
            let ghost work0 = work@;
            proof {
                reach::lemma_distinct_bounded(work@, n as nat);
            }
            let port_id = work[head];
            let ghost p = port_id as int;
            proof {
                assert(ports[p] == self.ports@[p]@);
                assert(graph::port_ok(ports, options, p));
                assert forall|q: int| 0 <= q < ports[p].requires_idx.len() implies reach::reaches(
                    start,
                    edge,
                    #[trigger] ports[p].requires_idx[q] as int,
                ) by {
                    let d = ports[p].requires_idx[q] as int;
                    assert(graph::listed(ports[p].requires_idx, d));
                    assert(edge(p, d));
                    reach::lemma_edge_reached(start, edge, p, d);
                }
            }
            mark_all(
                &mut live,
                &mut work,
                &self.ports[port_id].requires_idx,
                Ghost(start),
                Ghost(edge),
            );
            let ghost work1 = work@;
            proof {
                lemma_kept(work0, work1);
            }
            let mut m: usize = 0;
            while m < self.ports[port_id].options.len()
                invariant
                    m <= ports[p].options.len(),
                    n == self.ports@.len(),
                    p == port_id,
                    p < n,
                    *self == *old(self),
                    ports == self@.ports,
                    options == self@.options,
                    ports[p] == self.ports@[p]@,
                    graph::shape_ok(ports, options),
                    start == requested(ports),
                    edge == pulls(ports, options),
                    collecting(live@, work@, n as nat, start, edge),
                    reach::reaches(start, edge, p),
                    work1.len() <= work@.len(),
                    forall|i: int| 0 <= i < work1.len() ==> #[trigger] work@[i] == work1[i],
                    forall|q: int, j: int|
                        0 <= q < m && #[trigger] graph::listed(
                            deps_now(options[ports[p].options[q] as int]),
                            j,
                        ) ==> graph::listed(work@, j),
                decreases ports[p].options.len() - m,
            {
                let opt_id = self.ports[port_id].options[m];
                let ghost o = opt_id as int;
                let ghost before = work@;
                proof {
                    assert(graph::port_ok(ports, options, p));
                    assert(ports[p].options[m as int] == opt_id);
                    assert(options[o] == self.option_nodes@[o]@);
                    assert(graph::option_ok(ports, options, o));
                    assert forall|q: int| 0 <= q < deps_now(options[o]).len() implies reach::reaches(
                        start,
                        edge,
                        #[trigger] deps_now(options[o])[q] as int,
                    ) by {
                        let d = deps_now(options[o])[q] as int;
                        assert(graph::listed(deps_now(options[ports[p].options[m as int] as int]), d));
                        assert(edge(p, d));
                        reach::lemma_edge_reached(start, edge, p, d);
                    }
                }
                if self.option_nodes[opt_id].enabled {
                    mark_all(
                        &mut live,
                        &mut work,
                        &self.option_nodes[opt_id].dep_idx,
                        Ghost(start),
                        Ghost(edge),
                    );
                } else {
                    mark_all(
                        &mut live,
                        &mut work,
                        &self.option_nodes[opt_id].dep_idx_off,
                        Ghost(start),
                        Ghost(edge),
                    );
                }
                proof {
                    lemma_kept(before, work@);
                    assert forall|q: int, j: int|
                        0 <= q < m + 1 && #[trigger] graph::listed(
                            deps_now(options[ports[p].options[q] as int]),
                            j,
                        ) implies graph::listed(work@, j) by {
                        if q < m {
                            assert(graph::listed(before, j));
                        }
                    }
                }
                m += 1;
            }
            proof {
                lemma_kept(work1, work@);
                assert forall|i: int, j: int|
                    0 <= i < head + 1 && #[trigger] edge(work@[i] as int, j) implies graph::listed(
                    work@,
                    j,
                ) by {
                    assert(work@[i] == work1[i] && work1[i] == work0[i]);
                    if i < head {
                        assert(edge(work0[i] as int, j));
                        assert(graph::listed(work0, j));
                    } else {
                        assert(work@[i] == p);
                        if graph::listed(ports[p].requires_idx, j) {
                            assert(graph::listed(work1, j));
                        } else {
                            let q = choose|q: int|
                                0 <= q < ports[p].options.len() && graph::listed(
                                    deps_now(options[#[trigger] ports[p].options[q] as int]),
                                    j,
                                );
                            assert(graph::listed(
                                deps_now(options[ports[p].options[q] as int]),
                                j,
                            ));
                        }
                    }
                }
                assert forall|j: int| #[trigger] start(j) implies graph::listed(work@, j) by {
                    assert(graph::listed(work0, j));
                }
            }
            head += 1;
        }
        proof {
            let want = live_of(ports, options);
            assert forall|j: int| 0 <= j < n implies live@[j] == want[j] by {
                if reach::reaches(start, edge, j) {
                    let inside = |x: int| graph::listed(work@, x);
                    assert forall|w: int, y: int|
                        inside(w) && #[trigger] edge(w, y) implies inside(y) by {
                        let i = choose|i: int| 0 <= i < work@.len() && #[trigger] work@[i] == w;
                        assert(edge(work@[i] as int, y));
                    }
                    assert forall|y: int| #[trigger] start(y) implies inside(y) by {}
                    reach::lemma_closed_holds(start, edge, inside, j);
                }
                if graph::listed(work@, j) {
                    let i = choose|i: int| 0 <= i < work@.len() && #[trigger] work@[i] == j;
                    assert(reach::reaches(start, edge, work@[i] as int));
                }
            }
            assert(live@ =~= want);
        }
        self.live = live;
    }

    /// True when something currently pulls this port in.
    pub fn is_live(&self, origin: &str) -> (r: bool)
        requires
            self@.wf(),
        ensures
            r == live_at(self@, origin@),
    {
        match self.port_index(origin) {
            Some(i) => self.live[i],
            None => false,
        }
    }

    /// How many ports are currently pulled in.
    pub fn live_count(&self) -> (r: usize)
        ensures
            r == count_live(self@.live),
    {
        let mut count: usize = 0;
        let mut i: usize = 0;
        while i < self.live.len()
            invariant
                i <= self.live@.len(),
                count <= i,
                count == count_live(self.live@.take(i as int)),
            decreases self.live@.len() - i,
        {
            proof {
                assert(self.live@.take(i + 1).drop_last() =~= self.live@.take(i as int));
            }
            if self.live[i] {
                count += 1;
            }
            i += 1;
        }
        proof {
            assert(self.live@.take(self.live@.len() as int) =~= self.live@);
        }
        count
    }
}

/// Whether a port is in the list and pulled in.
pub open spec fn live_at(g: GraphView, origin: Seq<char>) -> bool {
    match graph::index_of(g, origin) {
        Some(i) => g.live[i as int],
        None => false,
    }
}

/// How many flags are set.
pub open spec fn count_live(live: Seq<bool>) -> nat
    decreases live.len(),
{
    if live.len() == 0 {
        0
    } else {
        count_live(live.drop_last()) + if live.last() {
            1nat
        } else {
            0nat
        }
    }
}

/// What stands in a list stands in one that goes on from it.
proof fn lemma_kept(a: Seq<usize>, b: Seq<usize>)
    requires
        a.len() <= b.len(),
        forall|i: int| 0 <= i < a.len() ==> #[trigger] b[i] == a[i],
    ensures
        forall|j: int| #[trigger] graph::listed(a, j) ==> graph::listed(b, j),
{
    assert forall|j: int| #[trigger] graph::listed(a, j) implies graph::listed(b, j) by {
        let i = choose|i: int| 0 <= i < a.len() && #[trigger] a[i] == j;
        assert(b[i] == j);
    }
}

/// Every number that stands for a dependency is the place of that dependency in
/// the list.
pub open spec fn is_placed(g: GraphView) -> bool {
    &&& forall|i: int|
        0 <= i < g.ports.len() ==> (#[trigger] g.ports[i]).requires_idx == index::places(
            g.ports[i].requires,
            g.by_origin,
        )
    &&& forall|k: int|
        0 <= k < g.options.len() ==> (#[trigger] g.options[k]).dep_idx == index::places(
            g.options[k].dep_origins,
            g.by_origin,
        ) && g.options[k].dep_idx_off == index::places(g.options[k].dep_origins_off, g.by_origin)
}

/// Reindexing puts every dependency in its place.
pub proof fn reindexing_places_every_dependency(g: GraphView)
    ensures
        is_placed(index::reindexed(g)),
{
}

/// Whether port `i` needs an origin: whatever its options say, or by an option
/// as it is set.
pub open spec fn needs(g: GraphView, i: int, origin: Seq<char>) -> bool {
    ||| g.ports[i].requires.contains(origin)
    ||| exists|m: int|
        0 <= m < g.ports[i].options.len() && brings_now(
            g.options[#[trigger] g.ports[i].options[m] as int],
            origin,
        )
}

/// Whether an option brings an origin as it is set.
pub open spec fn brings_now(o: OptionView, origin: Seq<char>) -> bool {
    if o.enabled {
        o.dep_origins.contains(origin)
    } else {
        o.dep_origins_off.contains(origin)
    }
}

proof fn lemma_places_of(origins: Seq<Seq<char>>, by: Map<Seq<char>, usize>, j: int)
    ensures
        graph::listed(index::places(origins, by), j) <==> exists|x: Seq<char>| #[trigger]
            origins.contains(x) && by.contains_key(x) && by[x] == j,
    decreases origins.len(),
{
    let p = index::places(origins, by);
    if origins.len() > 0 {
        let front = origins.drop_last();
        let q = index::places(front, by);
        let last = origins.last();
        lemma_places_of(front, by, j);
        assert forall|x: Seq<char>| #[trigger] origins.contains(x) <==> (front.contains(x) || x
            == last) by {
            crate::order::lemma_contains_last(origins, x);
        }
        if graph::listed(q, j) {
            let m = choose|m: int| 0 <= m < q.len() && #[trigger] q[m] == j;
            assert(p[m] == j);
        }
        if by.contains_key(last) && by[last] == j {
            assert(p[q.len() as int] == j);
        }
        if graph::listed(p, j) {
            let m = choose|m: int| 0 <= m < p.len() && #[trigger] p[m] == j;
            if m < q.len() {
                assert(q[m] == j);
                let x = choose|x: Seq<char>| #[trigger]
                    front.contains(x) && by.contains_key(x) && by[x] == j;
                assert(origins.contains(x));
            } else {
                assert(origins.contains(last));
            }
        }
    }
}

proof fn lemma_pulls_named(g: GraphView, i: int, j: int)
    requires
        graph::shape_ok(g.ports, g.options),
        is_placed(g),
        0 <= i < g.ports.len(),
    ensures
        pulls_in(g.ports, g.options, i, j) <==> exists|x: Seq<char>| #[trigger]
            needs(g, i, x) && g.by_origin.contains_key(x) && g.by_origin[x] == j,
{
    let p = g.ports[i];
    let by = g.by_origin;
    assert(graph::port_ok(g.ports, g.options, i));
    lemma_places_of(p.requires, by, j);
    if graph::listed(p.requires_idx, j) {
        let x = choose|x: Seq<char>| #[trigger]
            p.requires.contains(x) && by.contains_key(x) && by[x] == j;
        assert(needs(g, i, x));
    }
    assert forall|m: int| 0 <= m < p.options.len() implies graph::listed(
        deps_now(g.options[#[trigger] p.options[m] as int]),
        j,
    ) == (exists|x: Seq<char>| #[trigger]
        brings_now(g.options[p.options[m] as int], x) && by.contains_key(x) && by[x] == j) by {
        let o = g.options[p.options[m] as int];
        lemma_places_of(o.dep_origins, by, j);
        lemma_places_of(o.dep_origins_off, by, j);
        if graph::listed(deps_now(o), j) {
            if o.enabled {
                let x = choose|x: Seq<char>| #[trigger]
                    o.dep_origins.contains(x) && by.contains_key(x) && by[x] == j;
                assert(brings_now(o, x));
            } else {
                let x = choose|x: Seq<char>| #[trigger]
                    o.dep_origins_off.contains(x) && by.contains_key(x) && by[x] == j;
                assert(brings_now(o, x));
            }
        }
    }
    if exists|m: int|
        0 <= m < p.options.len() && graph::listed(
            deps_now(g.options[#[trigger] p.options[m] as int]),
            j,
        ) {
        let m = choose|m: int|
            0 <= m < p.options.len() && graph::listed(
                deps_now(g.options[#[trigger] p.options[m] as int]),
                j,
            );
        let x = choose|x: Seq<char>| #[trigger]
            brings_now(g.options[p.options[m] as int], x) && by.contains_key(x) && by[x] == j;
        assert(needs(g, i, x));
    }
    if exists|x: Seq<char>| #[trigger] needs(g, i, x) && by.contains_key(x) && by[x] == j {
        let x = choose|x: Seq<char>| #[trigger] needs(g, i, x) && by.contains_key(x) && by[x] == j;
        if p.requires.contains(x) {
            assert(graph::listed(p.requires_idx, j));
        } else {
            let m = choose|m: int|
                0 <= m < p.options.len() && brings_now(
                    g.options[#[trigger] p.options[m] as int],
                    x,
                );
            assert(graph::listed(deps_now(g.options[p.options[m] as int]), j));
        }
    }
}

/// What is in the build: a port that was asked for is; whatever a port of the
/// build needs, as its options are set, is; and nothing else is, so that a port
/// leaves with the last port of the build that needs it.
pub proof fn the_build_is_what_is_needed(g: GraphView)
    requires
        graph::shape_ok(g.ports, g.options),
        graph::index_ok(g.ports, g.by_origin),
        is_placed(g),
    ensures
        ({
            let live = relive(g).live;
            &&& live.len() == g.ports.len()
            &&& forall|i: int|
                0 <= i < g.ports.len() && (#[trigger] g.ports[i]).provenance
                    == Provenance::Requested ==> live[i]
            &&& forall|i: int, x: Seq<char>|
                0 <= i < g.ports.len() && live[i] && #[trigger] needs(g, i, x)
                    && g.by_origin.contains_key(x) ==> live[g.by_origin[x] as int]
            &&& forall|own: spec_fn(int) -> bool, j: int|
                0 <= j < g.ports.len() && #[trigger] live[j] && #[trigger] is_build(g, own) ==> own(
                    j,
                )
        }),
{
    let live = relive(g).live;
    let start = requested(g.ports);
    let edge = pulls(g.ports, g.options);
    assert forall|i: int|
        0 <= i < g.ports.len() && (#[trigger] g.ports[i]).provenance
            == Provenance::Requested implies live[i] by {
        reach::lemma_start_reached(start, edge, i);
    }
    assert forall|i: int, x: Seq<char>|
        0 <= i < g.ports.len() && live[i] && #[trigger] needs(g, i, x) && g.by_origin.contains_key(
            x,
        ) implies live[g.by_origin[x] as int] by {
        let j = g.by_origin[x] as int;
        lemma_pulls_named(g, i, j);
        assert(edge(i, j));
        reach::lemma_edge_reached(start, edge, i, j);
    }
    assert forall|own: spec_fn(int) -> bool, j: int|
        0 <= j < g.ports.len() && #[trigger] live[j] && #[trigger] is_build(g, own) implies own(
        j,
    ) by {
        assert forall|i: int, k: int| own(i) && #[trigger] edge(i, k) implies own(k) by {
            lemma_pulls_named(g, i, k);
            let x = choose|x: Seq<char>| #[trigger]
                needs(g, i, x) && g.by_origin.contains_key(x) && g.by_origin[x] == k;
            assert(needs(g, i, x));
        }
        reach::lemma_closed_holds(start, edge, own, j);
    }
}

/// Whether some ports hold every one that was asked for, and whatever those of
/// them that are in the list need.
pub open spec fn is_build(g: GraphView, own: spec_fn(int) -> bool) -> bool {
    &&& forall|i: int|
        0 <= i < g.ports.len() && (#[trigger] g.ports[i]).provenance == Provenance::Requested
            ==> own(i)
    &&& forall|i: int, x: Seq<char>|
        0 <= i < g.ports.len() && own(i) && #[trigger] needs(g, i, x) && g.by_origin.contains_key(x)
            ==> own(g.by_origin[x] as int)
}

} // verus!
