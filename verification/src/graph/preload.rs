//! What the list starts from: every port that could be read is in it with all of
//! its options, each set as the system has it saved.
use super::grow;
use super::index;
use super::live;
use super::rows;
use super::settle;
use super::walk;
use super::walk::{AnswerView, CollectedView, WalkView};
use super::{GraphView, OptionView, PortView};
use crate::facts;
use crate::facts::{DepView, FactsView, OptionFactsView, Polarity};
use crate::graph;
use crate::order;
use crate::reader::SavedView;
use vstd::prelude::*;

verus! {

/// The state that an option of a port starts in: what is saved for that port,
/// else what is saved for every port, else what the port ships.
pub open spec fn preferred(
    saved: SavedView,
    origin: Seq<char>,
    name: Seq<char>,
    shipped: bool,
) -> bool {
    if saved.ports.contains_key(origin) && saved.ports[origin].contains_key(name) {
        saved.ports[origin][name]
    } else if saved.globals.contains_key(name) {
        saved.globals[name]
    } else {
        shipped
    }
}

/// No two options have one name.
pub open spec fn named_apart(options: Seq<OptionFactsView>) -> bool {
    forall|i: int, j: int|
        0 <= i < j < options.len() ==> (#[trigger] options[i]).name != (#[trigger] options[j]).name
}

/// Whether a listed option is one that was read, in this state.
pub open spec fn is_shown(n: OptionView, origin: Seq<char>, o: OptionFactsView, on: bool) -> bool {
    &&& n.port_origin == origin
    &&& n.name == o.name
    &&& n.description == o.description
    &&& n.group_type == o.group_type
    &&& n.group_name == o.group_name
    &&& n.implies == o.implies
    &&& n.prevents == o.prevents
    &&& n.enabled == on
    &&& n.initial_enabled == on
}

/// Whether option `o` is among those of port `i`, in this state.
pub open spec fn has_option(g: GraphView, i: int, o: OptionFactsView, on: bool) -> bool {
    exists|q: int|
        0 <= q < g.ports[i].options.len() && is_shown(
            g.options[#[trigger] g.ports[i].options[q] as int],
            g.ports[i].origin,
            o,
            on,
        )
}

/// Whether port `i` is one that was read: every option of it is there, set as it
/// is saved, and no more options are.
pub open spec fn is_entry(g: GraphView, i: int, f: FactsView, saved: SavedView) -> bool {
    &&& g.ports[i].origin == f.origin
    &&& g.ports[i].resolved
    &&& g.ports[i].options.len() == f.options.len()
    &&& forall|m: int|
        0 <= m < f.options.len() ==> has_option(
            g,
            i,
            #[trigger] f.options[m],
            preferred(saved, f.origin, f.options[m].name, f.options[m].default_on),
        )
}

/// A walk once the first `n` levels have been answered about.
pub open spec fn walked_on(
    w: WalkView,
    replies: Seq<Seq<AnswerView>>,
    saved: SavedView,
    n: int,
) -> WalkView
    decreases n,
{
    if n <= 0 {
        w
    } else {
        walk::level_done(walked_on(w, replies, saved, n - 1), replies[n - 1], saved)
    }
}

/// What one answer adds to what is collected.
spec fn entry_for(origin: Seq<char>, a: AnswerView, saved: SavedView) -> CollectedView {
    match a.shipped {
        Err(e) => walk::unread(origin),
        Ok(f) => match a.exact {
            Some(Err(e)) => walk::unread(origin),
            Some(Ok(x)) => walk::learned(origin, f, x.deps, saved),
            None => walk::learned(origin, f, f.deps, saved),
        },
    }
}

/// Every answer adds one port to what is collected.
proof fn lemma_collects(w: WalkView, answers: Seq<AnswerView>, saved: SavedView, n: int)
    requires
        0 <= n <= w.level.len(),
    ensures
        ({
            let x = walk::answered_upto(w, answers, saved, n);
            &&& x.roots == w.roots
            &&& x.collected.len() == w.collected.len() + n
            &&& forall|i: int|
                0 <= i < w.collected.len() ==> #[trigger] x.collected[i] == w.collected[i]
            &&& forall|i: int|
                0 <= i < n ==> #[trigger] x.collected[w.collected.len() + i] == entry_for(
                    w.level[i],
                    answers[i],
                    saved,
                )
        }),
    decreases n,
{
    if n > 0 {
        lemma_collects(w, answers, saved, n - 1);
        let a = walk::answered_upto(w, answers, saved, n - 1);
        let x = walk::answered_upto(w, answers, saved, n);
        assert(x.collected == a.collected.push(entry_for(w.level[n - 1], answers[n - 1], saved)));
        assert forall|i: int| 0 <= i < n implies #[trigger] x.collected[w.collected.len() + i]
            == entry_for(w.level[i], answers[i], saved) by {
            if i < n - 1 {
                assert(x.collected[w.collected.len() + i] == a.collected[w.collected.len() + i]);
            }
        }
    }
}

/// What was collected stays collected.
proof fn lemma_keeps(
    w: WalkView,
    replies: Seq<Seq<AnswerView>>,
    saved: SavedView,
    a: int,
    n: int,
    c: CollectedView,
)
    requires
        0 <= a <= n,
        walked_on(w, replies, saved, a).collected.contains(c),
    ensures
        walked_on(w, replies, saved, n).collected.contains(c),
    decreases n,
{
    if a < n {
        lemma_keeps(w, replies, saved, a, n - 1, c);
        let x = walked_on(w, replies, saved, n - 1);
        lemma_collects(x, replies[n - 1], saved, x.level.len() as int);
        let i = choose|i: int| 0 <= i < x.collected.len() && x.collected[i] == c;
        let y = walk::answered_upto(x, replies[n - 1], saved, x.level.len() as int);
        assert(y.collected[i] == c);
        assert(walked_on(w, replies, saved, n).collected == y.collected);
    }
}

/// The states of options of different names are those that are saved.
pub proof fn lemma_states(
    origin: Seq<char>,
    options: Seq<OptionFactsView>,
    saved: SavedView,
    n: int,
    m: int,
)
    requires
        named_apart(options),
        0 <= m < n <= options.len(),
    ensures
        walk::states_upto(origin, options, saved, n).contains_key(options[m].name),
        walk::states_upto(origin, options, saved, n)[options[m].name] == preferred(
            saved,
            origin,
            options[m].name,
            options[m].default_on,
        ),
    decreases n,
{
    if m < n - 1 {
        lemma_states(origin, options, saved, n - 1, m);
        assert(options[m].name != options[n - 1].name);
    }
}

/// Where the options of a port being raised stand.
spec fn is_raised(g: GraphView, i: int, s: grow::SeedView) -> bool {
    &&& 0 <= i < g.ports.len()
    &&& g.ports[i].origin == s.origin
    &&& g.ports[i].resolved == s.resolved
    &&& g.ports[i].requires == s.requires
    &&& g.ports[i].options.len() == s.options.len()
    &&& forall|q: int|
        0 <= q < s.options.len() ==> (#[trigger] g.ports[i].options[q]) < g.options.len()
            && is_seeded(g.options[g.ports[i].options[q] as int], s, q)
}

/// Whether an option is one that a port was added with.
spec fn is_seeded(n: OptionView, s: grow::SeedView, q: int) -> bool {
    &&& is_shown(n, s.origin, s.options[q], s.enabled[q])
    &&& n.dep_origins == s.on[q]
    &&& n.dep_origins_off == s.off[q]
}

/// A port that is raised is in the list, and stays in it.
proof fn lemma_raised(title: Seq<char>, w: WalkView, a: int, n: int)
    requires
        0 <= a < n <= w.collected.len(),
        walk::raised(title, w, n).options.len() <= usize::MAX,
    ensures
        ({
            let c = w.collected[index::ranks(walk::origins_of(w.collected))[a] as int];
            &&& walk::raised(title, w, n).ports.len() == n
            &&& is_raised(
                walk::raised(title, w, n),
                a,
                walk::seed_from(c, w.roots.contains(c.origin)),
            )
        }),
    decreases n,
{
    let r = index::ranks(walk::origins_of(w.collected));
    let g = walk::raised(title, w, n - 1);
    let h = walk::raised(title, w, n);
    let last = w.collected[r[n - 1] as int];
    let s = walk::seed_from(last, w.roots.contains(last.origin));
    assert(h == grow::planted(g, s));
    lemma_raised_len(title, w, n - 1);
    if a < n - 1 {
        lemma_raised(title, w, a, n - 1);
        let c = w.collected[r[a] as int];
        let z = walk::seed_from(c, w.roots.contains(c.origin));
        assert(h.ports[a] == g.ports[a]);
        assert forall|q: int| 0 <= q < z.options.len() implies (#[trigger] h.ports[a].options[q])
            < h.options.len() && is_seeded(h.options[h.ports[a].options[q] as int], z, q) by {
            assert(g.ports[a].options[q] < g.options.len());
            assert(h.options[h.ports[a].options[q] as int] == g.options[g.ports[a].options[q]
                as int]);
        }
    } else {
        let base = g.options.len();
        assert forall|q: int| 0 <= q < s.options.len() implies (#[trigger] h.ports[a].options[q])
            < h.options.len() && is_seeded(h.options[h.ports[a].options[q] as int], s, q) by {
            assert(h.ports[a].options[q] == base + q);
            assert(h.options[base + q] == grow::seed_option(s, q, g.ports.len() as usize, base));
        }
    }
}

proof fn lemma_raised_len(title: Seq<char>, w: WalkView, n: int)
    requires
        0 <= n,
    ensures
        walk::raised(title, w, n).ports.len() == n,
    decreases n,
{
    if n > 0 {
        lemma_raised_len(title, w, n - 1);
    }
}

/// Every item of a list is at one of its ranks.
proof fn lemma_ranked(keys: Seq<Seq<char>>, i: int) -> (a: int)
    requires
        0 <= i < keys.len() <= usize::MAX,
    ensures
        0 <= a < keys.len(),
        index::ranks(keys)[a] == i,
{
    index::lemma_ranks(keys);
    let r = index::ranks(keys);
    assert(graph::listed(r, i));
    choose|a: int| 0 <= a < r.len() && #[trigger] r[a] == i
}

/// A port that was collected is in the list that a walk ends in, as it was
/// collected.
proof fn lemma_walked(title: Seq<char>, w: WalkView, i: int) -> (a: int)
    requires
        0 <= i < w.collected.len() <= usize::MAX,
        walk::walked(title, w).options.len() <= usize::MAX,
    ensures
        is_raised(
            walk::walked(title, w),
            a,
            walk::seed_from(w.collected[i], w.roots.contains(w.collected[i].origin)),
        ),
{
    let o = walk::origins_of(w.collected);
    let n = w.collected.len() as int;
    let h = walk::raised(title, w, n);
    let g = walk::walked(title, w);
    let a = lemma_ranked(o, i);
    assert(g.options.len() == h.options.len());
    lemma_raised(title, w, a, n);
    let s = walk::seed_from(w.collected[i], w.roots.contains(w.collected[i].origin));
    assert forall|q: int| 0 <= q < s.options.len() implies (#[trigger] g.ports[a].options[q])
        < g.options.len() && is_seeded(g.options[g.ports[a].options[q] as int], s, q) by {
        let id = h.ports[a].options[q] as int;
        assert(is_seeded(h.options[id], s, q));
        assert(g.options[id] == index::option_placed(h.options[id], h.by_origin));
    }
    a
}

/// The options of a port in the order in which they are listed are its options.
proof fn lemma_listed(options: Seq<OptionFactsView>, m: int) -> (q: int)
    requires
        0 <= m < options.len(),
    ensures
        facts::listed_options(options).len() == options.len(),
        0 <= q < options.len(),
        facts::listed_options(options)[q] == options[m],
{
    broadcast use vstd::seq_lib::group_to_multiset_ensures;

    let r = facts::listed_options(options);
    facts::lemma_listed_whole(options);
    assert(options.contains(options[m]));
    assert(options.to_multiset().count(options[m]) > 0);
    assert(r.contains(options[m]));
    choose|q: int| 0 <= q < r.len() && r[q] == options[m]
}

/// In the list that a walk ends in, every port that was read has all of its
/// options, and no more. Each is enabled, and was from the start, exactly as the
/// saved configuration has it for that port, else for every port, else as the
/// port ships it.
pub proof fn every_option_starts_as_saved(
    roots: Seq<Seq<char>>,
    replies: Seq<Seq<AnswerView>>,
    saved: SavedView,
    title: Seq<char>,
    r: int,
    i: int,
    f: FactsView,
) -> (at: int)
    requires
        0 <= r < replies.len(),
        0 <= i < walked_on(walk::set_out(roots), replies, saved, r).level.len(),
        replies[r][i].shipped == Ok::<FactsView, Seq<char>>(f),
        !(replies[r][i].exact matches Some(Err(e))),
        f.origin == walked_on(walk::set_out(roots), replies, saved, r).level[i],
        named_apart(f.options),
        walked_on(walk::set_out(roots), replies, saved, replies.len() as int).collected.len()
            <= usize::MAX,
        walk::walked(
            title,
            walked_on(walk::set_out(roots), replies, saved, replies.len() as int),
        ).options.len() <= usize::MAX,
    ensures
        ({
            let g = walk::walked(
                title,
                walked_on(walk::set_out(roots), replies, saved, replies.len() as int),
            );
            0 <= at < g.ports.len() && is_entry(g, at, f, saved)
        }),
{
    let o = walk::set_out(roots);
    let n = replies.len() as int;
    let x = walked_on(o, replies, saved, r);
    let w = walked_on(o, replies, saved, n);
    let g = walk::walked(title, w);
    let c = entry_for(x.level[i], replies[r][i], saved);
    let y = walk::answered_upto(x, replies[r], saved, x.level.len() as int);
    lemma_collects(x, replies[r], saved, x.level.len() as int);
    assert(y.collected[x.collected.len() + i] == c);
    assert(walked_on(o, replies, saved, r + 1).collected == y.collected);
    assert(y.collected.contains(c));
    lemma_keeps(o, replies, saved, r + 1, n, c);
    let k = choose|k: int| 0 <= k < w.collected.len() && w.collected[k] == c;
    let at = lemma_walked(title, w, k);
    let s = walk::seed_from(c, w.roots.contains(c.origin));
    assert(c.options == f.options && c.resolved && c.origin == f.origin);
    assert(c.states == walk::states_of(f, saved));
    assert(s.options.len() == f.options.len()) by {
        facts::lemma_listed_whole(f.options);
    }
    assert forall|m: int| 0 <= m < f.options.len() implies has_option(
        g,
        at,
        #[trigger] f.options[m],
        preferred(saved, f.origin, f.options[m].name, f.options[m].default_on),
    ) by {
        let q = lemma_listed(f.options, m);
        lemma_states(f.origin, f.options, saved, f.options.len() as int, m);
        assert(s.options[q] == f.options[m]);
        let id = g.ports[at].options[q];
        assert(is_seeded(g.options[id as int], s, q));
    }
    at
}

/// A port that arrives later is added with all of its options, each as it is
/// saved too.
pub proof fn an_arrival_starts_as_saved(g: GraphView, f: FactsView, saved: SavedView)
    requires
        !g.by_origin.contains_key(f.origin),
        g.options.len() + f.options.len() <= usize::MAX,
    ensures
        is_entry(grow::added(g, f, saved), g.ports.len() as int, f, saved),
{
    let h = grow::added(g, f, saved);
    let s = grow::fresh_seed(f, saved);
    let at = g.ports.len() as int;
    let base = g.options.len();
    facts::lemma_listed_whole(f.options);
    assert forall|m: int| 0 <= m < f.options.len() implies has_option(
        h,
        at,
        #[trigger] f.options[m],
        preferred(saved, f.origin, f.options[m].name, f.options[m].default_on),
    ) by {
        let q = lemma_listed(f.options, m);
        let id = h.ports[at].options[q];
        assert(id == base + q);
        assert(h.options[base + q] == grow::seed_option(s, q, g.ports.len() as usize, base));
        assert(is_shown(
            h.options[id as int],
            f.origin,
            f.options[m],
            preferred(saved, f.origin, f.options[m].name, f.options[m].default_on),
        ));
    }
}

/// Whether one of some dependencies is on this origin, by an option when it is
/// on, or off, or by none.
pub open spec fn is_on(deps: Seq<DepView>, via: Option<Seq<char>>, off: bool, x: Seq<char>) -> bool {
    exists|i: int|
        0 <= i < deps.len() && (#[trigger] deps[i]).origin == x && deps[i].via_option == via && (via
            is None || (deps[i].polarity == Polarity::Off) == off)
}

proof fn lemma_brought(
    deps: Seq<DepView>,
    via: Option<Seq<char>>,
    off: bool,
    n: int,
    x: Seq<char>,
)
    requires
        0 <= n <= deps.len(),
    ensures
        grow::brought_upto(deps, via, off, n).contains(x) <==> is_on(deps.take(n), via, off, x),
    decreases n,
{
    let t = deps.take(n);
    if n > 0 {
        lemma_brought(deps, via, off, n - 1, x);
        let a = grow::brought_upto(deps, via, off, n - 1);
        let r = grow::brought_upto(deps, via, off, n);
        let u = deps.take(n - 1);
        if grow::brings(deps[n - 1], via, off) {
            assert(r.drop_last() =~= a);
            order::lemma_contains_last(r, x);
            assert(t[n - 1] == deps[n - 1]);
        }
        if is_on(u, via, off, x) {
            let i = choose|i: int|
                0 <= i < u.len() && (#[trigger] u[i]).origin == x && u[i].via_option == via && (via
                    is None || (u[i].polarity == Polarity::Off) == off);
            assert(t[i] == u[i]);
            assert(is_on(t, via, off, x));
        }
        if is_on(t, via, off, x) {
            let i = choose|i: int|
                0 <= i < t.len() && (#[trigger] t[i]).origin == x && t[i].via_option == via && (via
                    is None || (t[i].polarity == Polarity::Off) == off);
            if i < n - 1 {
                assert(u[i] == t[i]);
                assert(is_on(u, via, off, x));
            }
        }
    } else {
        assert(t.len() == 0);
    }
}

proof fn lemma_deps(deps: Seq<DepView>, name: Seq<char>, x: Seq<char>)
    ensures
        grow::plain_deps(deps).contains(x) <==> is_on(deps, None, false, x),
        grow::option_deps(deps, name, false).contains(x) <==> is_on(deps, Some(name), false, x),
        grow::option_deps(deps, name, true).contains(x) <==> is_on(deps, Some(name), true, x),
{
    let n = deps.len() as int;
    assert(deps.take(n) =~= deps);
    lemma_brought(deps, None, false, n, x);
    lemma_brought(deps, Some(name), false, n, x);
    lemma_brought(deps, Some(name), true, n, x);
    order::lemma_text_set(grow::brought_upto(deps, None, false, n));
    order::lemma_text_set(grow::brought_upto(deps, Some(name), false, n));
    order::lemma_text_set(grow::brought_upto(deps, Some(name), true, n));
}

/// Whether port `i` depends on just what some dependencies say: whatever its
/// options say on those by none, and by each of its options, on or off, on
/// those by that option.
pub open spec fn depends_so(g: GraphView, i: int, deps: Seq<DepView>) -> bool {
    &&& forall|x: Seq<char>| #[trigger]
        g.ports[i].requires.contains(x) <==> is_on(deps, None, false, x)
    &&& forall|q: int|
        0 <= q < g.ports[i].options.len() ==> brings_so(
            g.options[#[trigger] g.ports[i].options[q] as int],
            deps,
        )
}

/// Whether an option brings just what some dependencies say is by it.
pub open spec fn brings_so(o: OptionView, deps: Seq<DepView>) -> bool {
    &&& forall|x: Seq<char>| #[trigger]
        o.dep_origins.contains(x) <==> is_on(deps, Some(o.name), false, x)
    &&& forall|x: Seq<char>| #[trigger]
        o.dep_origins_off.contains(x) <==> is_on(deps, Some(o.name), true, x)
}

proof fn lemma_brings_so(o: OptionView, deps: Seq<DepView>)
    requires
        o.dep_origins == grow::option_deps(deps, o.name, false),
        o.dep_origins_off == grow::option_deps(deps, o.name, true),
    ensures
        brings_so(o, deps),
{
    assert forall|x: Seq<char>| #[trigger] o.dep_origins.contains(x) <==> is_on(
        deps,
        Some(o.name),
        false,
        x,
    ) by {
        lemma_deps(deps, o.name, x);
    }
    assert forall|x: Seq<char>| #[trigger] o.dep_origins_off.contains(x) <==> is_on(
        deps,
        Some(o.name),
        true,
        x,
    ) by {
        lemma_deps(deps, o.name, x);
    }
}

/// In the list that a walk ends in, every port that was read depends on just
/// what was read of it under the options in force, and each dependency is by the
/// option that brings it.
pub proof fn every_dependency_is_listed(
    roots: Seq<Seq<char>>,
    replies: Seq<Seq<AnswerView>>,
    saved: SavedView,
    title: Seq<char>,
    r: int,
    i: int,
    f: FactsView,
    deps: Seq<DepView>,
) -> (at: int)
    requires
        0 <= r < replies.len(),
        0 <= i < walked_on(walk::set_out(roots), replies, saved, r).level.len(),
        replies[r][i].shipped == Ok::<FactsView, Seq<char>>(f),
        match replies[r][i].exact {
            Some(Ok(x)) => deps == x.deps,
            Some(Err(e)) => false,
            None => deps == f.deps,
        },
        f.origin == walked_on(walk::set_out(roots), replies, saved, r).level[i],
        walked_on(walk::set_out(roots), replies, saved, replies.len() as int).collected.len()
            <= usize::MAX,
        walk::walked(
            title,
            walked_on(walk::set_out(roots), replies, saved, replies.len() as int),
        ).options.len() <= usize::MAX,
    ensures
        ({
            let g = walk::walked(
                title,
                walked_on(walk::set_out(roots), replies, saved, replies.len() as int),
            );
            0 <= at < g.ports.len() && g.ports[at].origin == f.origin && depends_so(g, at, deps)
        }),
{
    let o = walk::set_out(roots);
    let n = replies.len() as int;
    let x = walked_on(o, replies, saved, r);
    let w = walked_on(o, replies, saved, n);
    let g = walk::walked(title, w);
    let c = entry_for(x.level[i], replies[r][i], saved);
    let y = walk::answered_upto(x, replies[r], saved, x.level.len() as int);
    lemma_collects(x, replies[r], saved, x.level.len() as int);
    assert(y.collected[x.collected.len() + i] == c);
    assert(walked_on(o, replies, saved, r + 1).collected == y.collected);
    assert(y.collected.contains(c));
    lemma_keeps(o, replies, saved, r + 1, n, c);
    let k = choose|k: int| 0 <= k < w.collected.len() && w.collected[k] == c;
    let at = lemma_walked(title, w, k);
    let s = walk::seed_from(c, w.roots.contains(c.origin));
    assert(c.deps == deps && c.requires == grow::plain_deps(deps));
    assert forall|x: Seq<char>| #[trigger] g.ports[at].requires.contains(x) <==> is_on(
        deps,
        None,
        false,
        x,
    ) by {
        lemma_deps(deps, x, x);
    }
    assert forall|q: int| 0 <= q < g.ports[at].options.len() implies brings_so(
        g.options[#[trigger] g.ports[at].options[q] as int],
        deps,
    ) by {
        let id = g.ports[at].options[q];
        assert(is_seeded(g.options[id as int], s, q));
        lemma_brings_so(g.options[id as int], deps);
    }
    at
}

/// What is told of a port again takes the place of what was known of what it
/// depends on; the other ports depend on what they did.
pub proof fn what_is_told_is_what_is_known(
    g: GraphView,
    origin: Seq<char>,
    f: FactsView,
    i: int,
)
    requires
        graph::shape_ok(g.ports, g.options),
        graph::index_ok(g.ports, g.by_origin),
        g.by_origin.contains_key(origin),
        g.by_origin[origin] == i,
    ensures
        depends_so(grow::told(g, origin, f), i, f.deps),
        grow::told(g, origin, f).ports[i].resolved,
        forall|j: int|
            0 <= j < g.ports.len() && j != i ==> #[trigger] grow::told(g, origin, f).ports[j]
                == g.ports[j],
        forall|k: int|
            0 <= k < g.options.len() ==> (#[trigger] grow::told(g, origin, f).options[k]).enabled
                == g.options[k].enabled && grow::told(g, origin, f).options[k].name
                == g.options[k].name,
{
    let h = grow::told(g, origin, f);
    let deps = f.deps;
    assert(graph::port_ok(g.ports, g.options, i));
    assert forall|x: Seq<char>| #[trigger] h.ports[i].requires.contains(x) <==> is_on(
        deps,
        None,
        false,
        x,
    ) by {
        lemma_deps(deps, x, x);
    }
    assert forall|q: int| 0 <= q < h.ports[i].options.len() implies brings_so(
        h.options[#[trigger] h.ports[i].options[q] as int],
        deps,
    ) by {
        let id = g.ports[i].options[q] as int;
        assert(graph::listed(g.ports[i].options, id));
        lemma_brings_so(h.options[id], deps);
    }
}

/// Whether an option of a port is in force, as it is saved.
pub open spec fn is_in_force(f: FactsView, saved: SavedView, name: Seq<char>) -> bool {
    exists|m: int|
        0 <= m < f.options.len() && (#[trigger] f.options[m]).name == name && preferred(
            saved,
            f.origin,
            name,
            f.options[m].default_on,
        )
}

/// Whether a dependency counts under the options in force: it is by none, or by
/// one that is in force, or, where it is for that option being off, by one that
/// is not.
pub open spec fn counts(f: FactsView, saved: SavedView, d: DepView) -> bool {
    match d.via_option {
        None => true,
        Some(name) => is_in_force(f, saved, name) == (d.polarity == Polarity::On),
    }
}

proof fn lemma_applying(
    deps: Seq<DepView>,
    states: Map<Seq<char>, bool>,
    n: int,
    x: Seq<char>,
)
    requires
        0 <= n <= deps.len(),
    ensures
        walk::applying_upto(deps, states, n).contains(x) <==> exists|i: int|
            0 <= i < n && (#[trigger] deps[i]).origin == x && walk::applies(states, deps[i]),
    decreases n,
{
    if n > 0 {
        lemma_applying(deps, states, n - 1, x);
        let a = walk::applying_upto(deps, states, n - 1);
        let r = walk::applying_upto(deps, states, n);
        if walk::applies(states, deps[n - 1]) {
            assert(r.drop_last() =~= a);
            order::lemma_contains_last(r, x);
        }
        if a.contains(x) {
            let i = choose|i: int|
                0 <= i < n - 1 && (#[trigger] deps[i]).origin == x && walk::applies(
                    states,
                    deps[i],
                );
            assert(deps[i].origin == x);
        }
        if exists|i: int|
            0 <= i < n && (#[trigger] deps[i]).origin == x && walk::applies(states, deps[i]) {
            let i = choose|i: int|
                0 <= i < n && (#[trigger] deps[i]).origin == x && walk::applies(states, deps[i]);
            assert(i < n - 1 || i == n - 1);
        }
    }
}

proof fn lemma_unnamed(
    origin: Seq<char>,
    options: Seq<OptionFactsView>,
    saved: SavedView,
    n: int,
    name: Seq<char>,
)
    requires
        0 <= n <= options.len(),
        walk::states_upto(origin, options, saved, n).contains_key(name),
    ensures
        exists|m: int| 0 <= m < n && (#[trigger] options[m]).name == name,
    decreases n,
{
    if n > 0 {
        if options[n - 1].name != name {
            lemma_unnamed(origin, options, saved, n - 1, name);
            let m = choose|m: int| 0 <= m < n - 1 && (#[trigger] options[m]).name == name;
            assert(options[m].name == name);
        } else {
            assert(options[n - 1].name == name);
        }
    }
}

/// A walk follows just what a port pulls in as it is configured: the origins of
/// the dependencies that count under the options in force.
pub proof fn a_walk_follows_what_is_in_force(
    f: FactsView,
    deps: Seq<DepView>,
    saved: SavedView,
    x: Seq<char>,
)
    requires
        named_apart(f.options),
    ensures
        walk::pulled_by(walk::learned(f.origin, f, deps, saved)).contains(x) <==> exists|i: int|
            0 <= i < deps.len() && (#[trigger] deps[i]).origin == x && counts(f, saved, deps[i]),
{
    let c = walk::learned(f.origin, f, deps, saved);
    let states = c.states;
    let n = deps.len() as int;
    let a = walk::applying_upto(deps, states, n);
    order::lemma_text_set(c.requires + a);
    lemma_applying(deps, states, n, x);
    lemma_deps(deps, x, x);
    crate::reply::lemma_in_sum(c.requires, a, x);
    assert forall|i: int| 0 <= i < deps.len() && deps[i].via_option is Some implies counts(
        f,
        saved,
        #[trigger] deps[i],
    ) == walk::applies(states, deps[i]) by {
        let name = deps[i].via_option->0;
        if is_in_force(f, saved, name) {
            let m = choose|m: int|
                0 <= m < f.options.len() && (#[trigger] f.options[m]).name == name && preferred(
                    saved,
                    f.origin,
                    name,
                    f.options[m].default_on,
                );
            lemma_states(f.origin, f.options, saved, f.options.len() as int, m);
        } else if states.contains_key(name) {
            lemma_unnamed(f.origin, f.options, saved, f.options.len() as int, name);
            let m = choose|m: int| 0 <= m < f.options.len() && (#[trigger] f.options[m]).name == name;
            lemma_states(f.origin, f.options, saved, f.options.len() as int, m);
        }
    }
    if is_on(deps, None, false, x) {
        let i = choose|i: int|
            0 <= i < deps.len() && (#[trigger] deps[i]).origin == x && deps[i].via_option
                == None::<Seq<char>>;
        assert(counts(f, saved, deps[i]));
    }
    if exists|i: int| 0 <= i < n && (#[trigger] deps[i]).origin == x && walk::applies(states, deps[i]) {
        let i = choose|i: int|
            0 <= i < n && (#[trigger] deps[i]).origin == x && walk::applies(states, deps[i]);
        assert(counts(f, saved, deps[i]));
    }
    if exists|i: int| 0 <= i < n && (#[trigger] deps[i]).origin == x && counts(f, saved, deps[i]) {
        let i = choose|i: int|
            0 <= i < n && (#[trigger] deps[i]).origin == x && counts(f, saved, deps[i]);
        if deps[i].via_option is None {
            assert(is_on(deps, None, false, x));
        } else {
            assert(walk::applies(states, deps[i]));
        }
    }
}

} // verus!
