//! What resettling leaves: once there is nothing left to ask, whatever a port
//! that was asked about pulls in is in the list.
use super::exclusive;
use super::fold;
use super::grow;
use super::query;
use super::rows;
use super::settle;
use super::settle::{OutcomeView, Round, SettlingView};
use super::walk;
use super::{GraphView, OptionView, PortView};
use crate::facts::FactsView;
use crate::graph;
use crate::oracle::QuestionView;
use crate::order;
use crate::reader::SavedView;
use vstd::prelude::*;

verus! {

/// Whether a port is in the list and pulls an origin in, as its options are
/// set.
pub open spec fn pulls(g: GraphView, origin: Seq<char>, dep: Seq<char>) -> bool {
    match graph::index_of(g, origin) {
        None => false,
        Some(i) => {
            let p = g.ports[i as int];
            grow::wanted_upto(p, g.options, p.options.len() as int).contains(dep)
        },
    }
}

/// Whether asking about a port has failed.
pub open spec fn has_failed(outcome: OutcomeView, origin: Seq<char>) -> bool {
    exists|i: int| 0 <= i < outcome.failed.len() && (#[trigger] outcome.failed[i]).origin == origin
}

/// Every question has an answer, and one that succeeded is about the port that
/// was asked about.
pub open spec fn fits(
    asking: Seq<QuestionView>,
    answers: Seq<Result<FactsView, Seq<char>>>,
) -> bool {
    &&& answers.len() == asking.len()
    &&& forall|i: int|
        0 <= i < answers.len() ==> (#[trigger] answers[i] matches Ok(f) ==> f.origin
            == asking[i].origin)
}

/// What every resettle under way keeps. A port that was asked about is in the
/// list, or is being asked about, or could not be read. What it pulls in, unless
/// it could not be read, is in the list or was asked about. What arrived is in
/// the list, and was asked about.
pub open spec fn in_step(g: GraphView, s: SettlingView) -> bool {
    &&& forall|o: Seq<char>| #[trigger]
        s.asked.contains(o) ==> g.by_origin.contains_key(o) || settle::asked_about(
            s.asking,
        ).contains(o) || has_failed(s.outcome, o)
    &&& forall|o: Seq<char>, d: Seq<char>|
        s.asked.contains(o) && !has_failed(s.outcome, o) && #[trigger] pulls(g, o, d)
            ==> g.by_origin.contains_key(d) || s.asked.contains(d)
    &&& forall|i: int|
        0 <= i < s.outcome.arrived.len() ==> s.asked.contains(#[trigger] s.outcome.arrived[i])
            && g.by_origin.contains_key(s.outcome.arrived[i])
}

/// What two ports pull in is the same where what their options pull in is.
proof fn lemma_wanted_same(
    p: PortView,
    a: Seq<OptionView>,
    q: PortView,
    b: Seq<OptionView>,
    m: int,
)
    requires
        0 <= m <= p.options.len(),
        p.requires == q.requires,
        p.options == q.options,
        forall|j: int|
            0 <= j < m ==> grow::origins_now(a[#[trigger] p.options[j] as int])
                == grow::origins_now(b[p.options[j] as int]),
    ensures
        grow::wanted_upto(p, a, m) == grow::wanted_upto(q, b, m),
    decreases m,
{
    if m > 0 {
        lemma_wanted_same(p, a, q, b, m - 1);
        assert(grow::origins_now(a[p.options[m - 1] as int]) == grow::origins_now(
            b[p.options[m - 1] as int],
        ));
    }
}

/// What the ports of a graph have in common with those of another as far as
/// what they pull in goes.
spec fn pulls_alike(a: GraphView, b: GraphView) -> bool {
    &&& a.by_origin == b.by_origin
    &&& a.ports.len() == b.ports.len()
    &&& a.options.len() == b.options.len()
    &&& forall|i: int|
        0 <= i < a.ports.len() ==> (#[trigger] a.ports[i]).requires == b.ports[i].requires
            && a.ports[i].options == b.ports[i].options
    &&& forall|k: int|
        0 <= k < a.options.len() ==> grow::origins_now(#[trigger] a.options[k])
            == grow::origins_now(b.options[k])
}

proof fn lemma_pulls_alike(a: GraphView, b: GraphView, o: Seq<char>, d: Seq<char>)
    requires
        graph::shape_ok(a.ports, a.options),
        graph::index_ok(a.ports, a.by_origin),
        pulls_alike(a, b),
    ensures
        pulls(a, o, d) == pulls(b, o, d),
{
    if let Some(i) = graph::index_of(a, o) {
        let p = a.ports[i as int];
        assert(graph::port_ok(a.ports, a.options, i as int));
        lemma_wanted_same(
            p,
            a.options,
            b.ports[i as int],
            b.options,
            p.options.len() as int,
        );
    }
}

/// Adding a port leaves alone what the others pull in.
proof fn lemma_added_pulls(
    g: GraphView,
    f: FactsView,
    saved: SavedView,
    o: Seq<char>,
    d: Seq<char>,
)
    requires
        graph::shape_ok(g.ports, g.options),
        graph::index_ok(g.ports, g.by_origin),
        o != f.origin,
    ensures
        pulls(grow::added(g, f, saved), o, d) == pulls(g, o, d),
{
    let h = grow::added(g, f, saved);
    if let Some(i) = graph::index_of(g, o) {
        let p = g.ports[i as int];
        assert(graph::port_ok(g.ports, g.options, i as int));
        assert(h.ports[i as int] == p);
        lemma_wanted_same(p, g.options, p, h.options, p.options.len() as int);
    }
}

/// Recording what a port depends on leaves alone what the others pull in.
proof fn lemma_told_pulls(
    g: GraphView,
    origin: Seq<char>,
    f: FactsView,
    o: Seq<char>,
    d: Seq<char>,
)
    requires
        graph::shape_ok(g.ports, g.options),
        graph::index_ok(g.ports, g.by_origin),
        o != origin,
    ensures
        pulls(grow::told(g, origin, f), o, d) == pulls(g, o, d),
{
    let h = grow::told(g, origin, f);
    if let (Some(i), Some(at)) = (graph::index_of(g, o), graph::index_of(g, origin)) {
        let p = g.ports[i as int];
        assert(i != at);
        assert(graph::port_ok(g.ports, g.options, i as int));
        assert forall|j: int| 0 <= j < p.options.len() implies grow::origins_now(
            g.options[#[trigger] p.options[j] as int],
        ) == grow::origins_now(h.options[p.options[j] as int]) by {
            assert(graph::listed(p.options, p.options[j] as int));
            exclusive::lemma_disjoint(g, i as int, at as int, p.options[j] as int);
        }
        lemma_wanted_same(p, g.options, h.ports[i as int], h.options, p.options.len() as int);
    }
}

/// What is not in the list stays, and nothing else does.
proof fn lemma_unknown_upto(origins: Seq<Seq<char>>, by: Map<Seq<char>, usize>, n: int)
    requires
        0 <= n <= origins.len(),
    ensures
        forall|d: Seq<char>| #[trigger]
            grow::unknown_upto(origins, by, n).contains(d) ==> !by.contains_key(d)
                && origins.contains(d),
        forall|i: int|
            0 <= i < n && !by.contains_key(#[trigger] origins[i]) ==> grow::unknown_upto(
                origins,
                by,
                n,
            ).contains(origins[i]),
    decreases n,
{
    if n > 0 {
        lemma_unknown_upto(origins, by, n - 1);
        let rest = grow::unknown_upto(origins, by, n - 1);
        let r = grow::unknown_upto(origins, by, n);
        if !by.contains_key(origins[n - 1]) {
            assert forall|d: Seq<char>| #[trigger] r.contains(d) implies !by.contains_key(d)
                && origins.contains(d) by {
                let k = choose|k: int| 0 <= k < r.len() && r[k] == d;
                if k < rest.len() {
                    assert(rest[k] == d);
                    assert(rest.contains(d));
                }
            }
            assert forall|i: int| 0 <= i < n && !by.contains_key(#[trigger] origins[i]) implies
                r.contains(origins[i]) by {
                if i < n - 1 {
                    assert(rest.contains(origins[i]));
                    let k = choose|k: int| 0 <= k < rest.len() && rest[k] == origins[i];
                    assert(r[k] == origins[i]);
                } else {
                    assert(r[rest.len() as int] == origins[i]);
                }
            }
        }
    }
}

/// What a port pulls in is in the list or unknown, and what is unknown is pulled
/// in and not in the list.
proof fn lemma_unknown(g: GraphView, origin: Seq<char>, d: Seq<char>)
    ensures
        pulls(g, origin, d) ==> g.by_origin.contains_key(d) || grow::unknown_to(
            g,
            origin,
        ).contains(d),
        grow::unknown_to(g, origin).contains(d) ==> !g.by_origin.contains_key(d) && pulls(
            g,
            origin,
            d,
        ),
{
    if let Some(i) = graph::index_of(g, origin) {
        let p = g.ports[i as int];
        let wanted = grow::wanted_upto(p, g.options, p.options.len() as int);
        let n = wanted.len() as int;
        lemma_unknown_upto(wanted, g.by_origin, n);
        order::lemma_text_set(grow::unknown_upto(wanted, g.by_origin, n));
    }
}

/// What was asked about, and what more was not asked about, has been once it is
/// met.
proof fn lemma_met(seen: Seq<Seq<char>>, more: Seq<Seq<char>>, n: int, x: Seq<char>)
    requires
        0 <= n <= more.len(),
    ensures
        walk::met(seen, more, n).contains(x) <==> seen.contains(x) || more.take(n).contains(x),
    decreases n,
{
    if n > 0 {
        lemma_met(seen, more, n - 1, x);
        let s = walk::met(seen, more, n - 1);
        let last = more[n - 1];
        assert(more.take(n).drop_last() =~= more.take(n - 1));
        order::lemma_contains_last(more.take(n), x);
        if s.contains(last) {
        } else {
            let r = walk::met(seen, more, n);
            assert(r.drop_last() =~= s);
            order::lemma_contains_last(r, x);
        }
    } else {
        assert(more.take(n) =~= seq![]);
    }
}

/// What is put on the list to be asked next has been asked about, and nothing
/// leaves that list.
proof fn lemma_chased(x: Round, unknown: Seq<Seq<char>>, n: int, o: Seq<char>)
    requires
        0 <= n <= unknown.len(),
    ensures
        settle::chased(x, unknown, n).g == x.g,
        settle::chased(x, unknown, n).outcome == x.outcome,
        settle::chased(x, unknown, n).asked.contains(o) <==> x.asked.contains(o)
            || unknown.take(n).contains(o),
        settle::asked_about(x.next).contains(o) ==> settle::asked_about(
            settle::chased(x, unknown, n).next,
        ).contains(o),
        settle::chased(x, unknown, n).asked.contains(o) && !x.asked.contains(o)
            ==> settle::asked_about(settle::chased(x, unknown, n).next).contains(o),
    decreases n,
{
    if n > 0 {
        lemma_chased(x, unknown, n - 1, o);
        let y = settle::chased(x, unknown, n - 1);
        let z = settle::chased(x, unknown, n);
        let last = unknown[n - 1];
        assert(unknown.take(n).drop_last() =~= unknown.take(n - 1));
        order::lemma_contains_last(unknown.take(n), o);
        if !y.asked.contains(last) {
            let q = QuestionView { origin: last, options: None };
            assert(z.asked.drop_last() =~= y.asked);
            order::lemma_contains_last(z.asked, o);
            lemma_next(y.next, q, o);
        }
    } else {
        assert(unknown.take(n) =~= seq![]);
    }
}

/// A question more is about a port more.
proof fn lemma_next(next: Seq<QuestionView>, q: QuestionView, o: Seq<char>)
    ensures
        settle::asked_about(next.push(q)).contains(o) <==> settle::asked_about(next).contains(o)
            || q.origin == o,
{
    let a = settle::asked_about(next.push(q));
    assert(a.drop_last() =~= settle::asked_about(next));
    order::lemma_contains_last(a, o);
}

/// Whether a port was asked about before a round, or in one of the first `n`
/// questions of it.
spec fn is_told(s: SettlingView, n: int, o: Seq<char>) -> bool {
    s.asked.contains(o) || exists|j: int| 0 <= j < n && (#[trigger] s.asking[j]).origin == o
}

/// Whether one of the questions of a round from the `n`th on is about a port.
spec fn is_due(s: SettlingView, n: int, o: Seq<char>) -> bool {
    exists|j: int| n <= j < s.asking.len() && (#[trigger] s.asking[j]).origin == o
}

/// Whether a port is accounted for in a round.
spec fn is_met(x: Round, s: SettlingView, n: int, o: Seq<char>) -> bool {
    x.g.by_origin.contains_key(o) || settle::asked_about(x.next).contains(o) || has_failed(
        x.outcome,
        o,
    ) || is_due(s, n, o)
}

/// What is known of a round once the first `n` questions have been answered.
spec fn midway(x: Round, s: SettlingView, n: int) -> bool {
    &&& graph::shape_ok(x.g.ports, x.g.options)
    &&& graph::index_ok(x.g.ports, x.g.by_origin)
    &&& forall|o: Seq<char>| #[trigger] x.asked.contains(o) ==> is_met(x, s, n, o)
    &&& forall|o: Seq<char>, d: Seq<char>|
        is_told(s, n, o) && !has_failed(x.outcome, o) && #[trigger] pulls(x.g, o, d)
            ==> x.g.by_origin.contains_key(d) || x.asked.contains(d)
    &&& forall|o: Seq<char>| #[trigger]
        x.asked.contains(o) ==> is_told(s, n, o) || is_due(s, n, o) || !x.g.by_origin.contains_key(
            o,
        )
    &&& forall|o: Seq<char>|
        s.asked.contains(o) || is_due(s, 0, o) ==> #[trigger] x.asked.contains(o)
    &&& forall|i: int|
        0 <= i < x.outcome.arrived.len() ==> x.asked.contains(#[trigger] x.outcome.arrived[i])
            && x.g.by_origin.contains_key(x.outcome.arrived[i])
}

/// A round as it begins.
proof fn lemma_begun(g: GraphView, s: SettlingView)
    requires
        graph::shape_ok(g.ports, g.options),
        graph::index_ok(g.ports, g.by_origin),
        in_step(g, s),
    ensures
        midway(settle::begun(g, s), s, 0),
{
    let about = settle::asked_about(s.asking);
    let x = settle::begun(g, s);
    assert(about.take(about.len() as int) =~= about);
    assert forall|o: Seq<char>| true implies (#[trigger] x.asked.contains(o) <==> s.asked.contains(
        o,
    ) || is_due(s, 0, o)) && (about.contains(o) <==> is_due(s, 0, o)) by {
        lemma_met(s.asked, about, about.len() as int, o);
        if about.contains(o) {
            let j = choose|j: int| 0 <= j < about.len() && about[j] == o;
            assert(s.asking[j].origin == o);
        }
        if is_due(s, 0, o) {
            let j = choose|j: int| 0 <= j < s.asking.len() && (#[trigger] s.asking[j]).origin == o;
            assert(about[j] == o);
        }
    }
    assert forall|o: Seq<char>| #[trigger] x.asked.contains(o) implies is_met(x, s, 0, o) by {
        if s.asked.contains(o) {
            assert(about.contains(o) ==> is_due(s, 0, o));
        }
    }
    assert forall|i: int| 0 <= i < x.outcome.arrived.len() implies x.asked.contains(
        #[trigger] x.outcome.arrived[i],
    ) && x.g.by_origin.contains_key(x.outcome.arrived[i]) by {
        assert(s.asked.contains(s.outcome.arrived[i]));
    }
}

/// A question that is answered is no longer due, and has been told.
proof fn lemma_one_on(s: SettlingView, n: int, o: Seq<char>)
    requires
        0 <= n < s.asking.len(),
    ensures
        is_told(s, n + 1, o) <==> is_told(s, n, o) || s.asking[n].origin == o,
        is_due(s, n, o) <==> is_due(s, n + 1, o) || s.asking[n].origin == o,
{
    if is_told(s, n + 1, o) && !s.asked.contains(o) {
        let j = choose|j: int| 0 <= j < n + 1 && (#[trigger] s.asking[j]).origin == o;
        assert(s.asking[j].origin == o);
    }
    if is_told(s, n, o) && !s.asked.contains(o) {
        let j = choose|j: int| 0 <= j < n && (#[trigger] s.asking[j]).origin == o;
        assert(s.asking[j].origin == o);
    }
    if is_due(s, n, o) {
        let j = choose|j: int| n <= j < s.asking.len() && (#[trigger] s.asking[j]).origin == o;
        assert(s.asking[j].origin == o);
    }
    if is_due(s, n + 1, o) {
        let j = choose|j: int| n + 1 <= j < s.asking.len() && (#[trigger] s.asking[j]).origin == o;
        assert(s.asking[j].origin == o);
    }
}

/// A round once one more question could not be answered.
proof fn lemma_failed(x: Round, s: SettlingView, n: int, why: Seq<char>, saved: SavedView)
    requires
        0 <= n < s.asking.len(),
        midway(x, s, n),
    ensures
        midway(settle::answered(x, s.asking[n].origin, Err(why), saved), s, n + 1),
{
    let origin = s.asking[n].origin;
    let y = settle::answered(x, origin, Err(why), saved);
    assert(pulls_alike(x.g, y.g));
    assert(fold::ports_alike(y.g.ports, x.g.ports));
    assert(fold::options_alike(y.g.options, x.g.options));
    fold::lemma_alike_shape(y.g, x.g);
    let k = x.outcome.failed.len() as int;
    assert(y.outcome.failed[k].origin == origin);
    assert forall|o: Seq<char>| has_failed(x.outcome, o) implies #[trigger] has_failed(
        y.outcome,
        o,
    ) by {
        let i = choose|i: int|
            0 <= i < x.outcome.failed.len() && (#[trigger] x.outcome.failed[i]).origin == o;
        assert(y.outcome.failed[i].origin == o);
    }
    assert forall|o: Seq<char>| #[trigger] y.asked.contains(o) implies is_met(y, s, n + 1, o) by {
        assert(x.asked.contains(o));
        lemma_one_on(s, n, o);
        assert(has_failed(x.outcome, o) ==> has_failed(y.outcome, o));
    }
    assert forall|o: Seq<char>, d: Seq<char>|
        is_told(s, n + 1, o) && !has_failed(y.outcome, o) && #[trigger] pulls(
            y.g,
            o,
            d,
        ) implies y.g.by_origin.contains_key(d) || y.asked.contains(d) by {
        lemma_one_on(s, n, o);
        lemma_pulls_alike(x.g, y.g, o, d);
        assert(has_failed(x.outcome, o) ==> has_failed(y.outcome, o));
        assert(pulls(x.g, o, d));
    }
    assert forall|o: Seq<char>| #[trigger] y.asked.contains(o) implies is_told(s, n + 1, o)
        || is_due(s, n + 1, o) || !y.g.by_origin.contains_key(o) by {
        lemma_one_on(s, n, o);
        assert(x.asked.contains(o));
    }
    assert forall|i: int| 0 <= i < y.outcome.arrived.len() implies y.asked.contains(
        #[trigger] y.outcome.arrived[i],
    ) && y.g.by_origin.contains_key(y.outcome.arrived[i]) by {
        assert(x.asked.contains(x.outcome.arrived[i]));
    }
}

/// A round in which what was answered about a port has been taken in: the port
/// is in the list, and the others are as they were.
proof fn lemma_taken_in(x: Round, f: FactsView, saved: SavedView, o: Seq<char>, d: Seq<char>)
    requires
        graph::shape_ok(x.g.ports, x.g.options),
        graph::index_ok(x.g.ports, x.g.by_origin),
        settle::let_in(x, f.origin, f, saved).g.ports.len() <= usize::MAX,
        settle::let_in(x, f.origin, f, saved).g.options.len() <= usize::MAX,
    ensures
        ({
            let y = settle::let_in(x, f.origin, f, saved);
            let h = grow::told(y.g, f.origin, f);
            &&& graph::shape_ok(h.ports, h.options)
            &&& graph::index_ok(h.ports, h.by_origin)
            &&& h.by_origin.contains_key(o) <==> x.g.by_origin.contains_key(o) || o == f.origin
            &&& o != f.origin ==> pulls(h, o, d) == pulls(x.g, o, d)
            &&& y.asked == x.asked
            &&& y.outcome.failed == x.outcome.failed
            &&& settle::asked_about(x.next).contains(o) ==> settle::asked_about(y.next).contains(o)
        }),
{
    let y = settle::let_in(x, f.origin, f, saved);
    if !x.g.by_origin.contains_key(f.origin) {
        grow::lemma_planted(x.g, grow::fresh_seed(f, saved));
        if o != f.origin {
            lemma_added_pulls(x.g, f, saved, o, d);
        }
        if let Some(set) = settle::arrival_ask(f, saved) {
            lemma_next(x.next, QuestionView { origin: f.origin, options: Some(set) }, o);
        }
    }
    grow::lemma_told(y.g, f.origin, f);
    if o != f.origin {
        lemma_told_pulls(y.g, f.origin, f, o, d);
    }
}

/// A round once one more question has been answered.
proof fn lemma_answered(x: Round, s: SettlingView, n: int, f: FactsView, saved: SavedView)
    requires
        0 <= n < s.asking.len(),
        midway(x, s, n),
        f.origin == s.asking[n].origin,
        settle::answered(x, f.origin, Ok(f), saved).g.ports.len() <= usize::MAX,
        settle::answered(x, f.origin, Ok(f), saved).g.options.len() <= usize::MAX,
    ensures
        midway(settle::answered(x, f.origin, Ok(f), saved), s, n + 1),
{
    let y = settle::let_in(x, f.origin, f, saved);
    let z = Round { g: grow::told(y.g, f.origin, f), ..y };
    let unknown = grow::unknown_to(z.g, f.origin);
    let w = settle::chased(z, unknown, unknown.len() as int);
    assert(unknown.take(unknown.len() as int) =~= unknown);
    lemma_chased(z, unknown, unknown.len() as int, f.origin);
    lemma_taken_in(x, f, saved, f.origin, f.origin);
    assert(w.g == z.g);
    assert forall|o: Seq<char>| has_failed(x.outcome, o) <==> #[trigger] has_failed(
        w.outcome,
        o,
    ) by {
        if has_failed(x.outcome, o) {
            let i = choose|i: int|
                0 <= i < x.outcome.failed.len() && (#[trigger] x.outcome.failed[i]).origin == o;
            assert(w.outcome.failed[i].origin == o);
        }
    }
    assert forall|o: Seq<char>| x.asked.contains(o) implies #[trigger] w.asked.contains(o) by {
        lemma_chased(z, unknown, unknown.len() as int, o);
    }
    assert forall|o: Seq<char>| #[trigger] w.asked.contains(o) implies is_met(w, s, n + 1, o) by {
        lemma_chased(z, unknown, unknown.len() as int, o);
        lemma_taken_in(x, f, saved, o, o);
        if x.asked.contains(o) {
            lemma_one_on(s, n, o);
            assert(is_met(x, s, n, o));
            assert(has_failed(x.outcome, o) <==> has_failed(w.outcome, o));
        }
    }
    assert forall|o: Seq<char>, d: Seq<char>|
        is_told(s, n + 1, o) && !has_failed(w.outcome, o) && #[trigger] pulls(
            w.g,
            o,
            d,
        ) implies w.g.by_origin.contains_key(d) || w.asked.contains(d) by {
        lemma_chased(z, unknown, unknown.len() as int, d);
        if o == f.origin {
            lemma_unknown(z.g, o, d);
        } else {
            lemma_one_on(s, n, o);
            lemma_taken_in(x, f, saved, o, d);
            lemma_taken_in(x, f, saved, d, d);
            assert(has_failed(x.outcome, o) <==> has_failed(w.outcome, o));
            assert(pulls(x.g, o, d));
        }
    }
    assert forall|o: Seq<char>| #[trigger] w.asked.contains(o) implies is_told(s, n + 1, o)
        || is_due(s, n + 1, o) || !w.g.by_origin.contains_key(o) by {
        lemma_chased(z, unknown, unknown.len() as int, o);
        lemma_one_on(s, n, o);
        lemma_unknown(z.g, f.origin, o);
        lemma_taken_in(x, f, saved, o, o);
    }
    assert(is_due(s, 0, f.origin));
    assert(w.asked.contains(f.origin));
    assert forall|i: int| 0 <= i < w.outcome.arrived.len() implies w.asked.contains(
        #[trigger] w.outcome.arrived[i],
    ) && w.g.by_origin.contains_key(w.outcome.arrived[i]) by {
        let o = w.outcome.arrived[i];
        lemma_taken_in(x, f, saved, o, o);
        if i < x.outcome.arrived.len() {
            assert(x.outcome.arrived[i] == o);
        }
    }
}

/// Every origin of the index has its place among the ports.
spec fn in_place(g: GraphView) -> bool {
    forall|o: Seq<char>| #[trigger] g.by_origin.contains_key(o) ==> g.by_origin[o] < g.ports.len()
}

/// A graph never loses a port or an option in a round.
proof fn lemma_grows(
    x: Round,
    asking: Seq<QuestionView>,
    answers: Seq<Result<FactsView, Seq<char>>>,
    saved: SavedView,
    n: int,
)
    requires
        in_place(x.g),
    ensures
        in_place(settle::answered_upto(x, asking, answers, saved, n).g),
        x.g.ports.len() <= settle::answered_upto(x, asking, answers, saved, n).g.ports.len(),
        x.g.options.len() <= settle::answered_upto(x, asking, answers, saved, n).g.options.len(),
        n > 0 ==> settle::answered_upto(x, asking, answers, saved, n - 1).g.ports.len()
            <= settle::answered_upto(x, asking, answers, saved, n).g.ports.len(),
        n > 0 ==> settle::answered_upto(x, asking, answers, saved, n - 1).g.options.len()
            <= settle::answered_upto(x, asking, answers, saved, n).g.options.len(),
    decreases n,
{
    if n > 0 {
        lemma_grows(x, asking, answers, saved, n - 1);
        let y = settle::answered_upto(x, asking, answers, saved, n - 1);
        let origin = asking[n - 1].origin;
        if let Ok(f) = answers[n - 1] {
            let z = settle::let_in(y, origin, f, saved);
            assert(in_place(z.g));
            let t = Round { g: grow::told(z.g, origin, f), ..z };
            let unknown = grow::unknown_to(t.g, origin);
            lemma_chased(t, unknown, unknown.len() as int, origin);
        }
    }
}

/// A round once the first `n` questions have been answered.
proof fn lemma_midway(
    g: GraphView,
    s: SettlingView,
    answers: Seq<Result<FactsView, Seq<char>>>,
    saved: SavedView,
    n: int,
)
    requires
        0 <= n <= s.asking.len(),
        graph::shape_ok(g.ports, g.options),
        graph::index_ok(g.ports, g.by_origin),
        in_step(g, s),
        fits(s.asking, answers),
        settle::answered_upto(settle::begun(g, s), s.asking, answers, saved, n).g.ports.len()
            <= usize::MAX,
        settle::answered_upto(settle::begun(g, s), s.asking, answers, saved, n).g.options.len()
            <= usize::MAX,
    ensures
        midway(settle::answered_upto(settle::begun(g, s), s.asking, answers, saved, n), s, n),
    decreases n,
{
    let b = settle::begun(g, s);
    if n <= 0 {
        lemma_begun(g, s);
    } else {
        lemma_grows(b, s.asking, answers, saved, n);
        lemma_midway(g, s, answers, saved, n - 1);
        let x = settle::answered_upto(b, s.asking, answers, saved, n - 1);
        match answers[n - 1] {
            Err(why) => lemma_failed(x, s, n - 1, why, saved),
            Ok(f) => lemma_answered(x, s, n - 1, f, saved),
        }
    }
}

/// A resettle under way: the graph, and what is being asked.
pub struct Stage {
    pub g: GraphView,
    pub s: SettlingView,
}

/// A resettle one round on.
pub open spec fn went_on(
    at: Stage,
    answers: Seq<Result<FactsView, Seq<char>>>,
    saved: SavedView,
) -> Stage {
    let done = settle::round_done(at.g, at.s, answers, saved);
    Stage {
        g: done.g,
        s: SettlingView { asking: done.next, asked: done.asked, outcome: done.outcome },
    }
}

/// A round keeps what every resettle keeps, and forgets nothing that was asked
/// about: whatever a port that was answered about pulls in is in the list, or
/// has been asked about, or is asked about next.
pub proof fn a_round_keeps_in_step(
    at: Stage,
    answers: Seq<Result<FactsView, Seq<char>>>,
    saved: SavedView,
)
    requires
        rows::drawable(at.g),
        in_step(at.g, at.s),
        fits(at.s.asking, answers),
        went_on(at, answers, saved).g.ports.len() <= usize::MAX,
        went_on(at, answers, saved).g.options.len() <= usize::MAX,
    ensures
        rows::drawable(went_on(at, answers, saved).g),
        in_step(went_on(at, answers, saved).g, went_on(at, answers, saved).s),
        forall|o: Seq<char>|
            at.s.asked.contains(o) || settle::asked_about(at.s.asking).contains(o)
                ==> #[trigger] went_on(at, answers, saved).s.asked.contains(o),
{
    let s = at.s;
    let n = s.asking.len() as int;
    let x = settle::answered_upto(settle::begun(at.g, s), s.asking, answers, saved, n);
    let next = went_on(at, answers, saved);
    let h = next.g;
    lemma_midway(at.g, s, answers, saved, n);
    rows::lemma_settled(x.g);
    assert(pulls_alike(x.g, h));
    assert forall|o: Seq<char>| true implies !(#[trigger] is_due(s, n, o)) by {
    }
    assert forall|o: Seq<char>| #[trigger] next.s.asked.contains(o) implies h.by_origin.contains_key(
        o,
    ) || settle::asked_about(next.s.asking).contains(o) || has_failed(next.s.outcome, o) by {
        assert(x.asked.contains(o));
        assert(is_met(x, s, n, o));
        assert(!is_due(s, n, o));
    }
    assert forall|o: Seq<char>, d: Seq<char>|
        next.s.asked.contains(o) && !has_failed(next.s.outcome, o) && #[trigger] pulls(
            h,
            o,
            d,
        ) implies h.by_origin.contains_key(d) || next.s.asked.contains(d) by {
        assert(x.asked.contains(o));
        assert(!is_due(s, n, o));
        lemma_pulls_alike(x.g, h, o, d);
        assert(pulls(x.g, o, d));
    }
    assert forall|o: Seq<char>|
        s.asked.contains(o) || settle::asked_about(s.asking).contains(
            o,
        ) implies #[trigger] next.s.asked.contains(o) by {
        let about = settle::asked_about(s.asking);
        if about.contains(o) {
            let j = choose|j: int| 0 <= j < about.len() && about[j] == o;
            assert(s.asking[j].origin == o);
            assert(is_due(s, 0, o));
        }
        assert(x.asked.contains(o));
    }
}

/// Once there is nothing left to ask, a resettle has left nothing out: a port
/// that was asked about is in the list, and so is whatever it pulls in as its
/// options are set, but for what could not be read. The same holds of every port
/// that arrived.
pub proof fn a_settled_graph_is_closed(at: Stage)
    requires
        in_step(at.g, at.s),
        at.s.asking.len() == 0,
    ensures
        forall|o: Seq<char>| #[trigger]
            at.s.asked.contains(o) ==> at.g.by_origin.contains_key(o) || has_failed(
                at.s.outcome,
                o,
            ),
        forall|o: Seq<char>, d: Seq<char>|
            (at.s.asked.contains(o) || at.s.outcome.arrived.contains(o)) && !has_failed(
                at.s.outcome,
                o,
            ) && #[trigger] pulls(at.g, o, d) ==> at.g.by_origin.contains_key(d) || has_failed(
                at.s.outcome,
                d,
            ),
        at.s.outcome.failed.len() == 0 ==> forall|o: Seq<char>|
            (at.s.asked.contains(o) || at.s.outcome.arrived.contains(o))
                ==> #[trigger] grow::unknown_to(at.g, o).len() == 0,
{
    let s = at.s;
    assert(settle::asked_about(s.asking) =~= seq![]);
    assert forall|o: Seq<char>| s.outcome.arrived.contains(o) implies #[trigger] s.asked.contains(
        o,
    ) by {
        let i = choose|i: int| 0 <= i < s.outcome.arrived.len() && s.outcome.arrived[i] == o;
        assert(s.asked.contains(s.outcome.arrived[i]));
    }
    assert forall|o: Seq<char>, d: Seq<char>|
        (s.asked.contains(o) || s.outcome.arrived.contains(o)) && !has_failed(s.outcome, o)
            && #[trigger] pulls(at.g, o, d) implies at.g.by_origin.contains_key(d) || has_failed(
        s.outcome,
        d,
    ) by {
        assert(s.asked.contains(o));
    }
    if s.outcome.failed.len() == 0 {
        assert forall|o: Seq<char>|
            s.asked.contains(o) || s.outcome.arrived.contains(
                o,
            ) implies #[trigger] grow::unknown_to(at.g, o).len() == 0 by {
            let unknown = grow::unknown_to(at.g, o);
            if unknown.len() > 0 {
                assert(unknown.contains(unknown[0]));
                lemma_unknown(at.g, o, unknown[0]);
                assert(pulls(at.g, o, unknown[0]));
            }
        }
    }
}

/// A resettle of some ports as it begins.
pub open spec fn set_out(g: GraphView, origins: Seq<Seq<char>>) -> Stage {
    Stage {
        g,
        s: SettlingView {
            asking: settle::questions_upto(g, origins, origins.len() as int),
            asked: seq![],
            outcome: settle::nothing_done(),
        },
    }
}

/// A resettle once the first `n` rounds of questions have been answered.
pub open spec fn after(
    at: Stage,
    replies: Seq<Seq<Result<FactsView, Seq<char>>>>,
    saved: SavedView,
    n: int,
) -> Stage
    decreases n,
{
    if n <= 0 {
        at
    } else {
        went_on(after(at, replies, saved, n - 1), replies[n - 1], saved)
    }
}

/// The answers of the `i`th round fit its questions.
pub open spec fn fits_at(
    at: Stage,
    replies: Seq<Seq<Result<FactsView, Seq<char>>>>,
    saved: SavedView,
    i: int,
) -> bool {
    fits(after(at, replies, saved, i).s.asking, replies[i])
}

/// A resettle under way that is as every resettle is.
#[verifier::opaque]
spec fn is_sound(at: Stage) -> bool {
    rows::drawable(at.g) && in_step(at.g, at.s)
}

/// Whatever is asked about at one stage has been asked about at another.
#[verifier::opaque]
spec fn is_carried(at: Stage, on: Stage) -> bool {
    forall|o: Seq<char>|
        at.s.asked.contains(o) || settle::asked_about(at.s.asking).contains(o)
            ==> #[trigger] on.s.asked.contains(o)
}

proof fn lemma_carried(a: Stage, b: Stage, c: Stage)
    requires
        is_carried(a, b),
        is_carried(b, c),
    ensures
        is_carried(a, c),
{
    reveal(is_carried);
    assert forall|o: Seq<char>|
        a.s.asked.contains(o) || settle::asked_about(a.s.asking).contains(
            o,
        ) implies #[trigger] c.s.asked.contains(o) by {
        assert(b.s.asked.contains(o));
    }
}

/// A graph loses nothing when a resettle goes on.
proof fn lemma_stays(at: Stage, answers: Seq<Result<FactsView, Seq<char>>>, saved: SavedView)
    requires
        in_place(at.g),
    ensures
        in_place(went_on(at, answers, saved).g),
        at.g.ports.len() <= went_on(at, answers, saved).g.ports.len(),
        at.g.options.len() <= went_on(at, answers, saved).g.options.len(),
{
    lemma_grows(
        settle::begun(at.g, at.s),
        at.s.asking,
        answers,
        saved,
        at.s.asking.len() as int,
    );
}

/// A graph loses nothing, however many rounds a resettle takes.
proof fn lemma_stays_after(
    at: Stage,
    replies: Seq<Seq<Result<FactsView, Seq<char>>>>,
    saved: SavedView,
    n: int,
)
    requires
        in_place(at.g),
    ensures
        in_place(after(at, replies, saved, n).g),
        n > 0 ==> after(at, replies, saved, n - 1).g.ports.len() <= after(
            at,
            replies,
            saved,
            n,
        ).g.ports.len(),
        n > 0 ==> after(at, replies, saved, n - 1).g.options.len() <= after(
            at,
            replies,
            saved,
            n,
        ).g.options.len(),
    decreases n,
{
    if n > 0 {
        lemma_stays_after(at, replies, saved, n - 1);
        lemma_stays(after(at, replies, saved, n - 1), replies[n - 1], saved);
    }
}

/// A sound resettle is sound one round on.
proof fn lemma_goes_on(at: Stage, answers: Seq<Result<FactsView, Seq<char>>>, saved: SavedView)
    requires
        is_sound(at),
        fits(at.s.asking, answers),
        went_on(at, answers, saved).g.ports.len() <= usize::MAX,
        went_on(at, answers, saved).g.options.len() <= usize::MAX,
    ensures
        is_sound(went_on(at, answers, saved)),
        is_carried(at, went_on(at, answers, saved)),
{
    reveal(is_sound);
    reveal(is_carried);
    a_round_keeps_in_step(at, answers, saved);
}

/// Every round of a resettle keeps what a resettle keeps.
proof fn lemma_after(
    at: Stage,
    replies: Seq<Seq<Result<FactsView, Seq<char>>>>,
    saved: SavedView,
    n: int,
)
    requires
        0 <= n <= replies.len(),
        is_sound(at),
        forall|i: int| 0 <= i < replies.len() ==> #[trigger] fits_at(at, replies, saved, i),
        after(at, replies, saved, n).g.ports.len() <= usize::MAX,
        after(at, replies, saved, n).g.options.len() <= usize::MAX,
    ensures
        is_sound(after(at, replies, saved, n)),
        n > 0 ==> is_carried(at, after(at, replies, saved, n)),
    decreases n,
{
    if n > 0 {
        let b = after(at, replies, saved, n - 1);
        assert(in_place(at.g)) by {
            reveal(is_sound);
        }
        lemma_stays_after(at, replies, saved, n);
        lemma_after(at, replies, saved, n - 1);
        assert(fits_at(at, replies, saved, n - 1));
        lemma_goes_on(b, replies[n - 1], saved);
        if n > 1 {
            lemma_carried(at, b, after(at, replies, saved, n));
        }
    }
}

/// Every listed port that a resettle sets out from is asked about.
proof fn lemma_questions(g: GraphView, origins: Seq<Seq<char>>, n: int, o: Seq<char>)
    requires
        0 <= n <= origins.len(),
    ensures
        settle::asked_about(settle::questions_upto(g, origins, n)).contains(o)
            <==> g.by_origin.contains_key(o) && origins.take(n).contains(o),
    decreases n,
{
    if n > 0 {
        lemma_questions(g, origins, n - 1, o);
        let rest = settle::questions_upto(g, origins, n - 1);
        let last = origins[n - 1];
        assert(origins.take(n).drop_last() =~= origins.take(n - 1));
        order::lemma_contains_last(origins.take(n), o);
        if let Some(i) = graph::index_of(g, last) {
            lemma_next(
                rest,
                QuestionView { origin: last, options: Some(query::option_set_of(g, i as int)) },
                o,
            );
        }
    } else {
        assert(settle::asked_about(settle::questions_upto(g, origins, n)) =~= seq![]);
        assert(origins.take(n) =~= seq![]);
    }
}

/// However many rounds it takes, a resettle that has nothing left to ask has
/// left nothing out. Every port that it set out from, and every port that
/// arrived, has whatever it pulls in, as its options are set, in the list; but
/// for the ports that could not be read.
pub proof fn a_resettle_leaves_nothing_out(
    g: GraphView,
    origins: Seq<Seq<char>>,
    replies: Seq<Seq<Result<FactsView, Seq<char>>>>,
    saved: SavedView,
)
    requires
        rows::drawable(g),
        forall|i: int|
            0 <= i < replies.len() ==> #[trigger] fits_at(set_out(g, origins), replies, saved, i),
        after(set_out(g, origins), replies, saved, replies.len() as int).g.ports.len()
            <= usize::MAX,
        after(set_out(g, origins), replies, saved, replies.len() as int).g.options.len()
            <= usize::MAX,
        after(set_out(g, origins), replies, saved, replies.len() as int).s.asking.len() == 0,
    ensures
        ({
            let end = after(set_out(g, origins), replies, saved, replies.len() as int);
            forall|o: Seq<char>, d: Seq<char>|
                (g.by_origin.contains_key(o) && origins.contains(o)
                    || end.s.outcome.arrived.contains(o)) && !has_failed(end.s.outcome, o)
                    && #[trigger] pulls(end.g, o, d) ==> end.g.by_origin.contains_key(d)
                    || has_failed(end.s.outcome, d)
        }),
{
    let at = set_out(g, origins);
    let n = replies.len() as int;
    let end = after(at, replies, saved, n);
    assert(in_step(at.g, at.s));
    reveal(is_sound);
    reveal(is_carried);
    lemma_after(at, replies, saved, n);
    a_settled_graph_is_closed(end);
    assert(origins.take(origins.len() as int) =~= origins);
    assert forall|o: Seq<char>, d: Seq<char>|
        (g.by_origin.contains_key(o) && origins.contains(o) || end.s.outcome.arrived.contains(o))
            && !has_failed(end.s.outcome, o) && #[trigger] pulls(
            end.g,
            o,
            d,
        ) implies end.g.by_origin.contains_key(d) || has_failed(end.s.outcome, d) by {
        if !end.s.outcome.arrived.contains(o) {
            lemma_questions(g, origins, origins.len() as int, o);
            let about = settle::asked_about(at.s.asking);
            assert(about.contains(o));
            assert(about.len() == at.s.asking.len());
            assert(n > 0);
            assert(end.s.asked.contains(o));
        }
    }
}

} // verus!
