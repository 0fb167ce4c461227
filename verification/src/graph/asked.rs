//! What is asked about, and what becomes of the answers.
use super::grow;
use super::preload;
use super::query;
use super::settle;
use super::settle::Round;
use super::walk;
use super::walk::FailureView;
use super::{GraphView, OptionView, PortView};
use crate::facts::{FactsView, OptionFactsView};
use crate::graph;
use crate::oracle::QuestionView;
use crate::order;
use crate::reader::SavedView;
use crate::reply;
use vstd::prelude::*;

verus! {

/// Whether one of the options of a port brings in this origin, as it is set.
pub open spec fn brings(p: PortView, options: Seq<OptionView>, x: Seq<char>) -> bool {
    exists|m: int|
        0 <= m < p.options.len() && {
            let o = options[#[trigger] p.options[m] as int];
            (o.enabled && o.dep_origins.contains(x)) || (!o.enabled && o.dep_origins_off.contains(
                x,
            ))
        }
}

proof fn lemma_wanted(p: PortView, options: Seq<OptionView>, n: int, x: Seq<char>)
    requires
        0 <= n <= p.options.len(),
    ensures
        grow::wanted_upto(p, options, n).contains(x) <==> p.requires.contains(x) || brings(
            PortView { options: p.options.take(n), ..p },
            options,
            x,
        ),
    decreases n,
{
    let t = PortView { options: p.options.take(n), ..p };
    if n > 0 {
        lemma_wanted(p, options, n - 1, x);
        let u = PortView { options: p.options.take(n - 1), ..p };
        let o = options[p.options[n - 1] as int];
        reply::lemma_in_sum(grow::wanted_upto(p, options, n - 1), grow::origins_now(o), x);
        assert(t.options[n - 1] == p.options[n - 1]);
        assert(forall|m: int| 0 <= m < n - 1 ==> #[trigger] t.options[m] == u.options[m]);
        assert(forall|m: int| 0 <= m < n - 1 ==> #[trigger] u.options[m] == t.options[m]);
    } else {
        assert(t.options.len() == 0);
    }
}

proof fn lemma_unknown(origins: Seq<Seq<char>>, by: Map<Seq<char>, usize>, n: int, x: Seq<char>)
    requires
        0 <= n <= origins.len(),
    ensures
        grow::unknown_upto(origins, by, n).contains(x) <==> origins.take(n).contains(x)
            && !by.contains_key(x),
    decreases n,
{
    let first = origins.take(n);
    if n > 0 {
        lemma_unknown(origins, by, n - 1, x);
        assert(first.drop_last() =~= origins.take(n - 1));
        order::lemma_contains_last(first, x);
        let rest = grow::unknown_upto(origins, by, n - 1);
        let more = rest.push(origins[n - 1]);
        assert(more.drop_last() =~= rest);
        order::lemma_contains_last(more, x);
    }
}

/// What a port of the list has to be asked about for is every origin that it
/// requires, or that one of its options brings in as it is set, and that is not
/// in the list; and nothing else.
pub proof fn what_is_not_listed_is_unknown(g: GraphView, i: int, origin: Seq<char>, x: Seq<char>)
    requires
        g.by_origin.contains_key(origin),
        g.by_origin[origin] == i,
    ensures
        grow::unknown_to(g, origin).contains(x) <==> !g.by_origin.contains_key(x) && (
        g.ports[i].requires.contains(x) || brings(g.ports[i], g.options, x)),
{
    let p = g.ports[i];
    let wanted = grow::wanted_upto(p, g.options, p.options.len() as int);
    assert(p.options.take(p.options.len() as int) =~= p.options);
    assert(PortView { options: p.options.take(p.options.len() as int), ..p } == p);
    assert(wanted.take(wanted.len() as int) =~= wanted);
    lemma_wanted(p, g.options, p.options.len() as int, x);
    lemma_unknown(wanted, g.by_origin, wanted.len() as int, x);
    order::lemma_text_set(grow::unknown_upto(wanted, g.by_origin, wanted.len() as int));
}

/// A resettle starts by asking about every port that it is to start from and
/// that is listed, under the options that are set, and about nothing else.
pub proof fn a_resettle_asks_as_it_is_set(
    g: GraphView,
    origins: Seq<Seq<char>>,
    n: int,
    q: QuestionView,
)
    requires
        0 <= n <= origins.len(),
    ensures
        settle::questions_upto(g, origins, n).contains(q) <==> origins.take(n).contains(q.origin)
            && g.by_origin.contains_key(q.origin) && q.options == Some(
            query::option_set_of(g, g.by_origin[q.origin] as int),
        ),
    decreases n,
{
    let first = origins.take(n);
    if n > 0 {
        a_resettle_asks_as_it_is_set(g, origins, n - 1, q);
        assert(first.drop_last() =~= origins.take(n - 1));
        order::lemma_contains_last(first, q.origin);
        let rest = settle::questions_upto(g, origins, n - 1);
        if let Some(i) = graph::index_of(g, origins[n - 1]) {
            let asked = QuestionView {
                origin: origins[n - 1],
                options: Some(query::option_set_of(g, i as int)),
            };
            let more = rest.push(asked);
            assert(more.drop_last() =~= rest);
            order::lemma_contains_last(more, q);
        }
    }
}

proof fn lemma_saved_set(
    origin: Seq<char>,
    options: Seq<OptionFactsView>,
    saved: SavedView,
    n: int,
    name: Seq<char>,
)
    requires
        0 <= n <= options.len(),
    ensures
        settle::saved_set_upto(origin, options, saved, n).contains(name) <==> exists|m: int|
            0 <= m < n && (#[trigger] options[m]).name == name && preload::preferred(
                saved,
                origin,
                name,
                options[m].default_on,
            ),
    decreases n,
{
    if n > 0 {
        lemma_saved_set(origin, options, saved, n - 1, name);
        let rest = settle::saved_set_upto(origin, options, saved, n - 1);
        let more = rest.push(options[n - 1].name);
        assert(more.drop_last() =~= rest);
        order::lemma_contains_last(more, name);
    }
}

proof fn lemma_shipped(options: Seq<OptionFactsView>, n: int, name: Seq<char>)
    requires
        0 <= n <= options.len(),
    ensures
        walk::shipped_upto(options, n).contains(name) <==> exists|m: int|
            0 <= m < n && (#[trigger] options[m]).name == name && options[m].default_on,
    decreases n,
{
    if n > 0 {
        lemma_shipped(options, n - 1, name);
        let rest = walk::shipped_upto(options, n - 1);
        let more = rest.push(options[n - 1].name);
        assert(more.drop_last() =~= rest);
        order::lemma_contains_last(more, name);
    }
}

proof fn lemma_saved_as_shipped(
    origin: Seq<char>,
    options: Seq<OptionFactsView>,
    saved: SavedView,
    n: int,
)
    requires
        0 <= n <= options.len(),
        forall|m: int|
            0 <= m < n ==> preload::preferred(
                saved,
                origin,
                (#[trigger] options[m]).name,
                options[m].default_on,
            ) == options[m].default_on,
    ensures
        settle::saved_set_upto(origin, options, saved, n) == walk::shipped_upto(options, n),
    decreases n,
{
    if n > 0 {
        lemma_saved_as_shipped(origin, options, saved, n - 1);
        assert(options[n - 1].name == options[n - 1].name);
    }
}

proof fn lemma_in_force(f: FactsView, saved: SavedView, n: int)
    requires
        preload::named_apart(f.options),
        0 <= n <= f.options.len(),
    ensures
        walk::in_force_upto(f.options, walk::states_of(f, saved), n) == settle::saved_set_upto(
            f.origin,
            f.options,
            saved,
            n,
        ),
    decreases n,
{
    if n > 0 {
        lemma_in_force(f, saved, n - 1);
        preload::lemma_states(f.origin, f.options, saved, f.options.len() as int, n - 1);
    }
}

/// Whether every option of a port is in the state that it ships in.
pub open spec fn as_shipped(f: FactsView, saved: SavedView) -> bool {
    forall|m: int|
        0 <= m < f.options.len() ==> preload::preferred(
            saved,
            f.origin,
            (#[trigger] f.options[m]).name,
            f.options[m].default_on,
        ) == f.options[m].default_on
}

/// A port that has been read as it ships is asked about again exactly where an
/// option of it is saved in another state, and then under every option that is
/// in force. So it is at the start of a session and while one runs.
pub proof fn what_is_saved_is_asked_about(f: FactsView, saved: SavedView)
    requires
        preload::named_apart(f.options),
    ensures
        walk::second_ask(f, saved) == settle::arrival_ask(f, saved),
        settle::arrival_ask(f, saved) is None <==> as_shipped(f, saved),
        settle::arrival_ask(f, saved) matches Some(set) ==> forall|name: Seq<char>| #[trigger]
            set.contains(name) <==> preload::is_in_force(f, saved, name),
{
    let n = f.options.len() as int;
    lemma_in_force(f, saved, n);
    let set = settle::saved_set_upto(f.origin, f.options, saved, n);
    let shipped = walk::shipped_upto(f.options, n);
    if as_shipped(f, saved) {
        lemma_saved_as_shipped(f.origin, f.options, saved, n);
    } else {
        let m = choose|m: int|
            0 <= m < f.options.len() && preload::preferred(
                saved,
                f.origin,
                (#[trigger] f.options[m]).name,
                f.options[m].default_on,
            ) != f.options[m].default_on;
        let name = f.options[m].name;
        lemma_saved_set(f.origin, f.options, saved, n, name);
        lemma_shipped(f.options, n, name);
        assert forall|j: int| 0 <= j < n && (#[trigger] f.options[j]).name == name implies j
            == m by {
            if j < m {
                assert(f.options[j].name != f.options[m].name);
            } else if m < j {
                assert(f.options[m].name != f.options[j].name);
            }
        }
        assert(set.contains(name) != shipped.contains(name));
    }
    assert forall|name: Seq<char>| #[trigger] set.contains(name) <==> preload::is_in_force(
        f,
        saved,
        name,
    ) by {
        lemma_saved_set(f.origin, f.options, saved, n, name);
    }
}

proof fn lemma_chased(x: Round, unknown: Seq<Seq<char>>, n: int, q: QuestionView)
    requires
        0 <= n <= unknown.len(),
    ensures
        ({
            let y = settle::chased(x, unknown, n);
            &&& y.g == x.g
            &&& y.outcome == x.outcome
            &&& y.asked.contains(q.origin) <==> x.asked.contains(q.origin) || unknown.take(
                n,
            ).contains(q.origin)
            &&& y.next.contains(q) <==> x.next.contains(q) || (q.options is None && unknown.take(
                n,
            ).contains(q.origin) && !x.asked.contains(q.origin))
        }),
    decreases n,
{
    let first = unknown.take(n);
    if n > 0 {
        lemma_chased(x, unknown, n - 1, q);
        let y = settle::chased(x, unknown, n - 1);
        let o = unknown[n - 1];
        assert(first.drop_last() =~= unknown.take(n - 1));
        order::lemma_contains_last(first, q.origin);
        let asked = y.asked.push(o);
        assert(asked.drop_last() =~= y.asked);
        order::lemma_contains_last(asked, q.origin);
        let next = y.next.push(QuestionView { origin: o, options: None });
        assert(next.drop_last() =~= y.next);
        order::lemma_contains_last(next, q);
        if q.origin == o {
            assert(y.asked.contains(o) <==> x.asked.contains(o) || unknown.take(n - 1).contains(o));
        }
    }
}

/// An answer of a resettle is recorded for its port, which arrives where it was
/// not in the list. Asked about next is whatever the port needs that is not in
/// the list and has not been asked about, as it ships, and a port that arrived,
/// where its saved options are not those it ships set; and nothing else.
pub proof fn an_answer_of_a_resettle_is_recorded(
    x: Round,
    origin: Seq<char>,
    f: FactsView,
    saved: SavedView,
    q: QuestionView,
)
    ensures
        ({
            let y = settle::answered(x, origin, Ok(f), saved);
            let known = x.g.by_origin.contains_key(origin);
            let g = if known {
                x.g
            } else {
                grow::added(x.g, f, saved)
            };
            let unknown = grow::unknown_to(grow::told(g, origin, f), origin);
            &&& y.g == grow::told(g, origin, f)
            &&& y.outcome.failed == x.outcome.failed
            &&& y.outcome.arrived == if known {
                x.outcome.arrived
            } else {
                x.outcome.arrived.push(origin)
            }
            &&& y.asked.contains(q.origin) <==> x.asked.contains(q.origin) || unknown.contains(
                q.origin,
            )
            &&& y.next.contains(q) <==> {
                ||| x.next.contains(q)
                ||| q.options is None && unknown.contains(q.origin) && !x.asked.contains(q.origin)
                ||| !known && q.origin == origin && q.options is Some && q.options
                    == settle::arrival_ask(f, saved)
            }
        }),
{
    let y = settle::let_in(x, origin, f, saved);
    let z = Round { g: grow::told(y.g, origin, f), ..y };
    let unknown = grow::unknown_to(z.g, origin);
    assert(unknown.take(unknown.len() as int) =~= unknown);
    lemma_chased(z, unknown, unknown.len() as int, q);
    if let Some(set) = settle::arrival_ask(f, saved) {
        let more = x.next.push(QuestionView { origin, options: Some(set) });
        assert(more.drop_last() =~= x.next);
        order::lemma_contains_last(more, q);
    }
}

/// A port that a resettle could not read is marked as unread, and it is told
/// why. No other port changes, and nothing more is asked.
pub proof fn a_port_that_cannot_be_read_is_told(
    x: Round,
    origin: Seq<char>,
    why: Seq<char>,
    saved: SavedView,
)
    requires
        graph::index_ok(x.g.ports, x.g.by_origin),
    ensures
        ({
            let y = settle::answered(x, origin, Err(why), saved);
            &&& y.next == x.next
            &&& y.asked == x.asked
            &&& y.outcome.arrived == x.outcome.arrived
            &&& y.outcome.failed == x.outcome.failed.push(FailureView { origin, why })
            &&& y.g.options == x.g.options
            &&& y.g.ports.len() == x.g.ports.len()
            &&& forall|i: int|
                0 <= i < x.g.ports.len() ==> #[trigger] y.g.ports[i] == if x.g.by_origin.contains_key(
                    origin,
                ) && x.g.by_origin[origin] == i {
                    PortView { resolved: false, ..x.g.ports[i] }
                } else {
                    x.g.ports[i]
                }
        }),
{
}

} // verus!
