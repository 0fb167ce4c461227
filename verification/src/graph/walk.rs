//! The walk that finds every port of a build: level by level from the ports
//! that were asked for, along what each pulls in as it is configured.
use super::grow;
use super::grow::{find_option_deps, find_plain_deps, SeedView, Seedling};
use super::index;
use super::live;
use super::rows;
use super::{DependencyGraph, GraphView, Provenance};
use crate::facts;
use crate::facts::{DepEntry, DepView, FactsView, OptionFacts, OptionFactsView, Polarity, PortFacts};
use crate::graph;
use crate::oracle::{Options, Question, QuestionView};
use crate::order;
use crate::reader;
use crate::reader::{SavedView, SystemOptions};
use crate::text;
use crate::text::holds;
use vstd::hash_map::StringHashMap;
use vstd::prelude::*;

verus! {

/// Everything learned about one port before its entry is built.
pub struct Collected {
    pub origin: String,
    pub resolved: bool,
    /// The options, from the evaluation *as the port ships*: the only one whose
    /// defaults mean what they say.
    pub options: Vec<OptionFacts>,
    /// The dependencies under the options actually in force.
    pub deps: Vec<DepEntry>,
    /// Those of them that apply whatever the options say.
    pub requires: Vec<String>,
    /// The state each option is in.
    pub states: StringHashMap<bool>,
}

/// What a `Collected` says.
pub struct CollectedView {
    pub origin: Seq<char>,
    pub resolved: bool,
    pub options: Seq<OptionFactsView>,
    pub deps: Seq<DepView>,
    pub requires: Seq<Seq<char>>,
    pub states: Map<Seq<char>, bool>,
}

impl View for Collected {
    type V = CollectedView;

    open spec fn view(&self) -> CollectedView {
        CollectedView {
            origin: self.origin@,
            resolved: self.resolved,
            options: order::views(self.options@),
            deps: order::views(self.deps@),
            requires: text::texts(self.requires@),
            states: self.states@,
        }
    }
}

/// A port that could not be read. It still exists and is still depended on.
pub open spec fn unread(origin: Seq<char>) -> CollectedView {
    CollectedView {
        origin,
        resolved: false,
        options: seq![],
        deps: seq![],
        requires: seq![],
        states: Map::empty(),
    }
}

/// The state that a map gives an option, or another where it gives none.
pub open spec fn state_in(states: Map<Seq<char>, bool>, name: Seq<char>, other: bool) -> bool {
    if states.contains_key(name) {
        states[name]
    } else {
        other
    }
}

/// Whether a dependency by option applies in these states.
pub open spec fn applies(states: Map<Seq<char>, bool>, d: DepView) -> bool {
    d.via_option is Some && state_in(states, d.via_option->0, false) != (d.polarity
        == Polarity::Off)
}

/// The origins of those of the first `n` dependencies that apply by option.
pub open spec fn applying_upto(
    deps: Seq<DepView>,
    states: Map<Seq<char>, bool>,
    n: int,
) -> Seq<Seq<char>>
    decreases n,
{
    if n <= 0 {
        seq![]
    } else {
        let rest = applying_upto(deps, states, n - 1);
        if applies(states, deps[n - 1]) {
            rest.push(deps[n - 1].origin)
        } else {
            rest
        }
    }
}

/// The ports that a port pulls in as it is configured, in order, each once.
pub open spec fn pulled_by(c: CollectedView) -> Seq<Seq<char>> {
    order::text_set(c.requires + applying_upto(c.deps, c.states, c.deps.len() as int))
}

/// The states of the first `n` options: what the user has saved laid over what
/// the port ships.
pub open spec fn states_upto(
    origin: Seq<char>,
    options: Seq<OptionFactsView>,
    saved: SavedView,
    n: int,
) -> Map<Seq<char>, bool>
    decreases n,
{
    if n <= 0 {
        Map::empty()
    } else {
        let o = options[n - 1];
        states_upto(origin, options, saved, n - 1).insert(
            o.name,
            reader::state_of(saved, origin, o.name, o.default_on),
        )
    }
}

/// The states of a port's options.
pub open spec fn states_of(f: FactsView, saved: SavedView) -> Map<Seq<char>, bool> {
    states_upto(f.origin, f.options, saved, f.options.len() as int)
}

/// The names of those of the first `n` options that are set.
pub open spec fn in_force_upto(
    options: Seq<OptionFactsView>,
    states: Map<Seq<char>, bool>,
    n: int,
) -> Seq<Seq<char>>
    decreases n,
{
    if n <= 0 {
        seq![]
    } else {
        let rest = in_force_upto(options, states, n - 1);
        if state_in(states, options[n - 1].name, false) {
            rest.push(options[n - 1].name)
        } else {
            rest
        }
    }
}

/// The names of those of the first `n` options that a port ships set.
pub open spec fn shipped_upto(options: Seq<OptionFactsView>, n: int) -> Seq<Seq<char>>
    decreases n,
{
    if n <= 0 {
        seq![]
    } else {
        let rest = shipped_upto(options, n - 1);
        if options[n - 1].default_on {
            rest.push(options[n - 1].name)
        } else {
            rest
        }
    }
}

/// The options that a port evaluated as it ships has to be asked about again
/// under: those in force, where they are not the ones it ships set.
pub open spec fn second_ask(f: FactsView, saved: SavedView) -> Option<Seq<Seq<char>>> {
    let set = in_force_upto(f.options, states_of(f, saved), f.options.len() as int);
    if set == shipped_upto(f.options, f.options.len() as int) {
        None
    } else {
        Some(set)
    }
}

/// What is learned of a port from its evaluation as it ships and its
/// dependencies under the options in force.
pub open spec fn learned(
    origin: Seq<char>,
    f: FactsView,
    deps: Seq<DepView>,
    saved: SavedView,
) -> CollectedView {
    CollectedView {
        origin,
        resolved: true,
        options: f.options,
        deps,
        requires: grow::plain_deps(deps),
        states: states_of(f, saved),
    }
}

/// The state of an option in a map, or another where it has none.
fn get_state_in(states: &StringHashMap<bool>, name: &str, other: bool) -> (r: bool)
    ensures
        r == state_in(states@, name@, other),
{
    match states.get(name) {
        Some(s) => *s,
        None => other,
    }
}

/// The states of a port's options.
fn find_states(f: &PortFacts, saved: &SystemOptions) -> (r: StringHashMap<bool>)
    ensures
        r@ == states_of(f@, saved@),
{
    let ghost ov = order::views(f.options@);
    let mut states: StringHashMap<bool> = StringHashMap::new();
    let mut n: usize = 0;
    while n < f.options.len()
        invariant
            n <= f.options@.len(),
            ov == order::views(f.options@),
            states@ == states_upto(f@.origin, ov, saved@, n as int),
        decreases f.options@.len() - n,
    {
        proof {
            assert(ov[n as int] == f.options@[n as int]@);
        }
        let state = saved.get_state(
            f.origin.as_str(),
            f.options[n].name.as_str(),
            f.options[n].default_on,
        );
        states.insert(f.options[n].name.clone(), state);
        n += 1;
    }
    states
}

/// The options that a port evaluated as it ships has to be asked about again
/// under.
///
/// A dependency that exists only while an option is set is not in an
/// evaluation made without it, so the set in force is asked about directly.
pub fn second_question(f: &PortFacts, saved: &SystemOptions) -> (r: Option<Vec<String>>)
    ensures
        match r {
            Some(set) => second_ask(f@, saved@) == Some(text::texts(set@)),
            None => second_ask(f@, saved@) is None,
        },
{
    broadcast use text::lemma_texts_push;

    let states = find_states(f, saved);
    let ghost ov = order::views(f.options@);
    let mut set: Vec<String> = Vec::new();
    let mut shipped: Vec<String> = Vec::new();
    let mut n: usize = 0;
    proof {
        assert(text::texts(set@) =~= seq![]);
        assert(text::texts(shipped@) =~= seq![]);
    }
    while n < f.options.len()
        invariant
            n <= f.options@.len(),
            ov == order::views(f.options@),
            text::texts(set@) == in_force_upto(ov, states@, n as int),
            text::texts(shipped@) == shipped_upto(ov, n as int),
        decreases f.options@.len() - n,
    {
        proof {
            assert(ov[n as int] == f.options@[n as int]@);
        }
        if get_state_in(&states, f.options[n].name.as_str(), false) {
            set.push(f.options[n].name.clone());
        }
        if f.options[n].default_on {
            shipped.push(f.options[n].name.clone());
        }
        n += 1;
    }
    proof {
        assert(ov.len() == f.options@.len());
    }
    if text::same_texts(&set, &shipped) {
        None
    } else {
        Some(set)
    }
}

impl Collected {
    /// A port that could not be read.
    pub fn unevaluated(origin: &str) -> (r: Self)
        ensures
            r@ == unread(origin@),
    {
        let r = Collected {
            origin: origin.to_owned(),
            resolved: false,
            options: Vec::new(),
            deps: Vec::new(),
            requires: Vec::new(),
            states: StringHashMap::new(),
        };
        proof {
            assert(r@.options =~= seq![]);
            assert(r@.deps =~= seq![]);
            assert(r@.requires =~= seq![]);
        }
        r
    }

    /// What is learned of a port from its evaluation as it ships and, where it
    /// was made, the one under the options in force.
    pub fn collect(
        origin: &str,
        shipped: &PortFacts,
        exact: Option<&PortFacts>,
        saved: &SystemOptions,
    ) -> (r: Self)
        ensures
            r@ == learned(
                origin@,
                shipped@,
                match exact {
                    Some(f) => f@.deps,
                    None => shipped@.deps,
                },
                saved@,
            ),
    {
        let deps = match exact {
            Some(f) => copy_all(&f.deps),
            None => copy_all(&shipped.deps),
        };
        let plain = find_plain_deps(&deps);
        Collected {
            origin: origin.to_owned(),
            resolved: true,
            options: copy_options(&shipped.options),
            deps,
            requires: plain,
            states: find_states(shipped, saved),
        }
    }

    /// The ports this one pulls in *as currently configured*.
    ///
    /// Only these are walked. A dependency behind an option that is off is not
    /// part of the build.
    pub fn dependencies(&self) -> (r: Vec<String>)
        ensures
            text::texts(r@) == pulled_by(self@),
    {
        broadcast use text::lemma_texts_push;

        let ghost dv = order::views(self.deps@);
        let ghost base = text::texts(self.requires@);
        let mut out = text::copy_texts(&self.requires);
        let mut n: usize = 0;
        proof {
            assert(base + applying_upto(dv, self.states@, 0) =~= base);
        }
        while n < self.deps.len()
            invariant
                n <= self.deps@.len(),
                dv == order::views(self.deps@),
                text::texts(out@) == base + applying_upto(dv, self.states@, n as int),
            decreases self.deps@.len() - n,
        {
            let ghost before = text::texts(out@);
            proof {
                assert(dv[n as int] == self.deps@[n as int]@);
            }
            if let Some(opt) = &self.deps[n].via_option {
                let on = get_state_in(&self.states, opt.as_str(), false);
                if on != (self.deps[n].polarity == Polarity::Off) {
                    out.push(self.deps[n].origin.clone());
                    proof {
                        let o = dv[n as int].origin;
                        assert(text::texts(out@) == before.push(o));
                        assert(before.push(o) =~= base + applying_upto(dv, self.states@, n + 1));
                    }
                }
            }
            n += 1;
        }
        proof {
            assert(dv.len() == self.deps@.len());
        }
        order::sorted_texts_once(&out)
    }
}

fn copy_all(v: &Vec<DepEntry>) -> (r: Vec<DepEntry>)
    ensures
        order::views(r@) == order::views(v@),
{
    broadcast use order::lemma_views_push;

    let ghost all = order::views(v@);
    let mut out: Vec<DepEntry> = Vec::new();
    let mut i: usize = 0;
    proof {
        assert(order::views(out@) =~= all.take(0));
    }
    while i < v.len()
        invariant
            i <= v@.len(),
            all == order::views(v@),
            order::views(out@) == all.take(i as int),
        decreases v@.len() - i,
    {
        out.push(v[i].clone());
        proof {
            assert(all.take(i + 1) =~= all.take(i as int).push(v@[i as int]@));
        }
        i += 1;
    }
    proof {
        assert(all.take(all.len() as int) =~= all);
    }
    out
}

fn copy_options(v: &Vec<OptionFacts>) -> (r: Vec<OptionFacts>)
    ensures
        order::views(r@) == order::views(v@),
{
    broadcast use order::lemma_views_push;

    let ghost all = order::views(v@);
    let mut out: Vec<OptionFacts> = Vec::new();
    let mut i: usize = 0;
    proof {
        assert(order::views(out@) =~= all.take(0));
    }
    while i < v.len()
        invariant
            i <= v@.len(),
            all == order::views(v@),
            order::views(out@) == all.take(i as int),
        decreases v@.len() - i,
    {
        out.push(v[i].clone());
        proof {
            assert(all.take(i + 1) =~= all.take(i as int).push(v@[i as int]@));
        }
        i += 1;
    }
    proof {
        assert(all.take(all.len() as int) =~= all);
    }
    out
}

/// A port that could not be evaluated, and why.
#[derive(Debug, PartialEq, Eq)]
pub struct Failure {
    pub origin: String,
    pub why: String,
}

/// What a `Failure` says.
pub struct FailureView {
    pub origin: Seq<char>,
    pub why: Seq<char>,
}

impl View for Failure {
    type V = FailureView;

    open spec fn view(&self) -> FailureView {
        FailureView { origin: self.origin@, why: self.why@ }
    }
}

/// What was answered about one port of a level: the evaluation as it ships,
/// and the one under the options in force where it was asked for.
#[derive(Debug)]
pub struct Answer {
    pub shipped: Result<PortFacts, String>,
    pub exact: Option<Result<PortFacts, String>>,
}

/// What one evaluation came to.
pub open spec fn outcome_view(r: Result<PortFacts, String>) -> Result<FactsView, Seq<char>> {
    match r {
        Ok(f) => Ok(f@),
        Err(e) => Err(e@),
    }
}

/// What an `Answer` says.
pub struct AnswerView {
    pub shipped: Result<FactsView, Seq<char>>,
    pub exact: Option<Result<FactsView, Seq<char>>>,
}

impl View for Answer {
    type V = AnswerView;

    open spec fn view(&self) -> AnswerView {
        AnswerView {
            shipped: outcome_view(self.shipped),
            exact: match self.exact {
                Some(r) => Some(outcome_view(r)),
                None => None,
            },
        }
    }
}

/// A walk under way.
pub struct Walk {
    /// The ports that were asked for.
    pub roots: Vec<String>,
    /// Every port met so far, in the order in which they were met.
    pub seen: Vec<String>,
    /// The ports to ask about next.
    pub level: Vec<String>,
    pub collected: Vec<Collected>,
    pub failures: Vec<Failure>,
    pub pkg_names: StringHashMap<String>,
}

/// What a `Walk` says.
pub struct WalkView {
    pub roots: Seq<Seq<char>>,
    pub seen: Seq<Seq<char>>,
    pub level: Seq<Seq<char>>,
    pub collected: Seq<CollectedView>,
    pub failures: Seq<FailureView>,
    pub pkg_names: Map<Seq<char>, Seq<char>>,
}

impl View for Walk {
    type V = WalkView;

    open spec fn view(&self) -> WalkView {
        WalkView {
            roots: text::texts(self.roots@),
            seen: text::texts(self.seen@),
            level: text::texts(self.level@),
            collected: order::views(self.collected@),
            failures: order::views(self.failures@),
            pkg_names: graph::text_map(self.pkg_names@),
        }
    }
}

/// The origins of the ports that have been collected.
pub open spec fn origins_of(c: Seq<CollectedView>) -> Seq<Seq<char>> {
    Seq::new(c.len(), |i: int| c[i].origin)
}

/// Whether all that a port pulls in has been met.
pub open spec fn all_met(c: CollectedView, seen: Seq<Seq<char>>) -> bool {
    forall|d: Seq<char>| #[trigger] pulled_by(c).contains(d) ==> seen.contains(d)
}

/// What holds of every walk: a port is met once, and has then been collected
/// or is to be asked about next; and what a collected port pulls in has been
/// met.
pub open spec fn walk_ok(w: WalkView) -> bool {
    &&& w.seen.no_duplicates()
    &&& w.seen == origins_of(w.collected) + w.level
    &&& forall|i: int| 0 <= i < w.collected.len() ==> all_met(#[trigger] w.collected[i], w.seen)
    &&& forall|i: int| 0 <= i < w.roots.len() ==> w.seen.contains(#[trigger] w.roots[i])
}

/// A list with the first `n` of some texts that it does not hold.
pub open spec fn met(seen: Seq<Seq<char>>, more: Seq<Seq<char>>, n: int) -> Seq<Seq<char>>
    decreases n,
{
    if n <= 0 {
        seen
    } else {
        let s = met(seen, more, n - 1);
        if s.contains(more[n - 1]) {
            s
        } else {
            s.push(more[n - 1])
        }
    }
}

/// A walk that sets out from these ports.
pub open spec fn set_out(roots: Seq<Seq<char>>) -> WalkView {
    let first = met(seq![], roots, roots.len() as int);
    WalkView {
        roots,
        seen: first,
        level: first,
        collected: seq![],
        failures: seq![],
        pkg_names: Map::empty(),
    }
}

/// A walk once a port could not be evaluated.
pub open spec fn failed_on(w: WalkView, origin: Seq<char>, why: Seq<char>) -> WalkView {
    WalkView {
        collected: w.collected.push(unread(origin)),
        failures: w.failures.push(FailureView { origin, why }),
        ..w
    }
}

/// A walk once a port has been answered about. A port whose second evaluation
/// failed is recorded as one whose first did.
pub open spec fn answered(
    w: WalkView,
    origin: Seq<char>,
    a: AnswerView,
    saved: SavedView,
) -> WalkView {
    match a.shipped {
        Err(e) => failed_on(w, origin, e),
        Ok(f) => match a.exact {
            Some(Err(e)) => failed_on(w, origin, e),
            Some(Ok(x)) => collected_as(w, origin, f, x.deps, saved),
            None => collected_as(w, origin, f, f.deps, saved),
        },
    }
}

/// A walk once a port has been collected: what it pulls in has been met.
pub open spec fn collected_as(
    w: WalkView,
    origin: Seq<char>,
    f: FactsView,
    deps: Seq<DepView>,
    saved: SavedView,
) -> WalkView {
    let c = learned(origin, f, deps, saved);
    let pulled = pulled_by(c);
    WalkView {
        seen: met(w.seen, pulled, pulled.len() as int),
        collected: w.collected.push(c),
        pkg_names: grow::with_package(w.pkg_names, origin, f.pkgname),
        ..w
    }
}

/// A walk once the first `n` ports of its level have been answered about.
pub open spec fn answered_upto(
    w: WalkView,
    answers: Seq<AnswerView>,
    saved: SavedView,
    n: int,
) -> WalkView
    decreases n,
{
    if n <= 0 {
        w
    } else {
        answered(answered_upto(w, answers, saved, n - 1), w.level[n - 1], answers[n - 1], saved)
    }
}

/// A walk one level on: the ports that were met for the first time come next.
pub open spec fn level_done(w: WalkView, answers: Seq<AnswerView>, saved: SavedView) -> WalkView {
    let x = answered_upto(w, answers, saved, w.level.len() as int);
    WalkView { level: x.seen.skip(w.seen.len() as int), ..x }
}

/// Texts that are met go behind those that were.
pub proof fn lemma_met(seen: Seq<Seq<char>>, more: Seq<Seq<char>>, n: int)
    requires
        n <= more.len(),
        seen.no_duplicates(),
    ensures
        met(seen, more, n).no_duplicates(),
        seen.len() <= met(seen, more, n).len(),
        met(seen, more, n).take(seen.len() as int) == seen,
        forall|i: int| 0 <= i < n ==> met(seen, more, n).contains(#[trigger] more[i]),
        forall|x: Seq<char>|
            seen.contains(x) ==> #[trigger] met(seen, more, n).contains(x),
    decreases n,
{
    if n <= 0 {
        assert(seen.take(seen.len() as int) =~= seen);
    } else {
        lemma_met(seen, more, n - 1);
        let s = met(seen, more, n - 1);
        let r = met(seen, more, n);
        let x = more[n - 1];
        if !s.contains(x) {
            assert(r.take(seen.len() as int) =~= s.take(seen.len() as int));
            assert forall|y: Seq<char>| s.contains(y) implies #[trigger] r.contains(y) by {
                let k = choose|k: int| 0 <= k < s.len() && s[k] == y;
                assert(r[k] == y);
            }
            assert(r[s.len() as int] == x);
            assert forall|i: int| 0 <= i < n implies r.contains(#[trigger] more[i]) by {
                if i < n - 1 {
                    assert(s.contains(more[i]));
                }
            }
        }
    }
}

/// Puts the texts that a list does not hold behind it.
pub fn meet(seen: &mut Vec<String>, more: &Vec<String>)
    ensures
        text::texts(final(seen)@) == met(
            text::texts(old(seen)@),
            text::texts(more@),
            more@.len() as int,
        ),
{
    broadcast use text::lemma_texts_push;

    let ghost base = text::texts(seen@);
    let ghost mv = text::texts(more@);
    let mut n: usize = 0;
    while n < more.len()
        invariant
            n <= more@.len(),
            mv == text::texts(more@),
            text::texts(seen@) == met(base, mv, n as int),
        decreases more@.len() - n,
    {
        proof {
            assert(mv[n as int] == more@[n as int]@);
        }
        if !holds(seen, more[n].as_str()) {
            seen.push(more[n].clone());
        }
        n += 1;
    }
}

/// What holds while a level is being answered: the ports met are those
/// collected, those of the level still to come, and those met since.
spec fn midway(w: WalkView, x: WalkView, n: int) -> bool {
    &&& x.seen.no_duplicates()
    &&& w.seen.len() <= x.seen.len()
    &&& x.seen.take(w.seen.len() as int) == w.seen
    &&& origins_of(x.collected) == origins_of(w.collected) + w.level.take(n)
    &&& x.roots == w.roots
    &&& x.level == w.level
    &&& forall|i: int| 0 <= i < x.collected.len() ==> all_met(#[trigger] x.collected[i], x.seen)
}

/// Answering about one port more keeps that.
proof fn lemma_midway(w: WalkView, answers: Seq<AnswerView>, saved: SavedView, n: int)
    requires
        walk_ok(w),
        0 <= n <= w.level.len(),
        n <= answers.len(),
    ensures
        midway(w, answered_upto(w, answers, saved, n), n),
    decreases n,
{
    if n <= 0 {
        assert(w.seen.take(w.seen.len() as int) =~= w.seen);
        assert(origins_of(w.collected) + w.level.take(0) =~= origins_of(w.collected));
    } else {
        lemma_midway(w, answers, saved, n - 1);
        let x = answered_upto(w, answers, saved, n - 1);
        let y = answered_upto(w, answers, saved, n);
        let origin = w.level[n - 1];
        let c = y.collected.last();
        assert(y.collected.drop_last() =~= x.collected);
        assert(origins_of(y.collected) =~= origins_of(x.collected).push(origin));
        assert(w.level.take(n) =~= w.level.take(n - 1).push(origin));
        assert(origins_of(y.collected) =~= origins_of(w.collected) + w.level.take(n));
        let pulled = pulled_by(c);
        let is_unread = c == unread(origin);
        if y.failures.len() > x.failures.len() {
            assert(y.seen == x.seen);
            assert forall|d: Seq<char>| #[trigger] pulled_by(unread(origin)).contains(d) implies y.seen.contains(
                d,
            ) by {
                let u = unread(origin);
                order::lemma_text_set(u.requires + applying_upto(u.deps, u.states, 0));
                assert(u.requires + applying_upto(u.deps, u.states, 0) =~= seq![]);
            }
            assert(all_met(c, y.seen));
        } else {
            lemma_met(x.seen, pulled, pulled.len() as int);
            assert(y.seen == met(x.seen, pulled, pulled.len() as int));
            assert forall|d: Seq<char>| #[trigger] pulled.contains(d) implies y.seen.contains(d) by {
                let k = choose|k: int| 0 <= k < pulled.len() && pulled[k] == d;
                assert(y.seen.contains(pulled[k]));
            }
            assert(all_met(c, y.seen));
            assert(y.seen.take(w.seen.len() as int) =~= y.seen.take(x.seen.len() as int).take(
                w.seen.len() as int,
            ));
        }
        assert forall|i: int| 0 <= i < y.collected.len() implies all_met(
            #[trigger] y.collected[i],
            y.seen,
        ) by {
            if i < x.collected.len() {
                assert(y.collected[i] == x.collected[i]);
                assert(all_met(x.collected[i], x.seen));
                assert forall|d: Seq<char>| #[trigger]
                    pulled_by(y.collected[i]).contains(d) implies y.seen.contains(d) by {
                    assert(x.seen.contains(d));
                }
            }
        }
    }
}

/// A walk one level on is as every walk is.
pub proof fn lemma_level_done(w: WalkView, answers: Seq<AnswerView>, saved: SavedView)
    requires
        walk_ok(w),
        answers.len() == w.level.len(),
    ensures
        walk_ok(level_done(w, answers, saved)),
        level_done(w, answers, saved).roots == w.roots,
{
    lemma_midway(w, answers, saved, w.level.len() as int);
    let x = answered_upto(w, answers, saved, w.level.len() as int);
    let y = level_done(w, answers, saved);
    assert(w.level.take(w.level.len() as int) =~= w.level);
    assert(origins_of(x.collected) == w.seen);
    assert(x.seen =~= x.seen.take(w.seen.len() as int) + x.seen.skip(w.seen.len() as int));
    assert forall|i: int| 0 <= i < y.roots.len() implies y.seen.contains(#[trigger] y.roots[i]) by {
        assert(w.seen.contains(w.roots[i]));
        let k = choose|k: int| 0 <= k < w.seen.len() && w.seen[k] == w.roots[i];
        assert(x.seen.take(w.seen.len() as int)[k] == x.seen[k]);
    }
}

/// Once there is nothing left to ask, a walk has collected every port that was
/// asked for and, with every port, all that it pulls in; each of them once.
pub proof fn walk_is_closed(w: WalkView)
    requires
        walk_ok(w),
        w.level.len() == 0,
    ensures
        origins_of(w.collected).no_duplicates(),
        forall|i: int|
            0 <= i < w.roots.len() ==> origins_of(w.collected).contains(#[trigger] w.roots[i]),
        forall|i: int, d: Seq<char>|
            0 <= i < w.collected.len() && #[trigger] pulled_by(w.collected[i]).contains(d)
                ==> origins_of(w.collected).contains(d),
{
    assert(w.seen =~= origins_of(w.collected));
    assert forall|i: int, d: Seq<char>|
        0 <= i < w.collected.len() && #[trigger] pulled_by(w.collected[i]).contains(
            d,
        ) implies origins_of(w.collected).contains(d) by {
        assert(all_met(w.collected[i], w.seen));
    }
}

impl Walk {
    /// A walk that sets out from these ports.
    pub fn start(roots: &Vec<String>) -> (r: Self)
        ensures
            r@ == set_out(text::texts(roots@)),
            walk_ok(r@),
    {
        let ghost rv = text::texts(roots@);
        let mut seen: Vec<String> = Vec::new();
        proof {
            assert(text::texts(seen@) =~= seq![]);
        }
        meet(&mut seen, roots);
        let level = text::copy_texts(&seen);
        let r = Walk {
            roots: text::copy_texts(roots),
            seen,
            level,
            collected: Vec::new(),
            failures: Vec::new(),
            pkg_names: StringHashMap::new(),
        };
        proof {
            lemma_met(seq![], rv, rv.len() as int);
            assert(r@.collected =~= seq![]);
            assert(r@.failures =~= seq![]);
            assert(r@.pkg_names =~= Map::empty());
            assert(origins_of(r@.collected) + r@.level =~= r@.level);
        }
        r
    }

    /// Whether there is nothing left to ask.
    pub fn is_done(&self) -> (r: bool)
        ensures
            r == (self@.level.len() == 0),
    {
        self.level.len() == 0
    }

    /// The questions of this level: every port of it, as it ships.
    pub fn questions(&self) -> (r: Vec<Question>)
        ensures
            order::views(r@) == Seq::new(
                self@.level.len(),
                |i: int| QuestionView { origin: self@.level[i], options: None },
            ),
    {
        broadcast use order::lemma_views_push;

        let ghost want = Seq::new(
            self@.level.len(),
            |i: int| QuestionView { origin: self@.level[i], options: None },
        );
        let mut out: Vec<Question> = Vec::new();
        let mut n: usize = 0;
        proof {
            assert(order::views(out@) =~= want.take(0));
        }
        while n < self.level.len()
            invariant
                n <= self.level@.len(),
                want == Seq::new(
                    self@.level.len(),
                    |i: int| QuestionView { origin: self@.level[i], options: None },
                ),
                order::views(out@) == want.take(n as int),
            decreases self.level@.len() - n,
        {
            out.push(Question { origin: self.level[n].clone(), options: Options::AsShipped });
            proof {
                assert(self@.level[n as int] == self.level@[n as int]@);
                assert(want.take(n + 1) =~= want.take(n as int).push(want[n as int]));
            }
            n += 1;
        }
        proof {
            assert(want.take(want.len() as int) =~= want);
        }
        out
    }

    fn fail(&mut self, origin: String, why: String)
        ensures
            final(self)@ == failed_on(old(self)@, origin@, why@),
    {
        broadcast use order::lemma_views_push;

        self.collected.push(Collected::unevaluated(origin.as_str()));
        self.failures.push(Failure { origin, why });
    }

    fn keep(&mut self, c: Collected, pkgname: &str)
        ensures
            ({
                let pulled = pulled_by(c@);
                final(self)@ == (WalkView {
                    seen: met(old(self)@.seen, pulled, pulled.len() as int),
                    collected: old(self)@.collected.push(c@),
                    pkg_names: grow::with_package(old(self)@.pkg_names, c@.origin, pkgname@),
                    ..old(self)@
                })
            }),
    {
        broadcast use order::lemma_views_push;

        let pulled = c.dependencies();
        proof {
            assert(text::texts(pulled@).len() == pulled@.len());
        }
        meet(&mut self.seen, &pulled);
        let t = text::trim(pkgname);
        if !t.as_str().is_empty() {
            let ghost before = self@.pkg_names;
            self.pkg_names.insert(c.origin.clone(), pkgname.to_owned());
            proof {
                assert(self@.pkg_names =~= before.insert(c@.origin, pkgname@));
            }
        }
        self.collected.push(c);
    }

    /// Takes the answers about this level, one for each port of it in order,
    /// and goes on to the next.
    pub fn advance(&mut self, answers: &Vec<Answer>, saved: &SystemOptions)
        requires
            walk_ok(old(self)@),
            answers@.len() == old(self)@.level.len(),
        ensures
            final(self)@ == level_done(old(self)@, order::views(answers@), saved@),
            walk_ok(final(self)@),
    {
        let ghost w = self@;
        let ghost av = order::views(answers@);
        let met_before: usize = self.seen.len();
        let count: usize = self.level.len();
        let mut n: usize = 0;
        while n < count
            invariant
                n <= count,
                count == w.level.len(),
                count == answers@.len(),
                av == order::views(answers@),
                met_before == w.seen.len(),
                walk_ok(w),
                self@ == answered_upto(w, av, saved@, n as int),
            decreases count - n,
        {
            proof {
                lemma_midway(w, av, saved@, n as int);
                assert(self@.level.len() == self.level@.len());
                assert(self@.level[n as int] == self.level@[n as int]@);
                assert(av[n as int] == answers@[n as int]@);
            }
            let origin = self.level[n].clone();
            match &answers[n].shipped {
                Err(e) => {
                    self.fail(origin, e.clone());
                },
                Ok(f) => match &answers[n].exact {
                    Some(Err(e)) => {
                        self.fail(origin, e.clone());
                    },
                    Some(Ok(x)) => {
                        let c = Collected::collect(origin.as_str(), f, Some(x), saved);
                        self.keep(c, f.pkgname.as_str());
                    },
                    None => {
                        let c = Collected::collect(origin.as_str(), f, None, saved);
                        self.keep(c, f.pkgname.as_str());
                    },
                },
            }
            n += 1;
        }
        proof {
            lemma_midway(w, av, saved@, count as int);
            lemma_level_done(w, av, saved@);
            assert(self@.seen.len() == self.seen@.len());
        }
        let mut level: Vec<String> = Vec::new();
        proof {
            assert(text::texts(level@) =~= seq![]);
        }
        crate::exporter::append_texts(&mut level, &self.seen, met_before);
        proof {
            assert(text::texts(level@) =~= self@.seen.skip(met_before as int));
        }
        self.level = level;
    }
}

/// What a collected port is added to the list as.
pub open spec fn seed_from(c: CollectedView, requested: bool) -> SeedView {
    let options = facts::listed_options(c.options);
    SeedView {
        origin: c.origin,
        provenance: if requested {
            Provenance::Requested
        } else {
            Provenance::Dependency
        },
        resolved: c.resolved,
        requires: c.requires,
        options,
        enabled: Seq::new(
            options.len(),
            |i: int| state_in(c.states, options[i].name, options[i].default_on),
        ),
        on: Seq::new(options.len(), |i: int| grow::option_deps(c.deps, options[i].name, false)),
        off: Seq::new(options.len(), |i: int| grow::option_deps(c.deps, options[i].name, true)),
    }
}

/// The first `n` of the collected ports in alphabetical order, as a graph.
pub open spec fn raised(title: Seq<char>, w: WalkView, n: int) -> GraphView
    decreases n,
{
    if n <= 0 {
        GraphView { pkg_names: w.pkg_names, ..grow::empty_graph(title) }
    } else {
        let c = w.collected[index::ranks(origins_of(w.collected))[n - 1] as int];
        grow::planted(raised(title, w, n - 1), seed_from(c, w.roots.contains(c.origin)))
    }
}

/// The graph that a walk ends in: one entry for each port, alphabetised, ready
/// to be shown.
pub open spec fn walked(title: Seq<char>, w: WalkView) -> GraphView {
    let g = raised(title, w, w.collected.len() as int);
    rows::rerowed(live::relive(index::reindexed(g)))
}

/// What a graph being raised is like.
spec fn raised_ok(title: Seq<char>, w: WalkView, n: int) -> bool {
    let g = raised(title, w, n);
    let r = index::ranks(origins_of(w.collected));
    &&& graph::shape_ok(g.ports, g.options)
    &&& graph::index_ok(g.ports, g.by_origin)
    &&& g.live.len() == g.ports.len()
    &&& g.ports.len() == n
    &&& g.groups == Seq::<super::GroupView>::empty()
    &&& forall|i: int|
        0 <= i < n ==> (#[trigger] g.ports[i]).origin == w.collected[r[i] as int].origin
}

/// The next port to be raised is not in the graph yet.
proof fn lemma_raised_fresh(title: Seq<char>, w: WalkView, n: int)
    requires
        raised_ok(title, w, n),
        0 <= n < w.collected.len() <= usize::MAX,
        origins_of(w.collected).no_duplicates(),
    ensures
        index::ranks(origins_of(w.collected))[n] < w.collected.len(),
        !raised(title, w, n).by_origin.contains_key(
            w.collected[index::ranks(origins_of(w.collected))[n] as int].origin,
        ),
{
    let o = origins_of(w.collected);
    let r = index::ranks(o);
    let g = raised(title, w, n);
    index::lemma_ranks(o);
    assert(r[n] < o.len());
    let origin = w.collected[r[n] as int].origin;
    if g.by_origin.contains_key(origin) {
        let i = g.by_origin[origin] as int;
        assert(g.ports[i].origin == origin);
        assert(r[i] < o.len());
        assert(o[r[i] as int] == o[r[n] as int]);
        assert(r[i] == r[n]);
        assert(false);
    }
}

impl Collected {
    fn seed(&self, requested: bool) -> (r: Seedling)
        ensures
            r@ == seed_from(self@, requested),
            grow::seed_ok(r@),
    {
        let ghost c = self@;
        let options = facts::list_options(&self.options);
        let ghost ov = facts::listed_options(c.options);
        let mut enabled: Vec<bool> = Vec::new();
        let mut on: Vec<Vec<String>> = Vec::new();
        let mut off: Vec<Vec<String>> = Vec::new();
        let mut n: usize = 0;
        while n < options.len()
            invariant
                n <= options@.len(),
                c == self@,
                ov == order::views(options@),
                enabled@.len() == n,
                on@.len() == n,
                off@.len() == n,
                forall|i: int|
                    0 <= i < n ==> #[trigger] enabled@[i] == state_in(
                        c.states,
                        ov[i].name,
                        ov[i].default_on,
                    ),
                forall|i: int|
                    0 <= i < n ==> text::texts(#[trigger] on@[i]@) == grow::option_deps(
                        c.deps,
                        ov[i].name,
                        false,
                    ),
                forall|i: int|
                    0 <= i < n ==> text::texts(#[trigger] off@[i]@) == grow::option_deps(
                        c.deps,
                        ov[i].name,
                        true,
                    ),
            decreases options@.len() - n,
        {
            proof {
                assert(ov[n as int] == options@[n as int]@);
            }
            let name = options[n].name.as_str();
            enabled.push(get_state_in(&self.states, name, options[n].default_on));
            on.push(find_option_deps(&self.deps, name, false));
            off.push(find_option_deps(&self.deps, name, true));
            n += 1;
        }
        let r = Seedling {
            origin: self.origin.clone(),
            provenance: if requested {
                Provenance::Requested
            } else {
                Provenance::Dependency
            },
            resolved: self.resolved,
            requires: text::copy_texts(&self.requires),
            options,
            enabled,
            on,
            off,
        };
        proof {
            let want = seed_from(c, requested);
            assert(r@.options == ov);
            assert(r@.enabled =~= want.enabled);
            assert(r@.on =~= want.on);
            assert(r@.off =~= want.off);
        }
        r
    }
}

impl Walk {
    /// Builds the graph once there is nothing left to ask.
    pub fn finish(self, title: &str) -> (r: DependencyGraph)
        requires
            walk_ok(self@),
            self@.level.len() == 0,
        ensures
            r@ == walked(title@, self@),
            r@.wf(),
    {
        broadcast use text::lemma_texts_push;

        let ghost w = self@;
        let ghost o = origins_of(w.collected);
        let ghost r = index::ranks(o);
        proof {
            walk_is_closed(w);
            assert(self.collected@.len() == w.collected.len());
            assert(self.collected.len() == w.collected.len());
            index::lemma_ranks(o);
        }
        let mut keys: Vec<String> = Vec::new();
        let mut i: usize = 0;
        proof {
            assert(text::texts(keys@) =~= o.take(0));
        }
        while i < self.collected.len()
            invariant
                i <= self.collected@.len(),
                w == self@,
                o == origins_of(w.collected),
                text::texts(keys@) == o.take(i as int),
            decreases self.collected@.len() - i,
        {
            proof {
                assert(w.collected[i as int] == self.collected@[i as int]@);
                assert(o.take(i + 1) =~= o.take(i as int).push(o[i as int]));
            }
            keys.push(self.collected[i].origin.clone());
            i += 1;
        }
        proof {
            assert(o.take(o.len() as int) =~= o);
        }
        let ranked = index::rank(&keys);
        let mut n: usize = 0;
        let count: usize = self.collected.len();
        let mut g = DependencyGraph {
            pkg_names: self.pkg_names,
            ..DependencyGraph::empty(title)
        };
        proof {
            assert(g@.groups =~= seq![]);
        }
        while n < count
            invariant
                n <= count,
                count == w.collected.len(),
                count == self.collected@.len(),
                o == origins_of(w.collected),
                o.no_duplicates(),
                r == index::ranks(o),
                r.len() == o.len(),
                ranked@ == r,
                w.collected == order::views(self.collected@),
                w.roots == text::texts(self.roots@),
                raised_ok(title@, w, n as int),
                g@ == raised(title@, w, n as int),
            decreases count - n,
        {
            proof {
                lemma_raised_fresh(title@, w, n as int);
                assert(w.collected[r[n as int] as int] == self.collected@[r[n as int] as int]@);
            }
            let c = &self.collected[ranked[n]];
            let seed = c.seed(holds(&self.roots, c.origin.as_str()));
            let ghost before = g@;
            g.plant(seed);
            proof {
                assert forall|i: int| 0 <= i < n + 1 implies (#[trigger] g@.ports[i]).origin
                    == w.collected[r[i] as int].origin by {
                    if i < n {
                        assert(g@.ports[i] == before.ports[i]);
                    }
                }
            }
            n += 1;
        }
        proof {
            rows::lemma_settled(g@);
        }
        g.settle_batch();
        g.rebuild_visible_rows();
        g
    }
}

} // verus!
