//! Bringing the list into agreement with the tree after options have changed:
//! every port that was touched is asked about again, and whatever the answers
//! bring in is asked about too, until nothing new turns up.
use super::fold;
use super::grow;
use super::index;
use super::live;
use super::query;
use super::rows;
use super::walk;
use super::walk::{Failure, FailureView};
use super::{DependencyGraph, GraphView, PortView};
use crate::facts::{FactsView, OptionFactsView, PortFacts};
use crate::graph;
use crate::oracle::{Options, Question, QuestionView};
use crate::order;
use crate::reader;
use crate::reader::{SavedView, SystemOptions};
use crate::text;
use crate::text::holds;
use vstd::prelude::*;

verus! {

/// What a resettle did: which ports arrived, and which could not be re-asked.
#[derive(Debug)]
pub struct ResettleOutcome {
    /// Ports that were not in the build until the resettle ran.
    pub arrived: Vec<String>,
    /// Ports whose re-evaluation failed, with the reason. Their entries are
    /// marked unevaluated rather than left silently holding stale dependencies.
    pub failed: Vec<Failure>,
}

/// What a `ResettleOutcome` says.
pub struct OutcomeView {
    pub arrived: Seq<Seq<char>>,
    pub failed: Seq<FailureView>,
}

impl View for ResettleOutcome {
    type V = OutcomeView;

    open spec fn view(&self) -> OutcomeView {
        OutcomeView { arrived: text::texts(self.arrived@), failed: order::views(self.failed@) }
    }
}

impl Default for ResettleOutcome {
    fn default() -> (r: Self)
        ensures
            r@ == nothing_done(),
    {
        let r = ResettleOutcome { arrived: Vec::new(), failed: Vec::new() };
        proof {
            assert(r@.arrived =~= seq![]);
            assert(r@.failed =~= seq![]);
        }
        r
    }
}

/// The outcome before anything was done.
pub open spec fn nothing_done() -> OutcomeView {
    OutcomeView { arrived: seq![], failed: seq![] }
}

/// A resettle under way: what is being asked, what has been, and what came of
/// it so far.
#[derive(Debug)]
pub struct Settling {
    pub asking: Vec<Question>,
    pub asked: Vec<String>,
    pub outcome: ResettleOutcome,
}

/// What a `Settling` says.
pub struct SettlingView {
    pub asking: Seq<QuestionView>,
    pub asked: Seq<Seq<char>>,
    pub outcome: OutcomeView,
}

impl View for Settling {
    type V = SettlingView;

    open spec fn view(&self) -> SettlingView {
        SettlingView {
            asking: order::views(self.asking@),
            asked: text::texts(self.asked@),
            outcome: self.outcome@,
        }
    }
}

/// The questions about the first `n` of some ports under the options now set,
/// leaving out those that are not in the list.
pub open spec fn questions_upto(g: GraphView, origins: Seq<Seq<char>>, n: int) -> Seq<QuestionView>
    decreases n,
{
    if n <= 0 {
        seq![]
    } else {
        let rest = questions_upto(g, origins, n - 1);
        match graph::index_of(g, origins[n - 1]) {
            None => rest,
            Some(i) => rest.push(
                QuestionView {
                    origin: origins[n - 1],
                    options: Some(query::option_set_of(g, i as int)),
                },
            ),
        }
    }
}

/// The ports that questions are about.
pub open spec fn asked_about(asking: Seq<QuestionView>) -> Seq<Seq<char>> {
    Seq::new(asking.len(), |i: int| asking[i].origin)
}

/// A graph in which a port is marked as one that could not be evaluated.
pub open spec fn marked_unread(g: GraphView, origin: Seq<char>) -> GraphView {
    match graph::index_of(g, origin) {
        None => g,
        Some(i) => GraphView {
            ports: g.ports.update(i as int, PortView { resolved: false, ..g.ports[i as int] }),
            ..g
        },
    }
}

/// The names of those of the first `n` options that are set, by what the user
/// has saved laid over what the port ships.
pub open spec fn saved_set_upto(
    origin: Seq<char>,
    options: Seq<OptionFactsView>,
    saved: SavedView,
    n: int,
) -> Seq<Seq<char>>
    decreases n,
{
    if n <= 0 {
        seq![]
    } else {
        let o = options[n - 1];
        let rest = saved_set_upto(origin, options, saved, n - 1);
        if reader::state_of(saved, origin, o.name, o.default_on) {
            rest.push(o.name)
        } else {
            rest
        }
    }
}

/// The options that a port which has just arrived has to be asked about again
/// under: those in force, where they are not the ones it ships set.
pub open spec fn arrival_ask(f: FactsView, saved: SavedView) -> Option<Seq<Seq<char>>> {
    let set = saved_set_upto(f.origin, f.options, saved, f.options.len() as int);
    if set == walk::shipped_upto(f.options, f.options.len() as int) {
        None
    } else {
        Some(set)
    }
}

/// The state of one round: the graph, what is to be asked next, and so on.
pub struct Round {
    pub g: GraphView,
    pub next: Seq<QuestionView>,
    pub asked: Seq<Seq<char>>,
    pub outcome: OutcomeView,
}

/// A round with the first `n` of some ports to be asked about next as they
/// ship, unless they have been asked about.
pub open spec fn chased(x: Round, unknown: Seq<Seq<char>>, n: int) -> Round
    decreases n,
{
    if n <= 0 {
        x
    } else {
        let y = chased(x, unknown, n - 1);
        let o = unknown[n - 1];
        if y.asked.contains(o) {
            y
        } else {
            Round {
                asked: y.asked.push(o),
                next: y.next.push(QuestionView { origin: o, options: None }),
                ..y
            }
        }
    }
}

/// A round in which a port has arrived, if it is not in the list.
pub open spec fn let_in(x: Round, origin: Seq<char>, f: FactsView, saved: SavedView) -> Round {
    if x.g.by_origin.contains_key(origin) {
        x
    } else {
        Round {
            g: grow::added(x.g, f, saved),
            outcome: OutcomeView {
                arrived: x.outcome.arrived.push(origin),
                failed: x.outcome.failed,
            },
            next: match arrival_ask(f, saved) {
                Some(set) => x.next.push(QuestionView { origin, options: Some(set) }),
                None => x.next,
            },
            ..x
        }
    }
}

/// A round once one question has been answered.
pub open spec fn answered(
    x: Round,
    origin: Seq<char>,
    answer: Result<FactsView, Seq<char>>,
    saved: SavedView,
) -> Round {
    match answer {
        Err(why) => Round {
            g: marked_unread(x.g, origin),
            outcome: OutcomeView {
                arrived: x.outcome.arrived,
                failed: x.outcome.failed.push(FailureView { origin, why }),
            },
            ..x
        },
        Ok(f) => {
            let y = let_in(x, origin, f, saved);
            let z = Round { g: grow::told(y.g, origin, f), ..y };
            let unknown = grow::unknown_to(z.g, origin);
            chased(z, unknown, unknown.len() as int)
        },
    }
}

/// A round once the first `n` questions have been answered.
pub open spec fn answered_upto(
    x: Round,
    asking: Seq<QuestionView>,
    answers: Seq<Result<FactsView, Seq<char>>>,
    saved: SavedView,
    n: int,
) -> Round
    decreases n,
{
    if n <= 0 {
        x
    } else {
        answered(
            answered_upto(x, asking, answers, saved, n - 1),
            asking[n - 1].origin,
            answers[n - 1],
            saved,
        )
    }
}

/// A round as it begins.
pub open spec fn begun(g: GraphView, s: SettlingView) -> Round {
    let about = asked_about(s.asking);
    Round {
        g,
        next: seq![],
        asked: walk::met(s.asked, about, about.len() as int),
        outcome: s.outcome,
    }
}

/// A round once every question has been answered and the graph has been
/// settled.
pub open spec fn round_done(
    g: GraphView,
    s: SettlingView,
    answers: Seq<Result<FactsView, Seq<char>>>,
    saved: SavedView,
) -> Round {
    let x = answered_upto(begun(g, s), s.asking, answers, saved, s.asking.len() as int);
    Round { g: live::relive(index::reindexed(x.g)), ..x }
}

/// What evaluations came to.
pub open spec fn outcomes(answers: Seq<Result<PortFacts, String>>) -> Seq<
    Result<FactsView, Seq<char>>,
> {
    Seq::new(answers.len(), |i: int| walk::outcome_view(answers[i]))
}

/// The options that a port which has just arrived has to be asked about again
/// under.
///
/// A port arrives evaluated as it ships, but its options are set the way the
/// user has saved them. A dependency that exists only under those is found only
/// by asking under them.
pub fn arrival_question(f: &PortFacts, saved: &SystemOptions) -> (r: Option<Vec<String>>)
    ensures
        match r {
            Some(set) => arrival_ask(f@, saved@) == Some(text::texts(set@)),
            None => arrival_ask(f@, saved@) is None,
        },
{
    broadcast use text::lemma_texts_push;

    let ghost ov = order::views(f.options@);
    let mut set: Vec<String> = Vec::new();
    let mut shipped: Vec<String> = Vec::new();
    let mut n: usize = 0;
    proof {
        assert(text::texts(set@) =~= seq![]);
        assert(text::texts(shipped@) =~= seq![]);
    }
    while n < f.options.len()
        invariant
            n <= f.options@.len(),
            ov == order::views(f.options@),
            text::texts(set@) == saved_set_upto(f.origin@, ov, saved@, n as int),
            text::texts(shipped@) == walk::shipped_upto(ov, n as int),
        decreases f.options@.len() - n,
    {
        proof {
            assert(ov[n as int] == f.options@[n as int]@);
        }
        let o = &f.options[n];
        if saved.get_state(f.origin.as_str(), o.name.as_str(), o.default_on) {
            set.push(o.name.clone());
        }
        if o.default_on {
            shipped.push(o.name.clone());
        }
        n += 1;
    }
    proof {
        assert(ov.len() == f.options@.len());
    }
    if text::same_texts(&set, &shipped) {
        None
    } else {
        Some(set)
    }
}

/// Puts ports on a list to be asked about as they ship, unless they have been.
fn chase(next: &mut Vec<Question>, asked: &mut Vec<String>, unknown: Vec<String>, Ghost(x): Ghost<Round>)
    requires
        x.next == order::views(old(next)@),
        x.asked == text::texts(old(asked)@),
    ensures
        chased(x, text::texts(unknown@), unknown@.len() as int) == (Round {
            next: order::views(final(next)@),
            asked: text::texts(final(asked)@),
            ..x
        }),
{
    broadcast use {text::lemma_texts_push, order::lemma_views_push};

    let ghost uv = text::texts(unknown@);
    let mut n: usize = 0;
    while n < unknown.len()
        invariant
            n <= unknown@.len(),
            uv == text::texts(unknown@),
            chased(x, uv, n as int) == (Round {
                next: order::views(next@),
                asked: text::texts(asked@),
                ..x
            }),
        decreases unknown@.len() - n,
    {
        proof {
            assert(uv[n as int] == unknown@[n as int]@);
        }
        let ghost y = chased(x, uv, n as int);
        if !holds(asked, unknown[n].as_str()) {
            asked.push(unknown[n].clone());
            next.push(Question { origin: unknown[n].clone(), options: Options::AsShipped });
            proof {
                let q = QuestionView { origin: uv[n as int], options: None };
                assert(text::texts(asked@) == y.asked.push(uv[n as int]));
                assert(order::views(next@) == y.next.push(q));
            }
        }
        proof {
            let z = chased(x, uv, n + 1);
            assert(z.next == order::views(next@));
            assert(z.asked == text::texts(asked@));
        }
        n += 1;
    }
}

/// What a round keeps of its graph.
spec fn growing(a: GraphView, b: GraphView) -> bool {
    &&& graph::shape_ok(a.ports, a.options)
    &&& graph::index_ok(a.ports, a.by_origin)
    &&& a.live.len() == a.ports.len()
    &&& a.groups == b.groups
}

impl DependencyGraph {
    /// Marks a port as one that could not be evaluated.
    pub fn mark_unread(&mut self, origin: &str)
        requires
            graph::shape_ok(old(self)@.ports, old(self)@.options),
            graph::index_ok(old(self)@.ports, old(self)@.by_origin),
        ensures
            final(self)@ == marked_unread(old(self)@, origin@),
            graph::shape_ok(final(self)@.ports, final(self)@.options),
            graph::index_ok(final(self)@.ports, final(self)@.by_origin),
    {
        let ghost g = self@;
        if let Some(id) = self.port_index(origin) {
            proof {
                assert(g.ports.len() == self.ports@.len());
                assert(g.ports[id as int] == self.ports@[id as int]@);
            }
            self.ports[id].resolved = false;
            proof {
                assert(self@.ports =~= marked_unread(g, origin@).ports);
                assert(fold::ports_alike(self@.ports, g.ports));
                assert(fold::options_alike(self@.options, g.options));
                fold::lemma_alike_shape(self@, g);
            }
        }
    }

    /// Sets out to ask the tree about some ports under the options now set.
    pub fn begin_resettle(&self, origins: &Vec<String>) -> (r: Settling)
        requires
            graph::shape_ok(self@.ports, self@.options),
            graph::index_ok(self@.ports, self@.by_origin),
        ensures
            r@ == (SettlingView {
                asking: questions_upto(self@, text::texts(origins@), origins@.len() as int),
                asked: seq![],
                outcome: nothing_done(),
            }),
    {
        broadcast use order::lemma_views_push;

        let ghost ov = text::texts(origins@);
        let mut asking: Vec<Question> = Vec::new();
        let mut n: usize = 0;
        proof {
            assert(order::views(asking@) =~= seq![]);
        }
        while n < origins.len()
            invariant
                n <= origins@.len(),
                ov == text::texts(origins@),
                graph::shape_ok(self@.ports, self@.options),
                graph::index_ok(self@.ports, self@.by_origin),
                order::views(asking@) == questions_upto(self@, ov, n as int),
            decreases origins@.len() - n,
        {
            proof {
                assert(ov[n as int] == origins@[n as int]@);
            }
            if let Some(id) = self.port_index(origins[n].as_str()) {
                asking.push(
                    Question {
                        origin: origins[n].clone(),
                        options: Options::Exactly(self.option_set(id)),
                    },
                );
            }
            n += 1;
        }
        let r = Settling { asking, asked: Vec::new(), outcome: ResettleOutcome::default() };
        proof {
            assert(r@.asked =~= seq![]);
        }
        r
    }

    /// Folds the answers to one round of questions in, one for each question in
    /// order, and settles the graph.
    ///
    /// An answer that failed is recorded, not swallowed: the port is marked
    /// unevaluated, so the list says so, rather than showing dependencies that
    /// may have moved on. A port that arrives has its options set the way the
    /// user has saved them.
    pub fn resettle(
        &mut self,
        s: &mut Settling,
        answers: &Vec<Result<PortFacts, String>>,
        sys_opts: &SystemOptions,
    )
        requires
            rows::drawable(old(self)@),
            answers@.len() == old(s)@.asking.len(),
        ensures
            ({
                let done = round_done(old(self)@, old(s)@, outcomes(answers@), sys_opts@);
                &&& final(self)@ == done.g
                &&& final(s)@ == (SettlingView {
                    asking: done.next,
                    asked: done.asked,
                    outcome: done.outcome,
                })
            }),
            rows::drawable(final(self)@),
            final(self)@.groups == old(self)@.groups,
    {
        broadcast use {text::lemma_texts_push, order::lemma_views_push};

        let ghost g = self@;
        let ghost sv = s@;
        let ghost av = outcomes(answers@);
        let ghost about = asked_about(sv.asking);
        let ghost x0 = begun(g, sv);
        let count: usize = s.asking.len();
        let mut n: usize = 0;
        while n < count
            invariant
                n <= count,
                count == s.asking@.len(),
                sv.asking == order::views(s.asking@),
                about == asked_about(sv.asking),
                s.outcome@ == sv.outcome,
                text::texts(s.asked@) == walk::met(sv.asked, about, n as int),
            decreases count - n,
        {
            proof {
                assert(sv.asking[n as int] == s.asking@[n as int]@);
            }
            if !holds(&s.asked, s.asking[n].origin.as_str()) {
                let origin = s.asking[n].origin.clone();
                s.asked.push(origin);
            }
            n += 1;
        }
        let mut next: Vec<Question> = Vec::new();
        proof {
            assert(order::views(next@) =~= seq![]);
        }
        n = 0;
        while n < count
            invariant
                n <= count,
                count == s.asking@.len(),
                count == answers@.len(),
                sv.asking == order::views(s.asking@),
                av == outcomes(answers@),
                growing(self@, g),
                answered_upto(x0, sv.asking, av, sys_opts@, n as int) == (Round {
                    g: self@,
                    next: order::views(next@),
                    asked: text::texts(s.asked@),
                    outcome: s.outcome@,
                }),
            decreases count - n,
        {
            let ghost x = answered_upto(x0, sv.asking, av, sys_opts@, n as int);
            proof {
                assert(sv.asking[n as int] == s.asking@[n as int]@);
                assert(av[n as int] == walk::outcome_view(answers@[n as int]));
            }
            let origin = s.asking[n].origin.clone();
            match &answers[n] {
                Err(e) => {
                    self.mark_unread(origin.as_str());
                    s.outcome.failed.push(Failure { origin, why: e.clone() });
                    proof {
                        let y = answered(x, sv.asking[n as int].origin, av[n as int], sys_opts@);
                        let last = FailureView { origin: sv.asking[n as int].origin, why: e@ };
                        assert(s.outcome@.failed == x.outcome.failed.push(last));
                        assert(s.outcome@ == y.outcome);
                    }
                },
                Ok(f) => {
                    let known = self.port_index(origin.as_str()).is_some();
                    if !known {
                        self.add_port(f, sys_opts);
                        s.outcome.arrived.push(origin.clone());
                        proof {
                            assert(s.outcome@.arrived == x.outcome.arrived.push(origin@));
                        }
                        if let Some(set) = arrival_question(f, sys_opts) {
                            next.push(
                                Question {
                                    origin: origin.clone(),
                                    options: Options::Exactly(set),
                                },
                            );
                            proof {
                                let q = QuestionView {
                                    origin: origin@,
                                    options: Some(text::texts(set@)),
                                };
                                assert(order::views(next@) == x.next.push(q));
                            }
                        }
                    }
                    proof {
                        let y = let_in(x, origin@, f@, sys_opts@);
                        assert(y.g == self@);
                        assert(y.next == order::views(next@));
                        assert(y.outcome.arrived == s.outcome@.arrived);
                        assert(y.outcome.failed == s.outcome@.failed);
                        assert(y.outcome == s.outcome@);
                        assert(y.asked == text::texts(s.asked@));
                        assert(y == (Round {
                            g: self@,
                            next: order::views(next@),
                            asked: text::texts(s.asked@),
                            outcome: s.outcome@,
                        }));
                    }
                    let unknown = self.apply_resolution(origin.as_str(), f);
                    let ghost z = Round {
                        g: self@,
                        next: order::views(next@),
                        asked: text::texts(s.asked@),
                        outcome: s.outcome@,
                    };
                    chase(&mut next, &mut s.asked, unknown, Ghost(z));
                },
            }
            n += 1;
        }
        proof {
            assert(self.ports.len() == self@.ports.len());
            rows::lemma_settled(self@);
        }
        self.settle_batch();
        s.asking = next;
    }
}

} // verus!
