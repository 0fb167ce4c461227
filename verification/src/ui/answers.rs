//! Taking in what the tree answers while a session runs, and reporting a save.
use super::press;
use super::press::Session;
use super::{App, AppView};
use crate::facts::{FactsView, PortFacts};
use crate::graph;
use crate::graph::fold;
use crate::graph::grow;
use crate::graph::index;
use crate::graph::live;
use crate::graph::query;
use crate::graph::rows;
use crate::graph::walk;
use crate::graph::{DependencyGraph, GraphView, RowAnchor};
use crate::oracle;
use crate::oracle::{Options, Question, QuestionView};
use crate::order;
use crate::reader::{SavedView, SystemOptions};
use crate::text;
use vstd::prelude::*;

verus! {

/// The answer to one question.
#[derive(Debug)]
pub struct Reply {
    pub question: Question,
    pub answer: Result<PortFacts, String>,
}

/// What a `Reply` says.
pub struct ReplyView {
    pub question: QuestionView,
    pub answer: Result<FactsView, Seq<char>>,
}

impl View for Reply {
    type V = ReplyView;

    open spec fn view(&self) -> ReplyView {
        ReplyView { question: self.question@, answer: walk::outcome_view(self.answer) }
    }
}

/// A session into which answers are being folded, and the ports that arrived.
pub struct Merge {
    pub s: Session,
    pub arrived: Seq<Seq<char>>,
}

/// The questions that are pending once the first `n` of some ports have been
/// asked about as they ship. None is asked twice.
pub open spec fn chased_upto(
    pending: Seq<QuestionView>,
    unknown: Seq<Seq<char>>,
    n: int,
) -> Seq<QuestionView>
    decreases n,
{
    if n <= 0 {
        pending
    } else {
        oracle::with_question(
            chased_upto(pending, unknown, n - 1),
            QuestionView { origin: unknown[n - 1], options: None },
        )
    }
}

/// A session once a port's dependencies have been recorded: what the list has
/// never heard of is to be asked about.
pub open spec fn resolved(s: Session, origin: Seq<char>, f: FactsView) -> Session {
    let g = grow::told(s.g, origin, f);
    let unknown = grow::unknown_to(g, origin);
    Session {
        app: AppView {
            pending: chased_upto(s.app.pending, unknown, unknown.len() as int),
            ..s.app
        },
        g,
    }
}

/// A session in which a port has arrived: it is asked about again where the
/// options in force are not the ones it ships set.
pub open spec fn let_in(s: Session, origin: Seq<char>, f: FactsView, saved: SavedView) -> Session {
    let g = grow::added(s.g, f, saved);
    let set = query::option_set_of(g, grow::added_at(s.g, f));
    let shipped = walk::shipped_upto(f.options, f.options.len() as int);
    Session {
        app: AppView {
            pending: if order::text_sort(set) == order::text_sort(shipped) {
                s.app.pending
            } else {
                oracle::with_question(
                    s.app.pending,
                    QuestionView { origin, options: Some(set) },
                )
            },
            ..s.app
        },
        g,
    }
}

/// Whether an answer still describes a port of the list as it now stands. One
/// that was asked for as the port ships did its work when the port arrived.
pub open spec fn still_holds(g: GraphView, i: int, asked: Option<Seq<Seq<char>>>) -> bool {
    match asked {
        None => false,
        Some(set) => query::option_set_of(g, i) == set,
    }
}

/// One answer folded in. One that has been superseded is dropped: its
/// successor is already out.
pub open spec fn merged_one(m: Merge, r: ReplyView, saved: SavedView) -> Merge {
    let origin = r.question.origin;
    match r.answer {
        Err(e) => Merge {
            s: press::telling(m.s, "Could not resolve "@ + origin + ": "@ + e),
            ..m
        },
        Ok(f) => match graph::index_of(m.s.g, origin) {
            None => Merge {
                s: resolved(let_in(m.s, origin, f, saved), origin, f),
                arrived: m.arrived.push(origin),
            },
            Some(i) => if still_holds(m.s.g, i as int, r.question.options) {
                Merge { s: resolved(m.s, origin, f), ..m }
            } else {
                m
            },
        },
    }
}

/// The first `n` answers folded in.
pub open spec fn merged_upto(m: Merge, replies: Seq<ReplyView>, saved: SavedView, n: int) -> Merge
    decreases n,
{
    if n <= 0 {
        m
    } else {
        merged_one(merged_upto(m, replies, saved, n - 1), replies[n - 1], saved)
    }
}

/// A batch of answers folded in, and the list settled and redrawn.
pub open spec fn merged(s: Session, replies: Seq<ReplyView>, saved: SavedView) -> Merge {
    let m = merged_upto(Merge { s, arrived: seq![] }, replies, saved, replies.len() as int);
    Merge {
        s: Session { g: rows::rerowed(live::relive(index::reindexed(m.s.g))), ..m.s },
        ..m
    }
}

/// What is said of ports that arrived.
pub open spec fn arrival_note(arrived: Seq<Seq<char>>) -> Seq<char> {
    if arrived.len() == 1 {
        arrived[0] + " pulled in"@
    } else {
        arrived[0] + " and "@ + text::decimal_of((arrived.len() - 1) as nat)
            + " more pulled in"@
    }
}

/// A session once a batch of answers has come back.
pub open spec fn collected(s: Session, replies: Seq<ReplyView>, saved: SavedView) -> Session {
    let app = AppView {
        outstanding: press::less(s.app.outstanding as int, replies.len() as int) as usize,
        ..s.app
    };
    let anchor = match s.app.selected {
        Some(row) => fold::anchor_of(s.g, row as int),
        None => None,
    };
    let m = merged(Session { app, ..s }, replies, saved);
    let back = Session { app: press::restored(m.s.app, m.s.g, anchor), ..m.s };
    if m.arrived.len() == 0 {
        back
    } else {
        press::telling(back, arrival_note(m.arrived))
    }
}

/// Puts ports among the questions that are pending, as they ship.
fn chase(pending: &mut Vec<Question>, unknown: &Vec<String>)
    ensures
        order::views(final(pending)@) == chased_upto(
            order::views(old(pending)@),
            text::texts(unknown@),
            unknown@.len() as int,
        ),
{
    let ghost base = order::views(pending@);
    let ghost uv = text::texts(unknown@);
    let mut n: usize = 0;
    while n < unknown.len()
        invariant
            n <= unknown@.len(),
            uv == text::texts(unknown@),
            order::views(pending@) == chased_upto(base, uv, n as int),
        decreases unknown@.len() - n,
    {
        proof {
            assert(uv[n as int] == unknown@[n as int]@);
        }
        oracle::ask_once(
            pending,
            Question { origin: unknown[n].clone(), options: Options::AsShipped },
        );
        n += 1;
    }
}

/// The names of the options that a port ships set.
fn shipped_set(f: &PortFacts) -> (r: Vec<String>)
    ensures
        text::texts(r@) == walk::shipped_upto(f@.options, f@.options.len() as int),
{
    broadcast use text::lemma_texts_push;

    let ghost ov = order::views(f.options@);
    let mut out: Vec<String> = Vec::new();
    let mut n: usize = 0;
    proof {
        assert(text::texts(out@) =~= seq![]);
    }
    while n < f.options.len()
        invariant
            n <= f.options@.len(),
            ov == order::views(f.options@),
            text::texts(out@) == walk::shipped_upto(ov, n as int),
        decreases f.options@.len() - n,
    {
        proof {
            assert(ov[n as int] == f.options@[n as int]@);
        }
        if f.options[n].default_on {
            out.push(f.options[n].name.clone());
        }
        n += 1;
    }
    proof {
        assert(ov.len() == f.options@.len());
    }
    out
}

/// What folding answers in keeps of a graph.
spec fn growing(a: GraphView, b: GraphView) -> bool {
    &&& graph::shape_ok(a.ports, a.options)
    &&& graph::index_ok(a.ports, a.by_origin)
    &&& a.groups == b.groups
    &&& a.options.len() >= b.options.len()
}

impl App {
    fn let_in(
        &mut self,
        graph: &mut DependencyGraph,
        origin: &str,
        f: &PortFacts,
        sys_opts: &SystemOptions,
    )
        requires
            graph::shape_ok(old(graph)@.ports, old(graph)@.options),
            graph::index_ok(old(graph)@.ports, old(graph)@.by_origin),
        ensures
            ({
                let s = let_in(
                    Session { app: old(self)@, g: old(graph)@ },
                    origin@,
                    f@,
                    sys_opts@,
                );
                final(self)@ == s.app && final(graph)@ == s.g
            }),
            growing(final(graph)@, old(graph)@),
    {
        let id = graph.add_port(f, sys_opts);
        let in_force = graph.option_set(id);
        let shipped = shipped_set(f);
        if !text::same_texts(&order::sorted_texts(&in_force), &order::sorted_texts(&shipped)) {
            oracle::ask_once(
                &mut self.pending,
                Question { origin: origin.to_owned(), options: Options::Exactly(in_force) },
            );
        }
    }

    fn resolve(&mut self, graph: &mut DependencyGraph, origin: &str, f: &PortFacts)
        requires
            graph::shape_ok(old(graph)@.ports, old(graph)@.options),
            graph::index_ok(old(graph)@.ports, old(graph)@.by_origin),
        ensures
            ({
                let s = resolved(Session { app: old(self)@, g: old(graph)@ }, origin@, f@);
                final(self)@ == s.app && final(graph)@ == s.g
            }),
            growing(final(graph)@, old(graph)@),
    {
        let unknown = graph.apply_resolution(origin, f);
        proof {
            assert(text::texts(unknown@).len() == unknown@.len());
        }
        chase(&mut self.pending, &unknown);
    }

    /// Folds one batch of answers into the graph, and reports which ports
    /// arrived.
    ///
    /// A port that an answer mentions and the graph has never seen is asked
    /// about in turn, so that a dependency three levels down still arrives. An
    /// answer is folded in only if it still describes the port as it now
    /// stands.
    pub fn merge(
        &mut self,
        graph: &mut DependencyGraph,
        sys_opts: &SystemOptions,
        replies: &Vec<Reply>,
    ) -> (r: Vec<String>)
        requires
            old(graph)@.wf(),
        ensures
            ({
                let m = merged(
                    Session { app: old(self)@, g: old(graph)@ },
                    order::views(replies@),
                    sys_opts@,
                );
                final(self)@ == m.s.app && final(graph)@ == m.s.g && text::texts(r@) == m.arrived
            }),
            final(graph)@.wf(),
            final(graph)@.options.len() >= old(graph)@.options.len(),
    {
        broadcast use text::lemma_texts_push;

        let ghost g0 = graph@;
        let ghost m0 = Merge { s: Session { app: self@, g: graph@ }, arrived: seq![] };
        let ghost rv = order::views(replies@);
        let mut arrived: Vec<String> = Vec::new();
        let mut n: usize = 0;
        proof {
            assert(text::texts(arrived@) =~= seq![]);
        }
        while n < replies.len()
            invariant
                n <= replies@.len(),
                rv == order::views(replies@),
                growing(graph@, g0),
                ({
                    let m = merged_upto(m0, rv, sys_opts@, n as int);
                    self@ == m.s.app && graph@ == m.s.g && text::texts(arrived@) == m.arrived
                }),
            decreases replies@.len() - n,
        {
            let ghost m = merged_upto(m0, rv, sys_opts@, n as int);
            proof {
                assert(rv[n as int] == replies@[n as int]@);
            }
            let origin = replies[n].question.origin.as_str();
            match &replies[n].answer {
                Err(e) => {
                    let mut t = text::concat3("Could not resolve ", origin, ": ");
                    t.append(e.as_str());
                    self.status_msg = t;
                },
                Ok(f) => match graph.port_index(origin) {
                    None => {
                        arrived.push(origin.to_owned());
                        self.let_in(graph, origin, f, sys_opts);
                        self.resolve(graph, origin, f);
                    },
                    Some(id) => {
                        let holds = match &replies[n].question.options {
                            Options::AsShipped => false,
                            Options::Exactly(set) => text::same_texts(&graph.option_set(id), set),
                        };
                        if holds {
                            self.resolve(graph, origin, f);
                        }
                    },
                },
            }
            n += 1;
        }
        proof {
            assert(rv.len() == replies@.len());
            assert(graph.ports.len() == graph@.ports.len());
            rows::lemma_settled(graph@);
            index::lemma_reindexed_ok(graph@);
        }
        graph.settle_batch();
        graph.rebuild_visible_rows();
        arrived
    }

    /// Takes a batch of answers in: folds it into the graph, keeps the cursor
    /// on its row, and says what arrived.
    pub fn collect(
        &mut self,
        graph: &mut DependencyGraph,
        sys_opts: &SystemOptions,
        replies: &Vec<Reply>,
    )
        requires
            old(graph)@.wf(),
        ensures
            ({
                let s = collected(
                    Session { app: old(self)@, g: old(graph)@ },
                    order::views(replies@),
                    sys_opts@,
                );
                final(self)@ == s.app && final(graph)@ == s.g
            }),
            final(graph)@.wf(),
    {
        let ghost g0 = graph@;
        proof {
            assert(order::views(replies@).len() == replies@.len());
        }
        self.outstanding = if self.outstanding < replies.len() {
            0
        } else {
            self.outstanding - replies.len()
        };
        let anchor = match self.selected {
            Some(row) => {
                proof {
                    if row < g0.rows.len() {
                        assert(graph::row_ok(
                            g0.rows[row as int],
                            g0.ports.len(),
                            g0.options.len(),
                        ));
                    }
                }
                graph.anchor_at(row)
            },
            None => None,
        };
        let arrived = self.merge(graph, sys_opts, replies);
        self.restore_anchor(graph, anchor);
        proof {
            assert(text::texts(arrived@).len() == arrived@.len());
        }
        if arrived.len() == 0 {
            return;
        }
        proof {
            assert(text::texts(arrived@)[0] == arrived@[0]@);
        }
        if arrived.len() == 1 {
            self.status_msg = text::concat2(arrived[0].as_str(), " pulled in");
        } else {
            let mut t = text::concat3(
                arrived[0].as_str(),
                " and ",
                text::decimal(arrived.len() - 1).as_str(),
            );
            t.append(" more pulled in");
            self.status_msg = t;
        }
    }

    /// The questions to post, which are then no longer pending.
    pub fn take_pending(&mut self) -> (r: Vec<Question>)
        ensures
            order::views(r@) == old(self)@.pending,
            final(self)@ == (AppView { pending: seq![], ..old(self)@ }),
    {
        let mut batch: Vec<Question> = Vec::new();
        core::mem::swap(&mut batch, &mut self.pending);
        proof {
            assert(self@.pending =~= seq![]);
        }
        batch
    }

    /// Notes that questions have been posted.
    pub fn note_posted(&mut self, posted: usize)
        ensures
            final(self)@ == (AppView {
                outstanding: if old(self)@.outstanding + posted <= usize::MAX {
                    (old(self)@.outstanding + posted) as usize
                } else {
                    usize::MAX
                },
                ..old(self)@
            }),
    {
        self.outstanding = if self.outstanding <= usize::MAX - posted {
            self.outstanding + posted
        } else {
            usize::MAX
        };
    }

    /// Notes that there is nobody left to answer. Questions that are out will
    /// never be answered, so the count is zeroed, and pending ones are dropped.
    pub fn mark_resolver_dead(&mut self)
        ensures
            final(self)@ == (AppView {
                resolver_dead: true,
                outstanding: 0,
                pending: seq![],
                important: Some(
                    "resolver died; new dependencies will not appear, but Ctrl+S still settles and saves"@,
                ),
                ..old(self)@
            }),
    {
        self.resolver_dead = true;
        self.outstanding = 0;
        self.pending = Vec::new();
        self.important_msg = Some(
            "resolver died; new dependencies will not appear, but Ctrl+S still settles and saves".to_owned(),
        );
        proof {
            assert(self@.pending =~= seq![]);
        }
    }

    /// Reports a save. Before it the graph was settled, where there was
    /// somebody to ask: `settled` holds how many ports arrived and how many
    /// could not be re-asked. The outcome goes where the "resolving" note does
    /// not hide it.
    pub fn perform_save(
        &mut self,
        graph: &DependencyGraph,
        anchor: Option<RowAnchor>,
        settled: Option<(usize, usize)>,
        saved: Option<Result<String, String>>,
    )
        requires
            anchor is Some ==> fold::anchor_ok(graph@, anchor->0),
        ensures
            final(self)@ == save_reported(
                Session { app: old(self)@, g: graph@ },
                anchor,
                settled,
                saved_view(saved),
            ),
    {
        let mut message = match saved {
            None => "Nowhere to save to".to_owned(),
            Some(Ok(what)) => what,
            Some(Err(e)) => text::concat2("Could not save: ", e.as_str()),
        };
        if let Some((arrived, failed)) = settled {
            self.restore_anchor(graph, anchor);
            if arrived > 0 {
                message.append("; ");
                message.append(text::decimal(arrived).as_str());
                message.append(" port(s) pulled in");
            }
            if failed > 0 {
                message.append("; ");
                message.append(text::decimal(failed).as_str());
                message.append(" port(s) could not be re-evaluated");
            }
        }
        self.important_msg = Some(message);
    }
}

/// How a save went.
pub open spec fn saved_view(saved: Option<Result<String, String>>) -> Option<
    Result<Seq<char>, Seq<char>>,
> {
    match saved {
        None => None,
        Some(Ok(what)) => Some(Ok(what@)),
        Some(Err(e)) => Some(Err(e@)),
    }
}

/// What is said of a save.
pub open spec fn save_note(
    settled: Option<(usize, usize)>,
    saved: Option<Result<Seq<char>, Seq<char>>>,
) -> Seq<char> {
    let base = match saved {
        None => "Nowhere to save to"@,
        Some(Ok(what)) => what,
        Some(Err(e)) => "Could not save: "@ + e,
    };
    match settled {
        None => base,
        Some((arrived, failed)) => {
            let more = if arrived > 0 {
                base + "; "@ + text::decimal_of(arrived as nat) + " port(s) pulled in"@
            } else {
                base
            };
            if failed > 0 {
                more + "; "@ + text::decimal_of(failed as nat)
                    + " port(s) could not be re-evaluated"@
            } else {
                more
            }
        },
    }
}

/// The interface once a save has been reported: where the graph was settled,
/// the cursor is back on its row.
pub open spec fn save_reported(
    s: Session,
    anchor: Option<RowAnchor>,
    settled: Option<(usize, usize)>,
    saved: Option<Result<Seq<char>, Seq<char>>>,
) -> AppView {
    let app = if settled is Some {
        press::restored(s.app, s.g, anchor)
    } else {
        s.app
    };
    AppView { important: Some(save_note(settled, saved)), ..app }
}

} // verus!
