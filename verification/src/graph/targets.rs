//! Which ports a list starts from: the patterns that were given, matched
//! against the tree, and what is said when they match nothing.
use super::fold;
use super::grow;
use super::index;
use super::live;
use super::rows;
use super::walk;
use super::walk::Failure;
use super::{DependencyGraph, GraphView, PortView, Provenance};
use crate::facts::{FactsView, PortFacts};
use crate::glob;
use crate::glob::{glob_matches, is_glob};
use crate::graph;
use crate::order;
use crate::reader::{SavedView, SystemOptions};
use crate::text;
use vstd::prelude::*;

verus! {

/// The ports that patterns name.
#[derive(Debug, PartialEq, Eq)]
pub struct Targets {
    /// Alphabetised, each once.
    pub origins: Vec<String>,
    /// What the list is headed by.
    pub title: String,
    /// Patterns that matched nothing.
    pub unmatched: Vec<String>,
}

/// What a `Targets` says.
pub struct TargetsView {
    pub origins: Seq<Seq<char>>,
    pub title: Seq<char>,
    pub unmatched: Seq<Seq<char>>,
}

impl View for Targets {
    type V = TargetsView;

    open spec fn view(&self) -> TargetsView {
        TargetsView {
            origins: text::texts(self.origins@),
            title: self.title@,
            unmatched: text::texts(self.unmatched@),
        }
    }
}

/// Why there is no list.
#[derive(Debug, PartialEq, Eq)]
pub enum TargetError {
    /// Patterns matched nothing.
    NoMatch { patterns: Vec<String>, ports_dir: String },
    /// No port that was named could be evaluated; the first reason is given.
    Unevaluated { patterns: Vec<String>, ports_dir: String, why: String },
}

/// What a `TargetError` says.
pub enum TargetErrorView {
    NoMatch { patterns: Seq<Seq<char>>, ports_dir: Seq<char> },
    Unevaluated { patterns: Seq<Seq<char>>, ports_dir: Seq<char>, why: Seq<char> },
}

impl View for TargetError {
    type V = TargetErrorView;

    open spec fn view(&self) -> TargetErrorView {
        match *self {
            TargetError::NoMatch { patterns, ports_dir } => TargetErrorView::NoMatch {
                patterns: text::texts(patterns@),
                ports_dir: ports_dir@,
            },
            TargetError::Unevaluated { patterns, ports_dir, why } => TargetErrorView::Unevaluated {
                patterns: text::texts(patterns@),
                ports_dir: ports_dir@,
                why: why@,
            },
        }
    }
}

/// How an error is told.
pub open spec fn error_text(e: TargetErrorView) -> Seq<char> {
    match e {
        TargetErrorView::NoMatch { patterns, ports_dir } => {
            "No matching ports found for pattern(s): '"@ + text::joined(patterns, "', '"@)
                + "' under "@ + ports_dir
        },
        TargetErrorView::Unevaluated { patterns, ports_dir, why } => {
            "Could not evaluate any of '"@ + text::joined(patterns, "', '"@) + "' under "@
                + ports_dir + ": "@ + why
        },
    }
}

impl TargetError {
    /// How this is told.
    pub fn message(&self) -> (r: String)
        ensures
            r@ == error_text(self@),
    {
        match self {
            TargetError::NoMatch { patterns, ports_dir } => {
                let mut r = "No matching ports found for pattern(s): '".to_owned();
                r.append(text::join(patterns, "', '").as_str());
                r.append("' under ");
                r.append(ports_dir.as_str());
                r
            },
            TargetError::Unevaluated { patterns, ports_dir, why } => {
                let mut r = "Could not evaluate any of '".to_owned();
                r.append(text::join(patterns, "', '").as_str());
                r.append("' under ");
                r.append(ports_dir.as_str());
                r.append(": ");
                r.append(why.as_str());
                r
            },
        }
    }
}

/// Those of the first `n` listed origins that a pattern takes.
pub open spec fn taken_upto(
    pattern: Seq<char>,
    listing: Seq<Seq<char>>,
    n: int,
) -> Seq<Seq<char>>
    decreases n,
{
    if n <= 0 {
        seq![]
    } else {
        let rest = taken_upto(pattern, listing, n - 1);
        if glob::takes(glob::pattern_of(pattern), listing[n - 1]) {
            rest.push(listing[n - 1])
        } else {
            rest
        }
    }
}

/// What a pattern names: with a metacharacter, the listed origins that it
/// takes; without one, itself, if it is there.
pub open spec fn named_by(pattern: Seq<char>, listing: Seq<Seq<char>>, there: bool) -> Seq<
    Seq<char>,
> {
    if glob::has_meta(pattern) {
        taken_upto(pattern, listing, listing.len() as int)
    } else if there {
        seq![pattern]
    } else {
        seq![]
    }
}

/// What the first `n` patterns name, each once, in the order of the patterns.
pub open spec fn named_upto(
    patterns: Seq<Seq<char>>,
    listing: Seq<Seq<char>>,
    there: Seq<bool>,
    n: int,
) -> Seq<Seq<char>>
    decreases n,
{
    if n <= 0 {
        seq![]
    } else {
        let names = named_by(patterns[n - 1], listing, there[n - 1]);
        walk::met(named_upto(patterns, listing, there, n - 1), names, names.len() as int)
    }
}

/// Those of the first `n` patterns that name nothing.
pub open spec fn unmatched_upto(
    patterns: Seq<Seq<char>>,
    listing: Seq<Seq<char>>,
    there: Seq<bool>,
    n: int,
) -> Seq<Seq<char>>
    decreases n,
{
    if n <= 0 {
        seq![]
    } else {
        let rest = unmatched_upto(patterns, listing, there, n - 1);
        if named_by(patterns[n - 1], listing, there[n - 1]).len() == 0 {
            rest.push(patterns[n - 1])
        } else {
            rest
        }
    }
}

/// What a list is headed by: the one port that was named, or how many were and
/// by which patterns.
pub open spec fn title_of(origins: Seq<Seq<char>>, patterns: Seq<Seq<char>>) -> Seq<char> {
    if origins.len() == 1 {
        origins[0]
    } else {
        text::decimal_of(origins.len()) + " ports matched ("@ + text::joined(patterns, ", "@)
            + ")"@
    }
}

/// The ports that patterns name, or why there are none.
pub open spec fn selected(
    patterns: Seq<Seq<char>>,
    listing: Seq<Seq<char>>,
    there: Seq<bool>,
    ports_dir: Seq<char>,
    ignore_missing: bool,
) -> Result<TargetsView, TargetErrorView> {
    let n = patterns.len() as int;
    let names = named_upto(patterns, listing, there, n);
    let unmatched = unmatched_upto(patterns, listing, there, n);
    if names.len() == 0 {
        Err(TargetErrorView::NoMatch { patterns, ports_dir })
    } else if unmatched.len() > 0 && !ignore_missing {
        Err(TargetErrorView::NoMatch { patterns: unmatched, ports_dir })
    } else {
        let origins = order::text_sort(names);
        Ok(TargetsView { origins, title: title_of(origins, patterns), unmatched })
    }
}

/// Whether any pattern has to be matched against the tree listing.
pub fn needs_listing(patterns: &Vec<String>) -> (r: bool)
    ensures
        r == exists|i: int|
            0 <= i < patterns@.len() && glob::has_meta(#[trigger] text::texts(patterns@)[i]),
{
    let ghost pv = text::texts(patterns@);
    let mut n: usize = 0;
    while n < patterns.len()
        invariant
            n <= patterns@.len(),
            pv == text::texts(patterns@),
            forall|i: int| 0 <= i < n ==> !glob::has_meta(#[trigger] pv[i]),
        decreases patterns@.len() - n,
    {
        if is_glob(patterns[n].as_str()) {
            proof {
                assert(glob::has_meta(pv[n as int]));
            }
            return true;
        }
        n += 1;
    }
    false
}

/// What a pattern names.
fn names_of(pattern: &str, listing: &Vec<String>, there: bool) -> (r: Vec<String>)
    ensures
        text::texts(r@) == named_by(pattern@, text::texts(listing@), there),
{
    broadcast use text::lemma_texts_push;

    let ghost lv = text::texts(listing@);
    let mut out: Vec<String> = Vec::new();
    proof {
        assert(text::texts(out@) =~= seq![]);
    }
    if is_glob(pattern) {
        let mut n: usize = 0;
        while n < listing.len()
            invariant
                n <= listing@.len(),
                lv == text::texts(listing@),
                text::texts(out@) == taken_upto(pattern@, lv, n as int),
            decreases listing@.len() - n,
        {
            proof {
                assert(lv[n as int] == listing@[n as int]@);
            }
            if glob_matches(pattern, listing[n].as_str()) {
                out.push(listing[n].clone());
            }
            n += 1;
        }
    } else if there {
        out.push(pattern.to_owned());
        proof {
            assert(text::texts(out@) =~= seq![pattern@]);
        }
    }
    out
}

/// The ports that patterns name, alphabetised.
///
/// A pattern with a metacharacter is matched against `listing`. One without is
/// taken at its word where `there` says so for it: its Makefile is in the tree,
/// or there is no tree to check the name against.
pub fn select_targets(
    patterns: &Vec<String>,
    listing: &Vec<String>,
    there: &Vec<bool>,
    ports_dir: &str,
    ignore_missing: bool,
) -> (r: Result<Targets, TargetError>)
    requires
        there@.len() == patterns@.len(),
    ensures
        ({
            let want = selected(
                text::texts(patterns@),
                text::texts(listing@),
                there@,
                ports_dir@,
                ignore_missing,
            );
            match r {
                Ok(t) => want == Ok::<TargetsView, TargetErrorView>(t@),
                Err(e) => want == Err::<TargetsView, TargetErrorView>(e@),
            }
        }),
{
    broadcast use text::lemma_texts_push;

    let ghost pv = text::texts(patterns@);
    let ghost lv = text::texts(listing@);
    let mut names: Vec<String> = Vec::new();
    let mut unmatched: Vec<String> = Vec::new();
    let mut n: usize = 0;
    proof {
        assert(text::texts(names@) =~= seq![]);
        assert(text::texts(unmatched@) =~= seq![]);
    }
    while n < patterns.len()
        invariant
            n <= patterns@.len(),
            there@.len() == patterns@.len(),
            pv == text::texts(patterns@),
            lv == text::texts(listing@),
            text::texts(names@) == named_upto(pv, lv, there@, n as int),
            text::texts(unmatched@) == unmatched_upto(pv, lv, there@, n as int),
        decreases patterns@.len() - n,
    {
        proof {
            assert(pv[n as int] == patterns@[n as int]@);
        }
        let more = names_of(patterns[n].as_str(), listing, there[n]);
        proof {
            assert(text::texts(more@).len() == more@.len());
        }
        walk::meet(&mut names, &more);
        if more.len() == 0 {
            unmatched.push(patterns[n].clone());
        }
        n += 1;
    }
    proof {
        assert(text::texts(names@).len() == names@.len());
        assert(text::texts(unmatched@).len() == unmatched@.len());
    }
    if names.len() == 0 {
        return Err(
            TargetError::NoMatch {
                patterns: text::copy_texts(patterns),
                ports_dir: ports_dir.to_owned(),
            },
        );
    }
    if unmatched.len() > 0 && !ignore_missing {
        return Err(TargetError::NoMatch { patterns: unmatched, ports_dir: ports_dir.to_owned() });
    }
    let origins = order::sorted_texts(&names);
    proof {
        assert(text::texts(origins@).len() == origins@.len());
    }
    let title = if origins.len() == 1 {
        proof {
            assert(text::texts(origins@)[0] == origins@[0]@);
        }
        origins[0].clone()
    } else {
        let mut t = text::decimal(origins.len());
        t.append(" ports matched (");
        t.append(text::join(patterns, ", ").as_str());
        t.append(")");
        t
    };
    Ok(Targets { origins, title, unmatched })
}

/// What is warned of patterns that match nothing.
pub fn missing_warning(unmatched: &Vec<String>) -> (r: String)
    ensures
        r@ == "[!] Warning: No matching ports found for pattern(s): '"@ + text::joined(
            text::texts(unmatched@),
            "', '"@,
        ) + "'"@,
{
    let mut r = "[!] Warning: No matching ports found for pattern(s): '".to_owned();
    r.append(text::join(unmatched, "', '").as_str());
    r.append("'");
    r
}

/// Whether a port was evaluated.
pub open spec fn is_read(g: GraphView, origin: Seq<char>) -> bool {
    match graph::index_of(g, origin) {
        Some(i) => g.ports[i as int].resolved,
        None => false,
    }
}

impl DependencyGraph {
    /// Whether any of the ports that were named could be evaluated; why not,
    /// where none could.
    ///
    /// One port among many that could not be read is a real port with unknown
    /// options, and the list says so about it. Every named port failing is a
    /// different thing, and an empty list would not explain it.
    pub fn check_read(
        &self,
        targets: &Targets,
        failures: &Vec<Failure>,
        patterns: &Vec<String>,
        ports_dir: &str,
    ) -> (r: Result<(), TargetError>)
        requires
            self@.wf(),
        ensures
            ({
                let some_read = exists|i: int|
                    0 <= i < targets@.origins.len() && is_read(
                        self@,
                        #[trigger] targets@.origins[i],
                    );
                match r {
                    Ok(_) => some_read,
                    Err(e) => !some_read && e@ == (if failures@.len() == 0 {
                        TargetErrorView::NoMatch {
                            patterns: text::texts(patterns@),
                            ports_dir: ports_dir@,
                        }
                    } else {
                        TargetErrorView::Unevaluated {
                            patterns: text::texts(patterns@),
                            ports_dir: ports_dir@,
                            why: failures@[0]@.why,
                        }
                    }),
                }
            }),
    {
        let ghost ov = text::texts(targets.origins@);
        let mut n: usize = 0;
        while n < targets.origins.len()
            invariant
                n <= targets.origins@.len(),
                ov == text::texts(targets.origins@),
                self@.wf(),
                forall|i: int| 0 <= i < n ==> !is_read(self@, #[trigger] ov[i]),
            decreases targets.origins@.len() - n,
        {
            proof {
                assert(ov[n as int] == targets.origins@[n as int]@);
            }
            if let Some(id) = self.port_index(targets.origins[n].as_str()) {
                proof {
                    assert(self@.ports.len() == self.ports@.len());
                    assert(self@.ports[id as int] == self.ports@[id as int]@);
                }
                if self.ports[id].resolved {
                    proof {
                        assert(is_read(self@, targets@.origins[n as int]));
                    }
                    return Ok(());
                }
            }
            n += 1;
        }
        proof {
            assert(ov.len() == targets.origins@.len());
        }
        if failures.len() == 0 {
            Err(
                TargetError::NoMatch {
                    patterns: text::copy_texts(patterns),
                    ports_dir: ports_dir.to_owned(),
                },
            )
        } else {
            Err(
                TargetError::Unevaluated {
                    patterns: text::copy_texts(patterns),
                    ports_dir: ports_dir.to_owned(),
                    why: failures[0].why.clone(),
                },
            )
        }
    }
}

/// A graph with the first `n` evaluated ports added.
pub open spec fn added_upto(g: GraphView, fs: Seq<FactsView>, saved: SavedView, n: int) -> GraphView
    decreases n,
{
    if n <= 0 {
        g
    } else {
        grow::added(added_upto(g, fs, saved, n - 1), fs[n - 1], saved)
    }
}

/// A graph with the dependencies of the first `n` evaluated ports recorded.
pub open spec fn told_upto(g: GraphView, fs: Seq<FactsView>, n: int) -> GraphView
    decreases n,
{
    if n <= 0 {
        g
    } else {
        grow::told(told_upto(g, fs, n - 1), fs[n - 1].origin, fs[n - 1])
    }
}

/// A graph in which a port is one that was asked for by name.
pub open spec fn asked_for(g: GraphView, origin: Seq<char>) -> GraphView {
    match graph::index_of(g, origin) {
        None => g,
        Some(i) => GraphView {
            ports: g.ports.update(
                i as int,
                PortView {
                    provenance: Provenance::Requested,
                    is_expanded: true,
                    ..g.ports[i as int]
                },
            ),
            ..g
        },
    }
}

/// A graph in which the first `n` of some ports were asked for by name.
pub open spec fn asked_for_upto(g: GraphView, origins: Seq<Seq<char>>, n: int) -> GraphView
    decreases n,
{
    if n <= 0 {
        g
    } else {
        asked_for(asked_for_upto(g, origins, n - 1), origins[n - 1])
    }
}

/// The graph of a set of evaluated ports, of which some were asked for.
pub open spec fn graph_of(fs: Seq<FactsView>, requested: Seq<Seq<char>>, saved: SavedView) -> GraphView {
    let g0 = grow::empty_graph(text::joined(requested, ", "@));
    let g1 = added_upto(g0, fs, saved, fs.len() as int);
    let g2 = told_upto(g1, fs, fs.len() as int);
    let g3 = asked_for_upto(g2, requested, requested.len() as int);
    rows::rerowed(live::relive(index::reindexed(g3)))
}

impl DependencyGraph {
    /// Builds a graph straight from a set of facts, without a ports tree.
    pub fn from_facts(
        facts: &Vec<PortFacts>,
        requested: &Vec<String>,
        sys_opts: &SystemOptions,
    ) -> (r: Self)
        ensures
            r@ == graph_of(order::views(facts@), text::texts(requested@), sys_opts@),
            r@.wf(),
    {
        let ghost fv = order::views(facts@);
        let ghost rv = text::texts(requested@);
        let mut g = DependencyGraph::empty(text::join(requested, ", ").as_str());
        let ghost g0 = g@;
        let mut n: usize = 0;
        while n < facts.len()
            invariant
                n <= facts@.len(),
                fv == order::views(facts@),
                g@ == added_upto(g0, fv, sys_opts@, n as int),
                graph::shape_ok(g@.ports, g@.options),
                graph::index_ok(g@.ports, g@.by_origin),
                g@.groups == g0.groups,
            decreases facts@.len() - n,
        {
            proof {
                assert(fv[n as int] == facts@[n as int]@);
            }
            g.add_port(&facts[n], sys_opts);
            n += 1;
        }
        let ghost g1 = g@;
        n = 0;
        while n < facts.len()
            invariant
                n <= facts@.len(),
                fv == order::views(facts@),
                g@ == told_upto(g1, fv, n as int),
                graph::shape_ok(g@.ports, g@.options),
                graph::index_ok(g@.ports, g@.by_origin),
                g@.groups == g1.groups,
            decreases facts@.len() - n,
        {
            proof {
                assert(fv[n as int] == facts@[n as int]@);
            }
            g.apply_resolution(facts[n].origin.as_str(), &facts[n]);
            n += 1;
        }
        let ghost g2 = g@;
        n = 0;
        while n < requested.len()
            invariant
                n <= requested@.len(),
                rv == text::texts(requested@),
                g@ == asked_for_upto(g2, rv, n as int),
                graph::shape_ok(g@.ports, g@.options),
                graph::index_ok(g@.ports, g@.by_origin),
                g@.groups == g2.groups,
            decreases requested@.len() - n,
        {
            let ghost before = g@;
            proof {
                assert(rv[n as int] == requested@[n as int]@);
            }
            if let Some(id) = g.port_index(requested[n].as_str()) {
                proof {
                    assert(g@.ports.len() == g.ports@.len());
                    assert(g@.ports[id as int] == g.ports@[id as int]@);
                }
                g.ports[id].provenance = Provenance::Requested;
                g.ports[id].is_expanded = true;
                proof {
                    assert(g@.ports =~= asked_for(before, rv[n as int]).ports);
                    assert(fold::ports_alike(g@.ports, before.ports));
                    assert(fold::options_alike(g@.options, before.options));
                    fold::lemma_alike_shape(g@, before);
                }
            }
            n += 1;
        }
        proof {
            assert(fv.len() == facts@.len());
            assert(rv.len() == requested@.len());
            assert(g.ports.len() == g@.ports.len());
            rows::lemma_settled(g@);
        }
        g.settle_batch();
        g.rebuild_visible_rows();
        g
    }
}

} // verus!
