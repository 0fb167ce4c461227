//! What a graph says when it is asked: which ports, how many, and what has
//! changed.
use super::live;
use super::rows;
use super::{
    DependencyGraph, GraphView, OptionNode, OptionView, PortEntry, PortView, Provenance,
    RowKind, RowView,
};
use crate::graph;
use crate::order;
use crate::text;
use crate::text::same;
use vstd::prelude::*;

verus! {

/// The names of the first `m` options of a list that are set.
pub open spec fn set_names(options: Seq<OptionView>, ids: Seq<usize>, m: int) -> Seq<Seq<char>>
    decreases m,
{
    if m <= 0 {
        seq![]
    } else {
        let rest = set_names(options, ids, m - 1);
        let o = options[ids[m - 1] as int];
        if o.enabled {
            rest.push(o.name)
        } else {
            rest
        }
    }
}

/// The names of the options set on a port, in the order in which it lists them.
pub open spec fn option_set_of(g: GraphView, i: int) -> Seq<Seq<char>> {
    set_names(g.options, g.ports[i].options, g.ports[i].options.len() as int)
}

/// Those of the first `n` ports that were asked for by name.
pub open spec fn requested_upto(ports: Seq<PortView>, n: int) -> Seq<PortView>
    decreases n,
{
    if n <= 0 {
        seq![]
    } else if ports[n - 1].provenance == Provenance::Requested {
        requested_upto(ports, n - 1).push(ports[n - 1])
    } else {
        requested_upto(ports, n - 1)
    }
}

/// The origins of those of the first `n` ports that are pulled in and could not
/// be read.
pub open spec fn unread_upto(g: GraphView, n: int) -> Seq<Seq<char>>
    decreases n,
{
    if n <= 0 {
        seq![]
    } else if !g.ports[n - 1].resolved && g.live[n - 1] {
        unread_upto(g, n - 1).push(g.ports[n - 1].origin)
    } else {
        unread_upto(g, n - 1)
    }
}

/// How many of the first `n` ports are pulled in and have nothing to decide.
pub open spec fn optionless_upto(g: GraphView, n: int) -> nat
    decreases n,
{
    if n <= 0 {
        0
    } else {
        optionless_upto(g, n - 1) + if g.live[n - 1] && rows::optionless(g.ports[n - 1]) {
            1nat
        } else {
            0nat
        }
    }
}

/// How many of the first `n` rows are those of ports.
pub open spec fn port_rows_upto(rows: Seq<RowView>, n: int) -> nat
    decreases n,
{
    if n <= 0 {
        0
    } else {
        port_rows_upto(rows, n - 1) + if rows[n - 1].kind is Port {
            1nat
        } else {
            0nat
        }
    }
}

/// Whether an option is set otherwise than when the list was loaded.
pub open spec fn is_changed(o: OptionView) -> bool {
    o.enabled != o.initial_enabled
}

/// The origins of the ports of those of the first `n` options that have
/// changed.
pub open spec fn changed_upto(options: Seq<OptionView>, n: int) -> Seq<Seq<char>>
    decreases n,
{
    if n <= 0 {
        seq![]
    } else if is_changed(options[n - 1]) {
        changed_upto(options, n - 1).push(options[n - 1].port_origin)
    } else {
        changed_upto(options, n - 1)
    }
}

/// The ports with an option that has changed, in order, each once.
pub open spec fn changed_of(options: Seq<OptionView>) -> Seq<Seq<char>> {
    order::text_set(changed_upto(options, options.len() as int))
}

/// Whether an option of a port that is pulled in has changed.
pub open spec fn dirty(g: GraphView) -> bool {
    exists|k: int|
        0 <= k < g.options.len() && is_changed(#[trigger] g.options[k]) && live::live_at(
            g,
            g.options[k].port_origin,
        )
}

/// The numbers of those of the first `n` options that are this port's and have
/// this name.
pub open spec fn instances_upto(
    options: Seq<OptionView>,
    port_origin: Seq<char>,
    name: Seq<char>,
    n: int,
) -> Seq<usize>
    decreases n,
{
    if n <= 0 {
        seq![]
    } else {
        let rest = instances_upto(options, port_origin, name, n - 1);
        if options[n - 1].port_origin == port_origin && options[n - 1].name == name {
            rest.push(options[n - 1].id)
        } else {
            rest
        }
    }
}

impl DependencyGraph {
    /// The options currently set on a port, which is the question to ask make
    /// about it.
    pub fn option_set(&self, port_id: usize) -> (r: Vec<String>)
        requires
            graph::shape_ok(self@.ports, self@.options),
            port_id < self@.ports.len(),
        ensures
            text::texts(r@) == option_set_of(self@, port_id as int),
    {
        broadcast use text::lemma_texts_push;

        let ghost options = self@.options;
        let ghost ids = self@.ports[port_id as int].options;
        proof {
            assert(self@.ports[port_id as int] == self.ports@[port_id as int]@);
            assert(graph::port_ok(self@.ports, options, port_id as int));
        }
        let mut out: Vec<String> = Vec::new();
        let mut m: usize = 0;
        proof {
            assert(text::texts(out@) =~= seq![]);
        }
        while m < self.ports[port_id].options.len()
            invariant
                port_id < self.ports@.len(),
                ids == self.ports@[port_id as int].options@,
                options == self@.options,
                graph::in_range(ids, options.len()),
                m <= ids.len(),
                text::texts(out@) == set_names(options, ids, m as int),
            decreases ids.len() - m,
        {
            let id = self.ports[port_id].options[m];
            proof {
                assert(ids[m as int] == id);
                assert(options[id as int] == self.option_nodes@[id as int]@);
            }
            if self.option_nodes[id].enabled {
                out.push(self.option_nodes[id].name.clone());
            }
            m += 1;
        }
        out
    }

    /// Ports named on the command line, in list order. These are the roots of
    /// the dependency walk and are always kept.
    pub fn requested_ports(&self) -> (r: Vec<&PortEntry>)
        ensures
            order::views(r@) == requested_upto(self@.ports, self@.ports.len() as int),
    {
        broadcast use order::lemma_views_push;

        let ghost ports = self@.ports;
        let mut out: Vec<&PortEntry> = Vec::new();
        let mut n: usize = 0;
        proof {
            assert(order::views(out@) =~= seq![]);
        }
        while n < self.ports.len()
            invariant
                n <= self.ports@.len(),
                ports == self@.ports,
                order::views(out@) == requested_upto(ports, n as int),
            decreases self.ports@.len() - n,
        {
            proof {
                assert(ports[n as int] == self.ports@[n as int]@);
            }
            if self.ports[n].provenance == Provenance::Requested {
                out.push(&self.ports[n]);
            }
            n += 1;
        }
        out
    }

    /// Ports in the list that could not be evaluated, so nothing is known about
    /// their options.
    ///
    /// Only live ones count: a port stranded by an option being off is not part
    /// of the build.
    pub fn unevaluated_ports(&self) -> (r: Vec<String>)
        requires
            self@.live.len() == self@.ports.len(),
        ensures
            text::texts(r@) == unread_upto(self@, self@.ports.len() as int),
    {
        broadcast use text::lemma_texts_push;

        let ghost g = self@;
        let mut out: Vec<String> = Vec::new();
        let mut n: usize = 0;
        proof {
            assert(text::texts(out@) =~= seq![]);
        }
        while n < self.ports.len()
            invariant
                n <= g.ports.len(),
                g == self@,
                g.live.len() == g.ports.len(),
                text::texts(out@) == unread_upto(g, n as int),
            decreases g.ports.len() - n,
        {
            proof {
                assert(g.ports[n as int] == self.ports@[n as int]@);
            }
            if !self.ports[n].resolved && self.live[n] {
                out.push(self.ports[n].origin.clone());
            }
            n += 1;
        }
        out
    }

    /// Live ports that hiding ports without options would leave out.
    pub fn optionless_count(&self) -> (r: usize)
        requires
            self@.live.len() == self@.ports.len(),
        ensures
            r == optionless_upto(self@, self@.ports.len() as int),
    {
        let ghost g = self@;
        let mut count: usize = 0;
        let mut n: usize = 0;
        while n < self.ports.len()
            invariant
                n <= g.ports.len(),
                count <= n,
                g == self@,
                g.live.len() == g.ports.len(),
                count == optionless_upto(g, n as int),
            decreases g.ports.len() - n,
        {
            if self.live[n] && self.is_optionless(n) {
                count += 1;
            }
            n += 1;
        }
        count
    }

    /// How many ports the list is actually showing, which a search narrows.
    pub fn listed_port_count(&self) -> (r: usize)
        ensures
            r == port_rows_upto(self@.rows, self@.rows.len() as int),
    {
        let ghost rows = self@.rows;
        let mut count: usize = 0;
        let mut n: usize = 0;
        while n < self.visible_rows.len()
            invariant
                n <= rows.len(),
                count <= n,
                rows == self@.rows,
                count == port_rows_upto(rows, n as int),
            decreases rows.len() - n,
        {
            proof {
                assert(rows[n as int] == self.visible_rows@[n as int]@);
            }
            match &self.visible_rows[n].kind {
                RowKind::Port { .. } => {
                    count += 1;
                },
                _ => {},
            }
            n += 1;
        }
        count
    }

    /// Every port option. Anything deciding what gets written to an options file
    /// goes through here.
    pub fn real_options(&self) -> (r: &Vec<OptionNode>)
        ensures
            order::views(r@) == self@.options,
    {
        &self.option_nodes
    }

    /// Ports whose options have been changed this session.
    ///
    /// These are the ones whose dependencies may no longer be what the graph
    /// says, so they are where a settle has to start.
    pub fn changed_ports(&self) -> (r: Vec<String>)
        ensures
            text::texts(r@) == changed_of(self@.options),
    {
        broadcast use text::lemma_texts_push;

        let ghost options = self@.options;
        let mut out: Vec<String> = Vec::new();
        let mut n: usize = 0;
        proof {
            assert(text::texts(out@) =~= seq![]);
        }
        while n < self.option_nodes.len()
            invariant
                n <= options.len(),
                options == self@.options,
                text::texts(out@) == changed_upto(options, n as int),
            decreases options.len() - n,
        {
            proof {
                assert(options[n as int] == self.option_nodes@[n as int]@);
            }
            if self.option_nodes[n].enabled != self.option_nodes[n].initial_enabled {
                out.push(self.option_nodes[n].port_origin.clone());
            }
            n += 1;
        }
        order::sorted_texts_once(&out)
    }

    /// True when any option on a port that will actually be written differs from
    /// the state it was loaded with. Edits to a port nothing pulls in any more
    /// are not saved, so they do not count.
    pub fn is_dirty(&self) -> (r: bool)
        requires
            self@.wf(),
        ensures
            r == dirty(self@),
    {
        let ghost g = self@;
        let mut n: usize = 0;
        while n < self.option_nodes.len()
            invariant
                n <= g.options.len(),
                g == self@,
                g.wf(),
                forall|k: int|
                    0 <= k < n ==> !(is_changed(#[trigger] g.options[k]) && live::live_at(
                        g,
                        g.options[k].port_origin,
                    )),
            decreases g.options.len() - n,
        {
            proof {
                assert(g.options[n as int] == self.option_nodes@[n as int]@);
            }
            if self.option_nodes[n].enabled != self.option_nodes[n].initial_enabled
                && self.is_live(self.option_nodes[n].port_origin.as_str()) {
                return true;
            }
            n += 1;
        }
        false
    }

    /// Option nodes matching a port origin and an option name.
    pub fn option_instances(&self, port_origin: &str, option_name: &str) -> (r: Vec<usize>)
        ensures
            r@ == instances_upto(
                self@.options,
                port_origin@,
                option_name@,
                self@.options.len() as int,
            ),
    {
        let ghost options = self@.options;
        let mut out: Vec<usize> = Vec::new();
        let mut n: usize = 0;
        while n < self.option_nodes.len()
            invariant
                n <= options.len(),
                options == self@.options,
                out@ == instances_upto(options, port_origin@, option_name@, n as int),
            decreases options.len() - n,
        {
            proof {
                assert(options[n as int] == self.option_nodes@[n as int]@);
            }
            if same(self.option_nodes[n].port_origin.as_str(), port_origin) && same(
                self.option_nodes[n].name.as_str(),
                option_name,
            ) {
                out.push(self.option_nodes[n].id);
            }
            n += 1;
        }
        out
    }
}

proof fn lemma_set_names(options: Seq<OptionView>, ids: Seq<usize>, n: int, name: Seq<char>)
    requires
        0 <= n <= ids.len(),
    ensures
        set_names(options, ids, n).contains(name) <==> exists|m: int|
            0 <= m < n && options[#[trigger] ids[m] as int].name == name && options[ids[m]
                as int].enabled,
    decreases n,
{
    if n > 0 {
        lemma_set_names(options, ids, n - 1, name);
        let a = set_names(options, ids, n - 1);
        let r = set_names(options, ids, n);
        if options[ids[n - 1] as int].enabled {
            assert(r.drop_last() =~= a);
            order::lemma_contains_last(r, name);
        }
        if a.contains(name) {
            let m = choose|m: int|
                0 <= m < n - 1 && options[#[trigger] ids[m] as int].name == name && options[ids[m]
                    as int].enabled;
            assert(options[ids[m] as int].name == name);
        }
        if exists|m: int|
            0 <= m < n && options[#[trigger] ids[m] as int].name == name && options[ids[m]
                as int].enabled {
            let m = choose|m: int|
                0 <= m < n && options[#[trigger] ids[m] as int].name == name && options[ids[m]
                    as int].enabled;
            assert(m < n - 1 || m == n - 1);
        }
    }
}

/// A port is asked about under just the options that are set on it.
pub proof fn a_port_is_asked_about_as_it_is_set(g: GraphView, i: int, name: Seq<char>)
    ensures
        option_set_of(g, i).contains(name) <==> exists|m: int|
            0 <= m < g.ports[i].options.len() && g.options[#[trigger] g.ports[i].options[m]
                as int].name == name && g.options[g.ports[i].options[m] as int].enabled,
{
    lemma_set_names(g.options, g.ports[i].options, g.ports[i].options.len() as int, name);
}

proof fn lemma_changed(options: Seq<OptionView>, n: int, x: Seq<char>)
    requires
        0 <= n <= options.len(),
    ensures
        changed_upto(options, n).contains(x) <==> exists|k: int|
            0 <= k < n && (#[trigger] options[k]).port_origin == x && options[k].enabled
                != options[k].initial_enabled,
    decreases n,
{
    if n > 0 {
        lemma_changed(options, n - 1, x);
        let a = changed_upto(options, n - 1);
        let r = changed_upto(options, n);
        if is_changed(options[n - 1]) {
            assert(r.drop_last() =~= a);
            order::lemma_contains_last(r, x);
        }
        if a.contains(x) {
            let k = choose|k: int|
                0 <= k < n - 1 && (#[trigger] options[k]).port_origin == x && options[k].enabled
                    != options[k].initial_enabled;
            assert(options[k].port_origin == x);
        }
        if exists|k: int|
            0 <= k < n && (#[trigger] options[k]).port_origin == x && options[k].enabled
                != options[k].initial_enabled {
            let k = choose|k: int|
                0 <= k < n && (#[trigger] options[k]).port_origin == x && options[k].enabled
                    != options[k].initial_enabled;
            assert(k < n - 1 || k == n - 1);
        }
    }
}

/// The ports that have changed are those with an option that is set otherwise
/// than it was at first.
pub proof fn what_has_changed_is_told(options: Seq<OptionView>, x: Seq<char>)
    ensures
        changed_of(options).contains(x) <==> exists|k: int|
            0 <= k < options.len() && (#[trigger] options[k]).port_origin == x
                && options[k].enabled != options[k].initial_enabled,
{
    lemma_changed(options, options.len() as int, x);
    order::lemma_text_set(changed_upto(options, options.len() as int));
}

} // verus!
