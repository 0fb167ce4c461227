//! What turning an option on or off does to the other options of its port:
//! group membership, implications and conflicts.
use super::{OptionNode, OptionView};
use crate::graph;
use crate::order;
use crate::reach;
use crate::text;
use crate::text::{holds, same};
use vstd::prelude::*;

verus! {

/// A group that must have exactly one member set.
pub open spec fn is_single(group_type: Seq<char>) -> bool {
    group_type == "SINGLE"@
}

/// A group that may have one member set, or none.
pub open spec fn is_radio(group_type: Seq<char>) -> bool {
    group_type == "RADIO"@
}

/// A group of which no two members are set together.
pub open spec fn is_exclusive(group_type: Seq<char>) -> bool {
    is_single(group_type) || is_radio(group_type)
}

/// Whether two options belong to one group.
pub open spec fn same_group(a: OptionView, b: OptionView) -> bool {
    a.group_type == b.group_type && a.group_name == b.group_name
}

/// Option `k` set to `on`, and nothing else.
pub open spec fn set_at(opts: Seq<OptionView>, k: int, on: bool) -> Seq<OptionView> {
    opts.update(k, OptionView { enabled: on, ..opts[k] })
}

/// Of the options `ids` in the group of option `k`, `k` alone is set.
pub open spec fn displace(opts: Seq<OptionView>, ids: Seq<usize>, k: int) -> Seq<OptionView> {
    Seq::new(
        opts.len(),
        |j: int|
            if graph::listed(ids, j) && same_group(opts[j], opts[k]) {
                OptionView { enabled: j == k, ..opts[j] }
            } else {
                opts[j]
            },
    )
}

/// One state applied to one option under its group's rules: turning a member
/// of an exclusive group on clears its siblings, turning the member of a
/// `SINGLE` off is refused, and every other option is set as asked.
pub open spec fn respect(opts: Seq<OptionView>, ids: Seq<usize>, k: int, on: bool) -> Seq<
    OptionView,
> {
    if on && is_exclusive(opts[k].group_type) {
        displace(opts, ids, k)
    } else if !on && is_single(opts[k].group_type) {
        opts
    } else {
        set_at(opts, k, on)
    }
}

/// The two lists differ in nothing but which options are set.
pub open spec fn same_but_state(a: Seq<OptionView>, b: Seq<OptionView>) -> bool {
    &&& a.len() == b.len()
    &&& forall|j: int|
        0 <= j < a.len() ==> #[trigger] a[j] == (OptionView { enabled: a[j].enabled, ..b[j] })
}

/// An edge from an option to one that is set and implies it.
pub open spec fn implier_edge(opts: Seq<OptionView>, ids: Seq<usize>) -> spec_fn(int, int) -> bool {
    |w: int, j: int|
        0 <= w < opts.len() && 0 <= j < opts.len() && graph::listed(ids, j) && opts[j].enabled
            && opts[j].implies.contains(opts[w].name)
}

/// Whether option `j` is set and implies option `k`, directly or through
/// others that are set.
pub open spec fn leads_to(opts: Seq<OptionView>, ids: Seq<usize>, k: int, j: int) -> bool {
    reach::reaches(reach::only(k), implier_edge(opts, ids), j)
}

/// Whether something that leads to option `k`, or `k` itself, is the set member
/// of a `SINGLE`, which cannot be turned off.
pub open spec fn held(opts: Seq<OptionView>, ids: Seq<usize>, k: int) -> bool {
    exists|j: int|
        0 <= j < opts.len() && #[trigger] leads_to(opts, ids, k, j) && opts[j].enabled
            && is_single(opts[j].group_type)
}

/// Option `k` turned off, and every option that leads to it.
pub open spec fn turned_off(opts: Seq<OptionView>, ids: Seq<usize>, k: int) -> Seq<OptionView> {
    Seq::new(
        opts.len(),
        |j: int|
            OptionView { enabled: opts[j].enabled && !leads_to(opts, ids, k, j), ..opts[j] },
    )
}

/// Option `k` turned off, and every option that leads to it. Where one of them
/// cannot be, nothing is.
pub open spec fn switched_off(opts: Seq<OptionView>, ids: Seq<usize>, k: int) -> Seq<OptionView> {
    if held(opts, ids, k) {
        opts
    } else {
        turned_off(opts, ids, k)
    }
}

/// Whether option `id` is set and has to give way to option `k`, of whose
/// exclusive group it is.
pub open spec fn gives_way(opts: Seq<OptionView>, k: int, id: int) -> bool {
    id != k && opts[id].enabled && is_exclusive(opts[k].group_type) && same_group(
        opts[id],
        opts[k],
    )
}

/// Option `k` turned on under the rules of its group, and what leads to those
/// of the first `n` options `ids` that gave way to it turned off.
pub open spec fn siblings_off(
    orig: Seq<OptionView>,
    ids: Seq<usize>,
    k: int,
    n: int,
) -> Seq<OptionView>
    decreases n,
{
    if n <= 0 {
        respect(orig, ids, k, true)
    } else {
        let s = siblings_off(orig, ids, k, n - 1);
        if gives_way(orig, k, ids[n - 1] as int) {
            switched_off(s, ids, ids[n - 1] as int)
        } else {
            s
        }
    }
}

/// Whether an option other than `k` that is set prevents `k`.
pub open spec fn prevents_now(opts: Seq<OptionView>, k: int, id: int) -> bool {
    id != k && opts[id].enabled && opts[id].prevents.contains(opts[k].name)
}

/// The first `n` of the options `ids` that prevented `k` in `orig` turned off.
pub open spec fn preventers_off(
    orig: Seq<OptionView>,
    ids: Seq<usize>,
    k: int,
    n: int,
) -> Seq<OptionView>
    decreases n,
{
    if n <= 0 {
        orig
    } else {
        let s = preventers_off(orig, ids, k, n - 1);
        if prevents_now(orig, k, ids[n - 1] as int) {
            switched_off(s, ids, ids[n - 1] as int)
        } else {
            s
        }
    }
}

/// Option `k` turned on: what gives way to it and what prevents it goes off,
/// each with what leads to it.
pub open spec fn turned_on(opts: Seq<OptionView>, ids: Seq<usize>, k: int) -> Seq<OptionView> {
    preventers_off(siblings_off(opts, ids, k, ids.len() as int), ids, k, ids.len() as int)
}

/// The first of the options `ids` from `m` on with this name.
pub open spec fn named_from(
    opts: Seq<OptionView>,
    ids: Seq<usize>,
    name: Seq<char>,
    m: int,
) -> Option<usize>
    decreases ids.len() - m,
{
    if m < 0 || m >= ids.len() {
        None
    } else if opts[ids[m] as int].name == name {
        Some(ids[m])
    } else {
        named_from(opts, ids, name, m + 1)
    }
}

/// The option of a port with this name.
pub open spec fn named(opts: Seq<OptionView>, ids: Seq<usize>, name: Seq<char>) -> Option<usize> {
    named_from(opts, ids, name, 0)
}

/// The options with the first `n` names turned on.
pub open spec fn implied_on(
    opts: Seq<OptionView>,
    ids: Seq<usize>,
    names: Seq<Seq<char>>,
    n: int,
) -> Seq<OptionView>
    decreases n,
{
    if n <= 0 {
        opts
    } else {
        let s = implied_on(opts, ids, names, n - 1);
        match named(s, ids, names[n - 1]) {
            Some(id) => turned_on(s, ids, id as int),
            None => s,
        }
    }
}

/// Turning off option `id` where it is set, and what leads to it.
pub open spec fn prevent(opts: Seq<OptionView>, ids: Seq<usize>, id: int) -> Seq<OptionView> {
    if opts[id].enabled {
        switched_off(opts, ids, id)
    } else {
        opts
    }
}

/// The options with the first `n` names turned off.
pub open spec fn prevented_off(
    opts: Seq<OptionView>,
    ids: Seq<usize>,
    names: Seq<Seq<char>>,
    n: int,
) -> Seq<OptionView>
    decreases n,
{
    if n <= 0 {
        opts
    } else {
        let s = prevented_off(opts, ids, names, n - 1);
        match named(s, ids, names[n - 1]) {
            Some(id) => prevent(s, ids, id as int),
            None => s,
        }
    }
}

/// What one option's declarations do: those it implies go on, then those it
/// prevents go off.
pub open spec fn declared(opts: Seq<OptionView>, ids: Seq<usize>, k: int) -> Seq<OptionView> {
    let s = implied_on(opts, ids, opts[k].implies, opts[k].implies.len() as int);
    prevented_off(s, ids, opts[k].prevents, opts[k].prevents.len() as int)
}

/// A worklist with the options of the first `n` names that are not on it.
pub open spec fn grown(
    opts: Seq<OptionView>,
    ids: Seq<usize>,
    work: Seq<usize>,
    names: Seq<Seq<char>>,
    n: int,
) -> Seq<usize>
    decreases n,
{
    if n <= 0 {
        work
    } else {
        let w = grown(opts, ids, work, names, n - 1);
        match named(opts, ids, names[n - 1]) {
            Some(id) => if w.contains(id) {
                w
            } else {
                w.push(id)
            },
            None => w,
        }
    }
}

/// A worklist with everything that follows, breadth first, from its items
/// from `head` on. It never outgrows `ids`, whose items it holds once each.
pub open spec fn worked(
    opts: Seq<OptionView>,
    ids: Seq<usize>,
    work: Seq<usize>,
    head: int,
) -> Seq<usize>
    decreases ids.len() - head,
{
    if 0 <= head < work.len() && head < ids.len() {
        let names = opts[work[head] as int].implies;
        worked(opts, ids, grown(opts, ids, work, names, names.len() as int), head + 1)
    } else {
        work
    }
}

/// The options that option `k` implies, directly or through others, each once
/// and breadth first, starting with `k`.
pub open spec fn implied_order(opts: Seq<OptionView>, ids: Seq<usize>, k: usize) -> Seq<usize> {
    worked(opts, ids, seq![k], 0)
}

/// The declarations of the first `n` options of a worklist, one after the
/// other.
pub open spec fn declared_upto(
    opts: Seq<OptionView>,
    ids: Seq<usize>,
    work: Seq<usize>,
    n: int,
) -> Seq<OptionView>
    decreases n,
{
    if n <= 0 {
        opts
    } else {
        declared(declared_upto(opts, ids, work, n - 1), ids, work[n - 1] as int)
    }
}

/// What follows from option `k` having been turned on: what it implies goes on
/// and what it prevents goes off, and so on for what it implies.
pub open spec fn enforced(opts: Seq<OptionView>, ids: Seq<usize>, k: usize) -> Seq<OptionView> {
    let work = implied_order(opts, ids, k);
    declared_upto(opts, ids, work, work.len() as int)
}

/// Whether option `i` is set against what it declares of option `j`: it implies
/// `j` and `j` is not set, or it prevents `j` and `j` is set. What a `SINGLE`
/// keeps set is no fault of what prevents it.
pub open spec fn breaks(opts: Seq<OptionView>, i: int, j: int) -> bool {
    opts[i].enabled && if opts[j].enabled {
        opts[i].prevents.contains(opts[j].name) && !is_single(opts[j].group_type)
    } else {
        opts[i].implies.contains(opts[j].name)
    }
}

/// Whether nothing among the options `ids` is set against a declaration in `a`
/// that was not in `b`.
pub open spec fn no_worse(a: Seq<OptionView>, b: Seq<OptionView>, ids: Seq<usize>) -> bool {
    forall|m: int, n: int|
        0 <= m < ids.len() && 0 <= n < ids.len() && #[trigger] breaks(
            a,
            ids[m] as int,
            ids[n] as int,
        ) ==> breaks(b, ids[m] as int, ids[n] as int)
}

/// The options of a port once option `k` has been turned on, and what follows
/// from it has.
pub open spec fn with_on(opts: Seq<OptionView>, ids: Seq<usize>, k: usize) -> Seq<OptionView> {
    enforced(turned_on(opts, ids, k as int), ids, k)
}

/// Whether a choice to turn option `k` on is let through: once all has followed,
/// nothing is set against a declaration that was not before. What follows may
/// outrank `k` itself: an option that it implies may prevent it or displace it.
pub open spec fn can_be_on(opts: Seq<OptionView>, ids: Seq<usize>, k: usize) -> bool {
    no_worse(with_on(opts, ids, k), opts, ids)
}

/// A choice applied to one port: the option of that name set as asked, under
/// its group's rules, and what follows from it. A choice that would set
/// something against a declaration is refused, and changes nothing.
pub open spec fn chosen(
    opts: Seq<OptionView>,
    ids: Seq<usize>,
    name: Seq<char>,
    on: bool,
) -> Seq<OptionView> {
    match named(opts, ids, name) {
        None => opts,
        Some(k) => if !on {
            switched_off(opts, ids, k as int)
        } else if can_be_on(opts, ids, k) {
            with_on(opts, ids, k)
        } else {
            opts
        },
    }
}

/// `SINGLE` and `RADIO` are different words.
pub proof fn lemma_kinds_differ()
    ensures
        "SINGLE"@ != "RADIO"@,
{
    reveal_strlit("SINGLE");
    reveal_strlit("RADIO");
    assert("SINGLE"@.len() != "RADIO"@.len());
}

/// The rules change nothing but which options are set.
pub broadcast proof fn lemma_respect_state(
    opts: Seq<OptionView>,
    ids: Seq<usize>,
    k: int,
    on: bool,
)
    requires
        0 <= k < opts.len(),
    ensures
        same_but_state(#[trigger] respect(opts, ids, k, on), opts),
{
}

/// Turning off an option and what leads to it changes nothing but which options
/// are set.
pub broadcast proof fn lemma_switched_state(opts: Seq<OptionView>, ids: Seq<usize>, k: int)
    ensures
        same_but_state(#[trigger] switched_off(opts, ids, k), opts),
{
}

/// Options that differ only in which are set have the same names.
pub proof fn lemma_named_state(
    a: Seq<OptionView>,
    b: Seq<OptionView>,
    ids: Seq<usize>,
    name: Seq<char>,
    m: int,
)
    requires
        same_but_state(a, b),
        graph::in_range(ids, b.len()),
    ensures
        named_from(a, ids, name, m) == named_from(b, ids, name, m),
    decreases ids.len() - m,
{
    if 0 <= m < ids.len() {
        assert(a[ids[m] as int].name == b[ids[m] as int].name);
        lemma_named_state(a, b, ids, name, m + 1);
    }
}

/// What is found by name is one of the options, with that name.
pub proof fn lemma_named(opts: Seq<OptionView>, ids: Seq<usize>, name: Seq<char>, m: int)
    requires
        0 <= m,
    ensures
        match named_from(opts, ids, name, m) {
            Some(id) => graph::listed(ids, id as int) && ids.contains(id) && opts[id as int].name == name,
            None => forall|q: int|
                m <= q < ids.len() ==> opts[#[trigger] ids[q] as int].name != name,
        },
    decreases ids.len() - m,
{
    if m < ids.len() && opts[ids[m] as int].name != name {
        lemma_named(opts, ids, name, m + 1);
    }
}

/// Applies one state to one option under its group's rules.
pub fn apply_state_respecting_groups(
    nodes: &mut Vec<OptionNode>,
    ids: &Vec<usize>,
    opt_id: usize,
    enabled: bool,
)
    requires
        opt_id < old(nodes)@.len(),
        graph::in_range(ids@, old(nodes)@.len()),
        graph::listed(ids@, opt_id as int),
    ensures
        order::views(final(nodes)@) == respect(
            order::views(old(nodes)@),
            ids@,
            opt_id as int,
            enabled,
        ),
{
    broadcast use order::lemma_views_update;

    proof {
        lemma_kinds_differ();
    }
    let ghost opts = order::views(nodes@);
    let single = same(nodes[opt_id].group_type.as_str(), "SINGLE");
    let radio = same(nodes[opt_id].group_type.as_str(), "RADIO");
    if !(single || radio) || (!enabled && radio) {
        nodes[opt_id].enabled = enabled;
        proof {
            assert(order::views(nodes@) =~= set_at(opts, opt_id as int, enabled));
        }
        return;
    }
    if !enabled {
        return;
    }
    let group_type = nodes[opt_id].group_type.clone();
    let group_name = nodes[opt_id].group_name.clone();
    let mut m: usize = 0;
    proof {
        assert(order::views(nodes@) =~= displace(opts, ids@.take(0), opt_id as int));
    }
    while m < ids.len()
        invariant
            m <= ids@.len(),
            graph::in_range(ids@, opts.len()),
            opt_id < opts.len(),
            group_type@ == opts[opt_id as int].group_type,
            group_name@ == opts[opt_id as int].group_name,
            nodes@.len() == opts.len(),
            order::views(nodes@) == displace(opts, ids@.take(m as int), opt_id as int),
        decreases ids@.len() - m,
    {
        let id = ids[m];
        let ghost before = order::views(nodes@);
        proof {
            assert(before[id as int] == nodes@[id as int]@);
            assert(before[id as int].group_type == opts[id as int].group_type);
        }
        if same(nodes[id].group_type.as_str(), group_type.as_str()) && same(
            nodes[id].group_name.as_str(),
            group_name.as_str(),
        ) {
            nodes[id].enabled = id == opt_id;
        }
        proof {
            let now = displace(opts, ids@.take(m + 1), opt_id as int);
            assert forall|j: int| 0 <= j < opts.len() implies #[trigger] order::views(nodes@)[j]
                == now[j] by {
                assert(ids@.take(m + 1)[m as int] == id);
                if graph::listed(ids@.take(m as int), j) {
                    let q = choose|q: int|
                        0 <= q < m && #[trigger] ids@.take(m as int)[q] == j;
                    assert(ids@.take(m + 1)[q] == j);
                }
                if graph::listed(ids@.take(m + 1), j) && j != id {
                    let q = choose|q: int|
                        0 <= q < m + 1 && #[trigger] ids@.take(m + 1)[q] == j;
                    assert(ids@.take(m as int)[q] == j);
                }
                assert(before[j] == displace(opts, ids@.take(m as int), opt_id as int)[j]);
            }
            assert(order::views(nodes@) =~= now);
        }
        m += 1;
    }
    proof {
        assert(ids@.take(ids@.len() as int) =~= ids@);
    }
}

/// Follows implications backwards for an option that is to be turned off: it
/// goes off, and so does every option that is set and implies it, transitively.
/// Where one of them cannot, the set member of a `SINGLE`, nothing does.
pub fn retire_impliers(nodes: &mut Vec<OptionNode>, ids: &Vec<usize>, opt_id: usize)
    requires
        opt_id < old(nodes)@.len(),
        graph::in_range(ids@, old(nodes)@.len()),
        graph::listed(ids@, opt_id as int),
    ensures
        order::views(final(nodes)@) == switched_off(
            order::views(old(nodes)@),
            ids@,
            opt_id as int,
        ),
{
    broadcast use order::lemma_views_update;

    let ghost opts = order::views(nodes@);
    let ghost k = opt_id as int;
    let work = impliers_of(nodes, ids, opt_id);
    let mut m: usize = 0;
    while m < work.len()
        invariant
            m <= work@.len(),
            opts == order::views(nodes@),
            k == opt_id,
            forall|j: int| #[trigger] graph::listed(work@, j) <==> leads_to(opts, ids@, k, j),
            forall|i: int| 0 <= i < work@.len() ==> #[trigger] work@[i] < nodes@.len(),
            forall|i: int|
                0 <= i < m ==> !(opts[#[trigger] work@[i] as int].enabled && is_single(
                    opts[work@[i] as int].group_type,
                )),
        decreases work@.len() - m,
    {
        let id = work[m];
        proof {
            assert(opts[id as int] == nodes@[id as int]@);
            assert(work@[m as int] == id as int);
            assert(graph::listed(work@, id as int));
        }
        if nodes[id].enabled && same(nodes[id].group_type.as_str(), "SINGLE") {
            proof {
                assert(leads_to(opts, ids@, k, id as int));
                assert(held(opts, ids@, k));
            }
            return;
        }
        m += 1;
    }
    proof {
        if held(opts, ids@, k) {
            let j = choose|j: int|
                0 <= j < opts.len() && #[trigger] leads_to(opts, ids@, k, j) && opts[j].enabled
                    && is_single(opts[j].group_type);
            assert(graph::listed(work@, j));
            let i = choose|i: int| 0 <= i < work@.len() && #[trigger] work@[i] == j;
            assert(opts[work@[i] as int].enabled);
        }
        assert(order::views(nodes@) =~= off_upto(opts, work@, 0));
    }
    m = 0;
    while m < work.len()
        invariant
            m <= work@.len(),
            opts.len() == nodes@.len(),
            forall|i: int| 0 <= i < work@.len() ==> #[trigger] work@[i] < nodes@.len(),
            order::views(nodes@) == off_upto(opts, work@, m as int),
        decreases work@.len() - m,
    {
        let id = work[m];
        let ghost before = order::views(nodes@);
        proof {
            assert(before[id as int] == nodes@[id as int]@);
        }
        nodes[id].enabled = false;
        proof {
            let now = off_upto(opts, work@, m + 1);
            assert forall|j: int| 0 <= j < opts.len() implies #[trigger] order::views(nodes@)[j]
                == now[j] by {
                assert(before[j] == off_upto(opts, work@, m as int)[j]);
                assert(work@.take(m + 1)[m as int] == id);
                if graph::listed(work@.take(m as int), j) {
                    let q = choose|q: int|
                        0 <= q < m && #[trigger] work@.take(m as int)[q] == j;
                    assert(work@.take(m + 1)[q] == j);
                }
                if graph::listed(work@.take(m + 1), j) && j != id {
                    let q = choose|q: int|
                        0 <= q < m + 1 && #[trigger] work@.take(m + 1)[q] == j;
                    assert(work@.take(m as int)[q] == j);
                }
            }
            assert(order::views(nodes@) =~= now);
        }
        m += 1;
    }
    proof {
        assert(work@.take(work@.len() as int) =~= work@);
        assert(order::views(nodes@) =~= turned_off(opts, ids@, k));
    }
}

/// The first `n` options of a worklist turned off.
spec fn off_upto(opts: Seq<OptionView>, work: Seq<usize>, n: int) -> Seq<OptionView> {
    Seq::new(
        opts.len(),
        |j: int|
            OptionView {
                enabled: opts[j].enabled && !graph::listed(work.take(n), j),
                ..opts[j]
            },
    )
}

/// The options that lead to option `opt_id`, itself among them.
fn impliers_of(nodes: &Vec<OptionNode>, ids: &Vec<usize>, opt_id: usize) -> (r: Vec<usize>)
    requires
        opt_id < nodes@.len(),
        graph::in_range(ids@, nodes@.len()),
        graph::listed(ids@, opt_id as int),
    ensures
        forall|j: int| #[trigger]
            graph::listed(r@, j) <==> leads_to(order::views(nodes@), ids@, opt_id as int, j),
        forall|i: int| 0 <= i < r@.len() ==> #[trigger] r@[i] < nodes@.len(),
{
    let ghost opts = order::views(nodes@);
    let ghost edge = implier_edge(opts, ids@);
    let ghost start = reach::only(opt_id as int);
    let mut work: Vec<usize> = Vec::new();
    work.push(opt_id);
    let mut head: usize = 0;
    proof {
        assert(work@ =~= seq![opt_id]);
        reach::lemma_start_reached(start, edge, opt_id as int);
    }
    while head < work.len()
        invariant
            opt_id < opts.len(),
            head <= work@.len(),
            opts == order::views(nodes@),
            graph::in_range(ids@, opts.len()),
            edge == implier_edge(opts, ids@),
            start == reach::only(opt_id as int),
            work@.no_duplicates(),
            work@.len() > 0,
            work@[0] == opt_id,
            forall|i: int|
                0 <= i < work@.len() ==> graph::listed(ids@, #[trigger] work@[i] as int)
                    && reach::reaches(start, edge, work@[i] as int) && work@[i] < opts.len(),
            forall|i: int, j: int|
                0 <= i < head && #[trigger] edge(work@[i] as int, j) ==> graph::listed(work@, j),
        decreases ids@.len() - head,
    {
        proof {
            assert forall|i: int| 0 <= i < work@.len() implies ids@.contains(
                #[trigger] work@[i],
            ) by {
                let q = choose|q: int| 0 <= q < ids@.len() && #[trigger] ids@[q] == work@[i] as int;
                assert(ids@[q] == work@[i]);
            }
            reach::lemma_distinct_within(work@, ids@);
        }
        let current = work[head];
        proof {
            assert(opts[current as int] == nodes@[current as int]@);
        }
        let mut m: usize = 0;
        while m < ids.len()
            invariant
                m <= ids@.len(),
                opt_id < opts.len(),
                head < work@.len(),
                current == work@[head as int],
                current < opts.len(),
                opts == order::views(nodes@),
                opts[current as int] == nodes@[current as int]@,
                graph::in_range(ids@, opts.len()),
                edge == implier_edge(opts, ids@),
                start == reach::only(opt_id as int),
                work@.no_duplicates(),
                work@[0] == opt_id,
                forall|i: int|
                    0 <= i < work@.len() ==> graph::listed(ids@, #[trigger] work@[i] as int)
                        && reach::reaches(start, edge, work@[i] as int) && work@[i] < opts.len(),
                forall|i: int, j: int|
                    0 <= i < head && #[trigger] edge(work@[i] as int, j) ==> graph::listed(work@, j),
                forall|q: int|
                    0 <= q < m && edge(current as int, #[trigger] ids@[q] as int)
                        ==> graph::listed(work@, ids@[q] as int),
            decreases ids@.len() - m,
        {
            let id = ids[m];
            let ghost old_work = work@;
            proof {
                assert(opts[id as int] == nodes@[id as int]@);
                assert(graph::listed(ids@, id as int));
            }
            if nodes[id].enabled && holds(&nodes[id].implies, nodes[current].name.as_str()) {
                proof {
                    assert(edge(current as int, id as int));
                    reach::lemma_edge_reached(start, edge, current as int, id as int);
                }
                if !on_list(&work, id) {
                    work.push(id);
                }
                proof {
                    assert(work@[work@.len() - 1] == id || old_work == work@);
                    assert(graph::listed(work@, id as int));
                    assert forall|j: int| #[trigger] graph::listed(old_work, j) implies graph::listed(
                        work@,
                        j,
                    ) by {
                        let q = choose|q: int| 0 <= q < old_work.len() && #[trigger] old_work[q]
                            == j;
                        assert(work@[q] == j);
                    }
                    assert forall|i: int, j: int|
                        0 <= i < head && #[trigger] edge(
                            work@[i] as int,
                            j,
                        ) implies graph::listed(work@, j) by {
                        assert(work@[i] == old_work[i]);
                        assert(edge(old_work[i] as int, j));
                        assert(graph::listed(old_work, j));
                    }
                    assert forall|q: int|
                        0 <= q < m && edge(
                            current as int,
                            #[trigger] ids@[q] as int,
                        ) implies graph::listed(work@, ids@[q] as int) by {
                        assert(graph::listed(old_work, ids@[q] as int));
                    }
                }
            }
            m += 1;
        }
        proof {
            assert forall|i: int, j: int|
                0 <= i < head + 1 && #[trigger] edge(work@[i] as int, j) implies graph::listed(
                work@,
                j,
            ) by {
                if i == head {
                    let q = choose|q: int| 0 <= q < ids@.len() && #[trigger] ids@[q] == j;
                    assert(edge(current as int, ids@[q] as int));
                }
            }
        }
        head += 1;
    }
    proof {
        assert forall|j: int| #[trigger] graph::listed(work@, j) <==> leads_to(
            opts,
            ids@,
            opt_id as int,
            j,
        ) by {
            if leads_to(opts, ids@, opt_id as int, j) {
                let inside = |x: int| graph::listed(work@, x);
                assert(work@[0] == opt_id as int);
                assert forall|w: int, y: int| inside(w) && #[trigger] edge(w, y) implies inside(
                    y,
                ) by {
                    let i = choose|i: int| 0 <= i < work@.len() && #[trigger] work@[i] == w;
                    assert(edge(work@[i] as int, y));
                }
                reach::lemma_closed_holds(start, edge, inside, j);
            }
            if graph::listed(work@, j) {
                let i = choose|i: int| 0 <= i < work@.len() && #[trigger] work@[i] == j;
                assert(reach::reaches(start, edge, work@[i] as int));
            }
        }
    }
    work
}

/// Whether a number stands in a list.
pub fn on_list(v: &Vec<usize>, x: usize) -> (r: bool)
    ensures
        r == graph::listed(v@, x as int),
        r == v@.contains(x),
{
    let mut i: usize = 0;
    while i < v.len()
        invariant
            i <= v@.len(),
            forall|j: int| 0 <= j < i ==> v@[j] != x,
        decreases v@.len() - i,
    {
        if v[i] == x {
            proof {
                assert(v@[i as int] == x);
            }
            return true;
        }
        i += 1;
    }
    false
}

/// Follows conflicts backwards for an option just turned on: an option that is
/// set and prevents it goes off, and what leads to that one with it, where they
/// can.
pub fn retire_preventers(nodes: &mut Vec<OptionNode>, ids: &Vec<usize>, opt_id: usize)
    requires
        opt_id < old(nodes)@.len(),
        graph::in_range(ids@, old(nodes)@.len()),
        graph::listed(ids@, opt_id as int),
    ensures
        order::views(final(nodes)@) == preventers_off(
            order::views(old(nodes)@),
            ids@,
            opt_id as int,
            ids@.len() as int,
        ),
{
    broadcast use lemma_switched_state;

    let ghost opts = order::views(nodes@);
    let ghost k = opt_id as int;
    proof {
        assert(opts[k] == nodes@[k]@);
    }
    let mut hits: Vec<bool> = Vec::new();
    let mut m: usize = 0;
    while m < ids.len()
        invariant
            m <= ids@.len(),
            hits@.len() == m,
            graph::in_range(ids@, nodes@.len()),
            opts == order::views(nodes@),
            k == opt_id,
            opt_id < nodes@.len(),
            opts[k] == nodes@[k]@,
            forall|q: int|
                0 <= q < m ==> #[trigger] hits@[q] == prevents_now(opts, k, ids@[q] as int),
        decreases ids@.len() - m,
    {
        let id = ids[m];
        proof {
            assert(opts[id as int] == nodes@[id as int]@);
        }
        let hit = id != opt_id && nodes[id].enabled && holds(
            &nodes[id].prevents,
            nodes[opt_id].name.as_str(),
        );
        hits.push(hit);
        m += 1;
    }
    m = 0;
    while m < ids.len()
        invariant
            m <= ids@.len(),
            hits@.len() == ids@.len(),
            opts.len() == nodes@.len(),
            graph::in_range(ids@, opts.len()),
            forall|q: int|
                0 <= q < ids@.len() ==> #[trigger] hits@[q] == prevents_now(
                    opts,
                    k,
                    ids@[q] as int,
                ),
            order::views(nodes@) == preventers_off(opts, ids@, k, m as int),
        decreases ids@.len() - m,
    {
        let id = ids[m];
        let ghost s = order::views(nodes@);
        if hits[m] {
            proof {
                assert(graph::listed(ids@, id as int));
                assert(same_but_state(switched_off(s, ids@, id as int), s));
            }
            retire_impliers(nodes, ids, id);
            proof {
                assert(order::views(nodes@).len() == s.len());
            }
        }
        m += 1;
    }
}

/// Turns an option on under the rules of its group: what gives way to it goes
/// off, and so does what prevents it, each with what leads to it.
pub fn turn_on(nodes: &mut Vec<OptionNode>, ids: &Vec<usize>, opt_id: usize)
    requires
        opt_id < old(nodes)@.len(),
        graph::in_range(ids@, old(nodes)@.len()),
        graph::listed(ids@, opt_id as int),
    ensures
        order::views(final(nodes)@) == turned_on(order::views(old(nodes)@), ids@, opt_id as int),
{
    broadcast use {lemma_respect_state, lemma_switched_state};

    let ghost opts = order::views(nodes@);
    let ghost k = opt_id as int;
    proof {
        assert(opts[k] == nodes@[k]@);
    }
    let exclusive = same(nodes[opt_id].group_type.as_str(), "SINGLE") || same(
        nodes[opt_id].group_type.as_str(),
        "RADIO",
    );
    let mut hits: Vec<bool> = Vec::new();
    let mut m: usize = 0;
    while m < ids.len()
        invariant
            m <= ids@.len(),
            hits@.len() == m,
            graph::in_range(ids@, nodes@.len()),
            opts == order::views(nodes@),
            k == opt_id,
            opt_id < nodes@.len(),
            opts[k] == nodes@[k]@,
            exclusive == is_exclusive(opts[k].group_type),
            forall|q: int|
                0 <= q < m ==> #[trigger] hits@[q] == gives_way(opts, k, ids@[q] as int),
        decreases ids@.len() - m,
    {
        let id = ids[m];
        proof {
            assert(opts[id as int] == nodes@[id as int]@);
        }
        let hit = id != opt_id && nodes[id].enabled && exclusive && same(
            nodes[id].group_type.as_str(),
            nodes[opt_id].group_type.as_str(),
        ) && same(nodes[id].group_name.as_str(), nodes[opt_id].group_name.as_str());
        hits.push(hit);
        m += 1;
    }
    apply_state_respecting_groups(nodes, ids, opt_id, true);
    proof {
        assert(order::views(nodes@).len() == opts.len());
    }
    m = 0;
    while m < ids.len()
        invariant
            m <= ids@.len(),
            hits@.len() == ids@.len(),
            opts.len() == nodes@.len(),
            graph::in_range(ids@, opts.len()),
            forall|q: int|
                0 <= q < ids@.len() ==> #[trigger] hits@[q] == gives_way(opts, k, ids@[q] as int),
            order::views(nodes@) == siblings_off(opts, ids@, k, m as int),
        decreases ids@.len() - m,
    {
        let id = ids[m];
        let ghost s = order::views(nodes@);
        if hits[m] {
            proof {
                assert(graph::listed(ids@, id as int));
                assert(same_but_state(switched_off(s, ids@, id as int), s));
            }
            retire_impliers(nodes, ids, id);
            proof {
                assert(order::views(nodes@).len() == s.len());
            }
        }
        m += 1;
    }
    retire_preventers(nodes, ids, opt_id);
}

/// The option of a port with this name.
pub fn find_named(nodes: &Vec<OptionNode>, ids: &Vec<usize>, name: &str) -> (r: Option<usize>)
    requires
        graph::in_range(ids@, nodes@.len()),
    ensures
        r == named(order::views(nodes@), ids@, name@),
        match r {
            Some(id) => id < nodes@.len() && graph::listed(ids@, id as int) && ids@.contains(id),
            None => true,
        },
{
    let ghost opts = order::views(nodes@);
    let mut m: usize = 0;
    while m < ids.len()
        invariant
            m <= ids@.len(),
            opts == order::views(nodes@),
            graph::in_range(ids@, nodes@.len()),
            named(opts, ids@, name@) == named_from(opts, ids@, name@, m as int),
        decreases ids@.len() - m,
    {
        let id = ids[m];
        proof {
            assert(opts[id as int] == nodes@[id as int]@);
        }
        if same(nodes[id].name.as_str(), name) {
            proof {
                assert(ids@[m as int] == id);
            }
            return Some(id);
        }
        m += 1;
    }
    None
}

/// `same_but_state` carries over.
pub proof fn lemma_state_trans(a: Seq<OptionView>, b: Seq<OptionView>, c: Seq<OptionView>)
    requires
        same_but_state(a, b),
        same_but_state(b, c),
    ensures
        same_but_state(a, c),
{
    assert forall|j: int| 0 <= j < a.len() implies #[trigger] a[j] == (OptionView {
        enabled: a[j].enabled,
        ..c[j]
    }) by {
        assert(a[j] == (OptionView { enabled: a[j].enabled, ..b[j] }));
        assert(b[j] == (OptionView { enabled: b[j].enabled, ..c[j] }));
    }
}

/// The declarations of a worklist depend on nothing behind them.
proof fn lemma_declared_prefix(
    opts: Seq<OptionView>,
    ids: Seq<usize>,
    a: Seq<usize>,
    b: Seq<usize>,
    n: int,
)
    requires
        n <= a.len(),
        n <= b.len(),
        forall|i: int| 0 <= i < n ==> #[trigger] a[i] == b[i],
    ensures
        declared_upto(opts, ids, a, n) == declared_upto(opts, ids, b, n),
    decreases n,
{
    if n > 0 {
        lemma_declared_prefix(opts, ids, a, b, n - 1);
        assert(a[n - 1] == b[n - 1]);
    }
}

/// A worklist on which options stand once each.
pub open spec fn is_worklist(work: Seq<usize>, ids: Seq<usize>) -> bool {
    &&& work.no_duplicates()
    &&& forall|i: int| 0 <= i < work.len() ==> ids.contains(#[trigger] work[i])
}

/// Applies the implications and conflicts of an option just turned on, and of
/// what it implies.
pub fn enforce_implications(nodes: &mut Vec<OptionNode>, ids: &Vec<usize>, opt_id: usize)
    requires
        opt_id < old(nodes)@.len(),
        graph::in_range(ids@, old(nodes)@.len()),
        graph::listed(ids@, opt_id as int),
    ensures
        order::views(final(nodes)@) == enforced(order::views(old(nodes)@), ids@, opt_id),
{
    broadcast use lemma_switched_state;

    let ghost opts = order::views(nodes@);
    let mut work: Vec<usize> = Vec::new();
    work.push(opt_id);
    let mut head: usize = 0;
    proof {
        assert(work@ =~= seq![opt_id]);
        let q = choose|q: int| 0 <= q < ids@.len() && #[trigger] ids@[q] == opt_id as int;
        assert(ids@[q] == opt_id);
    }
    while head < work.len()
        invariant
            head <= work@.len(),
            opts.len() == nodes@.len(),
            graph::in_range(ids@, opts.len()),
            is_worklist(work@, ids@),
            same_but_state(order::views(nodes@), opts),
            implied_order(opts, ids@, opt_id) == worked(opts, ids@, work@, head as int),
            order::views(nodes@) == declared_upto(opts, ids@, work@, head as int),
        decreases ids@.len() - head,
    {
        let ghost first = order::views(nodes@);
        let ghost work0 = work@;
        let current = work[head];
        proof {
            reach::lemma_distinct_within(work@, ids@);
            assert(ids@.contains(work@[head as int]));
            assert(first[current as int] == nodes@[current as int]@);
            assert(first[current as int] == (OptionView {
                enabled: first[current as int].enabled,
                ..opts[current as int]
            }));
        }
        let implies = text::copy_texts(&nodes[current].implies);
        let prevents = text::copy_texts(&nodes[current].prevents);
        let ghost names = opts[current as int].implies;
        let mut n: usize = 0;
        while n < implies.len()
            invariant
                n <= implies@.len(),
                names == text::texts(implies@),
                opts.len() == nodes@.len(),
                graph::in_range(ids@, opts.len()),
                is_worklist(work@, ids@),
                same_but_state(order::views(nodes@), opts),
                work@ == grown(opts, ids@, work0, names, n as int),
                work0.len() <= work@.len(),
                forall|i: int| 0 <= i < work0.len() ==> #[trigger] work@[i] == work0[i],
                order::views(nodes@) == implied_on(first, ids@, names, n as int),
            decreases implies@.len() - n,
        {
            let ghost s = order::views(nodes@);
            proof {
                assert(names[n as int] == implies@[n as int]@);
                lemma_named_state(s, opts, ids@, names[n as int], 0);
            }
            if let Some(id) = find_named(nodes, ids, implies[n].as_str()) {
                turn_on(nodes, ids, id);
                proof {
                    lemma_turned_on_state(s, ids@, id as int);
                    lemma_state_trans(order::views(nodes@), s, opts);
                }
                if !on_list(&work, id) {
                    work.push(id);
                }
            }
            n += 1;
        }
        let ghost second = order::views(nodes@);
        n = 0;
        while n < prevents.len()
            invariant
                n <= prevents@.len(),
                text::texts(prevents@) == opts[current as int].prevents,
                opts.len() == nodes@.len(),
                graph::in_range(ids@, opts.len()),
                same_but_state(order::views(nodes@), opts),
                order::views(nodes@) == prevented_off(
                    second,
                    ids@,
                    opts[current as int].prevents,
                    n as int,
                ),
            decreases prevents@.len() - n,
        {
            let ghost s = order::views(nodes@);
            proof {
                assert(text::texts(prevents@)[n as int] == prevents@[n as int]@);
            }
            if let Some(id) = find_named(nodes, ids, prevents[n].as_str()) {
                proof {
                    assert(s[id as int] == nodes@[id as int]@);
                }
                if nodes[id].enabled {
                    proof {
                        assert(same_but_state(switched_off(s, ids@, id as int), s));
                    }
                    retire_impliers(nodes, ids, id);
                    proof {
                        lemma_state_trans(order::views(nodes@), s, opts);
                    }
                }
            }
            n += 1;
        }
        proof {
            assert(order::views(nodes@) == declared(first, ids@, current as int));
            lemma_declared_prefix(opts, ids@, work0, work@, head as int);
            assert(work@[head as int] == work0[head as int]);
        }
        head += 1;
    }
}

/// Whether something among the options `ids` is set against a declaration that
/// was not when the options were set as in `before`.
fn is_worse(nodes: &Vec<OptionNode>, before: &Vec<bool>, ids: &Vec<usize>, Ghost(opts): Ghost<
    Seq<OptionView>,
>) -> (r: bool)
    requires
        graph::in_range(ids@, nodes@.len()),
        same_but_state(order::views(nodes@), opts),
        before@.len() == opts.len(),
        forall|i: int| 0 <= i < opts.len() ==> #[trigger] before@[i] == opts[i].enabled,
    ensures
        r == !no_worse(order::views(nodes@), opts, ids@),
{
    let ghost now = order::views(nodes@);
    let mut m: usize = 0;
    while m < ids.len()
        invariant
            m <= ids@.len(),
            now == order::views(nodes@),
            graph::in_range(ids@, nodes@.len()),
            same_but_state(now, opts),
            before@.len() == opts.len(),
            forall|i: int| 0 <= i < opts.len() ==> #[trigger] before@[i] == opts[i].enabled,
            forall|p: int, q: int|
                0 <= p < m && 0 <= q < ids@.len() && #[trigger] breaks(
                    now,
                    ids@[p] as int,
                    ids@[q] as int,
                ) ==> breaks(opts, ids@[p] as int, ids@[q] as int),
        decreases ids@.len() - m,
    {
        let i = ids[m];
        let mut n: usize = 0;
        while n < ids.len()
            invariant
                m < ids@.len(),
                n <= ids@.len(),
                i == ids@[m as int],
                now == order::views(nodes@),
                graph::in_range(ids@, nodes@.len()),
                same_but_state(now, opts),
                before@.len() == opts.len(),
                forall|i: int| 0 <= i < opts.len() ==> #[trigger] before@[i] == opts[i].enabled,
                forall|q: int|
                    0 <= q < n && #[trigger] breaks(now, i as int, ids@[q] as int) ==> breaks(
                        opts,
                        i as int,
                        ids@[q] as int,
                    ),
            decreases ids@.len() - n,
        {
            let j = ids[n];
            proof {
                assert(now[i as int] == nodes@[i as int]@);
                assert(now[j as int] == nodes@[j as int]@);
                assert(now[i as int] == (OptionView {
                    enabled: now[i as int].enabled,
                    ..opts[i as int]
                }));
                assert(now[j as int] == (OptionView {
                    enabled: now[j as int].enabled,
                    ..opts[j as int]
                }));
                assert(before@[i as int] == opts[i as int].enabled);
                assert(before@[j as int] == opts[j as int].enabled);
            }
            let prevents = holds(&nodes[i].prevents, nodes[j].name.as_str()) && !same(
                nodes[j].group_type.as_str(),
                "SINGLE",
            );
            let implies = holds(&nodes[i].implies, nodes[j].name.as_str());
            let breaks_now = nodes[i].enabled && if nodes[j].enabled {
                prevents
            } else {
                implies
            };
            let broke = before[i] && if before[j] {
                prevents
            } else {
                implies
            };
            if breaks_now && !broke {
                proof {
                    assert(breaks(now, ids@[m as int] as int, ids@[n as int] as int));
                    assert(!breaks(opts, ids@[m as int] as int, ids@[n as int] as int));
                }
                return true;
            }
            n += 1;
        }
        m += 1;
    }
    false
}

/// Sets the options as they were.
fn put_back(nodes: &mut Vec<OptionNode>, before: &Vec<bool>, Ghost(opts): Ghost<Seq<OptionView>>)
    requires
        same_but_state(order::views(old(nodes)@), opts),
        before@.len() == opts.len(),
        forall|i: int| 0 <= i < opts.len() ==> #[trigger] before@[i] == opts[i].enabled,
    ensures
        order::views(final(nodes)@) == opts,
{
    broadcast use order::lemma_views_update;

    let mut m: usize = 0;
    while m < nodes.len()
        invariant
            m <= nodes@.len(),
            same_but_state(order::views(nodes@), opts),
            before@.len() == opts.len(),
            forall|i: int| 0 <= i < opts.len() ==> #[trigger] before@[i] == opts[i].enabled,
            forall|i: int| 0 <= i < m ==> order::views(nodes@)[i] == #[trigger] opts[i],
        decreases nodes@.len() - m,
    {
        let ghost now = order::views(nodes@);
        proof {
            assert(now[m as int] == nodes@[m as int]@);
            assert(now[m as int] == (OptionView {
                enabled: now[m as int].enabled,
                ..opts[m as int]
            }));
            assert(before@[m as int] == opts[m as int].enabled);
        }
        nodes[m].enabled = before[m];
        proof {
            assert(order::views(nodes@)[m as int] == opts[m as int]);
            assert forall|j: int| 0 <= j < opts.len() implies #[trigger] order::views(nodes@)[j]
                == (OptionView { enabled: order::views(nodes@)[j].enabled, ..opts[j] }) by {
                if j != m {
                    assert(order::views(nodes@)[j] == now[j]);
                }
            }
        }
        m += 1;
    }
    proof {
        assert(order::views(nodes@) =~= opts);
    }
}

/// Applies a choice to one port: the option of that name set as asked, under
/// its group's rules, and what follows from it. A choice that would set
/// something against a declaration is refused, and changes nothing.
pub fn set_choice(nodes: &mut Vec<OptionNode>, ids: &Vec<usize>, name: &str, enabled: bool)
    requires
        graph::in_range(ids@, old(nodes)@.len()),
    ensures
        order::views(final(nodes)@) == chosen(order::views(old(nodes)@), ids@, name@, enabled),
{
    let ghost opts = order::views(nodes@);
    let opt_id = match find_named(nodes, ids, name) {
        Some(id) => id,
        None => {
            return;
        },
    };
    if !enabled {
        retire_impliers(nodes, ids, opt_id);
        return;
    }
    let mut before: Vec<bool> = Vec::new();
    let mut n: usize = 0;
    while n < nodes.len()
        invariant
            n <= nodes@.len(),
            before@.len() == n,
            opts == order::views(nodes@),
            forall|i: int| 0 <= i < n ==> #[trigger] before@[i] == opts[i].enabled,
        decreases nodes@.len() - n,
    {
        proof {
            assert(opts[n as int] == nodes@[n as int]@);
        }
        before.push(nodes[n].enabled);
        n += 1;
    }
    turn_on(nodes, ids, opt_id);
    proof {
        lemma_turned_on_state(opts, ids@, opt_id as int);
        assert(order::views(nodes@).len() == opts.len());
    }
    enforce_implications(nodes, ids, opt_id);
    proof {
        lemma_with_on_state(opts, ids@, opt_id);
    }
    if is_worse(nodes, &before, ids, Ghost(opts)) {
        put_back(nodes, &before, Ghost(opts));
    }
}

/// Turning off preventers changes nothing but which options are set.
pub proof fn lemma_preventers_state(opts: Seq<OptionView>, ids: Seq<usize>, k: int, n: int)
    ensures
        same_but_state(preventers_off(opts, ids, k, n), opts),
    decreases n,
{
    if n > 0 {
        lemma_preventers_state(opts, ids, k, n - 1);
        let s = preventers_off(opts, ids, k, n - 1);
        let id = ids[n - 1] as int;
        lemma_switched_state(s, ids, id);
        lemma_state_trans(switched_off(s, ids, id), s, opts);
    }
}

/// Turning off what leads to those that gave way changes nothing but which
/// options are set.
pub proof fn lemma_siblings_state(opts: Seq<OptionView>, ids: Seq<usize>, k: int, n: int)
    requires
        0 <= k < opts.len(),
    ensures
        same_but_state(siblings_off(opts, ids, k, n), opts),
    decreases n,
{
    if n > 0 {
        lemma_siblings_state(opts, ids, k, n - 1);
        let s = siblings_off(opts, ids, k, n - 1);
        let id = ids[n - 1] as int;
        lemma_switched_state(s, ids, id);
        lemma_state_trans(switched_off(s, ids, id), s, opts);
    } else {
        lemma_respect_state(opts, ids, k, true);
    }
}

/// Turning an option on changes nothing but which options are set.
pub proof fn lemma_turned_on_state(opts: Seq<OptionView>, ids: Seq<usize>, k: int)
    requires
        0 <= k < opts.len(),
    ensures
        same_but_state(turned_on(opts, ids, k), opts),
{
    let s = siblings_off(opts, ids, k, ids.len() as int);
    lemma_siblings_state(opts, ids, k, ids.len() as int);
    lemma_preventers_state(s, ids, k, ids.len() as int);
    lemma_state_trans(turned_on(opts, ids, k), s, opts);
}

/// Turning on what is implied changes nothing but which options are set.
proof fn lemma_implied_on_state(
    opts: Seq<OptionView>,
    ids: Seq<usize>,
    names: Seq<Seq<char>>,
    n: int,
)
    requires
        graph::in_range(ids, opts.len()),
    ensures
        same_but_state(implied_on(opts, ids, names, n), opts),
    decreases n,
{
    if n > 0 {
        lemma_implied_on_state(opts, ids, names, n - 1);
        let s = implied_on(opts, ids, names, n - 1);
        lemma_named(s, ids, names[n - 1], 0);
        if let Some(id) = named(s, ids, names[n - 1]) {
            lemma_turned_on_state(s, ids, id as int);
            lemma_state_trans(turned_on(s, ids, id as int), s, opts);
        }
    }
}

/// Turning off what is prevented changes nothing but which options are set.
proof fn lemma_prevented_off_state(
    opts: Seq<OptionView>,
    ids: Seq<usize>,
    names: Seq<Seq<char>>,
    n: int,
)
    ensures
        same_but_state(prevented_off(opts, ids, names, n), opts),
    decreases n,
{
    if n > 0 {
        lemma_prevented_off_state(opts, ids, names, n - 1);
        let s = prevented_off(opts, ids, names, n - 1);
        if let Some(id) = named(s, ids, names[n - 1]) {
            lemma_switched_state(s, ids, id as int);
            lemma_state_trans(prevent(s, ids, id as int), s, opts);
        }
    }
}

/// Declarations change nothing but which options are set.
proof fn lemma_declared_state(
    opts: Seq<OptionView>,
    ids: Seq<usize>,
    work: Seq<usize>,
    n: int,
)
    requires
        graph::in_range(ids, opts.len()),
    ensures
        same_but_state(declared_upto(opts, ids, work, n), opts),
    decreases n,
{
    if n > 0 {
        lemma_declared_state(opts, ids, work, n - 1);
        let s = declared_upto(opts, ids, work, n - 1);
        let k = work[n - 1] as int;
        lemma_implied_on_state(s, ids, s[k].implies, s[k].implies.len() as int);
        let t = implied_on(s, ids, s[k].implies, s[k].implies.len() as int);
        lemma_prevented_off_state(t, ids, s[k].prevents, s[k].prevents.len() as int);
        lemma_state_trans(declared(s, ids, k), t, s);
        lemma_state_trans(declared(s, ids, k), s, opts);
    }
}

/// Turning an option on, with what follows, changes nothing but which options
/// are set.
pub proof fn lemma_with_on_state(opts: Seq<OptionView>, ids: Seq<usize>, k: usize)
    requires
        graph::in_range(ids, opts.len()),
        k < opts.len(),
    ensures
        same_but_state(with_on(opts, ids, k), opts),
{
    let t = turned_on(opts, ids, k as int);
    lemma_turned_on_state(opts, ids, k as int);
    let work = implied_order(t, ids, k);
    lemma_declared_state(t, ids, work, work.len() as int);
    lemma_state_trans(enforced(t, ids, k), t, opts);
}

/// A choice changes nothing but which options are set.
pub proof fn lemma_chosen_state(
    opts: Seq<OptionView>,
    ids: Seq<usize>,
    name: Seq<char>,
    on: bool,
)
    requires
        graph::in_range(ids, opts.len()),
    ensures
        same_but_state(chosen(opts, ids, name, on), opts),
{
    lemma_named(opts, ids, name, 0);
    if let Some(k) = named(opts, ids, name) {
        if on {
            lemma_with_on_state(opts, ids, k);
        } else {
            lemma_switched_state(opts, ids, k as int);
        }
    }
}

} // verus!
