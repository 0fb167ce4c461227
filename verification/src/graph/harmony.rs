//! When a choice is met: where what options declare of each other does not pull
//! apart, turning an option on is never refused.
use super::relations;
use super::relations::{implies_it, is_one, prevents_it, rules_kept};
use super::rules;
use super::OptionView;
use crate::graph;
use crate::reach;
use vstd::prelude::*;

verus! {

/// No two options of a port have one name.
pub open spec fn named_apart(opts: Seq<OptionView>, ids: Seq<usize>) -> bool {
    forall|i: int, j: int|
        is_one(opts, ids, i) && is_one(opts, ids, j) && #[trigger] opts[i].name
            == #[trigger] opts[j].name ==> i == j
}

/// Only options in no exclusive group imply or prevent others, and only such are
/// implied or prevented.
pub open spec fn relate_plainly(opts: Seq<OptionView>, ids: Seq<usize>) -> bool {
    &&& forall|i: int, j: int|
        is_one(opts, ids, i) && is_one(opts, ids, j) && #[trigger] implies_it(opts, i, j)
            ==> !rules::is_exclusive(opts[i].group_type) && !rules::is_exclusive(opts[j].group_type)
    &&& forall|i: int, j: int|
        is_one(opts, ids, i) && is_one(opts, ids, j) && #[trigger] prevents_it(opts, i, j)
            ==> !rules::is_exclusive(opts[i].group_type) && !rules::is_exclusive(opts[j].group_type)
}

/// An edge from an option to one that it implies.
pub open spec fn implied_edge(opts: Seq<OptionView>, ids: Seq<usize>) -> spec_fn(int, int) -> bool {
    |i: int, j: int| is_one(opts, ids, i) && is_one(opts, ids, j) && implies_it(opts, i, j)
}

/// Whether option `i` implies option `j`, directly or through others, or is it.
pub open spec fn entails(opts: Seq<OptionView>, ids: Seq<usize>, i: int, j: int) -> bool {
    reach::reaches(reach::only(i), implied_edge(opts, ids), j)
}

/// Nothing that an option entails prevents anything else that it entails.
pub open spec fn in_harmony(opts: Seq<OptionView>, ids: Seq<usize>) -> bool {
    forall|i: int, a: int, b: int|
        is_one(opts, ids, i) && #[trigger] entails(opts, ids, i, a) && #[trigger] entails(
            opts,
            ids,
            i,
            b,
        ) ==> !prevents_it(opts, a, b)
}

/// Whether an option is on a worklist.
pub open spec fn on_it(work: Seq<usize>, x: int) -> bool {
    0 <= x <= usize::MAX && work.contains(x as usize)
}

/// What a worklist of what an option entails has: its items are options, what
/// they imply is on it, each but the first is implied by one of them, and none
/// prevents another.
spec fn is_closed(d: Seq<OptionView>, ids: Seq<usize>, work: Seq<usize>, k: usize) -> bool {
    &&& on_it(work, k as int)
    &&& forall|x: int| #[trigger] on_it(work, x) ==> is_one(d, ids, x)
    &&& forall|i: int, j: int|
        on_it(work, i) && is_one(d, ids, j) && #[trigger] implies_it(d, i, j) ==> on_it(work, j)
    &&& forall|x: int| #[trigger]
        on_it(work, x) && x != k ==> exists|i: int|
            on_it(work, i) && #[trigger] implies_it(d, i, x)
    &&& forall|i: int, j: int|
        on_it(work, i) && on_it(work, j) ==> !#[trigger] prevents_it(d, i, j)
}

/// How the options are set while a worklist is worked off: what is not on it and
/// is set has what it implies set, and prevents nothing else that is not on it
/// and is set.
spec fn is_sound(
    d: Seq<OptionView>,
    s: Seq<OptionView>,
    ids: Seq<usize>,
    work: Seq<usize>,
) -> bool {
    &&& rules::same_but_state(s, d)
    &&& forall|i: int, j: int|
        is_one(d, ids, i) && is_one(d, ids, j) && !on_it(work, i) && s[i].enabled && #[trigger]
        implies_it(d, i, j) ==> s[j].enabled
    &&& forall|i: int, j: int|
        is_one(d, ids, i) && is_one(d, ids, j) && !on_it(work, i) && !on_it(work, j)
            && s[i].enabled && s[j].enabled ==> !#[trigger] prevents_it(d, i, j)
}

/// Nothing that is not on a worklist has been turned on, and nothing on it off.
spec fn goes_on(r: Seq<OptionView>, s: Seq<OptionView>, work: Seq<usize>) -> bool {
    &&& r.len() == s.len()
    &&& forall|x: int|
        #![trigger r[x]]
        0 <= x < s.len() && !on_it(work, x) && r[x].enabled ==> s[x].enabled
    &&& forall|x: int|
        #![trigger r[x]]
        0 <= x < s.len() && on_it(work, x) && s[x].enabled ==> r[x].enabled
}

proof fn lemma_goes_on(a: Seq<OptionView>, b: Seq<OptionView>, c: Seq<OptionView>, work: Seq<usize>)
    requires
        goes_on(a, b, work),
        goes_on(b, c, work),
    ensures
        goes_on(a, c, work),
{
    assert forall|x: int|
        #![trigger a[x]]
        0 <= x < c.len() && !on_it(work, x) && a[x].enabled implies c[x].enabled by {
        assert(b[x].enabled);
    }
    assert forall|x: int|
        #![trigger a[x]]
        0 <= x < c.len() && on_it(work, x) && c[x].enabled implies a[x].enabled by {
        assert(b[x].enabled);
    }
}

/// Nothing that is set and not on a worklist prevents option `w`.
spec fn is_free(
    d: Seq<OptionView>,
    s: Seq<OptionView>,
    ids: Seq<usize>,
    work: Seq<usize>,
    w: int,
) -> bool {
    forall|i: int|
        is_one(d, ids, i) && !on_it(work, i) && s[i].enabled ==> !#[trigger] prevents_it(d, i, w)
}

/// Option `w` prevents nothing that is set and not on a worklist.
spec fn is_quiet(
    d: Seq<OptionView>,
    s: Seq<OptionView>,
    ids: Seq<usize>,
    work: Seq<usize>,
    w: int,
) -> bool {
    forall|j: int|
        is_one(d, ids, j) && !on_it(work, j) && s[j].enabled ==> !#[trigger] prevents_it(d, w, j)
}

proof fn lemma_stays(
    d: Seq<OptionView>,
    r: Seq<OptionView>,
    s: Seq<OptionView>,
    ids: Seq<usize>,
    work: Seq<usize>,
    w: int,
)
    requires
        s.len() == d.len(),
        goes_on(r, s, work),
    ensures
        is_free(d, s, ids, work, w) ==> is_free(d, r, ids, work, w),
        is_quiet(d, s, ids, work, w) ==> is_quiet(d, r, ids, work, w),
{
    assert forall|x: int| is_one(d, ids, x) && !on_it(work, x) && #[trigger] r[x].enabled implies
        s[x].enabled by {}
}

/// What options declare does not depend on which are set.
pub proof fn lemma_same(s: Seq<OptionView>, d: Seq<OptionView>, i: int)
    requires
        rules::same_but_state(s, d),
        0 <= i < d.len(),
    ensures
        s[i].name == d[i].name,
        s[i].implies == d[i].implies,
        s[i].prevents == d[i].prevents,
        s[i].group_type == d[i].group_type,
        s[i].group_name == d[i].group_name,
{
    assert(s[i] == (OptionView { enabled: s[i].enabled, ..d[i] }));
}

/// Turning off an option that is not on the worklist, with what leads to it.
proof fn lemma_off(
    d: Seq<OptionView>,
    s: Seq<OptionView>,
    ids: Seq<usize>,
    work: Seq<usize>,
    k: usize,
    q: int,
)
    requires
        relate_plainly(d, ids),
        is_closed(d, ids, work, k),
        is_sound(d, s, ids, work),
        is_one(d, ids, q),
        !on_it(work, q),
        !rules::is_exclusive(d[q].group_type),
    ensures
        is_sound(d, rules::switched_off(s, ids, q), ids, work),
        goes_on(rules::switched_off(s, ids, q), s, work),
        !rules::switched_off(s, ids, q)[q].enabled,
{
    let r = rules::switched_off(s, ids, q);
    let edge = rules::implier_edge(s, ids);
    let inside = |x: int|
        is_one(d, ids, x) && !on_it(work, x) && !rules::is_exclusive(d[x].group_type);
    assert forall|w: int, y: int| inside(w) && #[trigger] edge(w, y) implies inside(y) by {
        lemma_same(s, d, w);
        lemma_same(s, d, y);
        assert(is_one(d, ids, y) && implies_it(d, y, w));
    }
    assert forall|x: int| #[trigger] rules::leads_to(s, ids, q, x) implies inside(x) by {
        reach::lemma_closed_holds(reach::only(q), edge, inside, x);
    }
    if rules::held(s, ids, q) {
        let j = choose|j: int|
            0 <= j < s.len() && #[trigger] rules::leads_to(s, ids, q, j) && s[j].enabled
                && rules::is_single(s[j].group_type);
        lemma_same(s, d, j);
        assert(inside(j));
    }
    reach::lemma_start_reached(reach::only(q), edge, q);
    rules::lemma_switched_state(s, ids, q);
    rules::lemma_state_trans(r, s, d);
    assert forall|i: int, j: int|
        is_one(d, ids, i) && is_one(d, ids, j) && !on_it(work, i) && r[i].enabled && #[trigger]
        implies_it(d, i, j) implies r[j].enabled by {
        assert(s[i].enabled && s[j].enabled);
        if rules::leads_to(s, ids, q, j) {
            lemma_same(s, d, i);
            lemma_same(s, d, j);
            assert(edge(j, i));
            reach::lemma_edge_reached(reach::only(q), edge, j, i);
        }
    }
}

/// What prevents an option that is on the worklist goes off.
proof fn lemma_freed(
    d: Seq<OptionView>,
    s: Seq<OptionView>,
    ids: Seq<usize>,
    work: Seq<usize>,
    k: usize,
    w: int,
    n: int,
)
    requires
        graph::in_range(ids, d.len()),
        relate_plainly(d, ids),
        is_closed(d, ids, work, k),
        is_sound(d, s, ids, work),
        on_it(work, w),
        0 <= n <= ids.len(),
    ensures
        is_sound(d, rules::preventers_off(s, ids, w, n), ids, work),
        goes_on(rules::preventers_off(s, ids, w, n), s, work),
        forall|m: int|
            0 <= m < n && rules::prevents_now(s, w, #[trigger] ids[m] as int)
                ==> !rules::preventers_off(s, ids, w, n)[ids[m] as int].enabled,
    decreases n,
{
    if n > 0 {
        lemma_freed(d, s, ids, work, k, w, n - 1);
        let a = rules::preventers_off(s, ids, w, n - 1);
        let r = rules::preventers_off(s, ids, w, n);
        let q = ids[n - 1] as int;
        assert(graph::listed(ids, q));
        lemma_same(s, d, q);
        lemma_same(s, d, w);
        if rules::prevents_now(s, w, q) {
            assert(is_one(d, ids, q) && is_one(d, ids, w) && prevents_it(d, q, w));
            assert(!on_it(work, q));
            lemma_off(d, a, ids, work, k, q);
            lemma_goes_on(r, a, s, work);
        }
        assert forall|m: int|
            0 <= m < n && rules::prevents_now(s, w, #[trigger] ids[m] as int) implies !r[ids[m]
            as int].enabled by {
            let x = ids[m] as int;
            assert(graph::listed(ids, x));
            lemma_same(s, d, x);
            assert(prevents_it(d, x, w));
            assert(!on_it(work, x));
            if m < n - 1 {
                assert(!a[x].enabled);
            }
        }
    }
}

pub proof fn lemma_no_siblings(s: Seq<OptionView>, ids: Seq<usize>, w: int, n: int)
    requires
        0 <= w < s.len(),
        !rules::is_exclusive(s[w].group_type),
    ensures
        rules::siblings_off(s, ids, w, n) == rules::set_at(s, w, true),
    decreases n,
{
    if n > 0 {
        lemma_no_siblings(s, ids, w, n - 1);
    }
}

/// Turning on an option that is on the worklist.
proof fn lemma_on(
    d: Seq<OptionView>,
    s: Seq<OptionView>,
    ids: Seq<usize>,
    work: Seq<usize>,
    k: usize,
    w: int,
)
    requires
        graph::in_range(ids, d.len()),
        relate_plainly(d, ids),
        is_closed(d, ids, work, k),
        is_sound(d, s, ids, work),
        on_it(work, w),
        !rules::is_exclusive(d[w].group_type),
    ensures
        is_sound(d, rules::turned_on(s, ids, w), ids, work),
        goes_on(rules::turned_on(s, ids, w), s, work),
        rules::turned_on(s, ids, w)[w].enabled,
        is_free(d, rules::turned_on(s, ids, w), ids, work, w),
{
    let n = ids.len() as int;
    let a = rules::set_at(s, w, true);
    let r = rules::turned_on(s, ids, w);
    assert(is_one(d, ids, w));
    lemma_same(s, d, w);
    lemma_no_siblings(s, ids, w, n);
    assert(rules::same_but_state(a, s));
    rules::lemma_state_trans(a, s, d);
    assert(is_sound(d, a, ids, work));
    assert(goes_on(a, s, work));
    lemma_freed(d, a, ids, work, k, w, n);
    lemma_goes_on(r, a, s, work);
    assert forall|i: int|
        is_one(d, ids, i) && !on_it(work, i) && r[i].enabled implies !#[trigger] prevents_it(
        d,
        i,
        w,
    ) by {
        assert(a[i].enabled);
        if prevents_it(d, i, w) {
            let m = choose|m: int| 0 <= m < ids.len() && #[trigger] ids[m] == i;
            lemma_same(a, d, i);
            lemma_same(a, d, w);
            assert(rules::prevents_now(a, w, ids[m] as int));
        }
    }
    assert(a[w].enabled);
}

/// Which of a port's options a name stands for.
pub proof fn lemma_named_one(a: Seq<OptionView>, ids: Seq<usize>, name: Seq<char>, i: int)
    requires
        graph::in_range(ids, a.len()),
        named_apart(a, ids),
        is_one(a, ids, i),
    ensures
        rules::named(a, ids, name) matches Some(id) ==> is_one(a, ids, id as int)
            && a[id as int].name == name && (a[i].name == name <==> i == id),
        rules::named(a, ids, name) is None ==> a[i].name != name,
{
    rules::lemma_named(a, ids, name, 0);
    if let Some(id) = rules::named(a, ids, name) {
        assert(is_one(a, ids, id as int));
    } else {
        let m = choose|m: int| 0 <= m < ids.len() && #[trigger] ids[m] == i;
        assert(a[ids[m] as int].name != name);
    }
}

/// Whether one of the first `n` names is this one.
pub open spec fn among(names: Seq<Seq<char>>, n: int, name: Seq<char>) -> bool {
    exists|m: int| 0 <= m < n && #[trigger] names[m] == name
}

/// What an option on the worklist implies goes on.
proof fn lemma_implied(
    d: Seq<OptionView>,
    s: Seq<OptionView>,
    ids: Seq<usize>,
    work: Seq<usize>,
    k: usize,
    w: int,
    n: int,
)
    requires
        graph::in_range(ids, d.len()),
        named_apart(d, ids),
        relate_plainly(d, ids),
        is_closed(d, ids, work, k),
        is_sound(d, s, ids, work),
        on_it(work, w),
        0 <= n <= d[w].implies.len(),
    ensures
        is_sound(d, rules::implied_on(s, ids, d[w].implies, n), ids, work),
        goes_on(rules::implied_on(s, ids, d[w].implies, n), s, work),
        forall|j: int|
            is_one(d, ids, j) && #[trigger] among(d[w].implies, n, d[j].name) ==> rules::implied_on(
                s,
                ids,
                d[w].implies,
                n,
            )[j].enabled && is_free(
                d,
                rules::implied_on(s, ids, d[w].implies, n),
                ids,
                work,
                j,
            ),
    decreases n,
{
    let names = d[w].implies;
    let r = rules::implied_on(s, ids, names, n);
    if n > 0 {
        lemma_implied(d, s, ids, work, k, w, n - 1);
        let a = rules::implied_on(s, ids, names, n - 1);
        let name = names[n - 1];
        rules::lemma_named_state(a, d, ids, name, 0);
        lemma_named_one(d, ids, name, w);
        if let Some(id) = rules::named(a, ids, name) {
            assert(implies_it(d, w, id as int));
            lemma_on(d, a, ids, work, k, id as int);
            lemma_goes_on(r, a, s, work);
        }
        assert forall|j: int| is_one(d, ids, j) && #[trigger] among(
            names,
            n,
            d[j].name,
        ) implies r[j].enabled && is_free(d, r, ids, work, j) by {
            lemma_named_one(d, ids, name, j);
            assert(names.contains(d[j].name)) by {
                let m = choose|m: int| 0 <= m < n && #[trigger] names[m] == d[j].name;
                assert(names[m] == d[j].name);
            }
            assert(implies_it(d, w, j));
            assert(on_it(work, j));
            if d[j].name != name {
                let m = choose|m: int| 0 <= m < n && #[trigger] names[m] == d[j].name;
                assert(m < n - 1);
                assert(among(names, n - 1, d[j].name));
                lemma_stays(d, r, a, ids, work, j);
            }
        }
    }
}

/// What an option on the worklist prevents goes off.
proof fn lemma_prevented(
    d: Seq<OptionView>,
    s: Seq<OptionView>,
    ids: Seq<usize>,
    work: Seq<usize>,
    k: usize,
    w: int,
    n: int,
)
    requires
        graph::in_range(ids, d.len()),
        named_apart(d, ids),
        relate_plainly(d, ids),
        is_closed(d, ids, work, k),
        is_sound(d, s, ids, work),
        on_it(work, w),
        0 <= n <= d[w].prevents.len(),
    ensures
        is_sound(d, rules::prevented_off(s, ids, d[w].prevents, n), ids, work),
        goes_on(rules::prevented_off(s, ids, d[w].prevents, n), s, work),
        forall|j: int|
            is_one(d, ids, j) && #[trigger] among(d[w].prevents, n, d[j].name)
                ==> !rules::prevented_off(s, ids, d[w].prevents, n)[j].enabled,
    decreases n,
{
    let names = d[w].prevents;
    let r = rules::prevented_off(s, ids, names, n);
    if n > 0 {
        lemma_prevented(d, s, ids, work, k, w, n - 1);
        let a = rules::prevented_off(s, ids, names, n - 1);
        let name = names[n - 1];
        rules::lemma_named_state(a, d, ids, name, 0);
        lemma_named_one(d, ids, name, w);
        if let Some(id) = rules::named(a, ids, name) {
            assert(prevents_it(d, w, id as int));
            assert(!on_it(work, id as int));
            lemma_off(d, a, ids, work, k, id as int);
            assert(goes_on(r, a, work));
            lemma_goes_on(r, a, s, work);
        }
        assert forall|j: int| is_one(d, ids, j) && #[trigger] among(
            names,
            n,
            d[j].name,
        ) implies !r[j].enabled by {
            lemma_named_one(d, ids, name, j);
            if d[j].name != name {
                let m = choose|m: int| 0 <= m < n && #[trigger] names[m] == d[j].name;
                assert(m < n - 1);
                assert(among(names, n - 1, d[j].name));
                assert(names[m] == d[j].name);
                assert(prevents_it(d, w, j));
                assert(!on_it(work, j));
            }
        }
    }
}

/// What the declarations of the first `n` options of a worklist have done.
spec fn worked_off(
    d: Seq<OptionView>,
    r: Seq<OptionView>,
    ids: Seq<usize>,
    work: Seq<usize>,
    n: int,
) -> bool {
    &&& forall|h: int, j: int|
        0 <= h < n && is_one(d, ids, j) && #[trigger] implies_it(d, work[h] as int, j)
            ==> r[j].enabled && is_free(d, r, ids, work, j)
    &&& forall|h: int| 0 <= h < n ==> is_quiet(d, r, ids, work, #[trigger] work[h] as int)
}

proof fn lemma_worked_off(
    d: Seq<OptionView>,
    t: Seq<OptionView>,
    ids: Seq<usize>,
    work: Seq<usize>,
    k: usize,
    n: int,
)
    requires
        graph::in_range(ids, d.len()),
        named_apart(d, ids),
        relate_plainly(d, ids),
        is_closed(d, ids, work, k),
        is_sound(d, t, ids, work),
        0 <= n <= work.len(),
    ensures
        is_sound(d, rules::declared_upto(t, ids, work, n), ids, work),
        goes_on(rules::declared_upto(t, ids, work, n), t, work),
        worked_off(d, rules::declared_upto(t, ids, work, n), ids, work, n),
    decreases n,
{
    if n > 0 {
        lemma_worked_off(d, t, ids, work, k, n - 1);
        let a = rules::declared_upto(t, ids, work, n - 1);
        let w = work[n - 1] as int;
        assert(work.contains(work[n - 1]));
        assert(on_it(work, w));
        assert(is_one(d, ids, w));
        lemma_same(a, d, w);
        let x = d[w].implies.len() as int;
        let y = d[w].prevents.len() as int;
        let b = rules::implied_on(a, ids, d[w].implies, x);
        let r = rules::declared_upto(t, ids, work, n);
        lemma_implied(d, a, ids, work, k, w, x);
        lemma_prevented(d, b, ids, work, k, w, y);
        assert(r == rules::prevented_off(b, ids, d[w].prevents, y));
        lemma_goes_on(r, b, a, work);
        lemma_goes_on(r, a, t, work);
        assert forall|h: int, j: int|
            0 <= h < n && is_one(d, ids, j) && #[trigger] implies_it(
                d,
                work[h] as int,
                j,
            ) implies r[j].enabled && is_free(d, r, ids, work, j) by {
            assert(work.contains(work[h]));
            assert(on_it(work, work[h] as int));
            assert(on_it(work, j));
            if h < n - 1 {
                assert(a[j].enabled && is_free(d, a, ids, work, j));
                lemma_stays(d, r, a, ids, work, j);
            } else {
                let m = choose|m: int| 0 <= m < d[w].implies.len() && d[w].implies[m] == d[j].name;
                assert(among(d[w].implies, x, d[j].name));
                lemma_stays(d, r, b, ids, work, j);
            }
        }
        assert forall|h: int| 0 <= h < n implies is_quiet(
            d,
            r,
            ids,
            work,
            #[trigger] work[h] as int,
        ) by {
            if h < n - 1 {
                lemma_stays(d, r, a, ids, work, work[h] as int);
            } else {
                assert forall|j: int|
                    is_one(d, ids, j) && !on_it(work, j) && r[j].enabled implies !#[trigger]
                prevents_it(d, w, j) by {
                    if prevents_it(d, w, j) {
                        let m = choose|m: int|
                            0 <= m < d[w].prevents.len() && d[w].prevents[m] == d[j].name;
                        assert(among(d[w].prevents, y, d[j].name));
                    }
                }
            }
        }
    }
}

/// A worklist of what an option entails: its items are options, once each, and
/// each is entailed, the first by being it and the others by being implied by
/// one of them.
pub open spec fn is_rooted(d: Seq<OptionView>, ids: Seq<usize>, work: Seq<usize>, k: usize) -> bool {
    &&& rules::is_worklist(work, ids)
    &&& work.contains(k)
    &&& forall|h: int|
        0 <= h < work.len() ==> entails(d, ids, k as int, #[trigger] work[h] as int) && (work[h]
            == k || exists|i: int|
            on_it(work, i) && #[trigger] implies_it(d, i, work[h] as int))
}

/// Whether what the first `n` options of a worklist imply is on it.
pub open spec fn follows(d: Seq<OptionView>, ids: Seq<usize>, work: Seq<usize>, n: int) -> bool {
    forall|h: int, j: int|
        0 <= h < n && is_one(d, ids, j) && #[trigger] implies_it(d, work[h] as int, j)
            ==> work.contains(j as usize)
}

proof fn lemma_grown(
    d: Seq<OptionView>,
    ids: Seq<usize>,
    work: Seq<usize>,
    k: usize,
    head: int,
    n: int,
)
    requires
        graph::in_range(ids, d.len()),
        named_apart(d, ids),
        is_rooted(d, ids, work, k),
        0 <= head < work.len(),
        0 <= n <= d[work[head] as int].implies.len(),
    ensures
        ({
            let r = rules::grown(d, ids, work, d[work[head] as int].implies, n);
            &&& is_rooted(d, ids, r, k)
            &&& work.len() <= r.len()
            &&& forall|h: int| 0 <= h < work.len() ==> #[trigger] r[h] == work[h]
            &&& forall|j: int|
                is_one(d, ids, j) && #[trigger] among(
                    d[work[head] as int].implies,
                    n,
                    d[j].name,
                ) ==> r.contains(j as usize)
        }),
    decreases n,
{
    let w = work[head] as int;
    let names = d[w].implies;
    if n > 0 {
        lemma_grown(d, ids, work, k, head, n - 1);
        let a = rules::grown(d, ids, work, names, n - 1);
        let r = rules::grown(d, ids, work, names, n);
        let name = names[n - 1];
        lemma_listed(d, ids, work, head);
        lemma_named_one(d, ids, name, w);
        rules::lemma_named(d, ids, name, 0);
        assert forall|x: usize| a.contains(x) implies #[trigger] r.contains(x) by {
            let h = choose|h: int| 0 <= h < a.len() && a[h] == x;
            assert(r[h] == x);
        }
        assert(a[head] == work[head]);
        assert(r[head] == work[head]);
        assert(r.contains(r[head]));
        if let Some(id) = rules::named(d, ids, name) {
            assert(implies_it(d, w, id as int));
            if !a.contains(id) {
                assert(r[r.len() - 1] == id);
                assert(entails(d, ids, k as int, a[head] as int));
                assert(implied_edge(d, ids)(w, id as int));
                reach::lemma_edge_reached(
                    reach::only(k as int),
                    implied_edge(d, ids),
                    w,
                    id as int,
                );
            }
            assert(r.contains(id));
        }
        assert forall|h: int| 0 <= h < r.len() implies entails(
            d,
            ids,
            k as int,
            #[trigger] r[h] as int,
        ) && (r[h] == k || exists|i: int|
            on_it(r, i) && #[trigger] implies_it(d, i, r[h] as int)) by {
            if h < a.len() {
                assert(r[h] == a[h]);
                if a[h] != k {
                    let i = choose|i: int|
                        on_it(a, i) && #[trigger] implies_it(d, i, a[h] as int);
                    assert(on_it(r, i) && implies_it(d, i, r[h] as int));
                }
            } else {
                assert(on_it(r, w) && implies_it(d, w, r[h] as int));
            }
        }
        assert(rules::is_worklist(r, ids));
        assert forall|j: int| is_one(d, ids, j) && #[trigger] among(
            names,
            n,
            d[j].name,
        ) implies r.contains(j as usize) by {
            lemma_named_one(d, ids, name, j);
            if d[j].name != name {
                let m = choose|m: int| 0 <= m < n && #[trigger] names[m] == d[j].name;
                assert(m < n - 1);
                assert(among(names, n - 1, d[j].name));
                assert(a.contains(j as usize));
            }
        }
    }
}

/// What stands on a worklist is one of the options.
pub proof fn lemma_listed(d: Seq<OptionView>, ids: Seq<usize>, work: Seq<usize>, h: int)
    requires
        graph::in_range(ids, d.len()),
        rules::is_worklist(work, ids),
        0 <= h < work.len(),
    ensures
        is_one(d, ids, work[h] as int),
{
    assert(ids.contains(work[h]));
    let m = choose|m: int| 0 <= m < ids.len() && ids[m] == work[h];
    assert(ids[m] == work[h] as int);
}

pub proof fn lemma_worked(
    d: Seq<OptionView>,
    ids: Seq<usize>,
    work: Seq<usize>,
    k: usize,
    head: int,
)
    requires
        graph::in_range(ids, d.len()),
        named_apart(d, ids),
        is_rooted(d, ids, work, k),
        0 <= head <= work.len(),
        follows(d, ids, work, head),
    ensures
        ({
            let r = rules::worked(d, ids, work, head);
            &&& is_rooted(d, ids, r, k)
            &&& follows(d, ids, r, r.len() as int)
        }),
    decreases ids.len() - head,
{
    reach::lemma_distinct_within(work, ids);
    if head < work.len() && head < ids.len() {
        let names = d[work[head] as int].implies;
        let next = rules::grown(d, ids, work, names, names.len() as int);
        lemma_grown(d, ids, work, k, head, names.len() as int);
        assert forall|h: int, j: int|
            0 <= h < head + 1 && is_one(d, ids, j) && #[trigger] implies_it(
                d,
                next[h] as int,
                j,
            ) implies next.contains(j as usize) by {
            assert(next[h] == work[h]);
            if h < head {
                assert(implies_it(d, work[h] as int, j));
                let q = choose|q: int| 0 <= q < work.len() && work[q] == j as usize;
                assert(next[q] == j as usize);
            } else {
                let m = choose|m: int| 0 <= m < names.len() && names[m] == d[j].name;
                assert(among(names, names.len() as int, d[j].name));
            }
        }
        lemma_worked(d, ids, next, k, head + 1);
    }
}

/// What grows onto a worklist does not depend on which options are set.
proof fn lemma_grown_same(
    t: Seq<OptionView>,
    d: Seq<OptionView>,
    ids: Seq<usize>,
    work: Seq<usize>,
    names: Seq<Seq<char>>,
    n: int,
)
    requires
        rules::same_but_state(t, d),
        graph::in_range(ids, d.len()),
    ensures
        rules::grown(t, ids, work, names, n) == rules::grown(d, ids, work, names, n),
    decreases n,
{
    if n > 0 {
        lemma_grown_same(t, d, ids, work, names, n - 1);
        rules::lemma_named_state(t, d, ids, names[n - 1], 0);
    }
}

pub proof fn lemma_worked_same(
    t: Seq<OptionView>,
    d: Seq<OptionView>,
    ids: Seq<usize>,
    work: Seq<usize>,
    k: usize,
    head: int,
)
    requires
        rules::same_but_state(t, d),
        graph::in_range(ids, d.len()),
        named_apart(d, ids),
        is_rooted(d, ids, work, k),
        0 <= head,
    ensures
        rules::worked(t, ids, work, head) == rules::worked(d, ids, work, head),
    decreases ids.len() - head,
{
    if head < work.len() && head < ids.len() {
        lemma_listed(d, ids, work, head);
        lemma_same(t, d, work[head] as int);
        let names = d[work[head] as int].implies;
        lemma_grown_same(t, d, ids, work, names, names.len() as int);
        lemma_grown(d, ids, work, k, head, names.len() as int);
        lemma_worked_same(
            t,
            d,
            ids,
            rules::grown(d, ids, work, names, names.len() as int),
            k,
            head + 1,
        );
    }
}

/// The worklist of an option in a harmonious port.
proof fn lemma_order(d: Seq<OptionView>, ids: Seq<usize>, k: usize)
    requires
        graph::in_range(ids, d.len()),
        named_apart(d, ids),
        in_harmony(d, ids),
        is_one(d, ids, k as int),
    ensures
        is_rooted(d, ids, seq![k], k),
        is_closed(d, ids, rules::implied_order(d, ids, k), k),
{
    let start = seq![k];
    let work = rules::implied_order(d, ids, k);
    reach::lemma_start_reached(reach::only(k as int), implied_edge(d, ids), k as int);
    assert(start[0] == k);
    assert(ids.contains(k)) by {
        let m = choose|m: int| 0 <= m < ids.len() && #[trigger] ids[m] == k as int;
        assert(ids[m] == k);
    }
    lemma_worked(d, ids, start, k, 0);
    assert forall|x: int| #[trigger] on_it(work, x) implies is_one(d, ids, x) && entails(
        d,
        ids,
        k as int,
        x,
    ) && (x != k ==> exists|i: int| on_it(work, i) && #[trigger] implies_it(d, i, x)) by {
        let h = choose|h: int| 0 <= h < work.len() && work[h] == x as usize;
        lemma_listed(d, ids, work, h);
        assert(work[h] as int == x);
    }
    assert forall|i: int, j: int|
        on_it(work, i) && is_one(d, ids, j) && #[trigger] implies_it(d, i, j) implies on_it(
        work,
        j,
    ) by {
        let h = choose|h: int| 0 <= h < work.len() && work[h] == i as usize;
        assert(work[h] as int == i);
        assert(implies_it(d, work[h] as int, j));
        let m = choose|m: int| 0 <= m < ids.len() && #[trigger] ids[m] == j;
    }
}

/// Turning an option on, with what follows, sets all that it entails and leaves
/// nothing set against a declaration.
proof fn lemma_met(opts: Seq<OptionView>, ids: Seq<usize>, k: usize)
    requires
        graph::in_range(ids, opts.len()),
        named_apart(opts, ids),
        relate_plainly(opts, ids),
        in_harmony(opts, ids),
        rules_kept(opts, ids),
        is_one(opts, ids, k as int),
        !rules::is_exclusive(opts[k as int].group_type),
    ensures
        rules::can_be_on(opts, ids, k),
        rules::with_on(opts, ids, k)[k as int].enabled,
{
    let d = opts;
    let work = rules::implied_order(d, ids, k);
    lemma_order(d, ids, k);
    assert(is_sound(d, d, ids, work));
    let t = rules::turned_on(d, ids, k as int);
    lemma_on(d, d, ids, work, k, k as int);
    lemma_worked_same(t, d, ids, seq![k], k, 0);
    assert(rules::implied_order(t, ids, k) == work);
    let n = work.len() as int;
    let r = rules::with_on(opts, ids, k);
    lemma_worked_off(d, t, ids, work, k, n);
    assert(r == rules::declared_upto(t, ids, work, n));
    lemma_stays(d, r, t, ids, work, k as int);
    assert forall|x: int| #[trigger] on_it(work, x) implies r[x].enabled && is_free(
        d,
        r,
        ids,
        work,
        x,
    ) && is_quiet(d, r, ids, work, x) by {
        let g = choose|g: int| 0 <= g < work.len() && work[g] == x as usize;
        assert(work[g] as int == x);
        assert(is_quiet(d, r, ids, work, work[g] as int));
        if x != k {
            let i = choose|i: int| on_it(work, i) && #[trigger] implies_it(d, i, x);
            let h = choose|h: int| 0 <= h < work.len() && work[h] == i as usize;
            assert(work[h] as int == i);
            assert(implies_it(d, work[h] as int, x));
        } else {
            assert(t[x].enabled);
        }
    }
    assert forall|m: int, q: int|
        0 <= m < ids.len() && 0 <= q < ids.len() && #[trigger] rules::breaks(
            r,
            ids[m] as int,
            ids[q] as int,
        ) implies rules::breaks(opts, ids[m] as int, ids[q] as int) by {
        let i = ids[m] as int;
        let j = ids[q] as int;
        assert(graph::listed(ids, i) && graph::listed(ids, j));
        assert(is_one(d, ids, i) && is_one(d, ids, j));
        lemma_same(r, d, i);
        lemma_same(r, d, j);
        if r[j].enabled {
            assert(prevents_it(d, i, j));
        } else {
            assert(implies_it(d, i, j));
        }
        assert(false);
    }
}

/// Where what the options of a port declare does not pull apart, turning one of
/// them that is in no exclusive group on is met, and sets all that it implies,
/// directly or through others.
pub proof fn a_choice_takes_what_it_implies(
    opts: Seq<OptionView>,
    ids: Seq<usize>,
    name: Seq<char>,
    k: usize,
)
    requires
        graph::in_range(ids, opts.len()),
        named_apart(opts, ids),
        relate_plainly(opts, ids),
        in_harmony(opts, ids),
        rules_kept(opts, ids),
        rules::named(opts, ids, name) == Some(k),
        !rules::is_exclusive(opts[k as int].group_type),
    ensures
        rules::chosen(opts, ids, name, true)[k as int].enabled,
        forall|j: int| #[trigger]
            entails(opts, ids, k as int, j) ==> rules::chosen(opts, ids, name, true)[j].enabled,
{
    let r = rules::chosen(opts, ids, name, true);
    rules::lemma_named(opts, ids, name, 0);
    assert(is_one(opts, ids, k as int));
    lemma_met(opts, ids, k);
    relations::a_choice_keeps_the_rules(opts, ids, name, true);
    rules::lemma_chosen_state(opts, ids, name, true);
    let inside = |x: int| is_one(opts, ids, x) && r[x].enabled;
    let edge = implied_edge(opts, ids);
    assert forall|w: int, y: int| inside(w) && #[trigger] edge(w, y) implies inside(y) by {
        lemma_same(r, opts, w);
        lemma_same(r, opts, y);
        assert(is_one(r, ids, w) && is_one(r, ids, y) && implies_it(r, w, y));
    }
    assert forall|j: int| #[trigger] entails(opts, ids, k as int, j) implies r[j].enabled by {
        reach::lemma_closed_holds(reach::only(k as int), edge, inside, j);
    }
}

/// Nothing follows the members of a group that give way.
proof fn lemma_siblings_alone(opts: Seq<OptionView>, ids: Seq<usize>, k: int, n: int)
    requires
        graph::in_range(ids, opts.len()),
        relate_plainly(opts, ids),
        is_one(opts, ids, k),
        rules::is_exclusive(opts[k].group_type),
        n <= ids.len(),
    ensures
        rules::siblings_off(opts, ids, k, n) == rules::displace(opts, ids, k),
    decreases n,
{
    let r = rules::displace(opts, ids, k);
    if n > 0 {
        lemma_siblings_alone(opts, ids, k, n - 1);
        let q = ids[n - 1] as int;
        assert(graph::listed(ids, q));
        if rules::gives_way(opts, k, q) {
            let edge = rules::implier_edge(r, ids);
            let inside = |x: int| x == q;
            assert forall|w: int, y: int| inside(w) && #[trigger] edge(w, y) implies inside(y) by {
                assert(is_one(opts, ids, y) && is_one(opts, ids, q));
                assert(implies_it(opts, y, q));
            }
            assert forall|x: int| #[trigger] rules::leads_to(r, ids, q, x) implies x == q by {
                reach::lemma_closed_holds(reach::only(q), edge, inside, x);
            }
            assert(!r[q].enabled);
            assert(rules::switched_off(r, ids, q) =~= r);
        }
    }
}

proof fn lemma_unprevented(s: Seq<OptionView>, ids: Seq<usize>, k: int, n: int)
    requires
        forall|m: int| 0 <= m < n ==> !rules::prevents_now(s, k, #[trigger] ids[m] as int),
    ensures
        rules::preventers_off(s, ids, k, n) == s,
    decreases n,
{
    if n > 0 {
        lemma_unprevented(s, ids, k, n - 1);
    }
}

/// An option that names none of its port implies nothing.
proof fn lemma_names_none(
    s: Seq<OptionView>,
    ids: Seq<usize>,
    work: Seq<usize>,
    names: Seq<Seq<char>>,
    n: int,
)
    requires
        n <= names.len(),
        forall|m: int| 0 <= m < names.len() ==> rules::named(s, ids, #[trigger] names[m]) is None,
    ensures
        rules::grown(s, ids, work, names, n) == work,
        rules::implied_on(s, ids, names, n) == s,
        rules::prevented_off(s, ids, names, n) == s,
    decreases n,
{
    if n > 0 {
        lemma_names_none(s, ids, work, names, n - 1);
    }
}

/// Where only options in no exclusive group imply and prevent others, turning a
/// member of an exclusive group on is met: it takes the group, and nothing else
/// changes.
pub proof fn a_member_takes_its_group(
    opts: Seq<OptionView>,
    ids: Seq<usize>,
    name: Seq<char>,
    k: usize,
)
    requires
        graph::in_range(ids, opts.len()),
        relate_plainly(opts, ids),
        rules::named(opts, ids, name) == Some(k),
        rules::is_exclusive(opts[k as int].group_type),
    ensures
        rules::chosen(opts, ids, name, true) == rules::displace(opts, ids, k as int),
{
    let s = rules::displace(opts, ids, k as int);
    let n = ids.len() as int;
    rules::lemma_named(opts, ids, name, 0);
    assert(is_one(opts, ids, k as int));
    lemma_siblings_alone(opts, ids, k as int, n);
    assert(rules::same_but_state(s, opts));
    assert forall|m: int| 0 <= m < n implies !rules::prevents_now(
        s,
        k as int,
        #[trigger] ids[m] as int,
    ) by {
        let i = ids[m] as int;
        assert(graph::listed(ids, i));
        assert(is_one(opts, ids, i));
        if rules::prevents_now(s, k as int, i) {
            assert(prevents_it(opts, i, k as int));
        }
    }
    lemma_unprevented(s, ids, k as int, n);
    assert(rules::turned_on(opts, ids, k as int) == s);
    let implied = s[k as int].implies;
    let prevented = s[k as int].prevents;
    assert forall|m: int| 0 <= m < implied.len() implies rules::named(
        s,
        ids,
        #[trigger] implied[m],
    ) is None by {
        rules::lemma_named(s, ids, implied[m], 0);
        if let Some(id) = rules::named(s, ids, implied[m]) {
            assert(is_one(opts, ids, id as int));
            assert(implies_it(opts, k as int, id as int));
        }
    }
    assert forall|m: int| 0 <= m < prevented.len() implies rules::named(
        s,
        ids,
        #[trigger] prevented[m],
    ) is None by {
        rules::lemma_named(s, ids, prevented[m], 0);
        if let Some(id) = rules::named(s, ids, prevented[m]) {
            assert(is_one(opts, ids, id as int));
            assert(prevents_it(opts, k as int, id as int));
        }
    }
    let work = seq![k];
    lemma_names_none(s, ids, work, implied, implied.len() as int);
    lemma_names_none(s, ids, work, prevented, prevented.len() as int);
    assert(work[0] == k);
    assert(rules::worked(s, ids, work, 1) == work);
    assert(rules::implied_order(s, ids, k) == work);
    assert(rules::declared_upto(s, ids, work, 0) == s);
    assert(rules::declared(s, ids, k as int) == s);
    assert(rules::declared_upto(s, ids, work, 1) == s);
    assert(rules::with_on(opts, ids, k) == s);
    assert forall|m: int, q: int|
        0 <= m < ids.len() && 0 <= q < ids.len() && #[trigger] rules::breaks(
            s,
            ids[m] as int,
            ids[q] as int,
        ) implies rules::breaks(opts, ids[m] as int, ids[q] as int) by {
        let i = ids[m] as int;
        let j = ids[q] as int;
        assert(graph::listed(ids, i) && graph::listed(ids, j));
        assert(is_one(opts, ids, i) && is_one(opts, ids, j));
        if s[j].enabled {
            assert(prevents_it(opts, i, j));
        } else {
            assert(implies_it(opts, i, j));
        }
        assert(s[i] == opts[i] && s[j] == opts[j]);
    }
}

} // verus!
