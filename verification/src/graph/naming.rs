//! That the ports a list starts from are those that the patterns name, and that
//! groups hold just the ports that were put into them.
use super::adopt;
use super::choice;
use super::groups;
use super::targets;
use super::targets::{TargetErrorView, TargetsView};
use super::walk;
use super::GroupView;
use crate::glob;
use crate::graph;
use crate::order;
use crate::text;
use vstd::prelude::*;

verus! {

/// Whether a pattern names an origin: with a metacharacter in it, a listed one
/// that it takes; without, itself, where it is there.
pub open spec fn names(
    pattern: Seq<char>,
    listing: Seq<Seq<char>>,
    there: bool,
    x: Seq<char>,
) -> bool {
    if pattern.contains('*') || pattern.contains('?') || pattern.contains('[') {
        listing.contains(x) && glob::takes(glob::pattern_of(pattern), x)
    } else {
        there && x == pattern
    }
}

/// Whether one of the patterns names an origin.
pub open spec fn is_named(
    patterns: Seq<Seq<char>>,
    listing: Seq<Seq<char>>,
    there: Seq<bool>,
    x: Seq<char>,
) -> bool {
    exists|i: int|
        0 <= i < patterns.len() && names(#[trigger] patterns[i], listing, there[i], x)
}

proof fn lemma_meta(p: Seq<char>)
    ensures
        glob::has_meta(p) == (p.contains('*') || p.contains('?') || p.contains('[')),
{
    if glob::has_meta(p) {
        let i = choose|i: int|
            0 <= i < p.len() && (p[i] == '*' || p[i] == '?' || #[trigger] p[i] == '[');
        assert(p.contains(p[i]));
    }
    if p.contains('*') {
        let i = choose|i: int| 0 <= i < p.len() && p[i] == '*';
        assert(p[i] == '*');
    }
    if p.contains('?') {
        let i = choose|i: int| 0 <= i < p.len() && p[i] == '?';
        assert(p[i] == '?');
    }
    if p.contains('[') {
        let i = choose|i: int| 0 <= i < p.len() && p[i] == '[';
        assert(p[i] == '[');
    }
}

proof fn lemma_taken(pattern: Seq<char>, listing: Seq<Seq<char>>, n: int, x: Seq<char>)
    requires
        0 <= n <= listing.len(),
    ensures
        targets::taken_upto(pattern, listing, n).contains(x) <==> listing.take(n).contains(x)
            && glob::takes(glob::pattern_of(pattern), x),
    decreases n,
{
    if n > 0 {
        lemma_taken(pattern, listing, n - 1, x);
        let r = targets::taken_upto(pattern, listing, n);
        assert(listing.take(n).drop_last() =~= listing.take(n - 1));
        order::lemma_contains_last(listing.take(n), x);
        if glob::takes(glob::pattern_of(pattern), listing[n - 1]) {
            assert(r.drop_last() =~= targets::taken_upto(pattern, listing, n - 1));
            order::lemma_contains_last(r, x);
        }
    } else {
        assert(listing.take(n) =~= seq![]);
    }
}

proof fn lemma_named_by(pattern: Seq<char>, listing: Seq<Seq<char>>, there: bool, x: Seq<char>)
    ensures
        targets::named_by(pattern, listing, there).contains(x) <==> names(
            pattern,
            listing,
            there,
            x,
        ),
{
    lemma_meta(pattern);
    lemma_taken(pattern, listing, listing.len() as int, x);
    assert(listing.take(listing.len() as int) =~= listing);
    assert(seq![pattern].contains(x) <==> x == pattern) by {
        assert(seq![pattern][0] == pattern);
    }
    assert(!Seq::<Seq<char>>::empty().contains(x));
}

proof fn lemma_met(seen: Seq<Seq<char>>, more: Seq<Seq<char>>, n: int, x: Seq<char>)
    requires
        0 <= n <= more.len(),
    ensures
        walk::met(seen, more, n).contains(x) <==> seen.contains(x) || more.take(n).contains(x),
        seen.no_duplicates() ==> walk::met(seen, more, n).no_duplicates(),
    decreases n,
{
    if n > 0 {
        lemma_met(seen, more, n - 1, x);
        let s = walk::met(seen, more, n - 1);
        let r = walk::met(seen, more, n);
        assert(more.take(n).drop_last() =~= more.take(n - 1));
        order::lemma_contains_last(more.take(n), x);
        if !s.contains(more[n - 1]) {
            assert(r.drop_last() =~= s);
            order::lemma_contains_last(r, x);
        }
    } else {
        assert(more.take(n) =~= seq![]);
    }
}

proof fn lemma_named_upto(
    patterns: Seq<Seq<char>>,
    listing: Seq<Seq<char>>,
    there: Seq<bool>,
    n: int,
    x: Seq<char>,
)
    requires
        0 <= n <= patterns.len(),
    ensures
        targets::named_upto(patterns, listing, there, n).no_duplicates(),
        targets::named_upto(patterns, listing, there, n).contains(x) <==> exists|i: int|
            0 <= i < n && names(#[trigger] patterns[i], listing, there[i], x),
    decreases n,
{
    if n > 0 {
        lemma_named_upto(patterns, listing, there, n - 1, x);
        let a = targets::named_upto(patterns, listing, there, n - 1);
        let more = targets::named_by(patterns[n - 1], listing, there[n - 1]);
        lemma_met(a, more, more.len() as int, x);
        assert(more.take(more.len() as int) =~= more);
        lemma_named_by(patterns[n - 1], listing, there[n - 1], x);
        if a.contains(x) {
            let i = choose|i: int|
                0 <= i < n - 1 && names(#[trigger] patterns[i], listing, there[i], x);
            assert(names(patterns[i], listing, there[i], x));
        }
        if exists|i: int| 0 <= i < n && names(#[trigger] patterns[i], listing, there[i], x) {
            let i = choose|i: int|
                0 <= i < n && names(#[trigger] patterns[i], listing, there[i], x);
            assert(i < n - 1 || i == n - 1);
        }
    }
}

/// Whether a pattern names nothing.
pub open spec fn names_nothing(pattern: Seq<char>, listing: Seq<Seq<char>>, there: bool) -> bool {
    forall|x: Seq<char>| !#[trigger] names(pattern, listing, there, x)
}

proof fn lemma_unmatched(
    patterns: Seq<Seq<char>>,
    listing: Seq<Seq<char>>,
    there: Seq<bool>,
    n: int,
    p: Seq<char>,
)
    requires
        0 <= n <= patterns.len(),
    ensures
        targets::unmatched_upto(patterns, listing, there, n).contains(p) <==> exists|i: int|
            0 <= i < n && #[trigger] patterns[i] == p && names_nothing(p, listing, there[i]),
    decreases n,
{
    if n > 0 {
        lemma_unmatched(patterns, listing, there, n - 1, p);
        let q = patterns[n - 1];
        let named = targets::named_by(q, listing, there[n - 1]);
        let r = targets::unmatched_upto(patterns, listing, there, n);
        if named.len() == 0 {
            assert forall|x: Seq<char>| !#[trigger] names(q, listing, there[n - 1], x) by {
                lemma_named_by(q, listing, there[n - 1], x);
            }
            assert(r.drop_last() =~= targets::unmatched_upto(patterns, listing, there, n - 1));
            order::lemma_contains_last(r, p);
        } else {
            lemma_named_by(q, listing, there[n - 1], named[0]);
            assert(named.contains(named[0]));
            assert(names(q, listing, there[n - 1], named[0]));
        }
        if exists|i: int|
            0 <= i < n && #[trigger] patterns[i] == p && names_nothing(p, listing, there[i]) {
            let i = choose|i: int|
                0 <= i < n && #[trigger] patterns[i] == p && names_nothing(p, listing, there[i]);
            assert(i < n - 1 || i == n - 1);
        }
        if exists|i: int|
            0 <= i < n - 1 && #[trigger] patterns[i] == p && names_nothing(p, listing, there[i]) {
            let i = choose|i: int|
                0 <= i < n - 1 && #[trigger] patterns[i] == p && names_nothing(
                    p,
                    listing,
                    there[i],
                );
            assert(patterns[i] == p);
        }
    }
}

/// The ports that a list starts from are those that some pattern names, each
/// once and in order, and the patterns that name nothing are told. There is no
/// list where nothing is named, or where a pattern names nothing and that is not
/// to be passed over.
pub proof fn a_list_starts_from_what_is_named(
    patterns: Seq<Seq<char>>,
    listing: Seq<Seq<char>>,
    there: Seq<bool>,
    ports_dir: Seq<char>,
    ignore_missing: bool,
)
    requires
        there.len() == patterns.len(),
    ensures
        match targets::selected(patterns, listing, there, ports_dir, ignore_missing) {
            Ok(t) => {
                &&& t.origins.no_duplicates()
                &&& forall|i: int, j: int|
                    0 <= i < j < t.origins.len() ==> order::text_le(
                        #[trigger] t.origins[i],
                        #[trigger] t.origins[j],
                    )
                &&& forall|x: Seq<char>| #[trigger]
                    t.origins.contains(x) <==> is_named(patterns, listing, there, x)
                &&& forall|p: Seq<char>| #[trigger]
                    t.unmatched.contains(p) <==> exists|i: int|
                        0 <= i < patterns.len() && #[trigger] patterns[i] == p && names_nothing(
                            p,
                            listing,
                            there[i],
                        )
                &&& t.unmatched.len() > 0 ==> ignore_missing
            },
            Err(e) => (forall|x: Seq<char>| !is_named(patterns, listing, there, x)) || (
            !ignore_missing && exists|i: int|
                0 <= i < patterns.len() && names_nothing(
                    #[trigger] patterns[i],
                    listing,
                    there[i],
                )),
        },
{
    broadcast use vstd::seq_lib::group_to_multiset_ensures;

    let n = patterns.len() as int;
    let all = targets::named_upto(patterns, listing, there, n);
    let none = targets::unmatched_upto(patterns, listing, there, n);
    lemma_named_upto(patterns, listing, there, n, seq![]);
    assert forall|x: Seq<char>| #[trigger] all.contains(x) <==> is_named(
        patterns,
        listing,
        there,
        x,
    ) by {
        lemma_named_upto(patterns, listing, there, n, x);
    }
    assert forall|p: Seq<char>| #[trigger] none.contains(p) <==> exists|i: int|
        0 <= i < patterns.len() && #[trigger] patterns[i] == p && names_nothing(
            p,
            listing,
            there[i],
        ) by {
        lemma_unmatched(patterns, listing, there, n, p);
    }
    if all.len() == 0 {
        assert forall|x: Seq<char>| !is_named(patterns, listing, there, x) by {
            assert(!all.contains(x));
        }
    } else if none.len() > 0 && !ignore_missing {
        assert(none.contains(none[0]));
    } else {
        let sorted = order::text_sort(all);
        order::lemma_texts_order();
        order::lemma_sort(all, order::texts_le());
        all.lemma_multiset_has_no_duplicates();
        sorted.lemma_multiset_has_no_duplicates_conv();
        assert forall|x: Seq<char>| #[trigger] sorted.contains(x) <==> all.contains(x) by {
            assert(sorted.contains(x) <==> sorted.to_multiset().count(x) > 0);
            assert(all.contains(x) <==> all.to_multiset().count(x) > 0);
        }
    }
}

/// Whether a port is a member of the group of this name.
pub open spec fn is_member(all: Seq<GroupView>, name: Seq<char>, x: Seq<char>) -> bool {
    exists|i: int|
        0 <= i < all.len() && (#[trigger] all[i]).name == name && all[i].members.contains(x)
}

/// Whether there is a group of this name.
pub open spec fn has_group(all: Seq<GroupView>, name: Seq<char>) -> bool {
    exists|i: int| 0 <= i < all.len() && (#[trigger] all[i]).name == name
}

/// No two groups have one name.
pub open spec fn grouped_apart(all: Seq<GroupView>) -> bool {
    forall|i: int, j: int|
        0 <= i < j < all.len() ==> (#[trigger] all[i]).name != (#[trigger] all[j]).name
}

proof fn lemma_apart(all: Seq<GroupView>)
    requires
        graph::groups_ok(all),
    ensures
        grouped_apart(all),
{
}

proof fn lemma_found(all: Seq<GroupView>, name: Seq<char>, from: int)
    requires
        0 <= from <= all.len(),
    ensures
        match adopt::group_from(all, name, from) {
            Some(i) => from <= i < all.len() && all[i].name == name,
            None => forall|j: int| from <= j < all.len() ==> (#[trigger] all[j]).name != name,
        },
    decreases all.len() - from,
{
    if from < all.len() && all[from].name != name {
        lemma_found(all, name, from + 1);
    }
}

/// Who is a member once the group at one place has these members instead.
proof fn lemma_member_update(
    all: Seq<GroupView>,
    i: int,
    g: GroupView,
    name: Seq<char>,
    x: Seq<char>,
)
    requires
        grouped_apart(all),
        0 <= i < all.len(),
        g.name == all[i].name,
    ensures
        is_member(all.update(i, g), name, x) == if name == g.name {
            g.members.contains(x)
        } else {
            is_member(all, name, x)
        },
        has_group(all.update(i, g), name) == has_group(all, name),
{
    let r = all.update(i, g);
    if is_member(r, name, x) {
        let j = choose|j: int|
            0 <= j < r.len() && (#[trigger] r[j]).name == name && r[j].members.contains(x);
        if j != i {
            assert(all[j] == r[j]);
            assert(all[j].name != all[i].name) by {
                if j < i {
                    assert(all[j].name != all[i].name);
                } else {
                    assert(all[i].name != all[j].name);
                }
            }
        }
    }
    if name == g.name && g.members.contains(x) {
        assert(r[i] == g);
    }
    if name != g.name && is_member(all, name, x) {
        let j = choose|j: int|
            0 <= j < all.len() && (#[trigger] all[j]).name == name && all[j].members.contains(x);
        assert(r[j] == all[j]);
    }
    if has_group(all, name) {
        let j = choose|j: int| 0 <= j < all.len() && (#[trigger] all[j]).name == name;
        assert(r[j].name == name);
    }
    if has_group(r, name) {
        let j = choose|j: int| 0 <= j < r.len() && (#[trigger] r[j]).name == name;
        assert(all[j].name == name);
    }
}

proof fn lemma_member_remove(all: Seq<GroupView>, i: int, name: Seq<char>, x: Seq<char>)
    requires
        grouped_apart(all),
        0 <= i < all.len(),
    ensures
        is_member(all.remove(i), name, x) == (name != all[i].name && is_member(all, name, x)),
        has_group(all.remove(i), name) == (name != all[i].name && has_group(all, name)),
{
    let r = all.remove(i);
    assert forall|j: int| 0 <= j < r.len() implies #[trigger] r[j] == all[if j < i {
        j
    } else {
        j + 1
    }] && r[j].name != all[i].name by {
        if j < i {
            assert(all[j].name != all[i].name);
        } else {
            assert(all[i].name != all[j + 1].name);
        }
    }
    if is_member(all, name, x) && name != all[i].name {
        let j = choose|j: int|
            0 <= j < all.len() && (#[trigger] all[j]).name == name && all[j].members.contains(x);
        let k = if j < i {
            j
        } else {
            j - 1
        };
        assert(r[k] == all[j]);
    }
    if has_group(all, name) && name != all[i].name {
        let j = choose|j: int| 0 <= j < all.len() && (#[trigger] all[j]).name == name;
        let k = if j < i {
            j
        } else {
            j - 1
        };
        assert(r[k] == all[j]);
    }
    if is_member(r, name, x) {
        let j = choose|j: int|
            0 <= j < r.len() && (#[trigger] r[j]).name == name && r[j].members.contains(x);
        assert(r[j].name != all[i].name);
        assert(is_member(all, name, x));
    }
    if has_group(r, name) {
        let j = choose|j: int| 0 <= j < r.len() && (#[trigger] r[j]).name == name;
        assert(r[j].name != all[i].name);
        assert(has_group(all, name));
    }
}

proof fn lemma_member_insert(
    all: Seq<GroupView>,
    i: int,
    g: GroupView,
    name: Seq<char>,
    x: Seq<char>,
)
    requires
        0 <= i <= all.len(),
        !has_group(all, g.name),
    ensures
        is_member(all.insert(i, g), name, x) == (is_member(all, name, x) || name == g.name
            && g.members.contains(x)),
{
    let r = all.insert(i, g);
    if is_member(all, name, x) {
        let j = choose|j: int|
            0 <= j < all.len() && (#[trigger] all[j]).name == name && all[j].members.contains(x);
        let k = if j < i {
            j
        } else {
            j + 1
        };
        assert(r[k] == all[j]);
    }
    if name == g.name && g.members.contains(x) {
        assert(r[i] == g);
    }
    if is_member(r, name, x) {
        let j = choose|j: int|
            0 <= j < r.len() && (#[trigger] r[j]).name == name && r[j].members.contains(x);
        if j < i {
            assert(all[j] == r[j]);
        } else if j > i {
            assert(all[j - 1] == r[j]);
        }
    }
}

/// A port that is put into a group is a member of it, with those that were
/// before; no other group changes.
pub proof fn joining_adds_one_member(
    all: Seq<GroupView>,
    group: Seq<char>,
    origin: Seq<char>,
    name: Seq<char>,
    x: Seq<char>,
)
    requires
        graph::groups_ok(all),
    ensures
        is_member(groups::enrolled(all, group, origin), name, x) == (is_member(all, name, x) || name
            == group && x == origin),
{
    lemma_apart(all);
    lemma_found(all, group, 0);
    groups::lemma_enrolled(all, group, origin);
    match adopt::group_from(all, group, 0) {
        Some(i) => {
            let members = all[i].members;
            if !members.contains(origin) {
                let grown = members.push(origin);
                order::lemma_texts_order();
                order::lemma_sort(grown, order::texts_le());
                assert(grown.drop_last() =~= members);
                order::lemma_contains_last(grown, x);
                lemma_member_update(
                    all,
                    i,
                    GroupView { name: group, members: order::text_sort(grown) },
                    name,
                    x,
                );
            }
            lemma_member_at(all, i, x);
            lemma_member_at(all, i, origin);
        },
        None => {
            let g = GroupView { name: group, members: seq![origin] };
            assert(g.members.contains(x) <==> x == origin) by {
                assert(g.members[0] == origin);
            }
            lemma_member_insert(all, groups::place_for(all, group, 0), g, name, x);
        },
    }
}

proof fn lemma_member_at(all: Seq<GroupView>, i: int, x: Seq<char>)
    requires
        grouped_apart(all),
        0 <= i < all.len(),
    ensures
        is_member(all, all[i].name, x) == all[i].members.contains(x),
{
    if is_member(all, all[i].name, x) {
        let j = choose|j: int|
            0 <= j < all.len() && (#[trigger] all[j]).name == all[i].name
                && all[j].members.contains(x);
        if j < i {
            assert(all[j].name != all[i].name);
        } else if i < j {
            assert(all[i].name != all[j].name);
        }
    }
}

/// Who the members of a group are is what its first entry says.
pub proof fn lemma_members(all: Seq<GroupView>, name: Seq<char>, x: Seq<char>)
    requires
        graph::groups_ok(all),
    ensures
        is_member(all, name, x) == adopt::members_of(all, name).contains(x),
{
    lemma_apart(all);
    lemma_found(all, name, 0);
    if let Some(i) = adopt::group_from(all, name, 0) {
        lemma_member_at(all, i, x);
    }
}

proof fn lemma_without(s: Seq<Seq<char>>, x: Seq<char>, n: int, y: Seq<char>)
    requires
        0 <= n <= s.len(),
    ensures
        groups::without_upto(s, x, n).contains(y) <==> s.take(n).contains(y) && y != x,
    decreases n,
{
    if n > 0 {
        lemma_without(s, x, n - 1, y);
        let r = groups::without_upto(s, x, n);
        assert(s.take(n).drop_last() =~= s.take(n - 1));
        order::lemma_contains_last(s.take(n), y);
        if s[n - 1] != x {
            assert(r.drop_last() =~= groups::without_upto(s, x, n - 1));
            order::lemma_contains_last(r, y);
        }
    } else {
        assert(s.take(n) =~= seq![]);
    }
}

/// A port that is taken out of a group is no member of it any more, and every
/// other member stays; no other group changes, and a group goes only where it is
/// left without members.
pub proof fn leaving_takes_one_member(
    all: Seq<GroupView>,
    group: Seq<char>,
    origin: Seq<char>,
    name: Seq<char>,
    x: Seq<char>,
)
    requires
        graph::groups_ok(all),
    ensures
        is_member(groups::dismissed(all, group, origin), name, x) == (is_member(all, name, x)
            && !(name == group && x == origin)),
        has_group(groups::dismissed(all, group, origin), name) == (has_group(all, name) && !(name
            == group && forall|y: Seq<char>| #[trigger] is_member(all, group, y) ==> y == origin)),
{
    lemma_apart(all);
    lemma_found(all, group, 0);
    match adopt::group_from(all, group, 0) {
        Some(i) => {
            let members = all[i].members;
            let n = members.len() as int;
            let left = groups::without_upto(members, origin, n);
            assert(members.take(n) =~= members);
            lemma_without(members, origin, n, x);
            lemma_member_at(all, i, x);
            assert(all[i].name == group);
            if left.len() == 0 {
                lemma_member_remove(all, i, name, x);
                assert forall|y: Seq<char>| #[trigger] is_member(all, group, y) implies y
                    == origin by {
                    lemma_member_at(all, i, y);
                    lemma_without(members, origin, n, y);
                    assert(!left.contains(y));
                }
                assert(!left.contains(x));
            } else {
                lemma_member_update(all, i, GroupView { name: group, members: left }, name, x);
                lemma_without(members, origin, n, left[0]);
                assert(left.contains(left[0]));
                lemma_member_at(all, i, left[0]);
                assert(is_member(all, group, left[0]) && left[0] != origin);
            }
        },
        None => {
            if is_member(all, group, x) {
                let j = choose|j: int|
                    0 <= j < all.len() && (#[trigger] all[j]).name == group
                        && all[j].members.contains(x);
                assert(all[j].name != group);
            }
            if has_group(all, group) {
                let j = choose|j: int| 0 <= j < all.len() && (#[trigger] all[j]).name == group;
                assert(all[j].name != group);
            }
        },
    }
}

/// A group that is disbanded is gone, and no other group changes.
pub proof fn disbanding_takes_one_group(
    all: Seq<GroupView>,
    group: Seq<char>,
    name: Seq<char>,
    x: Seq<char>,
)
    requires
        graph::groups_ok(all),
    ensures
        is_member(groups::disbanded(all, group), name, x) == (name != group && is_member(
            all,
            name,
            x,
        )),
        has_group(groups::disbanded(all, group), name) == (name != group && has_group(all, name)),
{
    lemma_apart(all);
    lemma_found(all, group, 0);
    match adopt::group_from(all, group, 0) {
        Some(i) => {
            lemma_member_remove(all, i, name, x);
        },
        None => {
            if is_member(all, group, x) {
                let j = choose|j: int|
                    0 <= j < all.len() && (#[trigger] all[j]).name == group
                        && all[j].members.contains(x);
                assert(all[j].name != group);
            }
            if has_group(all, group) {
                let j = choose|j: int| 0 <= j < all.len() && (#[trigger] all[j]).name == group;
                assert(all[j].name != group);
            }
        },
    }
}

} // verus!
