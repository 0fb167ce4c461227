//! Changing the named sets of ports.
use super::adopt;
use super::{DependencyGraph, Group, GraphView, GroupView};
use crate::graph;
use crate::order;
use crate::text;
use crate::text::{holds, same};
use vstd::prelude::*;

verus! {

/// Where a group of this name goes: behind those whose names come before it.
pub open spec fn place_for(groups: Seq<GroupView>, name: Seq<char>, from: int) -> int
    decreases groups.len() - from,
{
    if from < 0 || from >= groups.len() {
        from
    } else if order::text_lt(groups[from].name, name) {
        place_for(groups, name, from + 1)
    } else {
        from
    }
}

/// The groups with a port in the group of this name, which is started if it is
/// not there. The members of a group that a port joins are in order.
pub open spec fn enrolled(groups: Seq<GroupView>, name: Seq<char>, origin: Seq<char>) -> Seq<
    GroupView,
> {
    match adopt::group_from(groups, name, 0) {
        Some(i) => if groups[i].members.contains(origin) {
            groups
        } else {
            groups.update(
                i,
                GroupView { name, members: order::text_sort(groups[i].members.push(origin)) },
            )
        },
        None => groups.insert(
            place_for(groups, name, 0),
            GroupView { name, members: seq![origin] },
        ),
    }
}

/// The groups without the one of this name.
pub open spec fn disbanded(groups: Seq<GroupView>, name: Seq<char>) -> Seq<GroupView> {
    match adopt::group_from(groups, name, 0) {
        Some(i) => groups.remove(i),
        None => groups,
    }
}

/// Those of the first `n` texts that are not this one.
pub open spec fn without_upto(s: Seq<Seq<char>>, x: Seq<char>, n: int) -> Seq<Seq<char>>
    decreases n,
{
    if n <= 0 {
        seq![]
    } else {
        let rest = without_upto(s, x, n - 1);
        if s[n - 1] == x {
            rest
        } else {
            rest.push(s[n - 1])
        }
    }
}

/// The groups with a port taken out of one. A group with nothing in it goes.
pub open spec fn dismissed(groups: Seq<GroupView>, name: Seq<char>, origin: Seq<char>) -> Seq<
    GroupView,
> {
    match adopt::group_from(groups, name, 0) {
        Some(i) => {
            let left = without_upto(groups[i].members, origin, groups[i].members.len() as int);
            if left.len() == 0 {
                groups.remove(i)
            } else {
                groups.update(i, GroupView { name: groups[i].name, members: left })
            }
        },
        None => groups,
    }
}

/// The place for a group is behind those before it and before the others.
proof fn lemma_place(groups: Seq<GroupView>, name: Seq<char>, from: int)
    requires
        graph::groups_ok(groups),
        0 <= from <= groups.len(),
        forall|j: int| 0 <= j < from ==> order::text_lt((#[trigger] groups[j]).name, name),
    ensures
        ({
            let p = place_for(groups, name, from);
            &&& from <= p <= groups.len()
            &&& forall|j: int| 0 <= j < p ==> order::text_lt((#[trigger] groups[j]).name, name)
            &&& p < groups.len() ==> !order::text_lt(groups[p].name, name)
        }),
    decreases groups.len() - from,
{
    if from < groups.len() && order::text_lt(groups[from].name, name) {
        lemma_place(groups, name, from + 1);
    }
}

/// A group that was found has the name, and one that was not has none of them.
proof fn lemma_group_from(groups: Seq<GroupView>, name: Seq<char>, from: int)
    requires
        0 <= from <= groups.len(),
    ensures
        match adopt::group_from(groups, name, from) {
            Some(i) => from <= i < groups.len() && groups[i].name == name,
            None => forall|j: int| from <= j < groups.len() ==> (#[trigger] groups[j]).name != name,
        },
    decreases groups.len() - from,
{
    if from < groups.len() && groups[from].name != name {
        lemma_group_from(groups, name, from + 1);
    }
}

/// Starting a group keeps the groups in order of their names.
pub proof fn lemma_enrolled(groups: Seq<GroupView>, name: Seq<char>, origin: Seq<char>)
    requires
        graph::groups_ok(groups),
    ensures
        graph::groups_ok(enrolled(groups, name, origin)),
        0 <= place_for(groups, name, 0) <= groups.len(),
{
    lemma_group_from(groups, name, 0);
    lemma_place(groups, name, 0);
    let r = enrolled(groups, name, origin);
    let p = place_for(groups, name, 0);
    if adopt::group_from(groups, name, 0) is None {
        assert forall|i: int, j: int| 0 <= i < j < r.len() implies order::text_lt(
            (#[trigger] r[i]).name,
            (#[trigger] r[j]).name,
        ) by {
            let gi = if i < p {
                i
            } else {
                i - 1
            };
            let gj = if j < p {
                j
            } else {
                j - 1
            };
            if i == p {
                assert(r[j] == groups[j - 1]);
                order::lemma_text_total(groups[p].name, name);
                if j - 1 > p {
                    assert(order::text_lt(groups[p].name, groups[j - 1].name));
                    order::lemma_text_trans(name, groups[p].name, groups[j - 1].name);
                    if name == groups[j - 1].name {
                        order::lemma_text_same(groups[p].name, name);
                    }
                }
            } else if j == p {
                assert(r[i] == groups[i]);
            } else {
                assert(r[i] == groups[gi]);
                assert(r[j] == groups[gj]);
                assert(gi < gj);
            }
        }
    } else {
        let k = adopt::group_from(groups, name, 0)->0;
        assert forall|i: int, j: int| 0 <= i < j < r.len() implies order::text_lt(
            (#[trigger] r[i]).name,
            (#[trigger] r[j]).name,
        ) by {
            assert(r[i].name == groups[i].name);
            assert(r[j].name == groups[j].name);
        }
    }
}

/// Taking a group or a member out keeps the groups in order of their names.
pub proof fn lemma_dismissed(groups: Seq<GroupView>, name: Seq<char>, origin: Seq<char>)
    requires
        graph::groups_ok(groups),
    ensures
        graph::groups_ok(disbanded(groups, name)),
        graph::groups_ok(dismissed(groups, name, origin)),
{
    lemma_group_from(groups, name, 0);
    if adopt::group_from(groups, name, 0) is Some {
        let k = adopt::group_from(groups, name, 0)->0;
        let r = groups.remove(k);
        assert forall|i: int, j: int| 0 <= i < j < r.len() implies order::text_lt(
            (#[trigger] r[i]).name,
            (#[trigger] r[j]).name,
        ) by {
            let gi = if i < k {
                i
            } else {
                i + 1
            };
            let gj = if j < k {
                j
            } else {
                j + 1
            };
            assert(r[i] == groups[gi]);
            assert(r[j] == groups[gj]);
        }
        let d = dismissed(groups, name, origin);
        if d != r {
            assert forall|i: int, j: int| 0 <= i < j < d.len() implies order::text_lt(
                (#[trigger] d[i]).name,
                (#[trigger] d[j]).name,
            ) by {
                assert(d[i].name == groups[i].name);
                assert(d[j].name == groups[j].name);
            }
        }
    }
}

impl DependencyGraph {
    /// Whether a port is in the group of this name.
    pub fn is_member(&self, name: &str, origin: &str) -> (r: bool)
        ensures
            r == adopt::members_of(self@.groups, name@).contains(origin@),
    {
        match self.group_place(name) {
            Some(i) => {
                proof {
                    assert(self@.groups[i as int] == self.groups@[i as int]@);
                }
                holds(&self.groups[i].members, origin)
            },
            None => false,
        }
    }

    /// Puts a port into the group of this name, which is started if it is not
    /// there.
    pub fn enroll(&mut self, name: &str, origin: &str)
        requires
            old(self)@.wf(),
        ensures
            final(self)@ == (GraphView {
                groups: enrolled(old(self)@.groups, name@, origin@),
                ..old(self)@
            }),
            final(self)@.wf(),
    {
        broadcast use {order::lemma_views_push, text::lemma_texts_push};

        let ghost groups = self@.groups;
        proof {
            lemma_enrolled(groups, name@, origin@);
            lemma_group_from(groups, name@, 0);
            assert(groups.len() == self.groups@.len());
        }
        match self.group_place(name) {
            Some(i) => {
                proof {
                    assert(groups[i as int] == self.groups@[i as int]@);
                }
                if !holds(&self.groups[i].members, origin) {
                    let mut members = text::copy_texts(&self.groups[i].members);
                    members.push(origin.to_owned());
                    let sorted = order::sorted_texts(&members);
                    self.groups.set(i, Group { name: name.to_owned(), members: sorted });
                    proof {
                        assert(self@.groups =~= enrolled(groups, name@, origin@));
                    }
                }
            },
            None => {
                let mut p: usize = 0;
                while p < self.groups.len() && !order::at_most(name, self.groups[p].name.as_str())
                    invariant
                        p <= self.groups@.len(),
                        groups == order::views(self.groups@),
                        place_for(groups, name@, 0) == place_for(groups, name@, p as int),
                        adopt::group_from(groups, name@, 0) is None,
                        forall|j: int|
                            0 <= j < groups.len() ==> (#[trigger] groups[j]).name != name@,
                    decreases self.groups@.len() - p,
                {
                    proof {
                        assert(groups[p as int] == self.groups@[p as int]@);
                        order::lemma_text_total(name@, groups[p as int].name);
                    }
                    p += 1;
                }
                proof {
                    if p < groups.len() {
                        assert(groups[p as int] == self.groups@[p as int]@);
                        if order::text_lt(groups[p as int].name, name@) {
                            order::lemma_text_same(groups[p as int].name, name@);
                        }
                    }
                    assert(place_for(groups, name@, 0) == p);
                }
                let mut members: Vec<String> = Vec::new();
                members.push(origin.to_owned());
                proof {
                    assert(text::texts(members@) =~= seq![origin@]);
                }
                self.groups.insert(p, Group { name: name.to_owned(), members });
                proof {
                    assert(self@.groups =~= enrolled(groups, name@, origin@));
                }
            },
        }
    }

    /// Takes the group of this name away.
    pub fn disband(&mut self, name: &str)
        requires
            old(self)@.wf(),
        ensures
            final(self)@ == (GraphView {
                groups: disbanded(old(self)@.groups, name@),
                ..old(self)@
            }),
            final(self)@.wf(),
    {
        let ghost groups = self@.groups;
        proof {
            lemma_dismissed(groups, name@, seq![]);
            assert(groups.len() == self.groups@.len());
        }
        if let Some(i) = self.group_place(name) {
            self.groups.remove(i);
            proof {
                assert(self@.groups =~= groups.remove(i as int));
            }
        }
    }

    /// Takes a port out of a group. A group with nothing in it goes.
    pub fn dismiss(&mut self, name: &str, origin: &str)
        requires
            old(self)@.wf(),
        ensures
            final(self)@ == (GraphView {
                groups: dismissed(old(self)@.groups, name@, origin@),
                ..old(self)@
            }),
            final(self)@.wf(),
    {
        broadcast use text::lemma_texts_push;

        let ghost groups = self@.groups;
        proof {
            lemma_dismissed(groups, name@, origin@);
            assert(groups.len() == self.groups@.len());
        }
        if let Some(i) = self.group_place(name) {
            proof {
                assert(groups[i as int] == self.groups@[i as int]@);
            }
            let ghost members = groups[i as int].members;
            let mut left: Vec<String> = Vec::new();
            let mut n: usize = 0;
            proof {
                assert(text::texts(left@) =~= seq![]);
            }
            while n < self.groups[i].members.len()
                invariant
                    i < self.groups@.len(),
                    n <= self.groups@[i as int].members@.len(),
                    members == text::texts(self.groups@[i as int].members@),
                    text::texts(left@) == without_upto(members, origin@, n as int),
                decreases self.groups@[i as int].members@.len() - n,
            {
                let m = &self.groups[i].members[n];
                proof {
                    assert(members[n as int] == m@);
                }
                if !same(m.as_str(), origin) {
                    left.push(m.clone());
                }
                n += 1;
            }
            proof {
                assert(text::texts(left@).len() == left@.len());
                assert(members.len() == self.groups@[i as int].members@.len());
            }
            if left.len() == 0 {
                self.groups.remove(i);
                proof {
                    assert(self@.groups =~= groups.remove(i as int));
                }
            } else {
                let kept = self.groups[i].name.clone();
                self.groups.set(i, Group { name: kept, members: left });
                proof {
                    assert(self.groups@[i as int]@ == (GroupView {
                        name: groups[i as int].name,
                        members: text::texts(left@),
                    }));
                    assert(self@.groups =~= dismissed(groups, name@, origin@));
                }
            }
        }
    }
}

} // verus!
