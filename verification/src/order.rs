//! The order of texts, and lists put in order.
use crate::text;
use crate::text::chars_of;
use vstd::prelude::*;

verus! {

/// Whether `a` comes no later than `b`, character by character.
pub open spec fn text_le(a: Seq<char>, b: Seq<char>) -> bool
    decreases a.len(),
{
    if a.len() == 0 {
        true
    } else if b.len() == 0 {
        false
    } else if a[0] != b[0] {
        a[0] < b[0]
    } else {
        text_le(a.skip(1), b.skip(1))
    }
}

/// Whether `a` comes before `b`.
pub open spec fn text_lt(a: Seq<char>, b: Seq<char>) -> bool {
    text_le(a, b) && a != b
}

/// Of two texts one comes no later than the other.
pub proof fn lemma_text_total(a: Seq<char>, b: Seq<char>)
    ensures
        text_le(a, b) || text_le(b, a),
    decreases a.len(),
{
    if a.len() > 0 && b.len() > 0 && a[0] == b[0] {
        lemma_text_total(a.skip(1), b.skip(1));
    }
}

/// Texts that come no later than each other are the same.
pub proof fn lemma_text_same(a: Seq<char>, b: Seq<char>)
    requires
        text_le(a, b),
        text_le(b, a),
    ensures
        a == b,
    decreases a.len(),
{
    if a.len() > 0 && b.len() > 0 && a[0] == b[0] {
        lemma_text_same(a.skip(1), b.skip(1));
        assert(a =~= seq![a[0]] + a.skip(1));
        assert(b =~= seq![b[0]] + b.skip(1));
    } else {
        assert(a =~= b);
    }
}

/// The order carries over from one text to the next.
pub proof fn lemma_text_trans(a: Seq<char>, b: Seq<char>, c: Seq<char>)
    requires
        text_le(a, b),
        text_le(b, c),
    ensures
        text_le(a, c),
    decreases a.len(),
{
    if a.len() > 0 && b.len() > 0 && c.len() > 0 && a[0] == b[0] && b[0] == c[0] {
        lemma_text_trans(a.skip(1), b.skip(1), c.skip(1));
    }
}

/// Whether `a` comes no later than `b`.
pub fn at_most(a: &str, b: &str) -> (r: bool)
    ensures
        r == text_le(a@, b@),
{
    let x = chars_of(a);
    let y = chars_of(b);
    let mut i: usize = 0;
    proof {
        assert(a@.skip(0) =~= a@);
        assert(b@.skip(0) =~= b@);
    }
    loop
        invariant
            i <= x@.len(),
            i <= y@.len(),
            x@ == a@,
            y@ == b@,
            text_le(a@, b@) == text_le(a@.skip(i as int), b@.skip(i as int)),
        decreases x@.len() - i,
    {
        if i == x.len() {
            return true;
        }
        if i == y.len() {
            return false;
        }
        proof {
            assert(a@.skip(i as int)[0] == x@[i as int]);
            assert(b@.skip(i as int)[0] == y@[i as int]);
            assert(a@.skip(i as int).skip(1) =~= a@.skip(i + 1));
            assert(b@.skip(i as int).skip(1) =~= b@.skip(i + 1));
        }
        let cx: char = x[i];
        let cy: char = y[i];
        if cx != cy {
            return cx < cy;
        }
        i += 1;
    }
}

/// What the items of a list stand for.
pub open spec fn views<T: View>(s: Seq<T>) -> Seq<T::V> {
    Seq::new(s.len(), |i: int| s[i]@)
}

/// A longer list stands for one item more.
pub broadcast proof fn lemma_views_push<T: View>(s: Seq<T>, x: T)
    ensures
        #[trigger] views(s.push(x)) == views(s).push(x@),
{
    assert(views(s.push(x)) =~= views(s).push(x@));
}

/// A list with one item replaced stands for the items with that one replaced.
pub broadcast proof fn lemma_views_update<T: View>(s: Seq<T>, i: int, x: T)
    requires
        0 <= i < s.len(),
    ensures
        #[trigger] views(s.update(i, x)) == views(s).update(i, x@),
{
    assert(views(s.update(i, x)) =~= views(s).update(i, x@));
}

/// Values with an order on what they stand for.
pub trait Ordered: View + Sized {
    /// Whether `a` comes no later than `b`.
    spec fn before(a: Self::V, b: Self::V) -> bool;

    /// Whether this value comes no later than `other`.
    fn no_later(&self, other: &Self) -> (r: bool)
        ensures
            r == Self::before(self@, other@),
    ;

    /// Another value that stands for the same.
    fn copied(&self) -> (r: Self)
        ensures
            r@ == self@,
    ;
}

impl Ordered for String {
    open spec fn before(a: Seq<char>, b: Seq<char>) -> bool {
        text_le(a, b)
    }

    fn no_later(&self, other: &Self) -> (r: bool) {
        at_most(self.as_str(), other.as_str())
    }

    fn copied(&self) -> (r: Self) {
        self.clone()
    }
}

/// `x` put into `s` behind every item that comes no later than it.
pub open spec fn insert_by<A>(s: Seq<A>, x: A, le: spec_fn(A, A) -> bool) -> Seq<A>
    decreases s.len(),
{
    if s.len() == 0 || le(s.last(), x) {
        s.push(x)
    } else {
        insert_by(s.drop_last(), x, le).push(s.last())
    }
}

/// The items of `s` in order, those that compare alike as they stood.
pub open spec fn sort_of<A>(s: Seq<A>, le: spec_fn(A, A) -> bool) -> Seq<A>
    decreases s.len(),
{
    if s.len() == 0 {
        s
    } else {
        insert_by(sort_of(s.drop_last(), le), s.last(), le)
    }
}

/// `x` put into `s` in its place, unless it is there.
pub open spec fn insert_once<A>(s: Seq<A>, x: A, le: spec_fn(A, A) -> bool) -> Seq<A>
    decreases s.len(),
{
    if s.len() == 0 {
        s.push(x)
    } else if le(s.last(), x) {
        if le(x, s.last()) {
            s
        } else {
            s.push(x)
        }
    } else {
        insert_once(s.drop_last(), x, le).push(s.last())
    }
}

/// The items of `s` in order, each once.
pub open spec fn set_of<A>(s: Seq<A>, le: spec_fn(A, A) -> bool) -> Seq<A>
    decreases s.len(),
{
    if s.len() == 0 {
        s
    } else {
        insert_once(set_of(s.drop_last(), le), s.last(), le)
    }
}

/// A relation by which any two items have an order.
pub open spec fn is_order<A>(le: spec_fn(A, A) -> bool) -> bool {
    &&& forall|x: A, y: A| #[trigger] le(x, y) || le(y, x)
    &&& forall|x: A, y: A, z: A| #[trigger] le(x, y) && #[trigger] le(y, z) ==> le(x, z)
}

/// Every item comes no later than those behind it.
pub open spec fn in_order<A>(s: Seq<A>, le: spec_fn(A, A) -> bool) -> bool {
    forall|i: int, j: int| 0 <= i < j < s.len() ==> le(#[trigger] s[i], #[trigger] s[j])
}

/// Every item comes before those behind it.
pub open spec fn in_strict_order<A>(s: Seq<A>, le: spec_fn(A, A) -> bool) -> bool {
    forall|i: int, j: int|
        0 <= i < j < s.len() ==> le(#[trigger] s[i], #[trigger] s[j]) && !le(s[j], s[i])
}

/// Where `insert_by` puts an item.
proof fn lemma_insert_by_at<A>(s: Seq<A>, x: A, le: spec_fn(A, A) -> bool, p: int)
    requires
        0 <= p <= s.len(),
        p > 0 ==> le(s[p - 1], x),
        forall|j: int| p <= j < s.len() ==> !le(#[trigger] s[j], x),
    ensures
        insert_by(s, x, le) == s.insert(p, x),
    decreases s.len(),
{
    if p == s.len() {
        assert(s.insert(p, x) =~= s.push(x));
    } else {
        assert(!le(s[s.len() - 1], x));
        lemma_insert_by_at(s.drop_last(), x, le, p);
        assert(s.insert(p, x) =~= s.drop_last().insert(p, x).push(s.last()));
    }
}

/// Where `insert_once` puts an item.
proof fn lemma_insert_once_at<A>(s: Seq<A>, x: A, le: spec_fn(A, A) -> bool, p: int)
    requires
        0 <= p <= s.len(),
        p > 0 ==> le(s[p - 1], x),
        forall|j: int| p <= j < s.len() ==> !le(#[trigger] s[j], x),
    ensures
        insert_once(s, x, le) == if p > 0 && le(x, s[p - 1]) {
            s
        } else {
            s.insert(p, x)
        },
    decreases s.len(),
{
    if p == s.len() {
        assert(s.insert(p, x) =~= s.push(x));
    } else {
        assert(!le(s[s.len() - 1], x));
        lemma_insert_once_at(s.drop_last(), x, le, p);
        assert(s.drop_last().push(s.last()) =~= s);
        assert(s.insert(p, x) =~= s.drop_last().insert(p, x).push(s.last()));
    }
}

/// What `insert_by` does to a list in order.
pub proof fn lemma_insert_by<A>(s: Seq<A>, x: A, le: spec_fn(A, A) -> bool)
    requires
        is_order(le),
        in_order(s, le),
    ensures
        in_order(insert_by(s, x, le), le),
        insert_by(s, x, le).len() == s.len() + 1,
        insert_by(s, x, le).to_multiset() == s.to_multiset().insert(x),
        forall|y: A| #[trigger] insert_by(s, x, le).contains(y) <==> (s.contains(y) || y == x),
    decreases s.len(),
{
    broadcast use vstd::seq_lib::group_to_multiset_ensures;

    let r = insert_by(s, x, le);
    if s.len() == 0 || le(s.last(), x) {
        assert forall|i: int, j: int| 0 <= i < j < r.len() implies le(
            #[trigger] r[i],
            #[trigger] r[j],
        ) by {
            if j == s.len() && i < s.len() - 1 {
                assert(le(s[i], s[s.len() - 1]));
            }
        }
        assert forall|y: A| #[trigger] r.contains(y) <==> (s.contains(y) || y == x) by {
            if s.contains(y) {
                let k = choose|k: int| 0 <= k < s.len() && s[k] == y;
                assert(r[k] == y);
            }
            assert(r[s.len() as int] == x);
        }
    } else {
        let t = s.drop_last();
        lemma_insert_by(t, x, le);
        let q = insert_by(t, x, le);
        assert forall|i: int, j: int| 0 <= i < j < r.len() implies le(
            #[trigger] r[i],
            #[trigger] r[j],
        ) by {
            if j == q.len() {
                assert(q.contains(q[i]));
                assert(t.contains(q[i]) || q[i] == x);
                assert(le(x, s.last()));
                if t.contains(q[i]) {
                    let k = choose|k: int| 0 <= k < t.len() && t[k] == q[i];
                    assert(le(s[k], s[s.len() - 1]));
                }
            }
        }
        assert(t.push(s.last()) =~= s);
        assert(r =~= q.push(s.last()));
        assert(r.to_multiset() =~= s.to_multiset().insert(x));
        assert forall|y: A| #[trigger] r.contains(y) <==> (s.contains(y) || y == x) by {
            if q.contains(y) {
                let k = choose|k: int| 0 <= k < q.len() && q[k] == y;
                assert(r[k] == y);
            }
            if t.contains(y) {
                let k = choose|k: int| 0 <= k < t.len() && t[k] == y;
                assert(s[k] == y);
            }
            if s.contains(y) {
                let k = choose|k: int| 0 <= k < s.len() && s[k] == y;
                if k < t.len() {
                    assert(t[k] == y);
                }
            }
            assert(r[q.len() as int] == s.last());
            assert(s[s.len() - 1] == s.last());
            if r.contains(y) {
                let k = choose|k: int| 0 <= k < r.len() && r[k] == y;
                if k < q.len() {
                    assert(q[k] == y);
                }
            }
        }
    }
}

/// Sorting keeps the items and puts them in order.
pub proof fn lemma_sort<A>(s: Seq<A>, le: spec_fn(A, A) -> bool)
    requires
        is_order(le),
    ensures
        in_order(sort_of(s, le), le),
        sort_of(s, le).len() == s.len(),
        sort_of(s, le).to_multiset() == s.to_multiset(),
        forall|y: A| #[trigger] sort_of(s, le).contains(y) <==> s.contains(y),
    decreases s.len(),
{
    broadcast use vstd::seq_lib::group_to_multiset_ensures;

    if s.len() > 0 {
        let t = s.drop_last();
        lemma_sort(t, le);
        lemma_insert_by(sort_of(t, le), s.last(), le);
        assert(t.push(s.last()) =~= s);
        assert(sort_of(s, le).to_multiset() =~= s.to_multiset());
        assert forall|y: A| #[trigger] sort_of(s, le).contains(y) <==> s.contains(y) by {
            assert(sort_of(t, le).contains(y) <==> t.contains(y));
            lemma_contains_last(s, y);
        }
    }
}

/// A list holds what its front holds, and its last item.
pub proof fn lemma_contains_last<A>(s: Seq<A>, y: A)
    requires
        s.len() > 0,
    ensures
        s.contains(y) <==> (s.drop_last().contains(y) || y == s.last()),
{
    let t = s.drop_last();
    if t.contains(y) {
        let k = choose|k: int| 0 <= k < t.len() && t[k] == y;
        assert(s[k] == y);
    }
    if s.contains(y) {
        let k = choose|k: int| 0 <= k < s.len() && s[k] == y;
        if k < t.len() {
            assert(t[k] == y);
        }
    }
    assert(s[s.len() - 1] == s.last());
}

/// What `insert_once` does to a list in strict order.
pub proof fn lemma_insert_once<A>(s: Seq<A>, x: A, le: spec_fn(A, A) -> bool)
    requires
        is_order(le),
        forall|a: A, b: A| #[trigger] le(a, b) && le(b, a) ==> a == b,
        in_strict_order(s, le),
    ensures
        in_strict_order(insert_once(s, x, le), le),
        forall|y: A| #[trigger] insert_once(s, x, le).contains(y) <==> (s.contains(y) || y == x),
    decreases s.len(),
{
    let r = insert_once(s, x, le);
    if s.len() == 0 {
        assert(r[0] == x);
    } else if le(s.last(), x) {
        if le(x, s.last()) {
            assert(s[s.len() - 1] == x);
        } else {
            assert forall|i: int, j: int| 0 <= i < j < r.len() implies le(
                #[trigger] r[i],
                #[trigger] r[j],
            ) && !le(r[j], r[i]) by {
                if j == s.len() && i < s.len() - 1 {
                    assert(le(s[i], s[s.len() - 1]) && !le(s[s.len() - 1], s[i]));
                    if le(x, s[i]) {
                        assert(le(x, s.last()));
                    }
                }
            }
            assert(r.drop_last() =~= s);
            assert forall|y: A| #[trigger] r.contains(y) <==> (s.contains(y) || y == x) by {
                lemma_contains_last(r, y);
            }
        }
    } else {
        let t = s.drop_last();
        lemma_insert_once(t, x, le);
        let q = insert_once(t, x, le);
        assert forall|i: int, j: int| 0 <= i < j < r.len() implies le(
            #[trigger] r[i],
            #[trigger] r[j],
        ) && !le(r[j], r[i]) by {
            if j == q.len() {
                assert(q.contains(q[i]));
                assert(t.contains(q[i]) || q[i] == x);
                assert(le(x, s.last()));
                if t.contains(q[i]) {
                    let k = choose|k: int| 0 <= k < t.len() && t[k] == q[i];
                    assert(le(s[k], s[s.len() - 1]) && !le(s[s.len() - 1], s[k]));
                }
            } else {
                assert(le(q[i], q[j]) && !le(q[j], q[i]));
            }
        }
        assert(r.drop_last() =~= q);
        assert forall|y: A| #[trigger] r.contains(y) <==> (s.contains(y) || y == x) by {
            lemma_contains_last(r, y);
            lemma_contains_last(s, y);
            assert(q.contains(y) <==> (t.contains(y) || y == x));
        }
    }
}

/// `set_of` keeps which items there are, and puts them in strict order.
pub proof fn lemma_set<A>(s: Seq<A>, le: spec_fn(A, A) -> bool)
    requires
        is_order(le),
        forall|a: A, b: A| #[trigger] le(a, b) && le(b, a) ==> a == b,
    ensures
        in_strict_order(set_of(s, le), le),
        forall|y: A| #[trigger] set_of(s, le).contains(y) <==> s.contains(y),
    decreases s.len(),
{
    if s.len() > 0 {
        let t = s.drop_last();
        lemma_set(t, le);
        lemma_insert_once(set_of(t, le), s.last(), le);
        assert forall|y: A| #[trigger] set_of(s, le).contains(y) <==> s.contains(y) by {
            assert(set_of(t, le).contains(y) <==> t.contains(y));
            lemma_contains_last(s, y);
        }
    }
}

/// Where an item of a list goes: behind every item that comes no later.
fn place_of<T: Ordered>(v: &Vec<T>, x: &T) -> (p: usize)
    ensures
        p <= v@.len(),
        p > 0 ==> T::before(v@[p - 1]@, x@),
        forall|j: int| p <= j < v@.len() ==> !T::before(#[trigger] v@[j]@, x@),
{
    let mut p: usize = v.len();
    while p > 0 && !v[p - 1].no_later(x)
        invariant
            p <= v@.len(),
            forall|j: int| p <= j < v@.len() ==> !T::before(#[trigger] v@[j]@, x@),
        decreases p,
    {
        p -= 1;
    }
    p
}

/// The items of a list in order, those that compare alike as they stood.
pub fn sort<T: Ordered>(v: &Vec<T>) -> (r: Vec<T>)
    ensures
        views(r@) == sort_of(views(v@), |a: T::V, b: T::V| T::before(a, b)),
{
    let ghost le = |a: T::V, b: T::V| T::before(a, b);
    let mut out: Vec<T> = Vec::new();
    let mut i: usize = 0;
    proof {
        assert(views(out@) =~= views(v@).take(0));
    }
    while i < v.len()
        invariant
            i <= v@.len(),
            le == (|a: T::V, b: T::V| T::before(a, b)),
            views(out@) == sort_of(views(v@).take(i as int), le),
        decreases v@.len() - i,
    {
        let p = place_of(&out, &v[i]);
        let ghost old_views = views(out@);
        let x = v[i].copied();
        out.insert(p, x);
        proof {
            let y = v@[i as int]@;
            assert(p > 0 ==> le(old_views[p - 1], y));
            assert forall|j: int| p <= j < old_views.len() implies !le(#[trigger] old_views[j], y) by {}
            lemma_insert_by_at(old_views, y, le, p as int);
            assert(views(out@) =~= old_views.insert(p as int, y));
            assert(views(v@).take(i + 1).drop_last() =~= views(v@).take(i as int));
        }
        i += 1;
    }
    proof {
        assert(views(v@).take(v@.len() as int) =~= views(v@));
    }
    out
}

/// Puts an item into a list in its place, unless it is there.
pub fn add_once<T: Ordered>(v: &mut Vec<T>, x: T)
    ensures
        views(final(v)@) == insert_once(views(old(v)@), x@, |a: T::V, b: T::V| T::before(a, b)),
{
    let ghost le = |a: T::V, b: T::V| T::before(a, b);
    let ghost old_views = views(v@);
    let p = place_of(v, &x);
    proof {
        assert(p > 0 ==> le(old_views[p - 1], x@));
        assert forall|j: int| p <= j < old_views.len() implies !le(#[trigger] old_views[j], x@) by {}
        lemma_insert_once_at(old_views, x@, le, p as int);
    }
    if p > 0 && x.no_later(&v[p - 1]) {
        return;
    }
    let ghost y = x@;
    v.insert(p, x);
    proof {
        assert(views(v@) =~= old_views.insert(p as int, y));
    }
}

/// The items of a list in order, each once.
pub fn sorted_set<T: Ordered>(v: &Vec<T>) -> (r: Vec<T>)
    ensures
        views(r@) == set_of(views(v@), |a: T::V, b: T::V| T::before(a, b)),
{
    let ghost le = |a: T::V, b: T::V| T::before(a, b);
    let mut out: Vec<T> = Vec::new();
    let mut i: usize = 0;
    proof {
        assert(views(out@) =~= views(v@).take(0));
    }
    while i < v.len()
        invariant
            i <= v@.len(),
            le == (|a: T::V, b: T::V| T::before(a, b)),
            views(out@) == set_of(views(v@).take(i as int), le),
        decreases v@.len() - i,
    {
        add_once(&mut out, v[i].copied());
        proof {
            assert(views(v@).take(i + 1).drop_last() =~= views(v@).take(i as int));
        }
        i += 1;
    }
    proof {
        assert(views(v@).take(v@.len() as int) =~= views(v@));
    }
    out
}

/// The order of texts as a relation.
pub open spec fn texts_le() -> spec_fn(Seq<char>, Seq<char>) -> bool {
    |a: Seq<char>, b: Seq<char>| text_le(a, b)
}

/// The order of texts is an order.
pub proof fn lemma_texts_order()
    ensures
        is_order(texts_le()),
        forall|a: Seq<char>, b: Seq<char>| #[trigger]
            texts_le()(a, b) && texts_le()(b, a) ==> a == b,
{
    let le = texts_le();
    assert forall|x: Seq<char>, y: Seq<char>| #[trigger] le(x, y) || le(y, x) by {
        lemma_text_total(x, y);
    }
    assert forall|x: Seq<char>, y: Seq<char>, z: Seq<char>| #[trigger]
        le(x, y) && #[trigger] le(y, z) implies le(x, z) by {
        lemma_text_trans(x, y, z);
    }
    assert forall|x: Seq<char>, y: Seq<char>| #[trigger] le(x, y) && le(y, x) implies x == y by {
        lemma_text_same(x, y);
    }
}

/// Texts in order, each once.
pub open spec fn text_set(s: Seq<Seq<char>>) -> Seq<Seq<char>> {
    set_of(s, texts_le())
}

/// Texts in order.
pub open spec fn text_sort(s: Seq<Seq<char>>) -> Seq<Seq<char>> {
    sort_of(s, texts_le())
}

/// A text set holds the texts it is made of, in strict order.
pub proof fn lemma_text_set(s: Seq<Seq<char>>)
    ensures
        in_strict_order(text_set(s), texts_le()),
        forall|y: Seq<char>| #[trigger] text_set(s).contains(y) <==> s.contains(y),
{
    lemma_texts_order();
    lemma_set(s, texts_le());
}

/// Texts in strict order are fixed by which they are.
pub proof fn lemma_same_set(p: Seq<Seq<char>>, q: Seq<Seq<char>>)
    requires
        in_strict_order(p, texts_le()),
        in_strict_order(q, texts_le()),
        forall|y: Seq<char>| #[trigger] p.contains(y) <==> q.contains(y),
    ensures
        p == q,
    decreases p.len(),
{
    let le = texts_le();
    lemma_texts_order();
    if p.len() == 0 {
        if q.len() > 0 {
            assert(q.contains(q[0]));
            assert(p.contains(q[0]));
        }
        assert(p =~= q);
    } else if q.len() == 0 {
        assert(p.contains(p[0]));
    } else {
        assert(p.contains(p.last()));
        assert(q.contains(q.last()));
        assert(q.contains(p.last()) && p.contains(q.last()));
        let i = choose|i: int| 0 <= i < q.len() && q[i] == p.last();
        let j = choose|j: int| 0 <= j < p.len() && p[j] == q.last();
        if i < q.len() - 1 {
            assert(!le(q[q.len() - 1], q[i]));
            if j < p.len() - 1 {
                assert(!le(p[p.len() - 1], p[j]));
                assert(le(q.last(), p.last()) || le(p.last(), q.last()));
            }
        }
        assert(p.last() == q.last());
        assert forall|y: Seq<char>| #[trigger] p.drop_last().contains(y) <==> q.drop_last().contains(
            y,
        ) by {
            lemma_contains_last(p, y);
            lemma_contains_last(q, y);
            assert(p.contains(y) <==> q.contains(y));
            lemma_last_apart(p, y);
            lemma_last_apart(q, y);
        }
        lemma_same_set(p.drop_last(), q.drop_last());
        assert(p =~= p.drop_last().push(p.last()));
        assert(q =~= q.drop_last().push(q.last()));
    }
}

/// The last of some texts in strict order is not among the others.
proof fn lemma_last_apart(p: Seq<Seq<char>>, y: Seq<char>)
    requires
        in_strict_order(p, texts_le()),
        p.len() > 0,
    ensures
        p.drop_last().contains(y) ==> y != p.last(),
{
    lemma_texts_order();
    if p.drop_last().contains(y) {
        let k = choose|k: int| 0 <= k < p.drop_last().len() && p.drop_last()[k] == y;
        assert(!texts_le()(p[p.len() - 1], p[k]));
        assert(texts_le()(y, y) || texts_le()(y, y));
    }
}

/// Texts in order, each once.
pub fn sorted_texts_once(v: &Vec<String>) -> (r: Vec<String>)
    ensures
        text::texts(r@) == text_set(text::texts(v@)),
{
    let r = sorted_set(v);
    proof {
        assert(views(r@) =~= text::texts(r@));
        assert(views(v@) =~= text::texts(v@));
        assert((|a: Seq<char>, b: Seq<char>| String::before(a, b)) =~= texts_le());
    }
    r
}

/// Texts in order.
pub fn sorted_texts(v: &Vec<String>) -> (r: Vec<String>)
    ensures
        text::texts(r@) == text_sort(text::texts(v@)),
{
    let r = sort(v);
    proof {
        assert(views(r@) =~= text::texts(r@));
        assert(views(v@) =~= text::texts(v@));
        assert((|a: Seq<char>, b: Seq<char>| String::before(a, b)) =~= texts_le());
    }
    r
}

} // verus!
