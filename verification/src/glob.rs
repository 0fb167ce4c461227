//! Shell patterns over port origins.
use crate::text::chars_of;
use vstd::prelude::*;

verus! {

/// One entry of a character class.
#[derive(Clone, Copy)]
pub enum ClassItem {
    Char(char),
    Range(char, char),
}

/// One matchable element of a pattern.
pub enum GlobTok {
    Literal(char),
    /// `?`: any one character.
    Any,
    /// `*`: any run of characters, `/` included.
    Star,
    /// `[...]`: one character from a set, `[!...]` and `[^...]` its complement.
    Class { negated: bool, items: Vec<ClassItem> },
}

/// What a pattern element stands for. A class is the ranges of characters that
/// its entries span, and a literal is the class of its one character.
pub enum TokView {
    Any,
    Star,
    Class { negated: bool, items: Seq<(char, char)> },
}

impl View for ClassItem {
    type V = (char, char);

    open spec fn view(&self) -> (char, char) {
        match *self {
            ClassItem::Char(c) => (c, c),
            ClassItem::Range(a, b) => (a, b),
        }
    }
}

/// The ranges that the entries of a class span.
pub open spec fn spans(v: Seq<ClassItem>) -> Seq<(char, char)> {
    Seq::new(v.len(), |i: int| v[i]@)
}

/// What a character that stands for itself stands for.
pub open spec fn literal_view(c: char) -> TokView {
    TokView::Class { negated: false, items: seq![(c, c)] }
}

impl View for GlobTok {
    type V = TokView;

    open spec fn view(&self) -> TokView {
        match *self {
            GlobTok::Literal(c) => literal_view(c),
            GlobTok::Any => TokView::Any,
            GlobTok::Star => TokView::Star,
            GlobTok::Class { negated, items } => TokView::Class { negated, items: spans(items@) },
        }
    }
}

/// What the elements of a pattern stand for.
pub open spec fn toks(v: Seq<GlobTok>) -> Seq<TokView> {
    Seq::new(v.len(), |i: int| v[i]@)
}

/// Whether a character is in a range.
pub open spec fn in_span(span: (char, char), c: char) -> bool {
    span.0 <= c <= span.1
}

/// Whether a pattern element takes exactly this one character.
pub open spec fn tok_takes(tok: TokView, c: char) -> bool {
    match tok {
        TokView::Any => true,
        TokView::Star => false,
        TokView::Class { negated, items } => {
            (exists|i: int| 0 <= i < items.len() && in_span(#[trigger] items[i], c)) != negated
        },
    }
}

/// Whether a pattern takes a text: a star takes any run of characters, every
/// other element exactly one.
pub open spec fn takes(p: Seq<TokView>, t: Seq<char>) -> bool
    decreases p.len() + t.len(),
{
    if p.len() == 0 {
        t.len() == 0
    } else if p[0] is Star {
        takes(p.skip(1), t) || (t.len() > 0 && takes(p, t.skip(1)))
    } else {
        t.len() > 0 && tok_takes(p[0], t[0]) && takes(p.skip(1), t.skip(1))
    }
}

/// The entries of a class from `i` on and the place behind its closing
/// bracket, where it has one. A closing bracket that stands first is an entry,
/// and so is a hyphen that stands last.
pub open spec fn class_from(s: Seq<char>, i: int, first: bool, items: Seq<(char, char)>) -> Option<
    (Seq<(char, char)>, int),
>
    decreases s.len() - i,
{
    if i >= s.len() {
        None
    } else if s[i] == ']' && !first {
        Some((items, i + 1))
    } else if i + 2 < s.len() && s[i + 1] == '-' && s[i + 2] != ']' {
        class_from(s, i + 3, false, items.push((s[i], s[i + 2])))
    } else {
        class_from(s, i + 1, false, items.push((s[i], s[i])))
    }
}

/// Whether the class that opens at `open` is a complement.
pub open spec fn class_negated(s: Seq<char>, open: int) -> bool {
    open + 1 < s.len() && (s[open + 1] == '!' || s[open + 1] == '^')
}

/// The class that opens at `open` and the place behind it, where it closes.
pub open spec fn class_at(s: Seq<char>, open: int) -> Option<(TokView, int)> {
    let negated = class_negated(s, open);
    match class_from(s, open + (if negated { 2int } else { 1int }), true, seq![]) {
        Some((items, next)) => Some((TokView::Class { negated, items }, next)),
        None => None,
    }
}

/// The element that stands at `i` and the place behind it. An opening bracket
/// whose class never closes is itself.
pub open spec fn tok_at(s: Seq<char>, i: int) -> (TokView, int) {
    if s[i] == '*' {
        (TokView::Star, i + 1)
    } else if s[i] == '?' {
        (TokView::Any, i + 1)
    } else if s[i] == '[' {
        match class_at(s, i) {
            Some((tok, next)) => (tok, next),
            None => (literal_view('['), i + 1),
        }
    } else {
        (literal_view(s[i]), i + 1)
    }
}

/// A class ends behind where it begins.
pub proof fn lemma_class_from(s: Seq<char>, i: int, first: bool, items: Seq<(char, char)>)
    ensures
        class_from(s, i, first, items) is Some ==> i < (class_from(s, i, first, items)->0).1
            <= s.len(),
    decreases s.len() - i,
{
    if i < s.len() && !(s[i] == ']' && !first) {
        if i + 2 < s.len() && s[i + 1] == '-' && s[i + 2] != ']' {
            lemma_class_from(s, i + 3, false, items.push((s[i], s[i + 2])));
        } else {
            lemma_class_from(s, i + 1, false, items.push((s[i], s[i])));
        }
    }
}

/// An element ends behind where it begins.
pub proof fn lemma_tok_at(s: Seq<char>, i: int)
    requires
        0 <= i < s.len(),
    ensures
        i < tok_at(s, i).1 <= s.len(),
{
    lemma_class_from(s, i + 1, true, seq![]);
    lemma_class_from(s, i + 2, true, seq![]);
}

/// The elements of a pattern from `i` on.
pub open spec fn pattern_from(s: Seq<char>, i: int) -> Seq<TokView>
    decreases s.len() - i,
{
    if i < 0 || i >= s.len() {
        seq![]
    } else {
        proof {
            lemma_tok_at(s, i);
        }
        seq![tok_at(s, i).0] + pattern_from(s, tok_at(s, i).1)
    }
}

/// The elements of a pattern.
pub open spec fn pattern_of(s: Seq<char>) -> Seq<TokView> {
    pattern_from(s, 0)
}

/// Whether a pattern holds a character that makes it one to match with rather
/// than a literal origin.
pub open spec fn has_meta(s: Seq<char>) -> bool {
    exists|i: int| 0 <= i < s.len() && (s[i] == '*' || s[i] == '?' || #[trigger] s[i] == '[')
}

/// Whether a pattern is matched against the tree listing rather than taken as
/// a literal origin.
pub fn is_glob(pattern: &str) -> (r: bool)
    ensures
        r == has_meta(pattern@),
{
    let v = chars_of(pattern);
    let mut i: usize = 0;
    while i < v.len()
        invariant
            i <= v@.len(),
            v@ == pattern@,
            forall|j: int| 0 <= j < i ==> !(v@[j] == '*' || v@[j] == '?' || v@[j] == '['),
        decreases v@.len() - i,
    {
        if v[i] == '*' || v[i] == '?' || v[i] == '[' {
            return true;
        }
        i += 1;
    }
    false
}

impl ClassItem {
    /// The entry for one character.
    fn one(c: char) -> (r: Self)
        ensures
            r@ == (c, c),
    {
        ClassItem::Char(c)
    }

    /// The entry for a range.
    fn range(a: char, b: char) -> (r: Self)
        ensures
            r@ == (a, b),
    {
        ClassItem::Range(a, b)
    }

    /// Whether a character is in the range of this entry.
    fn spans_char(&self, c: char) -> (r: bool)
        ensures
            r == in_span(self@, c),
    {
        match self {
            ClassItem::Char(m) => *m == c,
            ClassItem::Range(a, b) => *a <= c && c <= *b,
        }
    }
}

impl GlobTok {
    /// The element that takes this character alone.
    fn literal(c: char) -> (r: Self)
        ensures
            r@ == literal_view(c),
    {
        GlobTok::Literal(c)
    }

    /// Whether this element takes exactly this one character.
    pub fn matches(&self, c: char) -> (r: bool)
        ensures
            r == tok_takes(self@, c),
    {
        match self {
            GlobTok::Literal(l) => {
                proof {
                    let items = seq![(*l, *l)];
                    assert(self@ == TokView::Class { negated: false, items });
                    assert(items.len() == 1 && items[0] == (*l, *l));
                    if *l == c {
                        assert(in_span(items[0], c));
                        assert(tok_takes(self@, c));
                    } else {
                        assert(forall|i: int|
                            0 <= i < items.len() ==> !in_span(#[trigger] items[i], c));
                        assert(!tok_takes(self@, c));
                    }
                }
                *l == c
            },
            GlobTok::Any => true,
            GlobTok::Star => false,
            GlobTok::Class { negated, items } => {
                let ghost sp = spans(items@);
                let mut hit = false;
                let mut i: usize = 0;
                while i < items.len() && !hit
                    invariant
                        i <= items@.len(),
                        sp == spans(items@),
                        hit == (exists|j: int| 0 <= j < i && in_span(#[trigger] sp[j], c)),
                    decreases items@.len() - i,
                {
                    hit = items[i].spans_char(c);
                    proof {
                        assert(sp[i as int] == items@[i as int]@);
                    }
                    i += 1;
                }
                proof {
                    assert(self@ == TokView::Class { negated: *negated, items: sp });
                    assert(tok_takes(self@, c) == (hit != *negated));
                }
                hit != *negated
            },
        }
    }

    /// Whether this element is a star.
    fn is_star(&self) -> (r: bool)
        ensures
            r == (self@ is Star),
    {
        match self {
            GlobTok::Star => true,
            _ => false,
        }
    }
}

/// Parses a `[...]` starting at `open`, returning the element and the place
/// just past the closing `]`, or `None` when the class never closes.
pub fn parse_class(chars: &[char], open: usize) -> (r: Option<(GlobTok, usize)>)
    requires
        open < chars@.len(),
    ensures
        match r {
            Some((tok, next)) => class_at(chars@, open as int) == Some((tok@, next as int)),
            None => class_at(chars@, open as int) is None,
        },
{
    let n: usize = chars.len();
    let mut i: usize = open + 1;
    let negated = i < n && (chars[i] == '!' || chars[i] == '^');
    if negated {
        i += 1;
    }
    let ghost start = i as int;
    let mut items: Vec<ClassItem> = Vec::new();
    let mut first = true;
    proof {
        assert(spans(items@) =~= seq![]);
    }
    while i < n
        invariant
            n == chars@.len(),
            class_from(chars@, start, true, seq![]) == class_from(
                chars@,
                i as int,
                first,
                spans(items@),
            ),
            negated == class_negated(chars@, open as int),
            start == open + (if negated { 2int } else { 1int }),
        decreases n - i,
    {
        let c = chars[i];
        if c == ']' && !first {
            return Some((GlobTok::Class { negated, items }, i + 1));
        }
        first = false;
        let ghost old_spans = spans(items@);
        if i < n - 1 && i < n - 2 && chars[i + 1] == '-' && chars[i + 2] != ']' {
            items.push(ClassItem::range(c, chars[i + 2]));
            proof {
                assert(spans(items@) =~= old_spans.push((c, chars@[i + 2])));
            }
            i += 3;
        } else {
            items.push(ClassItem::one(c));
            proof {
                assert(spans(items@) =~= old_spans.push((c, c)));
            }
            i += 1;
        }
    }
    None
}

/// The elements of a pattern.
pub fn parse_glob(pattern: &str) -> (r: Vec<GlobTok>)
    ensures
        toks(r@) == pattern_of(pattern@),
{
    let chars = chars_of(pattern);
    let mut out: Vec<GlobTok> = Vec::new();
    let mut i: usize = 0;
    proof {
        assert(toks(out@) + pattern_of(pattern@) =~= pattern_of(pattern@));
    }
    while i < chars.len()
        invariant
            i <= chars@.len(),
            chars@ == pattern@,
            pattern_of(pattern@) == toks(out@) + pattern_from(pattern@, i as int),
        decreases chars@.len() - i,
    {
        let ghost old_toks = toks(out@);
        let ghost at = i as int;
        proof {
            lemma_tok_at(pattern@, at);
        }
        let c = chars[i];
        let tok: GlobTok;
        if c == '*' {
            tok = GlobTok::Star;
            i += 1;
        } else if c == '?' {
            tok = GlobTok::Any;
            i += 1;
        } else if c == '[' {
            match parse_class(chars.as_slice(), i) {
                Some((class, next)) => {
                    tok = class;
                    i = next;
                },
                None => {
                    tok = GlobTok::literal('[');
                    i += 1;
                },
            }
        } else {
            tok = GlobTok::literal(c);
            i += 1;
        }
        let ghost tv = tok@;
        out.push(tok);
        proof {
            assert(tok_at(pattern@, at) == (tv, i as int));
            assert(toks(out@) =~= old_toks.push(tv));
            assert(old_toks + (seq![tv] + pattern_from(pattern@, i as int)) =~= old_toks.push(tv)
                + pattern_from(pattern@, i as int));
        }
    }
    proof {
        assert(toks(out@) + Seq::<TokView>::empty() =~= toks(out@));
    }
    out
}

/// Whether the pattern from `i` on takes the text from `j` on.
spec fn takes_at(p: Seq<TokView>, t: Seq<char>, i: int, j: int) -> bool {
    takes(p.skip(i), t.skip(j))
}

/// One step of `takes_at`.
proof fn lemma_takes_step(p: Seq<TokView>, t: Seq<char>, i: int, j: int)
    requires
        0 <= i <= p.len(),
        0 <= j <= t.len(),
    ensures
        takes_at(p, t, i, j) == if i == p.len() {
            j == t.len()
        } else if p[i] is Star {
            takes_at(p, t, i + 1, j) || (j < t.len() && takes_at(p, t, i, j + 1))
        } else {
            j < t.len() && tok_takes(p[i], t[j]) && takes_at(p, t, i + 1, j + 1)
        },
{
    if i < p.len() {
        assert(p.skip(i)[0] == p[i]);
        assert(p.skip(i).skip(1) =~= p.skip(i + 1));
    }
    if j < t.len() {
        assert(t.skip(j)[0] == t[j]);
        assert(t.skip(j).skip(1) =~= t.skip(j + 1));
    }
}

/// What a star takes from a later place on, it takes from an earlier one on.
proof fn lemma_star_earlier(p: Seq<TokView>, t: Seq<char>, i: int, j: int, k: int)
    requires
        0 <= i < p.len(),
        p[i] is Star,
        0 <= j <= k <= t.len(),
        takes_at(p, t, i, k),
    ensures
        takes_at(p, t, i, j),
    decreases k - j,
{
    if j < k {
        lemma_star_earlier(p, t, i, j + 1, k);
        lemma_takes_step(p, t, i, j);
    }
}

/// What a star takes ends at some place, from which the rest is taken.
proof fn lemma_star_ends(p: Seq<TokView>, t: Seq<char>, i: int, j: int) -> (k: int)
    requires
        0 <= i < p.len(),
        p[i] is Star,
        0 <= j <= t.len(),
        takes_at(p, t, i, j),
    ensures
        j <= k <= t.len(),
        takes_at(p, t, i + 1, k),
    decreases t.len() - j,
{
    lemma_takes_step(p, t, i, j);
    if takes_at(p, t, i + 1, j) {
        j
    } else {
        lemma_star_ends(p, t, i, j + 1)
    }
}

/// Elements other than stars take one character each.
proof fn lemma_run(p: Seq<TokView>, t: Seq<char>, i: int, j: int, n: int)
    requires
        0 <= i,
        0 <= n,
        i + n <= p.len(),
        0 <= j <= t.len(),
        forall|q: int| i <= q < i + n ==> !(#[trigger] p[q] is Star),
        takes_at(p, t, i, j),
    ensures
        j + n <= t.len(),
        takes_at(p, t, i + n, j + n),
    decreases n,
{
    if n > 0 {
        lemma_takes_step(p, t, i, j);
        assert(!(p[i] is Star));
        lemma_run(p, t, i + 1, j + 1, n - 1);
    }
}

/// Where the text has ended, only stars take the rest.
proof fn lemma_end(p: Seq<TokView>, t: Seq<char>, i: int)
    requires
        0 <= i <= p.len(),
    ensures
        takes_at(p, t, i, t.len() as int) == (forall|q: int|
            i <= q < p.len() ==> #[trigger] p[q] is Star),
    decreases p.len() - i,
{
    lemma_takes_step(p, t, i, t.len() as int);
    if i < p.len() {
        lemma_end(p, t, i + 1);
    }
}

/// Matches a pattern against a port origin.
///
/// `*` spans anything, `/` included; `?` is one character; `[dr]`, `[a-c]` and
/// `[!x]` are classes.
pub fn glob_matches(pattern: &str, text: &str) -> (r: bool)
    ensures
        r == takes(pattern_of(pattern@), text@),
{
    let p = parse_glob(pattern);
    let t = chars_of(text);
    let ghost pv = toks(p@);
    let ghost tv = t@;
    proof {
        assert(pv.skip(0) =~= pv);
        assert(tv.skip(0) =~= tv);
    }
    let mut pi: usize = 0;
    let mut ti: usize = 0;
    let mut star: Option<usize> = None;
    let mut resume: usize = 0;
    while ti < t.len()
        invariant
            pv == toks(p@),
            tv == t@,
            takes_at(pv, tv, 0, 0) == takes(pattern_of(pattern@), text@),
            pi <= p@.len(),
            ti <= t@.len(),
            resume <= ti,
            match star {
                None => resume == 0 && takes_at(pv, tv, 0, 0) == takes_at(
                    pv,
                    tv,
                    pi as int,
                    ti as int,
                ),
                Some(s) => {
                    &&& s < pi
                    &&& pv[s as int] is Star
                    &&& forall|q: int| s < q < pi ==> !(#[trigger] pv[q] is Star)
                    &&& pi - (s + 1) == ti - resume
                    &&& takes_at(pv, tv, 0, 0) == takes_at(pv, tv, s as int, resume as int)
                    &&& takes_at(pv, tv, s + 1, resume as int) == takes_at(
                        pv,
                        tv,
                        pi as int,
                        ti as int,
                    )
                },
            },
        decreases
                (match star {
                    None => p@.len() as int,
                    Some(s) => p@.len() - s - 1,
                }),
                t@.len() - resume,
                p@.len() - pi,
    {
        proof {
            lemma_takes_step(pv, tv, pi as int, ti as int);
        }
        if pi < p.len() && p[pi].matches(t[ti]) {
            proof {
                assert(pv[pi as int] == p@[pi as int]@);
            }
            pi += 1;
            ti += 1;
        } else if pi < p.len() && p[pi].is_star() {
            proof {
                assert(pv[pi as int] == p@[pi as int]@);
                if let Some(s) = star {
                    lemma_takes_step(pv, tv, s as int, resume as int);
                    if takes_at(pv, tv, s as int, resume as int) && !takes_at(
                        pv,
                        tv,
                        s + 1,
                        resume as int,
                    ) {
                        let k = lemma_star_ends(pv, tv, s as int, resume + 1);
                        lemma_run(pv, tv, s + 1, k, pi - (s + 1));
                        lemma_star_earlier(pv, tv, pi as int, ti as int, k + (pi - (s + 1)));
                    }
                }
            }
            star = Some(pi);
            resume = ti;
            pi += 1;
        } else if let Some(s) = star {
            proof {
                if pi < p@.len() {
                    assert(pv[pi as int] == p@[pi as int]@);
                }
                assert(!takes_at(pv, tv, pi as int, ti as int));
                lemma_takes_step(pv, tv, s as int, resume as int);
            }
            pi = s + 1;
            resume += 1;
            ti = resume;
        } else {
            proof {
                if pi < p@.len() {
                    assert(pv[pi as int] == p@[pi as int]@);
                }
            }
            return false;
        }
    }
    proof {
        lemma_end(pv, tv, pi as int);
        if let Some(s) = star {
            lemma_takes_step(pv, tv, s as int, resume as int);
            if resume < tv.len() && takes_at(pv, tv, s as int, resume + 1) {
                let k = lemma_star_ends(pv, tv, s as int, resume + 1);
                if takes_at(pv, tv, s + 1, k) {
                    lemma_run(pv, tv, s + 1, k, pi - (s + 1));
                }
            }
        }
    }
    while pi < p.len()
        invariant
            pi <= p@.len(),
            pv == toks(p@),
            takes_at(pv, tv, 0, 0) == (forall|q: int|
                pi <= q < pv.len() ==> #[trigger] pv[q] is Star),
            takes_at(pv, tv, 0, 0) == takes(pattern_of(pattern@), text@),
        decreases p@.len() - pi,
    {
        proof {
            assert(pv[pi as int] == p@[pi as int]@);
        }
        if !p[pi].is_star() {
            return false;
        }
        pi += 1;
    }
    true
}

/// A pattern that starts with a star takes what the rest takes behind any run of
/// characters.
pub proof fn a_star_takes_any_run(p: Seq<TokView>, t: Seq<char>)
    ensures
        takes(seq![TokView::Star] + p, t) <==> exists|k: int|
            0 <= k <= t.len() && takes(p, #[trigger] t.skip(k)),
    decreases t.len(),
{
    let s = seq![TokView::Star] + p;
    assert(s[0] is Star);
    assert(s.skip(1) =~= p);
    assert(t.skip(0) =~= t);
    if t.len() > 0 {
        let u = t.skip(1);
        a_star_takes_any_run(p, u);
        if takes(s, u) {
            let k = choose|k: int| 0 <= k <= u.len() && takes(p, #[trigger] u.skip(k));
            assert(t.skip(k + 1) =~= u.skip(k));
        }
        if exists|k: int| 0 <= k <= t.len() && takes(p, #[trigger] t.skip(k)) {
            let k = choose|k: int| 0 <= k <= t.len() && takes(p, #[trigger] t.skip(k));
            if k > 0 {
                assert(u.skip(k - 1) =~= t.skip(k));
            }
        }
    }
}

/// The pattern of two texts is the pattern of the one and then that of the
/// other, as long as no bracket opens in the first.
pub proof fn patterns_come_apart(a: Seq<char>, b: Seq<char>)
    requires
        !a.contains('['),
    ensures
        pattern_of(a + b) == Seq::new(
            a.len(),
            |i: int|
                if a[i] == '*' {
                    TokView::Star
                } else if a[i] == '?' {
                    TokView::Any
                } else {
                    literal_view(a[i])
                },
        ) + pattern_from(a + b, a.len() as int),
{
    lemma_pattern_from(a, b, 0);
    let s = a + b;
    let whole = Seq::new(
        a.len(),
        |i: int|
            if a[i] == '*' {
                TokView::Star
            } else if a[i] == '?' {
                TokView::Any
            } else {
                literal_view(a[i])
            },
    );
    assert(whole.skip(0) =~= whole);
}

proof fn lemma_pattern_from(a: Seq<char>, b: Seq<char>, i: int)
    requires
        !a.contains('['),
        0 <= i <= a.len(),
    ensures
        pattern_from(a + b, i) == Seq::new(
            a.len(),
            |i: int|
                if a[i] == '*' {
                    TokView::Star
                } else if a[i] == '?' {
                    TokView::Any
                } else {
                    literal_view(a[i])
                },
        ).skip(i) + pattern_from(a + b, a.len() as int),
    decreases a.len() - i,
{
    let s = a + b;
    let whole = Seq::new(
        a.len(),
        |i: int|
            if a[i] == '*' {
                TokView::Star
            } else if a[i] == '?' {
                TokView::Any
            } else {
                literal_view(a[i])
            },
    );
    if i < a.len() {
        lemma_pattern_from(a, b, i + 1);
        assert(s[i] == a[i]);
        assert(a.contains(a[i]));
        assert(a[i] != '[');
        assert(tok_at(s, i).0 == whole[i] && tok_at(s, i).1 == i + 1);
        assert(pattern_from(s, i) == seq![whole[i]] + pattern_from(s, i + 1));
        assert(whole.skip(i) =~= seq![whole[i]] + whole.skip(i + 1));
        assert(pattern_from(s, i) =~= whole.skip(i) + pattern_from(s, a.len() as int));
    } else {
        assert(whole.skip(i) =~= seq![]);
        assert(pattern_from(s, i) =~= whole.skip(i) + pattern_from(s, i));
    }
}

/// A question mark takes any one character, and a character that stands for
/// itself takes that one.
pub proof fn an_element_takes_one_character(c: char, p: Seq<TokView>, t: Seq<char>)
    ensures
        takes(seq![literal_view(c)] + p, t) <==> t.len() > 0 && t[0] == c && takes(p, t.skip(1)),
        takes(seq![TokView::Any] + p, t) <==> t.len() > 0 && takes(p, t.skip(1)),
        takes(Seq::<TokView>::empty(), t) <==> t.len() == 0,
{
    let a = seq![literal_view(c)] + p;
    let b = seq![TokView::Any] + p;
    assert(a.skip(1) =~= p);
    assert(b.skip(1) =~= p);
    assert(a[0] == literal_view(c));
    if t.len() > 0 {
        lemma_literal(c, t[0]);
    }
}

proof fn lemma_literal(c: char, x: char)
    ensures
        tok_takes(literal_view(c), x) == (x == c),
{
    match literal_view(c) {
        TokView::Class { negated, items } => {
            assert(!negated && items.len() == 1 && items[0] == (c, c));
            if x == c {
                assert(in_span(items[0], x));
                assert(exists|i: int| 0 <= i < items.len() && in_span(#[trigger] items[i], x));
            }
            if exists|i: int| 0 <= i < items.len() && in_span(#[trigger] items[i], x) {
                let i = choose|i: int| 0 <= i < items.len() && in_span(#[trigger] items[i], x);
                assert(items[i] == (c, c));
                assert(c <= x && x <= c);
                assert(c as u32 == x as u32);
            }
        },
        _ => {},
    }
}

} // verus!
