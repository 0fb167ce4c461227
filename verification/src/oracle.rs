//! What is asked of the ports tree about a port, and how an answer is found:
//! remembered where the same question has been answered, evaluated otherwise.
use crate::facts::PortFacts;
use crate::makeenv::{EnvView, MakeEnv};
use crate::order;
use crate::resolve;
use crate::text;
use crate::text::same;
use vstd::prelude::*;

verus! {

/// The option set to evaluate a port under.
///
/// `AsShipped` asks what the port defines and what the maintainer defaults to.
/// `Exactly` pins the options, which makes dependencies visible that exist only
/// while an option is set.
#[derive(Debug, Clone, PartialEq, Eq)]
pub enum Options {
    AsShipped,
    Exactly(Vec<String>),
}

impl View for Options {
    type V = Option<Seq<Seq<char>>>;

    open spec fn view(&self) -> Option<Seq<Seq<char>>> {
        match *self {
            Options::AsShipped => None,
            Options::Exactly(set) => Some(text::texts(set@)),
        }
    }
}

/// One question: which port, under which options.
#[derive(Debug, Clone, PartialEq, Eq)]
pub struct Question {
    pub origin: String,
    pub options: Options,
}

/// What a `Question` asks.
pub struct QuestionView {
    pub origin: Seq<char>,
    pub options: Option<Seq<Seq<char>>>,
}

impl View for Question {
    type V = QuestionView;

    open spec fn view(&self) -> QuestionView {
        QuestionView { origin: self.origin@, options: self.options@ }
    }
}

/// The key under which an answer is remembered: empty for a port as it ships,
/// else a space and the options in order, each once, parted by spaces.
pub open spec fn key_of(options: Option<Seq<Seq<char>>>) -> Seq<char> {
    match options {
        None => seq![],
        Some(set) => " "@ + text::joined(order::text_set(set), " "@),
    }
}

/// A name as options have: not empty, and without a space.
pub open spec fn is_name(name: Seq<char>) -> bool {
    name.len() > 0 && !name.contains(' ')
}

/// Every name of a set is one that options have.
pub open spec fn are_names(options: Option<Seq<Seq<char>>>) -> bool {
    options is Some ==> forall|i: int|
        0 <= i < options->0.len() ==> is_name(#[trigger] options->0[i])
}

/// The two say the same: both a port as it ships, or both the same set.
pub open spec fn same_options(a: Option<Seq<Seq<char>>>, b: Option<Seq<Seq<char>>>) -> bool {
    match (a, b) {
        (None, None) => true,
        (Some(x), Some(y)) => forall|name: Seq<char>| #[trigger]
            x.contains(name) <==> y.contains(name),
        _ => false,
    }
}

/// Names parted by spaces can be told apart again.
pub proof fn lemma_joined_apart(a: Seq<Seq<char>>, b: Seq<Seq<char>>)
    requires
        forall|i: int| 0 <= i < a.len() ==> is_name(#[trigger] a[i]),
        forall|i: int| 0 <= i < b.len() ==> is_name(#[trigger] b[i]),
        text::joined(a, " "@) == text::joined(b, " "@),
    ensures
        a == b,
    decreases a.len(),
{
    reveal_strlit(" ");
    let whole = text::joined(a, " "@);
    if a.len() == 0 {
        if b.len() > 0 {
            lemma_joined_ends(b);
        }
        assert(a =~= b);
    } else if b.len() == 0 {
        lemma_joined_ends(a);
    } else {
        lemma_joined_ends(a);
        lemma_joined_ends(b);
        let m = a.last().len() as int;
        let n = b.last().len() as int;
        let len = whole.len() as int;
        if m < n {
            assert(a.len() > 1);
            assert(whole[len - m - 1] == ' ');
            assert(b.last()[n - m - 1] == ' ');
            assert(b.last().contains(' '));
        } else if n < m {
            assert(b.len() > 1);
            assert(whole[len - n - 1] == ' ');
            assert(a.last()[m - n - 1] == ' ');
            assert(a.last().contains(' '));
        }
        assert(m == n);
        assert(a.last() =~= b.last()) by {
            assert forall|i: int| 0 <= i < m implies a.last()[i] == b.last()[i] by {
                assert(a.last()[i] == whole[len - m + i]);
                assert(b.last()[i] == whole[len - n + i]);
            }
        }
        assert(text::joined(a.drop_last(), " "@) =~= text::joined(b.drop_last(), " "@)) by {
            if a.len() > 1 && b.len() > 1 {
                assert(text::joined(a.drop_last(), " "@) =~= whole.take(len - m - 1));
                assert(text::joined(b.drop_last(), " "@) =~= whole.take(len - n - 1));
            }
        }
        assert forall|i: int| 0 <= i < a.drop_last().len() implies is_name(
            #[trigger] a.drop_last()[i],
        ) by {
            assert(is_name(a[i]));
        }
        assert forall|i: int| 0 <= i < b.drop_last().len() implies is_name(
            #[trigger] b.drop_last()[i],
        ) by {
            assert(is_name(b[i]));
        }
        lemma_joined_apart(a.drop_last(), b.drop_last());
        assert(a =~= a.drop_last().push(a.last()));
        assert(b =~= b.drop_last().push(b.last()));
    }
}

/// Names parted by spaces end in the last of them, with a space before it
/// where there are others.
proof fn lemma_joined_ends(a: Seq<Seq<char>>)
    requires
        a.len() > 0,
        forall|i: int| 0 <= i < a.len() ==> is_name(#[trigger] a[i]),
    ensures
        ({
            let whole = text::joined(a, " "@);
            let m = a.last().len() as int;
            let len = whole.len() as int;
            &&& is_name(a.last())
            &&& 0 < m <= len
            &&& forall|i: int| 0 <= i < m ==> #[trigger] a.last()[i] == whole[len - m + i]
            &&& a.len() == 1 ==> len == m
            &&& a.len() > 1 ==> len > m && whole[len - m - 1] == ' ' && text::joined(
                a.drop_last(),
                " "@,
            ) == whole.take(len - m - 1)
        }),
{
    reveal_strlit(" ");
    let whole = text::joined(a, " "@);
    let m = a.last().len() as int;
    let len = whole.len() as int;
    assert(is_name(a[a.len() - 1]));
    if a.len() > 1 {
        assert(text::joined(a.drop_last(), " "@) =~= whole.take(len - m - 1));
    }
}

/// An answer is remembered for exactly the options it was given for: two keys
/// are the same if and only if the options are, in whatever order and however
/// often each is named.
pub proof fn a_key_is_its_options(a: Option<Seq<Seq<char>>>, b: Option<Seq<Seq<char>>>)
    requires
        are_names(a),
        are_names(b),
    ensures
        key_of(a) == key_of(b) <==> same_options(a, b),
{
    reveal_strlit(" ");
    if let (Some(x), Some(y)) = (a, b) {
        let p = order::text_set(x);
        let q = order::text_set(y);
        order::lemma_text_set(x);
        order::lemma_text_set(y);
        if same_options(a, b) {
            order::lemma_same_set(p, q);
        }
        if key_of(a) == key_of(b) {
            assert(text::joined(p, " "@) =~= key_of(a).skip(1));
            assert(text::joined(q, " "@) =~= key_of(b).skip(1));
            assert forall|i: int| 0 <= i < p.len() implies is_name(#[trigger] p[i]) by {
                assert(p.contains(p[i]));
                assert(x.contains(p[i]));
            }
            assert forall|i: int| 0 <= i < q.len() implies is_name(#[trigger] q[i]) by {
                assert(q.contains(q[i]));
                assert(y.contains(q[i]));
            }
            lemma_joined_apart(p, q);
            assert forall|name: Seq<char>| #[trigger] x.contains(name) <==> y.contains(name) by {
                assert(p.contains(name) <==> x.contains(name));
                assert(q.contains(name) <==> y.contains(name));
            }
        }
    } else if a is Some {
        assert(key_of(a).len() > 0);
    } else if b is Some {
        assert(key_of(b).len() > 0);
    }
}

impl Options {
    /// The key under which an answer is remembered. Every distinct set has a
    /// distinct key, and the same set always the same one.
    pub fn key(&self) -> (r: String)
        ensures
            r@ == key_of(self@),
    {
        match self {
            Options::AsShipped => {
                let r = String::new();
                proof {
                    assert(r@ =~= seq![]);
                }
                r
            },
            Options::Exactly(set) => {
                let sorted = order::sorted_texts_once(set);
                let list = text::join(&sorted, " ");
                text::concat2(" ", list.as_str())
            },
        }
    }

    /// The options to pin, where any are.
    pub fn as_slice(&self) -> (r: Option<&Vec<String>>)
        ensures
            match r {
                Some(set) => self@ == Some(text::texts(set@)),
                None => self@ is None,
            },
    {
        match self {
            Options::AsShipped => None,
            Options::Exactly(set) => Some(set),
        }
    }

    /// Whether two option sets ask the same, in the same order.
    pub fn is(&self, other: &Options) -> (r: bool)
        ensures
            r == (self@ == other@),
    {
        match self {
            Options::AsShipped => match other {
                Options::AsShipped => true,
                Options::Exactly(_) => false,
            },
            Options::Exactly(a) => match other {
                Options::AsShipped => false,
                Options::Exactly(b) => text::same_texts(a, b),
            },
        }
    }

    /// The same option set again.
    pub fn copied(&self) -> (r: Options)
        ensures
            r@ == self@,
    {
        match self {
            Options::AsShipped => Options::AsShipped,
            Options::Exactly(set) => Options::Exactly(text::copy_texts(set)),
        }
    }
}

/// Whether a question is among some.
pub fn asked_in(list: &Vec<Question>, origin: &str, options: &Options) -> (r: bool)
    ensures
        r == order::views(list@).contains((QuestionView { origin: origin@, options: options@ })),
{
    let ghost lv = order::views(list@);
    let ghost q = QuestionView { origin: origin@, options: options@ };
    let mut i: usize = 0;
    while i < list.len()
        invariant
            i <= list@.len(),
            lv == order::views(list@),
            q == (QuestionView { origin: origin@, options: options@ }),
            forall|j: int| 0 <= j < i ==> lv[j] != q,
        decreases list@.len() - i,
    {
        proof {
            assert(lv[i as int] == list@[i as int]@);
        }
        if same(list[i].origin.as_str(), origin) && list[i].options.is(options) {
            proof {
                assert(lv[i as int] == q);
            }
            return true;
        }
        i += 1;
    }
    false
}

/// Puts a question on a list, unless it is there.
pub fn ask_once(list: &mut Vec<Question>, question: Question)
    ensures
        order::views(final(list)@) == with_question(order::views(old(list)@), question@),
{
    broadcast use order::lemma_views_push;

    if !asked_in(list, question.origin.as_str(), &question.options) {
        list.push(question);
    }
}

/// A list of questions with one more, unless it is there.
pub open spec fn with_question(list: Seq<QuestionView>, q: QuestionView) -> Seq<QuestionView> {
    if list.contains(q) {
        list
    } else {
        list.push(q)
    }
}

/// How many questions each worker takes at once: an even split across the
/// threads, rounded up, at least one and at most eight.
pub open spec fn chunk_of(len: int, threads: int) -> int {
    let t = if threads < 1 {
        1
    } else {
        threads
    };
    let even = (len + t - 1) / t;
    if even < 1 {
        1
    } else if even > 8 {
        8
    } else {
        even
    }
}

/// Where the ports tree is, as what it is resolved, and where answers are
/// remembered.
#[derive(Debug)]
pub struct Oracle {
    pub env: MakeEnv,
    pub db_path: String,
    /// What every reply is resolved as, and part of every memo key.
    pub target: String,
    /// False when the ports tree could not be read. Remembered replies still
    /// answer; anything else fails, and says why.
    pub tree_readable: bool,
}

/// What an `Oracle` says.
pub struct OracleView {
    pub env: EnvView,
    pub db_path: Seq<char>,
    pub target: Seq<char>,
    pub tree_readable: bool,
}

impl View for Oracle {
    type V = OracleView;

    open spec fn view(&self) -> OracleView {
        OracleView {
            env: self.env@,
            db_path: self.db_path@,
            target: self.target@,
            tree_readable: self.tree_readable,
        }
    }
}

/// What has to be done next to answer a question.
#[derive(Debug, PartialEq, Eq)]
pub enum Step {
    /// Look the reply up by the age of the port's Makefiles.
    LookUp { mtime: i64 },
    /// Look up the newest reply remembered, whatever its age.
    LookUpNewest,
    /// Evaluate the port.
    Evaluate,
    /// Read a reply, and remember it if it can be read and is a new one.
    Read { reply: String, mtime: i64, is_new: bool },
    /// There is no answer: the port has no Makefile.
    NoMakefile,
    /// There is no answer: it is not remembered, and the tree cannot be read.
    NotRemembered,
}

/// What a `Step` says.
pub enum StepView {
    LookUp { mtime: i64 },
    LookUpNewest,
    Evaluate,
    Read { reply: Seq<char>, mtime: i64, is_new: bool },
    NoMakefile,
    NotRemembered,
}

impl View for Step {
    type V = StepView;

    open spec fn view(&self) -> StepView {
        match *self {
            Step::LookUp { mtime } => StepView::LookUp { mtime },
            Step::LookUpNewest => StepView::LookUpNewest,
            Step::Evaluate => StepView::Evaluate,
            Step::Read { reply, mtime, is_new } => StepView::Read { reply: reply@, mtime, is_new },
            Step::NoMakefile => StepView::NoMakefile,
            Step::NotRemembered => StepView::NotRemembered,
        }
    }
}

impl Oracle {
    /// An oracle for a tree that can be read, or cannot.
    pub fn new(env: MakeEnv, db_path: &str, tree_readable: bool) -> (r: Self)
        ensures
            r@ == (OracleView {
                env: env@,
                db_path: db_path@,
                target: crate::makeenv::target_name(env@),
                tree_readable,
            }),
    {
        let target = env.describe_target();
        Oracle { env, db_path: db_path.to_owned(), target, tree_readable }
    }

    /// Where the ports tree is.
    pub fn ports_dir(&self) -> (r: &str)
        ensures
            r@ == self@.env.ports_dir,
    {
        self.env.ports_dir.as_str()
    }

    /// What every reply is resolved as.
    pub fn target(&self) -> (r: &str)
        ensures
            r@ == self@.target,
    {
        self.target.as_str()
    }

    /// Whether the tree is there to be asked.
    pub fn tree_readable(&self) -> (r: bool)
        ensures
            r == self@.tree_readable,
    {
        self.tree_readable
    }

    /// What to do once the age of a port's Makefiles is known. It is part of
    /// the question; without a tree there is no age, and the newest reply
    /// remembered has to do.
    pub fn on_age(&self, mtime: Option<i64>) -> (r: Step)
        ensures
            r@ == match mtime {
                Some(t) => StepView::LookUp { mtime: t },
                None => if self@.tree_readable {
                    StepView::NoMakefile
                } else {
                    StepView::LookUpNewest
                },
            },
    {
        match mtime {
            Some(mtime) => Step::LookUp { mtime },
            None => if self.tree_readable {
                Step::NoMakefile
            } else {
                Step::LookUpNewest
            },
        }
    }

    /// What to do once the exact question has been looked up.
    pub fn on_lookup(&self, mtime: i64, remembered: Option<String>) -> (r: Step)
        ensures
            r@ == match remembered {
                Some(reply) => StepView::Read { reply: reply@, mtime, is_new: false },
                None => if self@.tree_readable {
                    StepView::Evaluate
                } else {
                    StepView::NotRemembered
                },
            },
    {
        match remembered {
            Some(reply) => Step::Read { reply, mtime, is_new: false },
            None => if self.tree_readable {
                Step::Evaluate
            } else {
                Step::NotRemembered
            },
        }
    }

    /// What to do once the newest reply has been looked up.
    pub fn on_newest(&self, remembered: Option<(i64, String)>) -> (r: Step)
        ensures
            r@ == match remembered {
                Some((mtime, reply)) => StepView::Read { reply: reply@, mtime, is_new: false },
                None => StepView::NotRemembered,
            },
    {
        match remembered {
            Some((mtime, reply)) => Step::Read { reply, mtime, is_new: false },
            None => Step::NotRemembered,
        }
    }

    /// What to do once a port has been evaluated.
    pub fn on_evaluated(&self, reply: String, mtime: i64) -> (r: Step)
        ensures
            r@ == (StepView::Read { reply: reply@, mtime, is_new: true }),
    {
        Step::Read { reply, mtime, is_new: true }
    }

    /// Reads a reply, and says whether it is to be remembered. One that cannot
    /// be read is not: storing it would make the failure permanent until the
    /// tree changed.
    pub fn read(origin: &str, reply: &str, mtime: i64, is_new: bool) -> (r: (
        Result<PortFacts, resolve::ReplyError>,
        bool,
    ))
        ensures
            match r.0 {
                Ok(facts) => {
                    &&& resolve::field_value(resolve::fields_of(reply@), "PKGNAME"@).len() > 0
                    &&& facts@ == resolve::facts_said(resolve::fields_of(reply@), origin@, mtime)
                },
                Err(e) => {
                    &&& resolve::field_value(resolve::fields_of(reply@), "PKGNAME"@).len() == 0
                    &&& e->origin@ == origin@
                },
            },
            r.1 == (is_new && r.0 is Ok),
    {
        match resolve::parse_reply(origin, reply, mtime) {
            Ok(facts) => (Ok(facts), is_new),
            Err(e) => (Err(e), false),
        }
    }

    /// How many questions each worker takes at once.
    pub fn chunk_size(len: usize, threads: usize) -> (r: usize)
        ensures
            r == chunk_of(len as int, threads as int),
            1 <= r <= 8,
    {
        let t: usize = if threads < 1 {
            1
        } else {
            threads
        };
        let whole: usize = len / t;
        proof {
            let l = len as int;
            let d = t as int;
            vstd::arithmetic::div_mod::lemma_fundamental_div_mod(l, d);
            if l % d == 0 {
                assert((l + d - 1) / d == l / d) by (nonlinear_arith)
                    requires
                        d > 0,
                        l == d * (l / d) + l % d,
                        l % d == 0,
                ;
            } else {
                assert((l + d - 1) / d == l / d + 1) by (nonlinear_arith)
                    requires
                        d > 0,
                        l == d * (l / d) + l % d,
                        0 < l % d < d,
                ;
            }
        }
        if whole >= 8 {
            return 8;
        }
        let even: usize = if len % t == 0 {
            whole
        } else {
            whole + 1
        };
        if even < 1 {
            1
        } else if even > 8 {
            8
        } else {
            even
        }
    }
}

/// The questions are split so that every worker has one share and no share is
/// larger than it has to be, unless that is more than a worker takes at once.
pub proof fn the_questions_are_shared_out(len: int, threads: int)
    requires
        0 < len,
        0 < threads,
    ensures
        1 <= chunk_of(len, threads) <= 8,
        chunk_of(len, threads) < 8 ==> chunk_of(len, threads) * threads >= len,
        (chunk_of(len, threads) - 1) * threads < len,
{
    let even = (len + threads - 1) / threads;
    vstd::arithmetic::div_mod::lemma_fundamental_div_mod(len + threads - 1, threads);
    vstd::arithmetic::div_mod::lemma_mod_bound(len + threads - 1, threads);
    let over = (len + threads - 1) % threads;
    assert(even * threads >= len) by (nonlinear_arith)
        requires
            len + threads - 1 == threads * even + over,
            over < threads,
    ;
    assert((even - 1) * threads < len) by (nonlinear_arith)
        requires
            len + threads - 1 == threads * even + over,
            0 <= over,
            0 < len,
    ;
    assert(even >= 1) by (nonlinear_arith)
        requires
            even * threads >= len,
            0 < len,
            0 < threads,
    ;
    assert(even > 8 ==> (8 - 1) * threads < len) by (nonlinear_arith)
        requires
            (even - 1) * threads < len,
            0 < threads,
    ;
}

} // verus!
