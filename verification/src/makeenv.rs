//! How the ports framework is invoked, and as what it resolves ports.
use crate::oracle;
use crate::resolve;
use crate::text;
use vstd::prelude::*;

verus! {

/// How to invoke the ports framework.
///
/// The four target settings are passed on the command line, so ports can be
/// resolved as a target jail rather than as the host.
#[derive(Debug, Clone)]
pub struct MakeEnv {
    pub ports_dir: String,
    /// The make binary.
    pub make: String,
    /// Extra flags placed before the queries.
    pub flags: Vec<String>,
    pub arch: Option<String>,
    pub osversion: Option<String>,
    pub opsys: Option<String>,
    pub osrel: Option<String>,
    /// The poudriere jail these were read from, when they were derived rather
    /// than typed.
    pub via_jail: Option<String>,
}

/// What a `MakeEnv` says.
pub struct EnvView {
    pub ports_dir: Seq<char>,
    pub make: Seq<char>,
    pub flags: Seq<Seq<char>>,
    pub arch: Option<Seq<char>>,
    pub osversion: Option<Seq<char>>,
    pub opsys: Option<Seq<char>>,
    pub osrel: Option<Seq<char>>,
    pub via_jail: Option<Seq<char>>,
}

impl View for MakeEnv {
    type V = EnvView;

    open spec fn view(&self) -> EnvView {
        EnvView {
            ports_dir: self.ports_dir@,
            make: self.make@,
            flags: text::texts(self.flags@),
            arch: text::opt_text(self.arch),
            osversion: text::opt_text(self.osversion),
            opsys: text::opt_text(self.opsys),
            osrel: text::opt_text(self.osrel),
            via_jail: text::opt_text(self.via_jail),
        }
    }
}

/// An assignment on a command line, where there is a value to assign.
pub open spec fn assignment(key: Seq<char>, value: Option<Seq<char>>) -> Seq<Seq<char>> {
    match value {
        Some(v) => seq![key + "="@ + v],
        None => seq![],
    }
}

/// The assignments of the target settings.
pub open spec fn target_texts(env: EnvView) -> Seq<Seq<char>> {
    assignment("ARCH"@, env.arch) + assignment("OSVERSION"@, env.osversion) + assignment(
        "OPSYS"@,
        env.opsys,
    ) + assignment("OSREL"@, env.osrel)
}

/// The assignments that every evaluation is made under.
pub open spec fn override_texts(env: EnvView) -> Seq<Seq<char>> {
    seq!["PORTSDIR="@ + env.ports_dir] + target_texts(env)
}

/// What ports are resolved as, in one line.
pub open spec fn target_name(env: EnvView) -> Seq<char> {
    let parts = target_texts(env);
    let target = if parts.len() == 0 {
        "host"@
    } else {
        text::joined(parts, " "@)
    };
    match env.via_jail {
        Some(jail) => target + " (poudriere jail "@ + jail + ")"@,
        None => target,
    }
}

/// Whether a setting, where there is one, holds no space.
pub open spec fn is_one_word(value: Option<Seq<char>>) -> bool {
    value is Some ==> !value->0.contains(' ')
}

/// Whether no setting of a target holds a space.
pub open spec fn in_words(env: EnvView) -> bool {
    &&& is_one_word(env.arch)
    &&& is_one_word(env.osversion)
    &&& is_one_word(env.opsys)
    &&& is_one_word(env.osrel)
    &&& is_one_word(env.via_jail)
}

/// The words of a target's name.
spec fn target_words(env: EnvView) -> Seq<Seq<char>> {
    let parts = target_texts(env);
    let target = if parts.len() == 0 {
        seq!["host"@]
    } else {
        parts
    };
    match env.via_jail {
        Some(jail) => target.push("(poudriere"@).push("jail"@).push(jail + ")"@),
        None => target,
    }
}

/// Two texts without a space make one without.
proof fn lemma_word_of(a: Seq<char>, b: Seq<char>)
    requires
        a.len() > 0,
        !a.contains(' '),
        !b.contains(' '),
    ensures
        oracle::is_name(a + b),
{
    assert forall|i: int| 0 <= i < (a + b).len() implies (a + b)[i] != ' ' by {
        if i < a.len() {
            assert(a.contains(a[i]));
        } else {
            assert(b.contains(b[i - a.len()]));
        }
    }
}

proof fn lemma_assignment_word(key: Seq<char>, value: Option<Seq<char>>)
    requires
        !key.contains(' '),
        is_one_word(value),
    ensures
        forall|i: int|
            0 <= i < assignment(key, value).len() ==> oracle::is_name(
                #[trigger] assignment(key, value)[i],
            ) && assignment(key, value)[i].contains('='),
{
    reveal_strlit("=");
    if let Some(v) = value {
        let eq = key + "="@;
        assert forall|i: int| 0 <= i < eq.len() implies eq[i] != ' ' by {
            if i < key.len() {
                assert(key.contains(key[i]));
            }
        }
        lemma_word_of(eq, v);
        assert((eq + v)[key.len() as int] == '=');
    }
}

/// What a target is set to is told by words that hold an equals sign.
proof fn lemma_target_texts(env: EnvView)
    requires
        in_words(env),
    ensures
        forall|i: int|
            0 <= i < target_texts(env).len() ==> oracle::is_name(#[trigger] target_texts(env)[i])
                && target_texts(env)[i].contains('='),
{
    reveal_strlit("ARCH");
    reveal_strlit("OSVERSION");
    reveal_strlit("OPSYS");
    reveal_strlit("OSREL");
    lemma_assignment_word("ARCH"@, env.arch);
    lemma_assignment_word("OSVERSION"@, env.osversion);
    lemma_assignment_word("OPSYS"@, env.opsys);
    lemma_assignment_word("OSREL"@, env.osrel);
    let a = assignment("ARCH"@, env.arch);
    let b = assignment("OSVERSION"@, env.osversion);
    let c = assignment("OPSYS"@, env.opsys);
    let d = assignment("OSREL"@, env.osrel);
    let all = target_texts(env);
    assert forall|i: int| 0 <= i < all.len() implies oracle::is_name(#[trigger] all[i])
        && all[i].contains('=') by {
        if i < a.len() {
            assert(all[i] == a[i]);
        } else if i < a.len() + b.len() {
            assert(all[i] == b[i - a.len()]);
        } else if i < a.len() + b.len() + c.len() {
            assert(all[i] == c[i - a.len() - b.len()]);
        } else {
            assert(all[i] == d[i - a.len() - b.len() - c.len()]);
        }
    }
}

/// The words by which a jail is named.
proof fn lemma_jail_words()
    ensures
        " (poudriere jail "@ == " "@ + "(poudriere"@ + " "@ + "jail"@ + " "@,
        oracle::is_name("host"@),
        oracle::is_name("(poudriere"@),
        oracle::is_name("jail"@),
{
    reveal_strlit(" ");
    reveal_strlit("host");
    reveal_strlit("(poudriere");
    reveal_strlit("jail");
    reveal_strlit(" (poudriere jail ");
    assert(" (poudriere jail "@ =~= " "@ + "(poudriere"@ + " "@ + "jail"@ + " "@);
}

/// What names a target and a jail, joined.
proof fn lemma_jail_joined(target: Seq<Seq<char>>, jail: Seq<char>)
    requires
        target.len() > 0,
    ensures
        text::joined(target.push("(poudriere"@).push("jail"@).push(jail + ")"@), " "@)
            == text::joined(target, " "@) + " (poudriere jail "@ + jail + ")"@,
{
    lemma_jail_words();
    let t = text::joined(target, " "@);
    let one = target.push("(poudriere"@);
    let two = one.push("jail"@);
    let three = two.push(jail + ")"@);
    assert(one.drop_last() =~= target);
    assert(two.drop_last() =~= one);
    assert(three.drop_last() =~= two);
    let sp = " "@;
    let p = "(poudriere"@;
    let j = "jail"@;
    assert(text::joined(one, sp) == t + sp + p);
    assert(text::joined(two, sp) == text::joined(one, sp) + sp + j);
    assert(text::joined(three, sp) == text::joined(two, sp) + sp + (jail + ")"@));
    assert(t + sp + p + sp + j + sp + (jail + ")"@) =~= t + (sp + p + sp + j + sp) + jail + ")"@);
}

/// A target's name is its words, with spaces between them.
proof fn lemma_target_words(env: EnvView)
    requires
        in_words(env),
    ensures
        target_name(env) == text::joined(target_words(env), " "@),
        forall|i: int|
            0 <= i < target_words(env).len() ==> oracle::is_name(#[trigger] target_words(env)[i]),
{
    lemma_target_texts(env);
    lemma_jail_words();
    let parts = target_texts(env);
    let target = if parts.len() == 0 {
        seq!["host"@]
    } else {
        parts
    };
    if let Some(jail) = env.via_jail {
        reveal_strlit(")");
        let last = jail + ")"@;
        assert forall|i: int| 0 <= i < last.len() implies last[i] != ' ' by {
            if i < jail.len() {
                assert(jail.contains(jail[i]));
            }
        }
        assert(oracle::is_name(last));
        lemma_jail_joined(target, jail);
    }
}

/// Whether a text assigns to a key.
spec fn assigns(t: Seq<char>, key: Seq<char>) -> bool {
    t.len() > key.len() && t.take(key.len() as int + 1) == key + "="@
}

/// An assignment taken off the front of two lists that are alike, where nothing
/// behind it assigns to the same key.
proof fn lemma_front_apart(
    key: Seq<char>,
    x: Option<Seq<char>>,
    y: Option<Seq<char>>,
    p: Seq<Seq<char>>,
    q: Seq<Seq<char>>,
)
    requires
        assignment(key, x) + p == assignment(key, y) + q,
        p.len() > 0 ==> !assigns(p[0], key),
        q.len() > 0 ==> !assigns(q[0], key),
    ensures
        x == y,
        p == q,
{
    reveal_strlit("=");
    let eq = key + "="@;
    let l = assignment(key, x) + p;
    let r = assignment(key, y) + q;
    if let Some(v) = x {
        assert(l[0] == eq + v);
        assert((eq + v).take(key.len() as int + 1) =~= eq);
    }
    if let Some(w) = y {
        assert(r[0] == eq + w);
        assert((eq + w).take(key.len() as int + 1) =~= eq);
    }
    match (x, y) {
        (Some(v), Some(w)) => {
            assert(v =~= (eq + v).skip(eq.len() as int));
            assert(w =~= (eq + w).skip(eq.len() as int));
            assert(p =~= l.skip(1));
            assert(q =~= r.skip(1));
        },
        (Some(v), None) => {
            assert(q =~= r);
        },
        (None, Some(w)) => {
            assert(p =~= l);
        },
        (None, None) => {
            assert(p =~= l);
            assert(q =~= r);
        },
    }
}

/// What assigns to one key does not assign to another that differs from it
/// within its length.
proof fn lemma_assigns_one(key: Seq<char>, other: Seq<char>, value: Seq<char>, i: int)
    requires
        0 <= i < key.len(),
        i < other.len(),
        key[i] != other[i],
    ensures
        !assigns(other + "="@ + value, key),
{
    let t = other + "="@ + value;
    if assigns(t, key) {
        assert(t.take(key.len() as int + 1)[i] == (key + "="@)[i]);
        assert(t[i] == other[i]);
    }
}

/// Nothing behind the front of the settings assigns to a key before it.
proof fn lemma_behind(env: EnvView)
    ensures
        ({
            let d = assignment("OSREL"@, env.osrel);
            let c = assignment("OPSYS"@, env.opsys) + d;
            let b = assignment("OSVERSION"@, env.osversion) + c;
            &&& b.len() > 0 ==> !assigns(b[0], "ARCH"@)
            &&& c.len() > 0 ==> !assigns(c[0], "OSVERSION"@)
            &&& d.len() > 0 ==> !assigns(d[0], "OPSYS"@)
            &&& target_texts(env) == assignment("ARCH"@, env.arch) + b
        }),
{
    reveal_strlit("ARCH");
    reveal_strlit("OSVERSION");
    reveal_strlit("OPSYS");
    reveal_strlit("OSREL");
    let d = assignment("OSREL"@, env.osrel);
    let c = assignment("OPSYS"@, env.opsys) + d;
    let b = assignment("OSVERSION"@, env.osversion) + c;
    if let Some(v) = env.osversion {
        lemma_assigns_one("ARCH"@, "OSVERSION"@, v, 0);
    }
    if let Some(v) = env.opsys {
        lemma_assigns_one("ARCH"@, "OPSYS"@, v, 0);
        lemma_assigns_one("OSVERSION"@, "OPSYS"@, v, 1);
    }
    if let Some(v) = env.osrel {
        lemma_assigns_one("ARCH"@, "OSREL"@, v, 0);
        lemma_assigns_one("OSVERSION"@, "OSREL"@, v, 2);
        lemma_assigns_one("OPSYS"@, "OSREL"@, v, 1);
    }
    assert(target_texts(env) =~= assignment("ARCH"@, env.arch) + b);
}

/// Settings told alike are alike.
proof fn lemma_settings_apart(a: EnvView, b: EnvView)
    requires
        target_texts(a) == target_texts(b),
    ensures
        a.arch == b.arch,
        a.osversion == b.osversion,
        a.opsys == b.opsys,
        a.osrel == b.osrel,
{
    lemma_behind(a);
    lemma_behind(b);
    let ad = assignment("OSREL"@, a.osrel);
    let ac = assignment("OPSYS"@, a.opsys) + ad;
    let ab = assignment("OSVERSION"@, a.osversion) + ac;
    let bd = assignment("OSREL"@, b.osrel);
    let bc = assignment("OPSYS"@, b.opsys) + bd;
    let bb = assignment("OSVERSION"@, b.osversion) + bc;
    lemma_front_apart("ARCH"@, a.arch, b.arch, ab, bb);
    lemma_front_apart("OSVERSION"@, a.osversion, b.osversion, ac, bc);
    lemma_front_apart("OPSYS"@, a.opsys, b.opsys, ad, bd);
    assert(ad + seq![] =~= ad);
    assert(bd + seq![] =~= bd);
    lemma_front_apart("OSREL"@, a.osrel, b.osrel, seq![], seq![]);
}

/// A word that assigns nothing is none of the settings.
proof fn lemma_not_a_setting(env: EnvView, word: Seq<char>)
    requires
        in_words(env),
        !word.contains('='),
    ensures
        !target_texts(env).contains(word),
{
    lemma_target_texts(env);
}

/// Words alike are those of settings alike.
proof fn lemma_words_apart(a: EnvView, b: EnvView)
    requires
        in_words(a),
        in_words(b),
        target_words(a) == target_words(b),
        a.via_jail is Some || b.via_jail is None,
    ensures
        target_texts(a) == target_texts(b),
        a.via_jail == b.via_jail,
{
    reveal_strlit("host");
    reveal_strlit("jail");
    reveal_strlit(")");
    lemma_not_a_setting(a, "host"@);
    lemma_not_a_setting(b, "host"@);
    lemma_not_a_setting(b, "jail"@);
    let pa = target_texts(a);
    let pb = target_texts(b);
    let ta = if pa.len() == 0 {
        seq!["host"@]
    } else {
        pa
    };
    let tb = if pb.len() == 0 {
        seq!["host"@]
    } else {
        pb
    };
    let wa = target_words(a);
    let wb = target_words(b);
    let n = wa.len() as int;
    if let Some(x) = a.via_jail {
        assert(wa[n - 2] == "jail"@);
        if let Some(y) = b.via_jail {
            assert(wa[n - 1] == x + ")"@);
            assert(wb[n - 1] == y + ")"@);
            assert(x =~= (x + ")"@).drop_last());
            assert(y =~= (y + ")"@).drop_last());
            assert(ta =~= wa.take(n - 3));
            assert(tb =~= wb.take(n - 3));
        } else {
            assert(pb[n - 2] == "jail"@);
        }
    }
    assert(ta == tb);
    if pa.len() == 0 && pb.len() > 0 {
        assert(pb[0] == "host"@);
    }
    if pb.len() == 0 && pa.len() > 0 {
        assert(pa[0] == "host"@);
    }
    assert(pa =~= pb);
}

/// A target's name tells what ports are resolved as, so that replies kept under
/// it for one jail are never taken for another's.
pub proof fn a_target_is_its_settings(a: EnvView, b: EnvView)
    requires
        in_words(a),
        in_words(b),
        target_name(a) == target_name(b),
    ensures
        a.arch == b.arch,
        a.osversion == b.osversion,
        a.opsys == b.opsys,
        a.osrel == b.osrel,
        a.via_jail == b.via_jail,
{
    lemma_target_words(a);
    lemma_target_words(b);
    oracle::lemma_joined_apart(target_words(a), target_words(b));
    if a.via_jail is Some {
        lemma_words_apart(a, b);
    } else {
        lemma_words_apart(b, a);
    }
    lemma_settings_apart(a, b);
}

/// The assignments that keep this machine's own choices out of an evaluation.
pub open spec fn neutral_texts() -> Seq<Seq<char>> {
    seq!["PORT_DBDIR=/nonexistent"@, "__MAKE_CONF=/dev/null"@, "OPTIONS_SET="@, "OPTIONS_UNSET="@]
}

/// The first `n` queries, each behind its flag.
pub open spec fn query_args(all: Seq<Seq<char>>, n: int) -> Seq<Seq<char>>
    decreases n,
{
    if n <= 0 {
        seq![]
    } else {
        query_args(all, n - 1).push("-V"@).push(all[n - 1])
    }
}

/// The assignment that pins the options an evaluation is made under.
pub open spec fn pin_texts(options: Option<Seq<Seq<char>>>) -> Seq<Seq<char>> {
    match options {
        Some(set) => seq!["OPTIONS_OVERRIDE="@ + text::joined(set, " "@)],
        None => seq![],
    }
}

/// The arguments with which make evaluates a port.
pub open spec fn make_args_of(
    env: EnvView,
    port_dir: Seq<char>,
    options: Option<Seq<Seq<char>>>,
) -> Seq<Seq<char>> {
    let q = resolve::query_texts();
    seq!["-C"@, port_dir] + env.flags + query_args(q, q.len() as int) + override_texts(env)
        + neutral_texts() + pin_texts(options)
}

/// Appends an assignment, where there is a value to assign.
fn add_assignment(out: &mut Vec<String>, key: &str, value: &Option<String>)
    ensures
        text::texts(final(out)@) == text::texts(old(out)@) + assignment(
            key@,
            text::opt_text(*value),
        ),
{
    broadcast use text::lemma_texts_push;

    let ghost base = text::texts(out@);
    match value {
        Some(v) => {
            out.push(text::concat3(key, "=", v.as_str()));
            proof {
                assert(text::texts(out@) =~= base + assignment(key@, text::opt_text(*value)));
            }
        },
        None => {
            proof {
                assert(base + assignment(key@, text::opt_text(*value)) =~= base);
            }
        },
    }
}

impl MakeEnv {
    /// The framework at `ports_dir`, resolved as the host.
    pub fn new(ports_dir: &str) -> (r: Self)
        ensures
            r@ == (EnvView {
                ports_dir: ports_dir@,
                make: "make"@,
                flags: seq![],
                arch: None,
                osversion: None,
                opsys: None,
                osrel: None,
                via_jail: None,
            }),
    {
        let r = MakeEnv {
            ports_dir: ports_dir.to_owned(),
            make: "make".to_owned(),
            flags: Vec::new(),
            arch: None,
            osversion: None,
            opsys: None,
            osrel: None,
            via_jail: None,
        };
        proof {
            assert(r@.flags =~= seq![]);
        }
        r
    }

    fn add_target(&self, out: &mut Vec<String>)
        ensures
            text::texts(final(out)@) == text::texts(old(out)@) + target_texts(self@),
    {
        let ghost base = text::texts(out@);
        add_assignment(out, "ARCH", &self.arch);
        add_assignment(out, "OSVERSION", &self.osversion);
        add_assignment(out, "OPSYS", &self.opsys);
        add_assignment(out, "OSREL", &self.osrel);
        proof {
            assert(text::texts(out@) =~= base + target_texts(self@));
        }
    }

    /// The assignments that every evaluation is made under.
    pub fn overrides(&self) -> (r: Vec<String>)
        ensures
            text::texts(r@) == override_texts(self@),
    {
        let mut out: Vec<String> = Vec::new();
        out.push(text::concat2("PORTSDIR=", self.ports_dir.as_str()));
        proof {
            assert(text::texts(out@) =~= seq!["PORTSDIR="@ + self.ports_dir@]);
        }
        self.add_target(&mut out);
        out
    }

    /// A one-line description of what ports are resolved as.
    pub fn describe_target(&self) -> (r: String)
        ensures
            r@ == target_name(self@),
    {
        let mut parts: Vec<String> = Vec::new();
        proof {
            assert(text::texts(parts@) =~= seq![]);
        }
        self.add_target(&mut parts);
        proof {
            assert(text::texts(parts@) =~= target_texts(self@));
        }
        let mut target = if parts.len() == 0 {
            "host".to_owned()
        } else {
            text::join(&parts, " ")
        };
        if let Some(jail) = &self.via_jail {
            target.append(" (poudriere jail ");
            target.append(jail.as_str());
            target.append(")");
        }
        target
    }

    /// The arguments with which make evaluates the port in `port_dir`, as it
    /// ships or under exactly the options given.
    ///
    /// Everything that would lay this machine's own choices over the port's
    /// defaults is kept out.
    pub fn make_args(&self, port_dir: &str, options: Option<&Vec<String>>) -> (r: Vec<String>)
        ensures
            text::texts(r@) == make_args_of(
                self@,
                port_dir@,
                match options {
                    Some(set) => Some(text::texts(set@)),
                    None => None,
                },
            ),
    {
        broadcast use text::lemma_texts_push;

        let mut out: Vec<String> = Vec::new();
        out.push("-C".to_owned());
        out.push(port_dir.to_owned());
        proof {
            assert(text::texts(out@) =~= seq!["-C"@, port_dir@]);
        }
        text::append(&mut out, &self.flags);
        let all = resolve::queries();
        let ghost av = text::texts(all@);
        let ghost base = text::texts(out@);
        let mut n: usize = 0;
        proof {
            assert(base + query_args(av, 0) =~= base);
        }
        while n < all.len()
            invariant
                n <= all@.len(),
                av == text::texts(all@),
                text::texts(out@) == base + query_args(av, n as int),
            decreases all@.len() - n,
        {
            let ghost before = text::texts(out@);
            out.push("-V".to_owned());
            out.push(all[n].clone());
            proof {
                assert(av[n as int] == all@[n as int]@);
                assert(base + query_args(av, n + 1) =~= before.push("-V"@).push(av[n as int]));
            }
            n += 1;
        }
        let over = self.overrides();
        text::append(&mut out, &over);
        let ghost base2 = text::texts(out@);
        out.push("PORT_DBDIR=/nonexistent".to_owned());
        out.push("__MAKE_CONF=/dev/null".to_owned());
        out.push("OPTIONS_SET=".to_owned());
        out.push("OPTIONS_UNSET=".to_owned());
        proof {
            assert(text::texts(out@) =~= base2 + neutral_texts());
        }
        let ghost base3 = text::texts(out@);
        match options {
            Some(set) => {
                let list = text::join(set, " ");
                out.push(text::concat2("OPTIONS_OVERRIDE=", list.as_str()));
                proof {
                    assert(text::texts(out@) =~= base3 + pin_texts(Some(text::texts(set@))));
                }
            },
            None => {
                proof {
                    assert(base3 + pin_texts(None) =~= base3);
                }
            },
        }
        out
    }
}

proof fn lemma_query_args(all: Seq<Seq<char>>, n: int, i: int)
    requires
        0 <= i < n <= all.len(),
    ensures
        query_args(all, n).len() == 2 * n,
        query_args(all, n)[2 * i] == "-V"@,
        query_args(all, n)[2 * i + 1] == all[i],
    decreases n,
{
    if i < n - 1 {
        lemma_query_args(all, n - 1, i);
    } else {
        lemma_query_args_len(all, n - 1);
    }
}

proof fn lemma_query_args_len(all: Seq<Seq<char>>, n: int)
    requires
        0 <= n,
    ensures
        query_args(all, n).len() == 2 * n,
    decreases n,
{
    if n > 0 {
        lemma_query_args_len(all, n - 1);
    }
}

/// Whether an argument is among others, with another right behind it.
pub open spec fn has_pair(args: Seq<Seq<char>>, a: Seq<char>, b: Seq<char>) -> bool {
    exists|i: int| 0 <= i < args.len() - 1 && #[trigger] args[i] == a && args[i + 1] == b
}

/// `make` is asked every question, in the directory of the port, under the tree
/// and the target settings that were given, kept from this machine's own
/// choices, and with just the options that were asked for, where any were.
pub proof fn an_evaluation_is_made_as_asked(
    env: EnvView,
    port_dir: Seq<char>,
    options: Option<Seq<Seq<char>>>,
    q: int,
)
    requires
        0 <= q < resolve::query_texts().len(),
    ensures
        ({
            let args = make_args_of(env, port_dir, options);
            &&& args[0] == "-C"@ && args[1] == port_dir
            &&& forall|i: int| 0 <= i < env.flags.len() ==> args.contains(#[trigger] env.flags[i])
            &&& has_pair(args, "-V"@, resolve::query_texts()[q])
            &&& args.contains("PORTSDIR="@ + env.ports_dir)
            &&& env.arch matches Some(v) ==> args.contains("ARCH"@ + "="@ + v)
            &&& env.osversion matches Some(v) ==> args.contains("OSVERSION"@ + "="@ + v)
            &&& env.opsys matches Some(v) ==> args.contains("OPSYS"@ + "="@ + v)
            &&& env.osrel matches Some(v) ==> args.contains("OSREL"@ + "="@ + v)
            &&& args.contains("PORT_DBDIR=/nonexistent"@)
            &&& args.contains("__MAKE_CONF=/dev/null"@)
            &&& options matches Some(set) ==> args.last() == "OPTIONS_OVERRIDE="@ + text::joined(
                set,
                " "@,
            )
        }),
{
    let all = resolve::query_texts();
    let n = all.len() as int;
    let head = seq!["-C"@, port_dir];
    let asked = query_args(all, n);
    let over = override_texts(env);
    let neutral = neutral_texts();
    let pin = pin_texts(options);
    let a = head + env.flags;
    let b = a + asked;
    let c = b + over;
    let d = c + neutral;
    let args = make_args_of(env, port_dir, options);
    assert(args == d + pin);
    assert forall|x: Seq<char>|
        env.flags.contains(x) || over.contains(x) || neutral.contains(x) implies #[trigger] args.contains(
        x,
    ) by {
        crate::reply::lemma_in_sum(head, env.flags, x);
        crate::reply::lemma_in_sum(a, asked, x);
        crate::reply::lemma_in_sum(b, over, x);
        crate::reply::lemma_in_sum(c, neutral, x);
        crate::reply::lemma_in_sum(d, pin, x);
    }
    lemma_query_args(all, n, q);
    let at = a.len() + 2 * q;
    assert(args[at] == asked[2 * q]);
    assert(args[at + 1] == asked[2 * q + 1]);
    assert(has_pair(args, "-V"@, all[q]));
    assert forall|i: int| 0 <= i < env.flags.len() implies args.contains(
        #[trigger] env.flags[i],
    ) by {
        assert(env.flags.contains(env.flags[i]));
    }
    let t = target_texts(env);
    let first = seq!["PORTSDIR="@ + env.ports_dir];
    assert(over[0] == "PORTSDIR="@ + env.ports_dir);
    assert(over.contains(over[0]));
    assert(neutral[0] == "PORT_DBDIR=/nonexistent"@ && neutral[1] == "__MAKE_CONF=/dev/null"@);
    assert(neutral.contains(neutral[0]) && neutral.contains(neutral[1]));
    let p = assignment("ARCH"@, env.arch);
    let r = assignment("OSVERSION"@, env.osversion);
    let s = assignment("OPSYS"@, env.opsys);
    let u = assignment("OSREL"@, env.osrel);
    assert(t == p + r + s + u);
    assert forall|x: Seq<char>|
        p.contains(x) || r.contains(x) || s.contains(x) || u.contains(
            x,
        ) implies #[trigger] over.contains(x) by {
        crate::reply::lemma_in_sum(p, r, x);
        crate::reply::lemma_in_sum(p + r, s, x);
        crate::reply::lemma_in_sum(p + r + s, u, x);
        crate::reply::lemma_in_sum(first, t, x);
    }
    if let Some(v) = env.arch {
        assert(p[0] == "ARCH"@ + "="@ + v);
        assert(over.contains(p[0]));
    }
    if let Some(v) = env.osversion {
        assert(r[0] == "OSVERSION"@ + "="@ + v);
        assert(over.contains(r[0]));
    }
    if let Some(v) = env.opsys {
        assert(s[0] == "OPSYS"@ + "="@ + v);
        assert(over.contains(s[0]));
    }
    if let Some(v) = env.osrel {
        assert(u[0] == "OSREL"@ + "="@ + v);
        assert(over.contains(u[0]));
    }
    if let Some(set) = options {
        assert(pin.last() == "OPTIONS_OVERRIDE="@ + text::joined(set, " "@));
        assert(args.last() == pin.last());
    }
}

} // verus!
