//! The questions asked of the ports framework about one port, and what its
//! reply says.
use crate::facts::{
    DepEntry, DepView, FactsView, OptionFacts, OptionFactsView, Polarity, PortFacts, Unresolved,
    UnresolvedView,
};
use crate::graph;
use crate::order;
use crate::text;
use crate::text::{holds, same, trim};
use vstd::hash_map::StringHashMap;
use vstd::prelude::*;

verus! {

/// Field separator inside one emitted record. A control character, because an
/// option description is arbitrary text.
pub const US: char = '\u{1f}';

/// Record separator between the items of a list-valued query.
pub const RS: char = '\u{1e}';

pub const REASON_MALFORMED: &'static str = "MALFORMED";

/// The entry has a first field and a colon, but nothing after it: the origin
/// was a variable that is unset in this configuration.
pub const REASON_EMPTY_ORIGIN: &'static str = "EMPTY_ORIGIN";

pub const REASON_ABSOLUTE: &'static str = "ABSOLUTE_PATH";

pub const REASON_UNEXPANDED: &'static str = "UNEXPANDED_VAR";

pub const REASON_NO_SUCH_PORT: &'static str = "NO_SUCH_PORT";

/// The classes of dependencies that make up a port's unified dependencies.
pub open spec fn class_texts() -> Seq<Seq<char>> {
    seq![
        "PKG"@,
        "EXTRACT"@,
        "PATCH"@,
        "FETCH"@,
        "BUILD"@,
        "LIB"@,
        "RUN"@,
        "TEST"@,
    ]
}

/// The classes of dependencies that make up a port's unified dependencies.
pub fn dep_classes() -> (r: Vec<&'static str>)
    ensures
        order::views(r@) == class_texts(),
{
    let r: Vec<&'static str> = vec![
        "PKG",
        "EXTRACT",
        "PATCH",
        "FETCH",
        "BUILD",
        "LIB",
        "RUN",
        "TEST",
    ];
    proof {
        assert(order::views(r@) =~= class_texts());
    }
    r
}

/// The kinds of option groups, in the order in which they are read.
pub open spec fn kind_texts() -> Seq<Seq<char>> {
    seq!["SINGLE"@, "MULTI"@, "RADIO"@, "GROUP"@]
}

/// The kinds of option groups, in the order in which they are read.
pub fn group_kinds() -> (r: Vec<&'static str>)
    ensures
        order::views(r@) == kind_texts(),
{
    let r: Vec<&'static str> = vec!["SINGLE", "MULTI", "RADIO", "GROUP"];
    proof {
        assert(order::views(r@) =~= kind_texts());
    }
    r
}

/// What a depends entry names, or why it names nothing.
///
/// An entry is `test:origin[:target]`, where the origin may carry an
/// `@flavour`. An empty flavour keeps the origin.
pub open spec fn dep_named(entry: Seq<char>) -> Result<(Seq<char>, Option<Seq<char>>), Seq<char>> {
    let e = text::trimmed(entry);
    match text::split_once_of(e, ':') {
        None => Err("MALFORMED"@),
        Some((_, rest)) => {
            let field = rest.take(text::find_from(rest, ':', 0));
            if field.len() == 0 {
                Err("EMPTY_ORIGIN"@)
            } else if field[0] == '/' {
                Err("ABSOLUTE_PATH"@)
            } else if text::has_part(field, "${"@) || text::has_part(field, "$("@) {
                Err("UNEXPANDED_VAR"@)
            } else {
                match text::split_once_of(field, '@') {
                    None => Ok((field, None)),
                    Some((origin, flavour)) => if origin.len() == 0 {
                        Err("MALFORMED"@)
                    } else if flavour.len() == 0 {
                        Ok((origin, None))
                    } else {
                        Ok((origin, Some(flavour)))
                    },
                }
            }
        },
    }
}

/// What a parsed entry stands for.
pub open spec fn parsed_view(r: Result<(String, Option<String>), &'static str>) -> Result<
    (Seq<char>, Option<Seq<char>>),
    Seq<char>,
> {
    match r {
        Ok((origin, flavour)) => Ok((origin@, text::opt_text(flavour))),
        Err(reason) => Err(reason@),
    }
}

/// Splits one depends entry into the port it names.
///
/// The first field is what is being looked for; the second is the origin, and
/// may carry an `@flavour`; anything after is a make target and is discarded.
/// An entry whose origin is absolute, or in which a variable was not expanded,
/// is refused.
pub fn parse_dep_entry(entry: &str) -> (r: Result<(String, Option<String>), &'static str>)
    ensures
        parsed_view(r) == dep_named(entry@),
{
    let entry = trim(entry);
    let (_, rest) = match text::split_once(entry.as_str(), ':') {
        Some(p) => p,
        None => {
            return Err(REASON_MALFORMED);
        },
    };
    let v = text::chars_of(rest.as_str());
    let k = text::find_char(v.as_slice(), ':', 0);
    let part = text::slice_of(v.as_slice(), 0, k);
    proof {
        assert(part@ =~= rest@.take(k as int));
    }
    if part.len() == 0 {
        return Err(REASON_EMPTY_ORIGIN);
    }
    if part[0] == '/' {
        return Err(REASON_ABSOLUTE);
    }
    let field = text::string_of(part.as_slice());
    if text::contains(field.as_str(), "${") || text::contains(field.as_str(), "$(") {
        return Err(REASON_UNEXPANDED);
    }
    match text::split_once(field.as_str(), '@') {
        None => Ok((field, None)),
        Some((origin, flavour)) => {
            if origin.as_str().is_empty() {
                Err(REASON_MALFORMED)
            } else if flavour.as_str().is_empty() {
                Ok((origin, None))
            } else {
                Ok((origin, Some(flavour)))
            }
        },
    }
}

/// A query tagged with its key.
pub open spec fn tag(key: Seq<char>, expr: Seq<char>) -> Seq<char> {
    key.push(US) + expr
}

/// One query, tagged so the reply can be matched by name rather than by
/// position.
pub fn tagged(key: &str, expr: &str) -> (r: String)
    ensures
        r@ == tag(key@, expr@),
{
    let mut out = key.to_owned();
    out.push(US);
    out.append(expr);
    out
}

/// The query for a property that every option has.
pub open spec fn per_option(property: Seq<char>) -> Seq<char> {
    (("${COMPLETE_OPTIONS_LIST:@o@${o}"@.push(US) + "${${o}_"@ + property + "}"@).push(RS)) + "@}"@
}

fn option_expr(property: &str) -> (r: String)
    ensures
        r@ == per_option(property@),
{
    let mut out = "${COMPLETE_OPTIONS_LIST:@o@${o}".to_owned();
    out.push(US);
    out.append("${${o}_");
    out.append(property);
    out.append("}");
    out.push(RS);
    out.append("@}");
    out
}

/// The query for the groups of one kind and their members.
pub open spec fn group_query(kind: Seq<char>) -> Seq<char> {
    tag(
        "GRP_"@ + kind,
        (("${OPTIONS_"@ + kind + ":@g@${g}"@).push(US) + "${OPTIONS_"@ + kind + "_${g}}"@).push(RS)
            + "@}"@,
    )
}

fn group_expr(kind: &str) -> (r: String)
    ensures
        r@ == group_query(kind@),
{
    let key = text::concat2("GRP_", kind);
    let mut out = "${OPTIONS_".to_owned();
    out.append(kind);
    out.append(":@g@${g}");
    out.push(US);
    out.append("${OPTIONS_");
    out.append(kind);
    out.append("_${g}}");
    out.push(RS);
    out.append("@}");
    tagged(key.as_str(), out.as_str())
}

/// The query for the dependencies of one class.
pub open spec fn dep_query(class: Seq<char>) -> Seq<char> {
    tag("DEP_"@ + class, "${"@ + class + "_DEPENDS_ALL}"@)
}

/// The query for the dependencies of one class that options bring when they
/// are on, or off.
pub open spec fn optdep_query(class: Seq<char>, on: bool) -> Seq<char> {
    tag(
        optdep_key(class, on),
        per_option(
            class + "_DEPENDS"@ + if on {
                ""@
            } else {
                "_OFF"@
            },
        ),
    )
}

/// The key of that query.
pub open spec fn optdep_key(class: Seq<char>, on: bool) -> Seq<char> {
    "OPTDEP_"@ + class + if on {
        "_ON"@
    } else {
        "_OFF"@
    }
}

/// The queries for what is not asked per kind or class.
pub open spec fn plain_queries() -> Seq<Seq<char>> {
    seq![
        tag("PKGNAME"@, "${PKGNAME}"@),
        tag("PKGBASE"@, "${PKGBASE}"@),
        tag("FLAVORS"@, "${FLAVORS}"@),
        tag("OPTIONS"@, "${COMPLETE_OPTIONS_LIST}"@),
        tag("DEFAULTS"@, "${PORT_OPTIONS}"@),
        tag("DESC"@, per_option("DESC"@)),
        tag("IMPLIES"@, per_option("IMPLIES"@)),
        tag("PREVENTS"@, per_option("PREVENTS"@)),
    ]
}

/// The queries for dependencies that options bring, of the first `n` classes.
pub open spec fn optdep_queries(n: int) -> Seq<Seq<char>>
    decreases n,
{
    if n <= 0 {
        seq![]
    } else {
        optdep_queries(n - 1).push(optdep_query(class_texts()[n - 1], true)).push(
            optdep_query(class_texts()[n - 1], false),
        )
    }
}

/// Every query made of a port.
pub open spec fn query_texts() -> Seq<Seq<char>> {
    plain_queries() + Seq::new(4, |i: int| group_query(kind_texts()[i])) + Seq::new(
        8,
        |i: int| dep_query(class_texts()[i]),
    ) + optdep_queries(8)
}

/// Every query made of a port, in one invocation.
///
/// The defaults are asked for as the computed set of options, not as what the
/// maintainer wrote, since the framework turns some on by itself.
pub fn queries() -> (r: Vec<String>)
    ensures
        text::texts(r@) == query_texts(),
{
    broadcast use text::lemma_texts_push;

    let mut q: Vec<String> = Vec::new();
    q.push(tagged("PKGNAME", "${PKGNAME}"));
    q.push(tagged("PKGBASE", "${PKGBASE}"));
    q.push(tagged("FLAVORS", "${FLAVORS}"));
    q.push(tagged("OPTIONS", "${COMPLETE_OPTIONS_LIST}"));
    q.push(tagged("DEFAULTS", "${PORT_OPTIONS}"));
    let desc = option_expr("DESC");
    q.push(tagged("DESC", desc.as_str()));
    let implies = option_expr("IMPLIES");
    q.push(tagged("IMPLIES", implies.as_str()));
    let prevents = option_expr("PREVENTS");
    q.push(tagged("PREVENTS", prevents.as_str()));
    let ghost plain = plain_queries();
    let ghost groups = Seq::new(4, |i: int| group_query(kind_texts()[i]));
    let ghost deps = Seq::new(8, |i: int| dep_query(class_texts()[i]));
    proof {
        assert(text::texts(q@) =~= plain);
        assert(plain + groups.take(0) =~= plain);
    }
    let kinds = group_kinds();
    let ghost kv = order::views(kinds@);
    proof {
        assert(kv.len() == kinds@.len());
    }
    let mut i: usize = 0;
    while i < kinds.len()
        invariant
            i <= kinds@.len(),
            kv == order::views(kinds@),
            kv == kind_texts(),
            kinds@.len() == 4,
            groups == Seq::new(4, |i: int| group_query(kind_texts()[i])),
            text::texts(q@) == plain + groups.take(i as int),
        decreases kinds@.len() - i,
    {
        q.push(group_expr(kinds[i]));
        proof {
            assert(kv[i as int] == kinds@[i as int]@);
            assert(plain + groups.take(i + 1) =~= (plain + groups.take(i as int)).push(
                groups[i as int],
            ));
        }
        i += 1;
    }
    let ghost base = plain + groups;
    proof {
        assert(groups.take(4) =~= groups);
        assert(base + deps.take(0) =~= base);
    }
    let classes = dep_classes();
    let ghost cv = order::views(classes@);
    proof {
        assert(cv.len() == classes@.len());
    }
    i = 0;
    while i < classes.len()
        invariant
            i <= classes@.len(),
            cv == order::views(classes@),
            cv == class_texts(),
            classes@.len() == 8,
            deps == Seq::new(8, |i: int| dep_query(class_texts()[i])),
            text::texts(q@) == base + deps.take(i as int),
        decreases classes@.len() - i,
    {
        let key = text::concat2("DEP_", classes[i]);
        let expr = text::concat3("${", classes[i], "_DEPENDS_ALL}");
        q.push(tagged(key.as_str(), expr.as_str()));
        proof {
            assert(cv[i as int] == classes@[i as int]@);
            assert(base + deps.take(i + 1) =~= (base + deps.take(i as int)).push(
                deps[i as int],
            ));
        }
        i += 1;
    }
    let ghost base2 = base + deps;
    proof {
        assert(deps.take(8) =~= deps);
        assert(base2 + optdep_queries(0) =~= base2);
    }
    i = 0;
    while i < classes.len()
        invariant
            i <= classes@.len(),
            cv == order::views(classes@),
            cv == class_texts(),
            classes@.len() == 8,
            text::texts(q@) == base2 + optdep_queries(i as int),
        decreases classes@.len() - i,
    {
        proof {
            assert(cv[i as int] == classes@[i as int]@);
        }
        let ghost before = text::texts(q@);
        let on_key = text::concat3("OPTDEP_", classes[i], "_ON");
        let on_property = text::concat3(classes[i], "_DEPENDS", "");
        let on_expr = option_expr(on_property.as_str());
        q.push(tagged(on_key.as_str(), on_expr.as_str()));
        let off_key = text::concat3("OPTDEP_", classes[i], "_OFF");
        let off_property = text::concat3(classes[i], "_DEPENDS", "_OFF");
        let off_expr = option_expr(off_property.as_str());
        q.push(tagged(off_key.as_str(), off_expr.as_str()));
        proof {
            let on = optdep_query(cv[i as int], true);
            let off = optdep_query(cv[i as int], false);
            assert(text::texts(q@) == before.push(on).push(off));
            assert(base2 + optdep_queries(i + 1) =~= before.push(on).push(off));
        }
        i += 1;
    }
    q
}

/// What has been split off a reply so far: the fields, and the one that a line
/// without a tag goes on.
pub struct Fields {
    pub map: Map<Seq<char>, Seq<char>>,
    pub last: Option<Seq<char>>,
}

/// One line more of a reply. A line without a tag goes on from the one before
/// it, rather than shifting what follows.
pub open spec fn field_line(f: Fields, line: Seq<char>) -> Fields {
    match text::split_once_of(line, US) {
        Some((key, value)) => if key.len() > 0 && !key.contains(' ') {
            Fields { map: f.map.insert(key, value), last: Some(key) }
        } else {
            continued(f, line)
        },
        None => continued(f, line),
    }
}

/// A line that goes on from the one before it.
pub open spec fn continued(f: Fields, line: Seq<char>) -> Fields {
    match f.last {
        Some(key) => Fields { map: f.map.insert(key, f.map[key].push('\n') + line), ..f },
        None => f,
    }
}

/// The fields of the first `n` lines of a reply.
pub open spec fn fields_upto(lines: Seq<Seq<char>>, n: int) -> Fields
    decreases n,
{
    if n <= 0 {
        Fields { map: Map::empty(), last: None }
    } else {
        field_line(fields_upto(lines, n - 1), lines[n - 1])
    }
}

/// The fields of a reply.
pub open spec fn fields_of(reply: Seq<char>) -> Map<Seq<char>, Seq<char>> {
    let lines = text::lines_of(reply);
    fields_upto(lines, lines.len() as int).map
}

/// Whether every line of a reply is tagged, and no two with the same key.
pub open spec fn is_tagged(lines: Seq<Seq<char>>) -> bool {
    &&& forall|i: int|
        0 <= i < lines.len() ==> text::split_once_of(#[trigger] lines[i], US) is Some && key_of(
            lines[i],
        ).len() > 0 && !key_of(lines[i]).contains(' ')
    &&& forall|i: int, j: int|
        0 <= i < j < lines.len() ==> key_of(#[trigger] lines[i]) != key_of(#[trigger] lines[j])
}

/// The key of a tagged line.
pub open spec fn key_of(line: Seq<char>) -> Seq<char> {
    match text::split_once_of(line, US) {
        Some((key, value)) => key,
        None => seq![],
    }
}

/// The value of a tagged line.
pub open spec fn value_of(line: Seq<char>) -> Seq<char> {
    match text::split_once_of(line, US) {
        Some((key, value)) => value,
        None => seq![],
    }
}

/// The fields of tagged lines are their keys and values.
proof fn lemma_tagged(lines: Seq<Seq<char>>, n: int, key: Seq<char>)
    requires
        is_tagged(lines),
        0 <= n <= lines.len(),
    ensures
        ({
            let m = fields_upto(lines, n).map;
            &&& m.contains_key(key) <==> exists|i: int|
                0 <= i < n && key_of(#[trigger] lines[i]) == key
            &&& forall|i: int|
                0 <= i < n && key_of(#[trigger] lines[i]) == key ==> m[key] == value_of(lines[i])
        }),
    decreases n,
{
    if n > 0 {
        lemma_tagged(lines, n - 1, key);
        let a = fields_upto(lines, n - 1).map;
        let m = fields_upto(lines, n).map;
        assert(m == a.insert(key_of(lines[n - 1]), value_of(lines[n - 1])));
        if a.contains_key(key) {
            let i = choose|i: int| 0 <= i < n - 1 && key_of(#[trigger] lines[i]) == key;
            assert(key_of(lines[i]) == key);
        }
        if exists|i: int| 0 <= i < n && key_of(#[trigger] lines[i]) == key {
            let i = choose|i: int| 0 <= i < n && key_of(#[trigger] lines[i]) == key;
            assert(i < n - 1 || i == n - 1);
        }
    }
}

/// Fields are matched by their tags, never by where they stand: a reply in which
/// every line is tagged, each key once, says the same with its lines in any
/// other order.
pub proof fn fields_are_matched_by_tag(a: Seq<char>, b: Seq<char>, origin: Seq<char>, mtime: i64)
    requires
        is_tagged(text::lines_of(a)),
        text::lines_of(b).to_multiset() == text::lines_of(a).to_multiset(),
    ensures
        fields_of(a) == fields_of(b),
        facts_said(fields_of(a), origin, mtime) == facts_said(fields_of(b), origin, mtime),
{
    broadcast use vstd::seq_lib::group_to_multiset_ensures;

    let p = text::lines_of(a);
    let q = text::lines_of(b);
    assert(p.no_duplicates());
    p.lemma_multiset_has_no_duplicates();
    q.lemma_multiset_has_no_duplicates_conv();
    assert forall|x: Seq<char>| #[trigger] p.contains(x) <==> q.contains(x) by {
        assert(p.contains(x) <==> p.to_multiset().count(x) > 0);
        assert(q.contains(x) <==> q.to_multiset().count(x) > 0);
    }
    assert forall|j: int| 0 <= j < q.len() implies text::split_once_of(#[trigger] q[j], US) is Some
        && key_of(q[j]).len() > 0 && !key_of(q[j]).contains(' ') by {
        assert(q.contains(q[j]));
        assert(p.contains(q[j]));
        let i = choose|i: int| 0 <= i < p.len() && p[i] == q[j];
        assert(p[i] == q[j]);
    }
    assert forall|i: int, j: int| 0 <= i < j < q.len() implies key_of(#[trigger] q[i]) != key_of(
        #[trigger] q[j],
    ) by {
        assert(q.contains(q[i]) && q.contains(q[j]));
        assert(p.contains(q[i]) && p.contains(q[j]));
        let x = choose|x: int| 0 <= x < p.len() && p[x] == q[i];
        let y = choose|y: int| 0 <= y < p.len() && p[y] == q[j];
        if x < y {
            assert(key_of(p[x]) != key_of(p[y]));
        } else if y < x {
            assert(key_of(p[y]) != key_of(p[x]));
        } else {
            assert(q[i] == q[j]);
        }
    }
    assert(is_tagged(q));
    let m = fields_of(a);
    let n = fields_of(b);
    assert forall|key: Seq<char>| #[trigger] m.contains_key(key) <==> n.contains_key(key) by {
        lemma_tagged(p, p.len() as int, key);
        lemma_tagged(q, q.len() as int, key);
        if m.contains_key(key) {
            let i = choose|i: int| 0 <= i < p.len() && key_of(#[trigger] p[i]) == key;
            assert(p.contains(p[i]));
            assert(q.contains(p[i]));
            let j = choose|j: int| 0 <= j < q.len() && q[j] == p[i];
            assert(key_of(q[j]) == key);
        }
        if n.contains_key(key) {
            let j = choose|j: int| 0 <= j < q.len() && key_of(#[trigger] q[j]) == key;
            assert(q.contains(q[j]));
            assert(p.contains(q[j]));
            let i = choose|i: int| 0 <= i < p.len() && p[i] == q[j];
            assert(key_of(p[i]) == key);
        }
    }
    assert forall|key: Seq<char>| #[trigger] m.contains_key(key) implies m[key] == n[key] by {
        lemma_tagged(p, p.len() as int, key);
        lemma_tagged(q, q.len() as int, key);
        let i = choose|i: int| 0 <= i < p.len() && key_of(#[trigger] p[i]) == key;
        assert(p.contains(p[i]));
        assert(q.contains(p[i]));
        let j = choose|j: int| 0 <= j < q.len() && q[j] == p[i];
        assert(key_of(q[j]) == key);
    }
    assert(m =~= n);
}

/// A map of strings with one more holds its text too.
proof fn lemma_text_map_insert(m: Map<Seq<char>, String>, k: Seq<char>, v: String)
    ensures
        graph::text_map(m.insert(k, v)) == graph::text_map(m).insert(k, v@),
{
    assert(graph::text_map(m.insert(k, v)) =~= graph::text_map(m).insert(k, v@));
}

/// Splits make's reply into the tagged fields it was asked for.
pub fn split_reply(reply: &str) -> (r: StringHashMap<String>)
    ensures
        graph::text_map(r@) == fields_of(reply@),
{
    let all = text::lines(reply);
    let ghost av = text::texts(all@);
    let mut fields: StringHashMap<String> = StringHashMap::new();
    let mut last: Option<String> = None;
    let mut n: usize = 0;
    proof {
        assert(graph::text_map(fields@) =~= Map::empty());
    }
    while n < all.len()
        invariant
            n <= all@.len(),
            av == text::texts(all@),
            graph::text_map(fields@) == fields_upto(av, n as int).map,
            text::opt_text(last) == fields_upto(av, n as int).last,
            last is Some ==> fields@.contains_key((last->0)@),
        decreases all@.len() - n,
    {
        let ghost f = fields_upto(av, n as int);
        proof {
            assert(av[n as int] == all@[n as int]@);
        }
        let mut done = false;
        if let Some((key, value)) = text::split_once(all[n].as_str(), US) {
            if !key.as_str().is_empty() && !text::contains_char(key.as_str(), ' ') {
                proof {
                    lemma_text_map_insert(fields@, key@, value);
                }
                fields.insert(key.clone(), value);
                last = Some(key);
                done = true;
            }
        }
        if !done {
            if let Some(key) = &last {
                let mut entry = match fields.get(key.as_str()) {
                    Some(v) => v.clone(),
                    None => String::new(),
                };
                proof {
                    assert(f.map[key@] == entry@);
                }
                entry.push('\n');
                entry.append(all[n].as_str());
                proof {
                    lemma_text_map_insert(fields@, key@, entry);
                }
                fields.insert(key.clone(), entry);
            }
        }
        n += 1;
    }
    fields
}

/// The records among the first `n` parts: the first field and the rest.
pub open spec fn records_upto(parts: Seq<Seq<char>>, n: int) -> Seq<(Seq<char>, Seq<char>)>
    decreases n,
{
    if n <= 0 {
        seq![]
    } else {
        let rest = records_upto(parts, n - 1);
        match text::split_once_of(text::trimmed(parts[n - 1]), US) {
            Some((a, b)) => rest.push((text::trimmed(a), text::trimmed(b))),
            None => rest,
        }
    }
}

/// The records of a record-separated list.
pub open spec fn records_of(value: Seq<char>) -> Seq<(Seq<char>, Seq<char>)> {
    let parts = text::split_of(value, RS);
    records_upto(parts, parts.len() as int)
}

/// What a list of pairs of strings holds.
pub open spec fn pairs(v: Seq<(String, String)>) -> Seq<(Seq<char>, Seq<char>)> {
    Seq::new(v.len(), |i: int| (v[i].0@, v[i].1@))
}

/// Splits a record-separated list into first fields and rests.
pub fn records(value: &str) -> (r: Vec<(String, String)>)
    ensures
        pairs(r@) == records_of(value@),
{
    let parts = text::split(value, RS);
    let ghost pv = text::texts(parts@);
    let mut out: Vec<(String, String)> = Vec::new();
    let mut n: usize = 0;
    proof {
        assert(pairs(out@) =~= seq![]);
    }
    while n < parts.len()
        invariant
            n <= parts@.len(),
            pv == text::texts(parts@),
            pairs(out@) == records_upto(pv, n as int),
        decreases parts@.len() - n,
    {
        let ghost before = pairs(out@);
        proof {
            assert(pv[n as int] == parts@[n as int]@);
        }
        let part = trim(parts[n].as_str());
        if let Some((a, b)) = text::split_once(part.as_str(), US) {
            let a = trim(a.as_str());
            let b = trim(b.as_str());
            let ghost p = (a@, b@);
            out.push((a, b));
            proof {
                assert(pairs(out@) =~= before.push(p));
            }
        }
        n += 1;
    }
    out
}

/// The words of a value.
pub fn words(value: &str) -> (r: Vec<String>)
    ensures
        text::texts(r@) == text::words_of(value@),
{
    text::words(value)
}

/// The value of a field, without the white space at its ends; empty where there
/// is no such field.
pub open spec fn field_value(m: Map<Seq<char>, Seq<char>>, key: Seq<char>) -> Seq<char> {
    if m.contains_key(key) {
        text::trimmed(m[key])
    } else {
        seq![]
    }
}

/// The last of the records with this first field.
pub open spec fn last_record(recs: Seq<(Seq<char>, Seq<char>)>, name: Seq<char>) -> Option<
    Seq<char>,
>
    decreases recs.len(),
{
    if recs.len() == 0 {
        None
    } else if recs.last().0 == name {
        Some(recs.last().1)
    } else {
        last_record(recs.drop_last(), name)
    }
}

/// An option's place in a group.
pub struct Grouping {
    pub member: String,
    pub kind: String,
    pub group: String,
}

/// What a `Grouping` says.
pub struct GroupingView {
    pub member: Seq<char>,
    pub kind: Seq<char>,
    pub group: Seq<char>,
}

impl View for Grouping {
    type V = GroupingView;

    open spec fn view(&self) -> GroupingView {
        GroupingView { member: self.member@, kind: self.kind@, group: self.group@ }
    }
}

/// The places that the first `n` words name in one group.
pub open spec fn group_places(
    kind: Seq<char>,
    group: Seq<char>,
    names: Seq<Seq<char>>,
    n: int,
) -> Seq<GroupingView> {
    Seq::new(n as nat, |i: int| GroupingView { member: names[i], kind, group })
}

/// The places in the first `n` groups of one kind.
pub open spec fn kind_places(
    kind: Seq<char>,
    recs: Seq<(Seq<char>, Seq<char>)>,
    n: int,
) -> Seq<GroupingView>
    decreases n,
{
    if n <= 0 {
        seq![]
    } else {
        let names = text::words_of(recs[n - 1].1);
        kind_places(kind, recs, n - 1) + group_places(
            kind,
            recs[n - 1].0,
            names,
            names.len() as int,
        )
    }
}

/// The places in the groups of the first `n` kinds.
pub open spec fn places_upto(m: Map<Seq<char>, Seq<char>>, n: int) -> Seq<GroupingView>
    decreases n,
{
    if n <= 0 {
        seq![]
    } else {
        let kind = kind_texts()[n - 1];
        let recs = records_of(field_value(m, "GRP_"@ + kind));
        places_upto(m, n - 1) + kind_places(kind, recs, recs.len() as int)
    }
}

/// The last of the places of an option.
pub open spec fn last_place(all: Seq<GroupingView>, name: Seq<char>) -> Option<GroupingView>
    decreases all.len(),
{
    if all.len() == 0 {
        None
    } else if all.last().member == name {
        Some(all.last())
    } else {
        last_place(all.drop_last(), name)
    }
}

/// The words of the last record with this first field.
pub open spec fn record_words(recs: Seq<(Seq<char>, Seq<char>)>, name: Seq<char>) -> Seq<
    Seq<char>,
> {
    match last_record(recs, name) {
        Some(value) => text::words_of(value),
        None => seq![],
    }
}

/// What a reply says about one option.
pub open spec fn option_said(m: Map<Seq<char>, Seq<char>>, name: Seq<char>) -> OptionFactsView {
    let place = last_place(places_upto(m, 4), name);
    OptionFactsView {
        name,
        description: match last_record(records_of(field_value(m, "DESC"@)), name) {
            Some(d) => d,
            None => seq![],
        },
        group_type: match place {
            Some(p) => p.kind,
            None => "DEFINE"@,
        },
        group_name: match place {
            Some(p) => p.group,
            None => seq![],
        },
        default_on: text::words_of(field_value(m, "DEFAULTS"@)).contains(name),
        implies: record_words(records_of(field_value(m, "IMPLIES"@)), name),
        prevents: record_words(records_of(field_value(m, "PREVENTS"@)), name),
    }
}

/// What a reply says about its options.
pub open spec fn options_said(m: Map<Seq<char>, Seq<char>>) -> Seq<OptionFactsView> {
    let names = text::words_of(field_value(m, "OPTIONS"@));
    Seq::new(names.len(), |i: int| option_said(m, names[i]))
}

/// A list without the last `x` in it.
pub open spec fn without_last(list: Seq<Seq<char>>, x: Seq<char>) -> Seq<Seq<char>>
    decreases list.len(),
{
    if list.len() == 0 {
        list
    } else if list.last() == x {
        list.drop_last()
    } else {
        without_last(list.drop_last(), x).push(list.last())
    }
}

/// A list without one occurrence for each of the first `n` of some entries.
pub open spec fn minus(list: Seq<Seq<char>>, entries: Seq<Seq<char>>, n: int) -> Seq<Seq<char>>
    decreases n,
{
    if n <= 0 {
        list
    } else {
        without_last(minus(list, entries, n - 1), entries[n - 1])
    }
}

/// The entries of those of the first `n` records whose options are, or are not,
/// among those set.
pub open spec fn folded_upto(
    recs: Seq<(Seq<char>, Seq<char>)>,
    set: Seq<Seq<char>>,
    on: bool,
    n: int,
) -> Seq<Seq<char>>
    decreases n,
{
    if n <= 0 {
        seq![]
    } else {
        let rest = folded_upto(recs, set, on, n - 1);
        if set.contains(recs[n - 1].0) == on {
            rest + text::words_of(recs[n - 1].1)
        } else {
            rest
        }
    }
}

/// The entries that the options, as they were evaluated, added to the plain
/// list of a class: those of an option that was set when it is on, and of one
/// that was not when it is off.
pub open spec fn folded(m: Map<Seq<char>, Seq<char>>, class: Seq<char>) -> Seq<Seq<char>> {
    let set = text::words_of(field_value(m, "DEFAULTS"@));
    let on = records_of(field_value(m, optdep_key(class, true)));
    let off = records_of(field_value(m, optdep_key(class, false)));
    folded_upto(on, set, true, on.len() as int) + folded_upto(off, set, false, off.len() as int)
}

/// The entries of a class that a port has whatever its options say: the plain
/// list without what its options added to it.
pub open spec fn own_entries(m: Map<Seq<char>, Seq<char>>, class: Seq<char>) -> Seq<Seq<char>> {
    let f = folded(m, class);
    minus(text::words_of(field_value(m, "DEP_"@ + class)), f, f.len() as int)
}

/// The dependencies collected so far, and the entries that name none.
pub struct DepList {
    pub deps: Seq<DepView>,
    pub bad: Seq<UnresolvedView>,
}

/// Where an entry comes from.
pub struct Source {
    pub class: Seq<char>,
    pub via: Option<Seq<char>>,
    pub polarity: Polarity,
}

/// One entry more.
pub open spec fn with_entry(l: DepList, entry: Seq<char>, s: Source) -> DepList {
    match dep_named(entry) {
        Ok((origin, flavour)) => DepList {
            deps: l.deps.push(
                DepView {
                    origin,
                    flavour,
                    class: s.class,
                    via_option: s.via,
                    polarity: s.polarity,
                },
            ),
            ..l
        },
        Err(reason) => DepList {
            bad: l.bad.push(UnresolvedView { raw_entry: entry, reason }),
            ..l
        },
    }
}

/// The first `n` entries more.
pub open spec fn with_entries(l: DepList, entries: Seq<Seq<char>>, n: int, s: Source) -> DepList
    decreases n,
{
    if n <= 0 {
        l
    } else {
        with_entry(with_entries(l, entries, n - 1, s), entries[n - 1], s)
    }
}

/// The entries of the first `n` classes that a port has whatever its options
/// say.
pub open spec fn own_deps(m: Map<Seq<char>, Seq<char>>, n: int) -> DepList
    decreases n,
{
    if n <= 0 {
        DepList { deps: seq![], bad: seq![] }
    } else {
        let class = class_texts()[n - 1];
        let entries = own_entries(m, class);
        with_entries(
            own_deps(m, n - 1),
            entries,
            entries.len() as int,
            Source { class, via: None, polarity: Polarity::On },
        )
    }
}

/// The entries of the first `n` records, each by its option.
pub open spec fn with_records(
    l: DepList,
    recs: Seq<(Seq<char>, Seq<char>)>,
    n: int,
    class: Seq<char>,
    polarity: Polarity,
) -> DepList
    decreases n,
{
    if n <= 0 {
        l
    } else {
        let entries = text::words_of(recs[n - 1].1);
        with_entries(
            with_records(l, recs, n - 1, class, polarity),
            entries,
            entries.len() as int,
            Source { class, via: Some(recs[n - 1].0), polarity },
        )
    }
}

/// The entries by option of one class and polarity.
pub open spec fn with_optdeps(
    l: DepList,
    m: Map<Seq<char>, Seq<char>>,
    class: Seq<char>,
    polarity: Polarity,
) -> DepList {
    let recs = records_of(field_value(m, optdep_key(class, polarity == Polarity::On)));
    with_records(l, recs, recs.len() as int, class, polarity)
}

/// The entries by option of the first `n` classes, behind the others.
pub open spec fn option_deps(l: DepList, m: Map<Seq<char>, Seq<char>>, n: int) -> DepList
    decreases n,
{
    if n <= 0 {
        l
    } else {
        let class = class_texts()[n - 1];
        with_optdeps(
            with_optdeps(option_deps(l, m, n - 1), m, class, Polarity::On),
            m,
            class,
            Polarity::Off,
        )
    }
}

/// The name of a package without its version: as reported, else what stands
/// before the last hyphen.
pub open spec fn base_of(pkgbase: Seq<char>, pkgname: Seq<char>) -> Seq<char> {
    if pkgbase.len() > 0 {
        pkgbase
    } else {
        match text::before_last(pkgname, '-') {
            Some(base) => base,
            None => pkgname,
        }
    }
}

/// What the fields of a reply say about a port.
pub open spec fn facts_said(m: Map<Seq<char>, Seq<char>>, origin: Seq<char>, mtime: i64) -> FactsView {
    let l = option_deps(own_deps(m, 8), m, 8);
    FactsView {
        origin,
        pkgname: field_value(m, "PKGNAME"@),
        pkgbase: base_of(field_value(m, "PKGBASE"@), field_value(m, "PKGNAME"@)),
        flavours: text::words_of(field_value(m, "FLAVORS"@)),
        options: options_said(m),
        deps: l.deps,
        unresolved: l.bad,
        source_mtime: mtime,
    }
}

/// Why a reply says nothing about a port.
#[derive(Debug, PartialEq, Eq)]
pub enum ReplyError {
    /// The reply names no package.
    EmptyPkgname { origin: String },
}

impl ReplyError {
    /// What to tell about it.
    pub fn message(&self) -> (r: String)
        ensures
            r@ == empty_pkgname(self->origin@),
    {
        match self {
            ReplyError::EmptyPkgname { origin } => text::concat2(
                origin.as_str(),
                ": make reported an empty PKGNAME",
            ),
        }
    }
}

/// What to tell about a reply that names no package.
pub open spec fn empty_pkgname(origin: Seq<char>) -> Seq<char> {
    origin + ": make reported an empty PKGNAME"@
}

/// The value of a field.
fn get_field(fields: &StringHashMap<String>, key: &str) -> (r: String)
    ensures
        r@ == field_value(graph::text_map(fields@), key@),
{
    match fields.get(key) {
        Some(v) => trim(v.as_str()),
        None => {
            let r = String::new();
            proof {
                assert(r@ =~= seq![]);
            }
            r
        },
    }
}

/// The last of the records with this first field.
fn find_record(recs: &Vec<(String, String)>, name: &str) -> (r: Option<String>)
    ensures
        text::opt_text(r) == last_record(pairs(recs@), name@),
{
    let ghost pv = pairs(recs@);
    let mut n: usize = recs.len();
    proof {
        assert(pv.take(n as int) =~= pv);
    }
    while n > 0
        invariant
            n <= recs@.len(),
            pv == pairs(recs@),
            last_record(pv, name@) == last_record(pv.take(n as int), name@),
        decreases n,
    {
        proof {
            assert(pv.take(n as int).drop_last() =~= pv.take(n - 1));
            assert(pv.take(n as int).last() == pv[n - 1]);
        }
        if same(recs[n - 1].0.as_str(), name) {
            return Some(recs[n - 1].1.clone());
        }
        n -= 1;
    }
    None
}

/// The words of the last record with this first field.
fn find_words(recs: &Vec<(String, String)>, name: &str) -> (r: Vec<String>)
    ensures
        text::texts(r@) == record_words(pairs(recs@), name@),
{
    match find_record(recs, name) {
        Some(value) => words(value.as_str()),
        None => {
            let r: Vec<String> = Vec::new();
            proof {
                assert(text::texts(r@) =~= seq![]);
            }
            r
        },
    }
}

/// Appends the places in the groups of one kind.
fn add_kind(
    fields: &StringHashMap<String>,
    kind: &str,
    out: &mut Vec<Grouping>,
)
    ensures
        ({
            let m = graph::text_map(fields@);
            let recs = records_of(field_value(m, "GRP_"@ + kind@));
            order::views(final(out)@) == order::views(old(out)@) + kind_places(
                kind@,
                recs,
                recs.len() as int,
            )
        }),
{
    broadcast use order::lemma_views_push;

    let key = text::concat2("GRP_", kind);
    let value = get_field(fields, key.as_str());
    let recs = records(value.as_str());
    let ghost rv = pairs(recs@);
    let ghost base = order::views(out@);
    let mut n: usize = 0;
    proof {
        assert(base + kind_places(kind@, rv, 0) =~= base);
    }
    while n < recs.len()
        invariant
            n <= recs@.len(),
            rv == pairs(recs@),
            order::views(out@) == base + kind_places(kind@, rv, n as int),
        decreases recs@.len() - n,
    {
        let names = words(recs[n].1.as_str());
        let ghost nv = text::texts(names@);
        let ghost start = order::views(out@);
        let ghost group = rv[n as int].0;
        let mut i: usize = 0;
        proof {
            assert(rv[n as int] == (recs@[n as int].0@, recs@[n as int].1@));
            assert(start + group_places(kind@, group, nv, 0) =~= start);
        }
        while i < names.len()
            invariant
                n < recs@.len(),
                rv == pairs(recs@),
                group == recs@[n as int].0@,
                i <= names@.len(),
                nv == text::texts(names@),
                order::views(out@) == start + group_places(kind@, group, nv, i as int),
            decreases names@.len() - i,
        {
            out.push(
                Grouping {
                    member: names[i].clone(),
                    kind: kind.to_owned(),
                    group: recs[n].0.clone(),
                },
            );
            proof {
                assert(nv[i as int] == names@[i as int]@);
                assert(start + group_places(kind@, group, nv, i + 1) =~= (start + group_places(
                    kind@,
                    group,
                    nv,
                    i as int,
                )).push(GroupingView { member: nv[i as int], kind: kind@, group }));
            }
            i += 1;
        }
        proof {
            assert(base + kind_places(kind@, rv, n + 1) =~= start + group_places(
                kind@,
                group,
                nv,
                nv.len() as int,
            ));
        }
        n += 1;
    }
}

/// The last of the places of an option.
fn find_place(all: &Vec<Grouping>, name: &str) -> (r: Option<usize>)
    ensures
        match r {
            Some(i) => i < all@.len() && last_place(order::views(all@), name@) == Some(
                all@[i as int]@,
            ),
            None => last_place(order::views(all@), name@) is None,
        },
{
    let ghost av = order::views(all@);
    let mut n: usize = all.len();
    proof {
        assert(av.take(n as int) =~= av);
    }
    while n > 0
        invariant
            n <= all@.len(),
            av == order::views(all@),
            last_place(av, name@) == last_place(av.take(n as int), name@),
        decreases n,
    {
        proof {
            assert(av.take(n as int).drop_last() =~= av.take(n - 1));
            assert(av.take(n as int).last() == all@[n - 1]@);
        }
        if same(all[n - 1].member.as_str(), name) {
            return Some(n - 1);
        }
        n -= 1;
    }
    None
}

/// What a reply says about its options.
fn parse_options(fields: &StringHashMap<String>) -> (r: Vec<OptionFacts>)
    ensures
        order::views(r@) == options_said(graph::text_map(fields@)),
{
    broadcast use order::lemma_views_push;

    let ghost m = graph::text_map(fields@);
    let value = get_field(fields, "OPTIONS");
    let names = words(value.as_str());
    let value = get_field(fields, "DEFAULTS");
    let defaults = words(value.as_str());
    let value = get_field(fields, "DESC");
    let descs = records(value.as_str());
    let value = get_field(fields, "IMPLIES");
    let implies = records(value.as_str());
    let value = get_field(fields, "PREVENTS");
    let prevents = records(value.as_str());
    let kinds = group_kinds();
    let ghost kv = order::views(kinds@);
    let mut places: Vec<Grouping> = Vec::new();
    let mut i: usize = 0;
    proof {
        assert(kv.len() == kinds@.len());
        assert(order::views(places@) =~= seq![]);
    }
    while i < kinds.len()
        invariant
            i <= kinds@.len(),
            kinds@.len() == 4,
            kv == order::views(kinds@),
            kv == kind_texts(),
            m == graph::text_map(fields@),
            order::views(places@) == places_upto(m, i as int),
        decreases kinds@.len() - i,
    {
        proof {
            assert(kv[i as int] == kinds@[i as int]@);
        }
        add_kind(fields, kinds[i], &mut places);
        i += 1;
    }
    let ghost nv = text::texts(names@);
    let ghost want = options_said(m);
    let mut out: Vec<OptionFacts> = Vec::new();
    i = 0;
    proof {
        assert(order::views(out@) =~= want.take(0));
    }
    while i < names.len()
        invariant
            i <= names@.len(),
            nv == text::texts(names@),
            m == graph::text_map(fields@),
            nv == text::words_of(field_value(m, "OPTIONS"@)),
            want == options_said(m),
            text::texts(defaults@) == text::words_of(field_value(m, "DEFAULTS"@)),
            pairs(descs@) == records_of(field_value(m, "DESC"@)),
            pairs(implies@) == records_of(field_value(m, "IMPLIES"@)),
            pairs(prevents@) == records_of(field_value(m, "PREVENTS"@)),
            order::views(places@) == places_upto(m, 4),
            order::views(out@) == want.take(i as int),
        decreases names@.len() - i,
    {
        proof {
            assert(nv[i as int] == names@[i as int]@);
            assert(want.take(i + 1) =~= want.take(i as int).push(want[i as int]));
        }
        let name = names[i].as_str();
        let description = match find_record(&descs, name) {
            Some(d) => d,
            None => {
                let none = String::new();
                proof {
                    assert(none@ =~= seq![]);
                }
                none
            },
        };
        let (group_type, group_name) = match find_place(&places, name) {
            Some(p) => (places[p].kind.clone(), places[p].group.clone()),
            None => {
                let none = String::new();
                proof {
                    assert(none@ =~= seq![]);
                }
                ("DEFINE".to_owned(), none)
            },
        };
        let fact = OptionFacts {
            name: names[i].clone(),
            description,
            group_type,
            group_name,
            default_on: holds(&defaults, name),
            implies: find_words(&implies, name),
            prevents: find_words(&prevents, name),
        };
        proof {
            assert(fact@ == want[i as int]);
        }
        out.push(fact);
        i += 1;
    }
    proof {
        assert(want.take(want.len() as int) =~= want);
    }
    out
}

/// Where `without_last` takes something out.
proof fn lemma_without_last_at(list: Seq<Seq<char>>, x: Seq<char>, i: int)
    requires
        0 <= i < list.len(),
        list[i] == x,
        forall|j: int| i < j < list.len() ==> list[j] != x,
    ensures
        without_last(list, x) == list.remove(i),
    decreases list.len(),
{
    if i == list.len() - 1 {
        assert(list.remove(i) =~= list.drop_last());
    } else {
        assert(list[list.len() - 1] != x);
        lemma_without_last_at(list.drop_last(), x, i);
        assert(list.remove(i) =~= list.drop_last().remove(i).push(list.last()));
    }
}

/// Nothing is taken out where there is nothing to take.
proof fn lemma_without_last_none(list: Seq<Seq<char>>, x: Seq<char>)
    requires
        forall|j: int| 0 <= j < list.len() ==> list[j] != x,
    ensures
        without_last(list, x) == list,
    decreases list.len(),
{
    if list.len() > 0 {
        lemma_without_last_none(list.drop_last(), x);
        assert(list.drop_last().push(list.last()) =~= list);
    }
}

/// Takes the last `x` out of a list.
fn remove_last(list: &mut Vec<String>, x: &str)
    ensures
        text::texts(final(list)@) == without_last(text::texts(old(list)@), x@),
{
    let ghost lv = text::texts(list@);
    let mut n: usize = list.len();
    while n > 0
        invariant
            n <= list@.len(),
            *list == *old(list),
            lv == text::texts(list@),
            forall|j: int| n <= j < lv.len() ==> lv[j] != x@,
        decreases n,
    {
        proof {
            assert(lv[n - 1] == list@[n - 1]@);
        }
        if same(list[n - 1].as_str(), x) {
            list.remove(n - 1);
            proof {
                lemma_without_last_at(lv, x@, n - 1);
                assert(text::texts(list@) =~= lv.remove(n - 1));
            }
            return;
        }
        n -= 1;
    }
    proof {
        lemma_without_last_none(lv, x@);
    }
}

/// Takes out of a list what options added to it.
fn subtract_folded(
    list: &mut Vec<String>,
    recs: &Vec<(String, String)>,
    set: &Vec<String>,
    on: bool,
    Ghost(all): Ghost<Seq<Seq<char>>>,
    Ghost(done): Ghost<Seq<Seq<char>>>,
)
    requires
        text::texts(old(list)@) == minus(all, done, done.len() as int),
    ensures
        ({
            let f = done + folded_upto(pairs(recs@), text::texts(set@), on, recs@.len() as int);
            text::texts(final(list)@) == minus(all, f, f.len() as int)
        }),
{
    let ghost rv = pairs(recs@);
    let ghost sv = text::texts(set@);
    let mut n: usize = 0;
    proof {
        assert(done + folded_upto(rv, sv, on, 0) =~= done);
    }
    while n < recs.len()
        invariant
            n <= recs@.len(),
            rv == pairs(recs@),
            sv == text::texts(set@),
            ({
                let f = done + folded_upto(rv, sv, on, n as int);
                text::texts(list@) == minus(all, f, f.len() as int)
            }),
        decreases recs@.len() - n,
    {
        let ghost before = done + folded_upto(rv, sv, on, n as int);
        proof {
            assert(rv[n as int] == (recs@[n as int].0@, recs@[n as int].1@));
        }
        if holds(set, recs[n].0.as_str()) == on {
            let entries = words(recs[n].1.as_str());
            let ghost ev = text::texts(entries@);
            let mut i: usize = 0;
            proof {
                assert(before + ev.take(0) =~= before);
            }
            while i < entries.len()
                invariant
                    i <= entries@.len(),
                    ev == text::texts(entries@),
                    ({
                        let f = before + ev.take(i as int);
                        text::texts(list@) == minus(all, f, f.len() as int)
                    }),
                decreases entries@.len() - i,
            {
                remove_last(list, entries[i].as_str());
                proof {
                    let a = before + ev.take(i as int);
                    let b = before + ev.take(i + 1);
                    assert(b =~= a.push(entries@[i as int]@));
                    lemma_minus_prefix(all, a, b, a.len() as int);
                }
                i += 1;
            }
            proof {
                assert(ev.take(ev.len() as int) =~= ev);
                assert(before + ev =~= done + folded_upto(rv, sv, on, n + 1));
            }
        }
        n += 1;
    }
}

/// What is taken out depends on nothing behind it.
proof fn lemma_minus_prefix(list: Seq<Seq<char>>, a: Seq<Seq<char>>, b: Seq<Seq<char>>, n: int)
    requires
        n <= a.len(),
        n <= b.len(),
        forall|i: int| 0 <= i < n ==> #[trigger] a[i] == b[i],
    ensures
        minus(list, a, n) == minus(list, b, n),
    decreases n,
{
    if n > 0 {
        lemma_minus_prefix(list, a, b, n - 1);
        assert(a[n - 1] == b[n - 1]);
    }
}

/// The entries of a class that a port has whatever its options say.
fn find_own_entries(fields: &StringHashMap<String>, class: &str) -> (r: Vec<String>)
    ensures
        text::texts(r@) == own_entries(graph::text_map(fields@), class@),
{
    let key = text::concat2("DEP_", class);
    let value = get_field(fields, key.as_str());
    let mut list = words(value.as_str());
    let ghost all = text::texts(list@);
    let value = get_field(fields, "DEFAULTS");
    let set = words(value.as_str());
    let key = text::concat3("OPTDEP_", class, "_ON");
    let value = get_field(fields, key.as_str());
    let on = records(value.as_str());
    let key = text::concat3("OPTDEP_", class, "_OFF");
    let value = get_field(fields, key.as_str());
    let off = records(value.as_str());
    let ghost none: Seq<Seq<char>> = seq![];
    subtract_folded(&mut list, &on, &set, true, Ghost(all), Ghost(none));
    let ghost first = none + folded_upto(
        pairs(on@),
        text::texts(set@),
        true,
        on@.len() as int,
    );
    subtract_folded(&mut list, &off, &set, false, Ghost(all), Ghost(first));
    proof {
        let m = graph::text_map(fields@);
        assert(pairs(on@).len() == on@.len());
        assert(pairs(off@).len() == off@.len());
        assert(none + folded_upto(pairs(on@), text::texts(set@), true, on@.len() as int)
            =~= folded_upto(pairs(on@), text::texts(set@), true, on@.len() as int));
        assert(first + folded_upto(pairs(off@), text::texts(set@), false, off@.len() as int)
            == folded(m, class@));
    }
    list
}

/// What lists of dependencies and of entries that name none stand for.
pub open spec fn dep_list(deps: Seq<DepEntry>, bad: Seq<Unresolved>) -> DepList {
    DepList { deps: order::views(deps), bad: order::views(bad) }
}

/// Reads entries that come from one source.
fn take_entries(
    entries: &Vec<String>,
    class: &str,
    via: Option<&str>,
    polarity: Polarity,
    deps: &mut Vec<DepEntry>,
    bad: &mut Vec<Unresolved>,
)
    ensures
        dep_list(final(deps)@, final(bad)@) == with_entries(
            dep_list(old(deps)@, old(bad)@),
            text::texts(entries@),
            entries@.len() as int,
            (Source {
                class: class@,
                via: match via {
                    Some(o) => Some(o@),
                    None => None,
                },
                polarity,
            }),
        ),
{
    broadcast use order::lemma_views_push;

    let ghost l = dep_list(deps@, bad@);
    let ghost ev = text::texts(entries@);
    let ghost s = Source {
        class: class@,
        via: match via {
            Some(o) => Some(o@),
            None => None,
        },
        polarity,
    };
    let mut n: usize = 0;
    while n < entries.len()
        invariant
            n <= entries@.len(),
            ev == text::texts(entries@),
            s == (Source {
                class: class@,
                via: match via {
                    Some(o) => Some(o@),
                    None => None,
                },
                polarity,
            }),
            dep_list(deps@, bad@) == with_entries(l, ev, n as int, s),
        decreases entries@.len() - n,
    {
        proof {
            assert(ev[n as int] == entries@[n as int]@);
        }
        let ghost before = dep_list(deps@, bad@);
        let parsed = parse_dep_entry(entries[n].as_str());
        let ghost pv = parsed_view(parsed);
        match parsed {
            Ok((origin, flavour)) => {
                proof {
                    assert(pv == Ok::<(Seq<char>, Option<Seq<char>>), Seq<char>>(
                        (origin@, text::opt_text(flavour)),
                    ));
                }
                let via_option = match via {
                    Some(o) => Some(o.to_owned()),
                    None => None,
                };
                let dep = DepEntry { origin, flavour, class: class.to_owned(), via_option, polarity };
                let ghost dv = dep@;
                deps.push(dep);
                proof {
                    assert(dv.via_option == s.via);
                    assert(order::views(deps@) == before.deps.push(dv));
                    assert(dep_list(deps@, bad@) == with_entry(before, ev[n as int], s));
                }
            },
            Err(reason) => {
                let entry = Unresolved { raw_entry: entries[n].clone(), reason };
                let ghost uv = entry@;
                bad.push(entry);
                proof {
                    assert(order::views(bad@) == before.bad.push(uv));
                    assert(dep_list(deps@, bad@) == with_entry(before, ev[n as int], s));
                }
            },
        }
        n += 1;
    }
}

/// Reads the entries by option of one class and polarity.
fn take_optdeps(
    fields: &StringHashMap<String>,
    class: &str,
    polarity: Polarity,
    deps: &mut Vec<DepEntry>,
    bad: &mut Vec<Unresolved>,
)
    ensures
        dep_list(final(deps)@, final(bad)@) == with_optdeps(
            dep_list(old(deps)@, old(bad)@),
            graph::text_map(fields@),
            class@,
            polarity,
        ),
{
    let tail = if polarity == Polarity::On {
        "_ON"
    } else {
        "_OFF"
    };
    let key = text::concat3("OPTDEP_", class, tail);
    let value = get_field(fields, key.as_str());
    let recs = records(value.as_str());
    let ghost rv = pairs(recs@);
    let ghost l = dep_list(deps@, bad@);
    let mut n: usize = 0;
    while n < recs.len()
        invariant
            n <= recs@.len(),
            rv == pairs(recs@),
            dep_list(deps@, bad@) == with_records(l, rv, n as int, class@, polarity),
        decreases recs@.len() - n,
    {
        proof {
            assert(rv[n as int] == (recs@[n as int].0@, recs@[n as int].1@));
        }
        let entries = words(recs[n].1.as_str());
        proof {
            assert(text::texts(entries@).len() == entries@.len());
        }
        take_entries(&entries, class, Some(recs[n].0.as_str()), polarity, deps, bad);
        n += 1;
    }
    proof {
        assert(rv.len() == recs@.len());
    }
}

/// Turns one make reply into the facts for a port.
///
/// A reply that names no package is an error. What options add to the plain
/// dependencies is recorded against the options alone.
pub fn parse_reply(origin: &str, reply: &str, source_mtime: i64) -> (r: Result<
    PortFacts,
    ReplyError,
>)
    ensures
        match r {
            Ok(facts) => {
                &&& field_value(fields_of(reply@), "PKGNAME"@).len() > 0
                &&& facts@ == facts_said(fields_of(reply@), origin@, source_mtime)
            },
            Err(e) => {
                &&& field_value(fields_of(reply@), "PKGNAME"@).len() == 0
                &&& e->origin@ == origin@
            },
        },
{
    let fields = split_reply(reply);
    let ghost m = graph::text_map(fields@);
    let pkgname = get_field(&fields, "PKGNAME");
    if pkgname.as_str().is_empty() {
        return Err(ReplyError::EmptyPkgname { origin: origin.to_owned() });
    }
    let reported = get_field(&fields, "PKGBASE");
    let pkgbase = if !reported.as_str().is_empty() {
        reported
    } else {
        match text::rsplit_head(pkgname.as_str(), '-') {
            Some(base) => base,
            None => pkgname.clone(),
        }
    };
    let options = parse_options(&fields);
    let value = get_field(&fields, "FLAVORS");
    let flavours = words(value.as_str());
    let classes = dep_classes();
    let ghost cv = order::views(classes@);
    let mut deps: Vec<DepEntry> = Vec::new();
    let mut bad: Vec<Unresolved> = Vec::new();
    let mut i: usize = 0;
    proof {
        assert(cv.len() == classes@.len());
        assert(order::views(deps@) =~= seq![]);
        assert(order::views(bad@) =~= seq![]);
    }
    while i < classes.len()
        invariant
            i <= classes@.len(),
            classes@.len() == 8,
            cv == order::views(classes@),
            cv == class_texts(),
            m == graph::text_map(fields@),
            dep_list(deps@, bad@) == own_deps(m, i as int),
        decreases classes@.len() - i,
    {
        proof {
            assert(cv[i as int] == classes@[i as int]@);
        }
        let entries = find_own_entries(&fields, classes[i]);
        proof {
            assert(text::texts(entries@).len() == entries@.len());
        }
        take_entries(&entries, classes[i], None, Polarity::On, &mut deps, &mut bad);
        i += 1;
    }
    let ghost l = dep_list(deps@, bad@);
    i = 0;
    while i < classes.len()
        invariant
            i <= classes@.len(),
            classes@.len() == 8,
            cv == order::views(classes@),
            cv == class_texts(),
            m == graph::text_map(fields@),
            dep_list(deps@, bad@) == option_deps(l, m, i as int),
        decreases classes@.len() - i,
    {
        proof {
            assert(cv[i as int] == classes@[i as int]@);
        }
        take_optdeps(&fields, classes[i], Polarity::On, &mut deps, &mut bad);
        take_optdeps(&fields, classes[i], Polarity::Off, &mut deps, &mut bad);
        i += 1;
    }
    Ok(
        PortFacts {
            origin: origin.to_owned(),
            pkgname,
            pkgbase,
            flavours,
            options,
            deps,
            unresolved: bad,
            source_mtime,
        },
    )
}

/// An entry of a port's directory, with its age where it could be told.
#[derive(Debug)]
pub struct DirEntry {
    pub name: String,
    pub mtime: Option<i64>,
}

/// What a `DirEntry` says.
pub struct DirEntryView {
    pub name: Seq<char>,
    pub mtime: Option<i64>,
}

impl View for DirEntry {
    type V = DirEntryView;

    open spec fn view(&self) -> DirEntryView {
        DirEntryView { name: self.name@, mtime: self.mtime }
    }
}

/// Whether a name is that of one of a port's Makefiles.
pub open spec fn is_makefile(name: Seq<char>) -> bool {
    "Makefile"@.is_prefix_of(name)
}

/// The age of the newest Makefile: none where there is no Makefile, or one
/// whose age could not be told.
pub open spec fn newest_of(entries: Seq<DirEntryView>, r: Option<i64>) -> bool {
    match r {
        None => (forall|i: int|
            0 <= i < entries.len() ==> !is_makefile((#[trigger] entries[i]).name)) || (exists|i: int|
            0 <= i < entries.len() && is_makefile((#[trigger] entries[i]).name)
                && entries[i].mtime is None),
        Some(t) => {
            &&& exists|i: int|
                0 <= i < entries.len() && is_makefile((#[trigger] entries[i]).name)
                    && entries[i].mtime == Some(t)
            &&& forall|i: int|
                0 <= i < entries.len() && is_makefile((#[trigger] entries[i]).name)
                    ==> entries[i].mtime is Some && entries[i].mtime->0 <= t
        },
    }
}

/// The age of a port's newest Makefile, which tells when what is remembered of
/// it has gone stale.
pub fn newest_makefile_mtime(entries: &Vec<DirEntry>) -> (r: Option<i64>)
    ensures
        newest_of(order::views(entries@), r),
{
    let ghost ev = order::views(entries@);
    let mut newest: Option<i64> = None;
    let mut n: usize = 0;
    while n < entries.len()
        invariant
            n <= entries@.len(),
            ev == order::views(entries@),
            newest is None ==> forall|i: int|
                0 <= i < n ==> !is_makefile((#[trigger] ev[i]).name),
            newest is Some ==> exists|i: int|
                0 <= i < n && is_makefile((#[trigger] ev[i]).name) && ev[i].mtime == newest,
            forall|i: int|
                0 <= i < n && is_makefile((#[trigger] ev[i]).name) ==> newest is Some
                    && ev[i].mtime is Some && ev[i].mtime->0 <= newest->0,
        decreases entries@.len() - n,
    {
        proof {
            assert(ev[n as int] == entries@[n as int]@);
        }
        if text::starts_with(entries[n].name.as_str(), "Makefile") {
            match entries[n].mtime {
                None => {
                    proof {
                        assert(is_makefile(ev[n as int].name) && ev[n as int].mtime is None);
                    }
                    return None;
                },
                Some(t) => {
                    match newest {
                        Some(m) => {
                            if t > m {
                                newest = Some(t);
                            }
                        },
                        None => {
                            newest = Some(t);
                        },
                    }
                },
            }
        }
        n += 1;
    }
    newest
}

/// What is said of a failed evaluation: the first line of what was printed.
pub open spec fn failure_note(origin: Seq<char>, printed: Seq<char>) -> Seq<char> {
    let lines = text::lines_of(printed);
    origin + ": make failed: "@ + text::trimmed(
        if lines.len() == 0 {
            "(no output)"@
        } else {
            lines[0]
        },
    )
}

/// What is said of a failed evaluation.
pub fn failure_message(origin: &str, printed: &str) -> (r: String)
    ensures
        r@ == failure_note(origin@, printed@),
{
    let lines = text::lines(printed);
    proof {
        assert(text::texts(lines@).len() == lines@.len());
    }
    let first = if lines.len() == 0 {
        text::trim("(no output)")
    } else {
        proof {
            assert(text::texts(lines@)[0] == lines@[0]@);
        }
        text::trim(lines[0].as_str())
    };
    text::concat3(origin, ": make failed: ", first.as_str())
}

/// A depends entry names the origin in its second field, with the flavour where
/// it carries one; what is looked for and what is to be made are no part of it.
pub proof fn an_entry_names_its_origin(
    test: Seq<char>,
    origin: Seq<char>,
    flavour: Option<Seq<char>>,
    target: Option<Seq<char>>,
)
    requires
        !test.contains(':'),
        origin.len() > 0,
        origin[0] != '/',
        !origin.contains(':'),
        !origin.contains('@'),
        flavour matches Some(f) ==> f.len() > 0 && !f.contains(':'),
        !text::has_part(flavoured(origin, flavour), "${"@),
        !text::has_part(flavoured(origin, flavour), "$("@),
        text::trimmed(written_entry(test, origin, flavour, target)) == written_entry(
            test,
            origin,
            flavour,
            target,
        ),
    ensures
        dep_named(written_entry(test, origin, flavour, target)) == Ok::<
            (Seq<char>, Option<Seq<char>>),
            Seq<char>,
        >((origin, flavour)),
{
    let field = flavoured(origin, flavour);
    let rest = match target {
        Some(t) => field.push(':') + t,
        None => field,
    };
    text::parts_come_apart(test, ':', rest);
    assert(!field.contains(':')) by {
        if field.contains(':') {
            let i = choose|i: int| 0 <= i < field.len() && field[i] == ':';
            if i < origin.len() {
                assert(origin[i] == ':');
                assert(origin.contains(':'));
            } else if let Some(f) = flavour {
                if i > origin.len() {
                    assert(f[i - origin.len() - 1] == ':');
                    assert(f.contains(':'));
                }
            }
        }
    }
    let k = field.len() as int;
    assert forall|j: int| 0 <= j < k implies rest[j] != ':' by {
        assert(rest[j] == field[j]);
        assert(field.contains(field[j]));
    }
    text::lemma_find_from_is(rest, ':', 0, k);
    assert(rest.take(k) =~= field);
    assert(field[0] == origin[0]);
    match flavour {
        Some(f) => {
            text::parts_come_apart(origin, '@', f);
        },
        None => {
            text::parts_come_apart(origin, '@', seq![]);
        },
    }
}

/// An origin with its flavour, where it carries one.
pub open spec fn flavoured(origin: Seq<char>, flavour: Option<Seq<char>>) -> Seq<char> {
    match flavour {
        Some(f) => origin.push('@') + f,
        None => origin,
    }
}

/// A depends entry as it is written: what is looked for, the origin, and what is
/// to be made, where that is said.
pub open spec fn written_entry(
    test: Seq<char>,
    origin: Seq<char>,
    flavour: Option<Seq<char>>,
    target: Option<Seq<char>>,
) -> Seq<char> {
    test.push(':') + match target {
        Some(t) => flavoured(origin, flavour).push(':') + t,
        None => flavoured(origin, flavour),
    }
}

/// Every tagged line of a reply is a field: where every line is tagged and no two
/// have the same key, the fields are the keys with their values.
pub proof fn every_tagged_line_is_a_field(reply: Seq<char>, i: int)
    requires
        is_tagged(text::lines_of(reply)),
        0 <= i < text::lines_of(reply).len(),
    ensures
        text::split_once_of(text::lines_of(reply)[i], US) matches Some((key, value))
            && fields_of(reply).contains_key(key) && fields_of(reply)[key] == value,
{
    let lines = text::lines_of(reply);
    lemma_tagged(lines, lines.len() as int, key_of(lines[i]));
}

} // verus!
