//! That a reply is read whole: what is told of a port holds every option, every
//! group and every dependency that the reply names, and nothing else.
use crate::facts::{DepView, FactsView, OptionFactsView, Polarity, UnresolvedView};
use crate::order;
use crate::resolve;
use crate::resolve::{DepList, Source, RS, US};
use crate::text;
use vstd::prelude::*;

verus! {

/// Whether this is one of the classes of dependencies that count.
pub open spec fn is_class(class: Seq<char>) -> bool {
    ||| class == "PKG"@
    ||| class == "EXTRACT"@
    ||| class == "PATCH"@
    ||| class == "FETCH"@
    ||| class == "BUILD"@
    ||| class == "LIB"@
    ||| class == "RUN"@
    ||| class == "TEST"@
}

/// The value of a field without the white space around it, where there is such a
/// field.
pub open spec fn value_at(m: Map<Seq<char>, Seq<char>>, key: Seq<char>) -> Seq<char> {
    if m.contains_key(key) {
        text::trimmed(m[key])
    } else {
        seq![]
    }
}

/// The key of the field that holds what options bring of a class when they are
/// on, or off.
pub open spec fn brought_key(class: Seq<char>, polarity: Polarity) -> Seq<char> {
    match polarity {
        Polarity::On => "OPTDEP_"@ + class + "_ON"@,
        Polarity::Off => "OPTDEP_"@ + class + "_OFF"@,
    }
}

/// Whether a list of records has one that names an option, with this value.
pub open spec fn has_record(value: Seq<char>, name: Seq<char>, said: Seq<char>) -> bool {
    exists|p: int|
        0 <= p < text::split_of(value, RS).len() && is_record(
            #[trigger] text::split_of(value, RS)[p],
            name,
            said,
        )
}

/// Whether a part of a list of records names an option, with this value.
pub open spec fn is_record(part: Seq<char>, name: Seq<char>, said: Seq<char>) -> bool {
    text::split_once_of(text::trimmed(part), US) matches Some((a, b)) && name == text::trimmed(a)
        && said == text::trimmed(b)
}

/// Whether a field says that an option brings this entry.
pub open spec fn is_brought(
    m: Map<Seq<char>, Seq<char>>,
    class: Seq<char>,
    polarity: Polarity,
    name: Seq<char>,
    entry: Seq<char>,
) -> bool {
    exists|said: Seq<char>| #[trigger]
        has_record(value_at(m, brought_key(class, polarity)), name, said) && text::words_of(
            said,
        ).contains(entry)
}

/// Whether what is told of a port holds an entry: as a dependency where it names
/// a port, and among what could not be resolved where it does not.
pub open spec fn is_taken(
    f: FactsView,
    entry: Seq<char>,
    class: Seq<char>,
    via: Option<Seq<char>>,
    polarity: Polarity,
) -> bool {
    match resolve::dep_named(entry) {
        Ok((origin, flavour)) => f.deps.contains(
            DepView { origin, flavour, class, via_option: via, polarity },
        ),
        Err(reason) => f.unresolved.contains(UnresolvedView { raw_entry: entry, reason }),
    }
}

proof fn lemma_records(parts: Seq<Seq<char>>, n: int, name: Seq<char>, said: Seq<char>)
    requires
        0 <= n <= parts.len(),
    ensures
        resolve::records_upto(parts, n).contains((name, said)) <==> exists|p: int|
            0 <= p < n && is_record(#[trigger] parts[p], name, said),
    decreases n,
{
    if n > 0 {
        lemma_records(parts, n - 1, name, said);
        let a = resolve::records_upto(parts, n - 1);
        let r = resolve::records_upto(parts, n);
        if text::split_once_of(text::trimmed(parts[n - 1]), US) is Some {
            assert(r.drop_last() =~= a);
            order::lemma_contains_last(r, (name, said));
        }
        if a.contains((name, said)) {
            let p = choose|p: int| 0 <= p < n - 1 && is_record(#[trigger] parts[p], name, said);
            assert(is_record(parts[p], name, said));
        }
        if exists|p: int| 0 <= p < n && is_record(#[trigger] parts[p], name, said) {
            let p = choose|p: int| 0 <= p < n && is_record(#[trigger] parts[p], name, said);
            assert(p < n - 1 || p == n - 1);
        }
        if is_record(parts[n - 1], name, said) {
            assert(r.last() == (name, said));
        }
    }
}

proof fn lemma_has_record(value: Seq<char>, name: Seq<char>, said: Seq<char>)
    ensures
        resolve::records_of(value).contains((name, said)) <==> has_record(value, name, said),
{
    let parts = text::split_of(value, RS);
    lemma_records(parts, parts.len() as int, name, said);
}

/// The dependency or the failure that an entry stands for.
spec fn dep_of(entry: Seq<char>, s: Source) -> Option<DepView> {
    match resolve::dep_named(entry) {
        Ok((origin, flavour)) => Some(
            DepView {
                origin,
                flavour,
                class: s.class,
                via_option: s.via,
                polarity: s.polarity,
            },
        ),
        Err(reason) => None,
    }
}

spec fn bad_of(entry: Seq<char>) -> Option<UnresolvedView> {
    match resolve::dep_named(entry) {
        Ok(p) => None,
        Err(reason) => Some(UnresolvedView { raw_entry: entry, reason }),
    }
}

/// What some entries add to a list.
proof fn lemma_entries(l: DepList, entries: Seq<Seq<char>>, n: int, s: Source, d: DepView, b: UnresolvedView)
    requires
        0 <= n <= entries.len(),
    ensures
        ({
            let r = resolve::with_entries(l, entries, n, s);
            &&& r.deps.contains(d) <==> l.deps.contains(d) || exists|i: int|
                0 <= i < n && dep_of(#[trigger] entries[i], s) == Some(d)
            &&& r.bad.contains(b) <==> l.bad.contains(b) || exists|i: int|
                0 <= i < n && bad_of(#[trigger] entries[i]) == Some(b)
        }),
    decreases n,
{
    if n > 0 {
        lemma_entries(l, entries, n - 1, s, d, b);
        let a = resolve::with_entries(l, entries, n - 1, s);
        let r = resolve::with_entries(l, entries, n, s);
        let e = entries[n - 1];
        if dep_of(e, s) is Some {
            assert(r.deps.drop_last() =~= a.deps);
            order::lemma_contains_last(r.deps, d);
        } else {
            assert(r.bad.drop_last() =~= a.bad);
            order::lemma_contains_last(r.bad, b);
        }
        if exists|i: int| 0 <= i < n - 1 && dep_of(#[trigger] entries[i], s) == Some(d) {
            let i = choose|i: int| 0 <= i < n - 1 && dep_of(#[trigger] entries[i], s) == Some(d);
            assert(dep_of(entries[i], s) == Some(d));
        }
        if exists|i: int| 0 <= i < n && dep_of(#[trigger] entries[i], s) == Some(d) {
            let i = choose|i: int| 0 <= i < n && dep_of(#[trigger] entries[i], s) == Some(d);
            assert(i < n - 1 || i == n - 1);
        }
        if exists|i: int| 0 <= i < n - 1 && bad_of(#[trigger] entries[i]) == Some(b) {
            let i = choose|i: int| 0 <= i < n - 1 && bad_of(#[trigger] entries[i]) == Some(b);
            assert(bad_of(entries[i]) == Some(b));
        }
        if exists|i: int| 0 <= i < n && bad_of(#[trigger] entries[i]) == Some(b) {
            let i = choose|i: int| 0 <= i < n && bad_of(#[trigger] entries[i]) == Some(b);
            assert(i < n - 1 || i == n - 1);
        }
    }
}

/// Whether one of the first `n` records brings this dependency.
spec fn in_records(
    recs: Seq<(Seq<char>, Seq<char>)>,
    n: int,
    class: Seq<char>,
    polarity: Polarity,
    d: DepView,
) -> bool {
    exists|p: int, i: int|
        0 <= p < n && 0 <= i < text::words_of(recs[p].1).len() && dep_of(
            #[trigger] text::words_of(recs[p].1)[i],
            Source { class, via: Some(recs[p].0), polarity },
        ) == Some(d)
}

/// Whether one of the first `n` records holds this entry that names no port.
spec fn bad_in_records(recs: Seq<(Seq<char>, Seq<char>)>, n: int, b: UnresolvedView) -> bool {
    exists|p: int, i: int|
        0 <= p < n && 0 <= i < text::words_of(recs[p].1).len() && bad_of(
            #[trigger] text::words_of(recs[p].1)[i],
        ) == Some(b)
}

proof fn lemma_by_records(
    l: DepList,
    recs: Seq<(Seq<char>, Seq<char>)>,
    n: int,
    class: Seq<char>,
    polarity: Polarity,
    d: DepView,
    b: UnresolvedView,
)
    requires
        0 <= n <= recs.len(),
    ensures
        ({
            let r = resolve::with_records(l, recs, n, class, polarity);
            &&& r.deps.contains(d) <==> l.deps.contains(d) || in_records(
                recs,
                n,
                class,
                polarity,
                d,
            )
            &&& r.bad.contains(b) <==> l.bad.contains(b) || bad_in_records(recs, n, b)
        }),
    decreases n,
{
    if n > 0 {
        lemma_by_records(l, recs, n - 1, class, polarity, d, b);
        let a = resolve::with_records(l, recs, n - 1, class, polarity);
        let entries = text::words_of(recs[n - 1].1);
        let s = Source { class, via: Some(recs[n - 1].0), polarity };
        lemma_entries(a, entries, entries.len() as int, s, d, b);
        if in_records(recs, n - 1, class, polarity, d) {
            let (p, i) = choose|p: int, i: int|
                0 <= p < n - 1 && 0 <= i < text::words_of(recs[p].1).len() && dep_of(
                    #[trigger] text::words_of(recs[p].1)[i],
                    Source { class, via: Some(recs[p].0), polarity },
                ) == Some(d);
            assert(dep_of(
                text::words_of(recs[p].1)[i],
                Source { class, via: Some(recs[p].0), polarity },
            ) == Some(d));
            assert(in_records(recs, n, class, polarity, d));
        }
        if in_records(recs, n, class, polarity, d) {
            let (p, i) = choose|p: int, i: int|
                0 <= p < n && 0 <= i < text::words_of(recs[p].1).len() && dep_of(
                    #[trigger] text::words_of(recs[p].1)[i],
                    Source { class, via: Some(recs[p].0), polarity },
                ) == Some(d);
            if p == n - 1 {
                assert(dep_of(entries[i], s) == Some(d));
            } else {
                assert(in_records(recs, n - 1, class, polarity, d));
            }
        }
        if exists|i: int| 0 <= i < entries.len() && dep_of(#[trigger] entries[i], s) == Some(d) {
            let i = choose|i: int|
                0 <= i < entries.len() && dep_of(#[trigger] entries[i], s) == Some(d);
            assert(dep_of(
                text::words_of(recs[n - 1].1)[i],
                Source { class, via: Some(recs[n - 1].0), polarity },
            ) == Some(d));
            assert(in_records(recs, n, class, polarity, d));
        }
        if bad_in_records(recs, n - 1, b) {
            let (p, i) = choose|p: int, i: int|
                0 <= p < n - 1 && 0 <= i < text::words_of(recs[p].1).len() && bad_of(
                    #[trigger] text::words_of(recs[p].1)[i],
                ) == Some(b);
            assert(bad_of(text::words_of(recs[p].1)[i]) == Some(b));
            assert(bad_in_records(recs, n, b));
        }
        if bad_in_records(recs, n, b) {
            let (p, i) = choose|p: int, i: int|
                0 <= p < n && 0 <= i < text::words_of(recs[p].1).len() && bad_of(
                    #[trigger] text::words_of(recs[p].1)[i],
                ) == Some(b);
            if p == n - 1 {
                assert(bad_of(entries[i]) == Some(b));
            } else {
                assert(bad_in_records(recs, n - 1, b));
            }
        }
        if exists|i: int| 0 <= i < entries.len() && bad_of(#[trigger] entries[i]) == Some(b) {
            let i = choose|i: int| 0 <= i < entries.len() && bad_of(#[trigger] entries[i]) == Some(b);
            assert(bad_of(text::words_of(recs[n - 1].1)[i]) == Some(b));
            assert(bad_in_records(recs, n, b));
        }
    }
}

/// The records of what options bring of a class.
spec fn recs_of(m: Map<Seq<char>, Seq<char>>, class: Seq<char>, polarity: Polarity) -> Seq<
    (Seq<char>, Seq<char>),
> {
    resolve::records_of(value_at(m, brought_key(class, polarity)))
}

/// Whether an option brings this dependency, of one of the first `n` classes.
spec fn in_classes(m: Map<Seq<char>, Seq<char>>, n: int, d: DepView) -> bool {
    exists|c: int, polarity: Polarity|
        0 <= c < n && #[trigger] in_records(
            recs_of(m, resolve::class_texts()[c], polarity),
            recs_of(m, resolve::class_texts()[c], polarity).len() as int,
            resolve::class_texts()[c],
            polarity,
            d,
        )
}

spec fn bad_in_classes(m: Map<Seq<char>, Seq<char>>, n: int, b: UnresolvedView) -> bool {
    exists|c: int, polarity: Polarity|
        0 <= c < n && #[trigger] bad_in_records(
            recs_of(m, resolve::class_texts()[c], polarity),
            recs_of(m, resolve::class_texts()[c], polarity).len() as int,
            b,
        )
}

proof fn lemma_by_options(
    l: DepList,
    m: Map<Seq<char>, Seq<char>>,
    n: int,
    d: DepView,
    b: UnresolvedView,
)
    requires
        0 <= n <= 8,
    ensures
        ({
            let r = resolve::option_deps(l, m, n);
            &&& r.deps.contains(d) <==> l.deps.contains(d) || in_classes(m, n, d)
            &&& r.bad.contains(b) <==> l.bad.contains(b) || bad_in_classes(m, n, b)
        }),
    decreases n,
{
    if n > 0 {
        lemma_by_options(l, m, n - 1, d, b);
        let class = resolve::class_texts()[n - 1];
        let a = resolve::option_deps(l, m, n - 1);
        let on = recs_of(m, class, Polarity::On);
        let off = recs_of(m, class, Polarity::Off);
        let h = resolve::with_optdeps(a, m, class, Polarity::On);
        assert(brought_key(class, Polarity::On) == resolve::optdep_key(class, true));
        assert(brought_key(class, Polarity::Off) == resolve::optdep_key(class, false));
        assert(h == resolve::with_records(a, on, on.len() as int, class, Polarity::On));
        lemma_by_records(a, on, on.len() as int, class, Polarity::On, d, b);
        lemma_by_records(h, off, off.len() as int, class, Polarity::Off, d, b);
        if in_classes(m, n, d) {
            let (c, polarity) = choose|c: int, polarity: Polarity|
                0 <= c < n && #[trigger] in_records(
                    recs_of(m, resolve::class_texts()[c], polarity),
                    recs_of(m, resolve::class_texts()[c], polarity).len() as int,
                    resolve::class_texts()[c],
                    polarity,
                    d,
                );
            if c < n - 1 {
                assert(in_classes(m, n - 1, d));
            }
        }
        if bad_in_classes(m, n, b) {
            let (c, polarity) = choose|c: int, polarity: Polarity|
                0 <= c < n && #[trigger] bad_in_records(
                    recs_of(m, resolve::class_texts()[c], polarity),
                    recs_of(m, resolve::class_texts()[c], polarity).len() as int,
                    b,
                );
            if c < n - 1 {
                assert(bad_in_classes(m, n - 1, b));
            }
        }
        if in_classes(m, n - 1, d) {
            let (c, polarity) = choose|c: int, polarity: Polarity|
                0 <= c < n - 1 && #[trigger] in_records(
                    recs_of(m, resolve::class_texts()[c], polarity),
                    recs_of(m, resolve::class_texts()[c], polarity).len() as int,
                    resolve::class_texts()[c],
                    polarity,
                    d,
                );
            assert(in_classes(m, n, d));
        }
        if bad_in_classes(m, n - 1, b) {
            let (c, polarity) = choose|c: int, polarity: Polarity|
                0 <= c < n - 1 && #[trigger] bad_in_records(
                    recs_of(m, resolve::class_texts()[c], polarity),
                    recs_of(m, resolve::class_texts()[c], polarity).len() as int,
                    b,
                );
            assert(bad_in_classes(m, n, b));
        }
        if in_records(on, on.len() as int, class, Polarity::On, d) {
            assert(in_classes(m, n, d));
        }
        if in_records(off, off.len() as int, class, Polarity::Off, d) {
            assert(in_classes(m, n, d));
        }
        if bad_in_records(on, on.len() as int, b) {
            assert(bad_in_classes(m, n, b));
        }
        if bad_in_records(off, off.len() as int, b) {
            assert(bad_in_classes(m, n, b));
        }
    }
}

/// Whether an entry of the first `n` classes that is the port's own stands for
/// this dependency.
spec fn is_own(m: Map<Seq<char>, Seq<char>>, n: int, d: DepView) -> bool {
    exists|c: int, i: int|
        0 <= c < n && 0 <= i < resolve::own_entries(m, resolve::class_texts()[c]).len() && dep_of(
            #[trigger] resolve::own_entries(m, resolve::class_texts()[c])[i],
            Source { class: resolve::class_texts()[c], via: None, polarity: Polarity::On },
        ) == Some(d)
}

spec fn is_own_bad(m: Map<Seq<char>, Seq<char>>, n: int, b: UnresolvedView) -> bool {
    exists|c: int, i: int|
        0 <= c < n && 0 <= i < resolve::own_entries(m, resolve::class_texts()[c]).len() && bad_of(
            #[trigger] resolve::own_entries(m, resolve::class_texts()[c])[i],
        ) == Some(b)
}

proof fn lemma_own(m: Map<Seq<char>, Seq<char>>, n: int, d: DepView, b: UnresolvedView)
    requires
        0 <= n <= 8,
    ensures
        resolve::own_deps(m, n).deps.contains(d) <==> is_own(m, n, d),
        resolve::own_deps(m, n).bad.contains(b) <==> is_own_bad(m, n, b),
    decreases n,
{
    if n > 0 {
        lemma_own(m, n - 1, d, b);
        let class = resolve::class_texts()[n - 1];
        let entries = resolve::own_entries(m, class);
        let s = Source { class, via: None, polarity: Polarity::On };
        lemma_entries(resolve::own_deps(m, n - 1), entries, entries.len() as int, s, d, b);
        if is_own(m, n, d) {
            let (c, i) = choose|c: int, i: int|
                0 <= c < n && 0 <= i < resolve::own_entries(m, resolve::class_texts()[c]).len()
                    && dep_of(
                    #[trigger] resolve::own_entries(m, resolve::class_texts()[c])[i],
                    Source { class: resolve::class_texts()[c], via: None, polarity: Polarity::On },
                ) == Some(d);
            if c < n - 1 {
                assert(is_own(m, n - 1, d));
            } else {
                assert(dep_of(entries[i], s) == Some(d));
            }
        }
        if is_own(m, n - 1, d) {
            let (c, i) = choose|c: int, i: int|
                0 <= c < n - 1 && 0 <= i < resolve::own_entries(
                    m,
                    resolve::class_texts()[c],
                ).len() && dep_of(
                    #[trigger] resolve::own_entries(m, resolve::class_texts()[c])[i],
                    Source { class: resolve::class_texts()[c], via: None, polarity: Polarity::On },
                ) == Some(d);
            assert(is_own(m, n, d));
        }
        if exists|i: int| 0 <= i < entries.len() && dep_of(#[trigger] entries[i], s) == Some(d) {
            let i = choose|i: int|
                0 <= i < entries.len() && dep_of(#[trigger] entries[i], s) == Some(d);
            assert(dep_of(
                resolve::own_entries(m, resolve::class_texts()[n - 1])[i],
                Source { class: resolve::class_texts()[n - 1], via: None, polarity: Polarity::On },
            ) == Some(d));
            assert(is_own(m, n, d));
        }
        if is_own_bad(m, n, b) {
            let (c, i) = choose|c: int, i: int|
                0 <= c < n && 0 <= i < resolve::own_entries(m, resolve::class_texts()[c]).len()
                    && bad_of(
                    #[trigger] resolve::own_entries(m, resolve::class_texts()[c])[i],
                ) == Some(b);
            if c < n - 1 {
                assert(is_own_bad(m, n - 1, b));
            } else {
                assert(bad_of(entries[i]) == Some(b));
            }
        }
        if is_own_bad(m, n - 1, b) {
            let (c, i) = choose|c: int, i: int|
                0 <= c < n - 1 && 0 <= i < resolve::own_entries(
                    m,
                    resolve::class_texts()[c],
                ).len() && bad_of(
                    #[trigger] resolve::own_entries(m, resolve::class_texts()[c])[i],
                ) == Some(b);
            assert(is_own_bad(m, n, b));
        }
        if exists|i: int| 0 <= i < entries.len() && bad_of(#[trigger] entries[i]) == Some(b) {
            let i = choose|i: int| 0 <= i < entries.len() && bad_of(#[trigger] entries[i]) == Some(b);
            assert(bad_of(resolve::own_entries(m, resolve::class_texts()[n - 1])[i]) == Some(b));
            assert(is_own_bad(m, n, b));
        }
    } else {
        assert(!resolve::own_deps(m, n).deps.contains(d));
        assert(!resolve::own_deps(m, n).bad.contains(b));
    }
}

/// Every class that counts is one of those that are asked about.
proof fn lemma_class(class: Seq<char>) -> (c: int)
    requires
        is_class(class),
    ensures
        0 <= c < 8,
        resolve::class_texts()[c] == class,
{
    let all = resolve::class_texts();
    assert(all[0] == "PKG"@ && all[1] == "EXTRACT"@ && all[2] == "PATCH"@ && all[3] == "FETCH"@);
    assert(all[4] == "BUILD"@ && all[5] == "LIB"@ && all[6] == "RUN"@ && all[7] == "TEST"@);
    if class == "PKG"@ {
        0
    } else if class == "EXTRACT"@ {
        1
    } else if class == "PATCH"@ {
        2
    } else if class == "FETCH"@ {
        3
    } else if class == "BUILD"@ {
        4
    } else if class == "LIB"@ {
        5
    } else if class == "RUN"@ {
        6
    } else {
        7
    }
}

/// No entry of a reply that an option brings goes missing: of every class, for
/// every option, on or off, each word of its record is a dependency by that
/// option where it names a port, and is told as unresolved where it does not.
pub proof fn no_entry_goes_missing(
    m: Map<Seq<char>, Seq<char>>,
    origin: Seq<char>,
    mtime: i64,
    class: Seq<char>,
    polarity: Polarity,
    name: Seq<char>,
    entry: Seq<char>,
)
    requires
        is_class(class),
        is_brought(m, class, polarity, name, entry),
    ensures
        is_taken(resolve::facts_said(m, origin, mtime), entry, class, Some(name), polarity),
{
    let c = lemma_class(class);
    let value = value_at(m, brought_key(class, polarity));
    let said = choose|said: Seq<char>| #[trigger]
        has_record(value, name, said) && text::words_of(said).contains(entry);
    lemma_has_record(value, name, said);
    let recs = recs_of(m, class, polarity);
    let p = choose|p: int| 0 <= p < recs.len() && recs[p] == (name, said);
    let words = text::words_of(said);
    let i = choose|i: int| 0 <= i < words.len() && words[i] == entry;
    let s = Source { class, via: Some(name), polarity };
    assert(text::words_of(recs[p].1)[i] == entry);
    match resolve::dep_named(entry) {
        Ok((o, flavour)) => {
            let d = dep_of(entry, s)->0;
            assert(dep_of(
                text::words_of(recs[p].1)[i],
                Source { class, via: Some(recs[p].0), polarity },
            ) == Some(d));
            assert(in_records(recs, recs.len() as int, class, polarity, d));
            assert(in_classes(m, 8, d));
            lemma_by_options(
                resolve::own_deps(m, 8),
                m,
                8,
                d,
                UnresolvedView { raw_entry: entry, reason: entry },
            );
        },
        Err(reason) => {
            let b = bad_of(entry)->0;
            assert(bad_of(text::words_of(recs[p].1)[i]) == Some(b));
            assert(bad_in_records(recs, recs.len() as int, b));
            assert(bad_in_classes(m, 8, b));
            lemma_by_options(
                resolve::own_deps(m, 8),
                m,
                8,
                DepView { origin: entry, flavour: None, class, via_option: None, polarity },
                b,
            );
        },
    }
}

/// No dependency is made up: one by an option is of a class that counts, and
/// stands in a record of that option, in the field of that class and polarity.
pub proof fn no_dependency_is_made_up(
    m: Map<Seq<char>, Seq<char>>,
    origin: Seq<char>,
    mtime: i64,
    d: DepView,
) -> (entry: Seq<char>)
    requires
        resolve::facts_said(m, origin, mtime).deps.contains(d),
        d.via_option is Some,
    ensures
        is_class(d.class),
        is_brought(m, d.class, d.polarity, d.via_option->0, entry),
        resolve::dep_named(entry) == Ok::<(Seq<char>, Option<Seq<char>>), Seq<char>>(
            (d.origin, d.flavour),
        ),
{
    let b = UnresolvedView { raw_entry: origin, reason: origin };
    lemma_by_options(resolve::own_deps(m, 8), m, 8, d, b);
    lemma_own(m, 8, d, b);
    if is_own(m, 8, d) {
        let (c, i) = choose|c: int, i: int|
            0 <= c < 8 && 0 <= i < resolve::own_entries(m, resolve::class_texts()[c]).len()
                && dep_of(
                #[trigger] resolve::own_entries(m, resolve::class_texts()[c])[i],
                Source { class: resolve::class_texts()[c], via: None, polarity: Polarity::On },
            ) == Some(d);
        assert(d.via_option is None);
    }
    let (c, polarity) = choose|c: int, polarity: Polarity|
        0 <= c < 8 && #[trigger] in_records(
            recs_of(m, resolve::class_texts()[c], polarity),
            recs_of(m, resolve::class_texts()[c], polarity).len() as int,
            resolve::class_texts()[c],
            polarity,
            d,
        );
    let class = resolve::class_texts()[c];
    let recs = recs_of(m, class, polarity);
    let (p, i) = choose|p: int, i: int|
        0 <= p < recs.len() && 0 <= i < text::words_of(recs[p].1).len() && dep_of(
            #[trigger] text::words_of(recs[p].1)[i],
            Source { class, via: Some(recs[p].0), polarity },
        ) == Some(d);
    let entry = text::words_of(recs[p].1)[i];
    assert(recs.contains((recs[p].0, recs[p].1)));
    lemma_has_record(value_at(m, brought_key(class, polarity)), recs[p].0, recs[p].1);
    assert(text::words_of(recs[p].1).contains(entry));
    entry
}

proof fn lemma_without_last(list: Seq<Seq<char>>, x: Seq<char>, e: Seq<char>)
    ensures
        resolve::without_last(list, x).to_multiset().count(e) == if e == x
            && list.to_multiset().count(e) > 0 {
            (list.to_multiset().count(e) - 1) as nat
        } else {
            list.to_multiset().count(e)
        },
    decreases list.len(),
{
    broadcast use vstd::seq_lib::group_to_multiset_ensures;

    if list.len() > 0 {
        let front = list.drop_last();
        assert(list =~= front.push(list.last()));
        assert(list.to_multiset() =~= front.to_multiset().insert(list.last()));
        if list.last() != x {
            lemma_without_last(front, x, e);
            let r = resolve::without_last(front, x);
            assert(r.push(list.last()).to_multiset() =~= r.to_multiset().insert(list.last()));
        }
    }
}

proof fn lemma_minus(list: Seq<Seq<char>>, entries: Seq<Seq<char>>, n: int, e: Seq<char>)
    requires
        0 <= n <= entries.len(),
    ensures
        resolve::minus(list, entries, n).to_multiset().count(e) == if list.to_multiset().count(e)
            >= entries.take(n).to_multiset().count(e) {
            (list.to_multiset().count(e) - entries.take(n).to_multiset().count(e)) as nat
        } else {
            0
        },
    decreases n,
{
    broadcast use vstd::seq_lib::group_to_multiset_ensures;

    if n > 0 {
        lemma_minus(list, entries, n - 1, e);
        lemma_without_last(resolve::minus(list, entries, n - 1), entries[n - 1], e);
        assert(entries.take(n) =~= entries.take(n - 1).push(entries[n - 1]));
        assert(entries.take(n).to_multiset() =~= entries.take(n - 1).to_multiset().insert(
            entries[n - 1],
        ));
    } else {
        assert(entries.take(n) =~= seq![]);
    }
}

/// Whether an option, as it was evaluated, added an entry to the plain list of a
/// class: it brings the entry when it is on and was set, or when it is off and
/// was not.
pub open spec fn is_added(
    m: Map<Seq<char>, Seq<char>>,
    class: Seq<char>,
    name: Seq<char>,
    entry: Seq<char>,
) -> bool {
    if text::words_of(value_at(m, "DEFAULTS"@)).contains(name) {
        is_brought(m, class, Polarity::On, name, entry)
    } else {
        is_brought(m, class, Polarity::Off, name, entry)
    }
}

proof fn lemma_folded_upto(
    recs: Seq<(Seq<char>, Seq<char>)>,
    set: Seq<Seq<char>>,
    on: bool,
    n: int,
    e: Seq<char>,
)
    requires
        0 <= n <= recs.len(),
    ensures
        resolve::folded_upto(recs, set, on, n).contains(e) <==> exists|p: int|
            0 <= p < n && set.contains((#[trigger] recs[p]).0) == on && text::words_of(
                recs[p].1,
            ).contains(e),
    decreases n,
{
    if n > 0 {
        lemma_folded_upto(recs, set, on, n - 1, e);
        let a = resolve::folded_upto(recs, set, on, n - 1);
        let w = text::words_of(recs[n - 1].1);
        if set.contains(recs[n - 1].0) == on {
            lemma_in_sum(a, w, e);
        }
        if a.contains(e) {
            let p = choose|p: int|
                0 <= p < n - 1 && set.contains((#[trigger] recs[p]).0) == on && text::words_of(
                    recs[p].1,
                ).contains(e);
            assert(set.contains(recs[p].0) == on);
        }
        if exists|p: int|
            0 <= p < n && set.contains((#[trigger] recs[p]).0) == on && text::words_of(
                recs[p].1,
            ).contains(e) {
            let p = choose|p: int|
                0 <= p < n && set.contains((#[trigger] recs[p]).0) == on && text::words_of(
                    recs[p].1,
                ).contains(e);
            assert(p < n - 1 || p == n - 1);
        }
    }
}

/// A list made of two holds what either holds.
pub proof fn lemma_in_sum<A>(a: Seq<A>, b: Seq<A>, x: A)
    ensures
        (a + b).contains(x) <==> a.contains(x) || b.contains(x),
{
    let c = a + b;
    if a.contains(x) {
        let i = choose|i: int| 0 <= i < a.len() && a[i] == x;
        assert(c[i] == x);
    }
    if b.contains(x) {
        let i = choose|i: int| 0 <= i < b.len() && b[i] == x;
        assert(c[a.len() + i] == x);
    }
    if c.contains(x) {
        let i = choose|i: int| 0 <= i < c.len() && c[i] == x;
        if i < a.len() {
            assert(a[i] == x);
        } else {
            assert(b[i - a.len()] == x);
        }
    }
}

proof fn lemma_folded(m: Map<Seq<char>, Seq<char>>, class: Seq<char>, e: Seq<char>)
    ensures
        resolve::folded(m, class).contains(e) <==> exists|name: Seq<char>| #[trigger]
            is_added(m, class, name, e),
{
    let set = text::words_of(value_at(m, "DEFAULTS"@));
    let on = recs_of(m, class, Polarity::On);
    let off = recs_of(m, class, Polarity::Off);
    assert(brought_key(class, Polarity::On) == resolve::optdep_key(class, true));
    assert(brought_key(class, Polarity::Off) == resolve::optdep_key(class, false));
    let a = resolve::folded_upto(on, set, true, on.len() as int);
    let b = resolve::folded_upto(off, set, false, off.len() as int);
    lemma_in_sum(a, b, e);
    lemma_folded_upto(on, set, true, on.len() as int, e);
    lemma_folded_upto(off, set, false, off.len() as int, e);
    if a.contains(e) {
        let p = choose|p: int|
            0 <= p < on.len() && set.contains((#[trigger] on[p]).0) == true && text::words_of(
                on[p].1,
            ).contains(e);
        assert(on.contains((on[p].0, on[p].1)));
        lemma_has_record(value_at(m, brought_key(class, Polarity::On)), on[p].0, on[p].1);
        assert(is_added(m, class, on[p].0, e));
    }
    if b.contains(e) {
        let p = choose|p: int|
            0 <= p < off.len() && set.contains((#[trigger] off[p]).0) == false && text::words_of(
                off[p].1,
            ).contains(e);
        assert(off.contains((off[p].0, off[p].1)));
        lemma_has_record(value_at(m, brought_key(class, Polarity::Off)), off[p].0, off[p].1);
        assert(is_added(m, class, off[p].0, e));
    }
    if exists|name: Seq<char>| #[trigger] is_added(m, class, name, e) {
        let name = choose|name: Seq<char>| #[trigger] is_added(m, class, name, e);
        if set.contains(name) {
            let value = value_at(m, brought_key(class, Polarity::On));
            let said = choose|said: Seq<char>| #[trigger]
                has_record(value, name, said) && text::words_of(said).contains(e);
            lemma_has_record(value, name, said);
            let p = choose|p: int| 0 <= p < on.len() && on[p] == (name, said);
            assert(set.contains(on[p].0) == true);
        } else {
            let value = value_at(m, brought_key(class, Polarity::Off));
            let said = choose|said: Seq<char>| #[trigger]
                has_record(value, name, said) && text::words_of(said).contains(e);
            lemma_has_record(value, name, said);
            let p = choose|p: int| 0 <= p < off.len() && off[p] == (name, said);
            assert(set.contains(off[p].0) == false);
        }
    }
}

/// An entry of the plain list of a class that no option added is one that the
/// port has whatever its options say, and is taken as such. One that stands in
/// the list once and was added by an option is not counted again as the port's
/// own.
pub proof fn what_no_option_added_is_the_ports_own(
    m: Map<Seq<char>, Seq<char>>,
    origin: Seq<char>,
    mtime: i64,
    class: Seq<char>,
    entry: Seq<char>,
)
    requires
        is_class(class),
        text::words_of(value_at(m, "DEP_"@ + class)).contains(entry),
    ensures
        (forall|name: Seq<char>| !#[trigger] is_added(m, class, name, entry)) ==> is_taken(
            resolve::facts_said(m, origin, mtime),
            entry,
            class,
            None,
            Polarity::On,
        ),
        (exists|name: Seq<char>| #[trigger] is_added(m, class, name, entry)) && text::words_of(
            value_at(m, "DEP_"@ + class),
        ).to_multiset().count(entry) == 1 ==> !resolve::own_entries(m, class).contains(entry),
{
    broadcast use vstd::seq_lib::group_to_multiset_ensures;

    let c = lemma_class(class);
    let list = text::words_of(value_at(m, "DEP_"@ + class));
    let f = resolve::folded(m, class);
    let own = resolve::own_entries(m, class);
    lemma_folded(m, class, entry);
    lemma_minus(list, f, f.len() as int, entry);
    assert(f.take(f.len() as int) =~= f);
    assert(f.contains(entry) <==> f.to_multiset().count(entry) > 0);
    assert(list.to_multiset().count(entry) > 0);
    assert(own.contains(entry) <==> own.to_multiset().count(entry) > 0);
    if !f.contains(entry) {
        assert(own.contains(entry));
        let i = choose|i: int| 0 <= i < own.len() && own[i] == entry;
        let s = Source { class, via: None, polarity: Polarity::On };
        let none = DepView {
            origin: entry,
            flavour: None,
            class,
            via_option: None,
            polarity: Polarity::On,
        };
        match resolve::dep_named(entry) {
            Ok(p) => {
                let d = dep_of(entry, s)->0;
                let b = UnresolvedView { raw_entry: entry, reason: entry };
                assert(dep_of(
                    resolve::own_entries(m, resolve::class_texts()[c])[i],
                    Source { class: resolve::class_texts()[c], via: None, polarity: Polarity::On },
                ) == Some(d));
                assert(is_own(m, 8, d));
                lemma_own(m, 8, d, b);
                lemma_by_options(resolve::own_deps(m, 8), m, 8, d, b);
            },
            Err(reason) => {
                let b = bad_of(entry)->0;
                assert(bad_of(resolve::own_entries(m, resolve::class_texts()[c])[i]) == Some(b));
                assert(is_own_bad(m, 8, b));
                lemma_own(m, 8, none, b);
                lemma_by_options(resolve::own_deps(m, 8), m, 8, none, b);
            },
        }
    }
}

/// Whether a list of records names an option just once.
pub open spec fn is_only_record(value: Seq<char>, name: Seq<char>, said: Seq<char>) -> bool {
    &&& has_record(value, name, said)
    &&& forall|other: Seq<char>| #[trigger] has_record(value, name, other) ==> other == said
}

proof fn lemma_last_record(recs: Seq<(Seq<char>, Seq<char>)>, name: Seq<char>)
    ensures
        match resolve::last_record(recs, name) {
            Some(said) => recs.contains((name, said)),
            None => forall|said: Seq<char>| !#[trigger] recs.contains((name, said)),
        },
    decreases recs.len(),
{
    if recs.len() > 0 {
        lemma_last_record(recs.drop_last(), name);
        assert forall|said: Seq<char>| #[trigger] recs.contains((name, said)) <==> (
        recs.drop_last().contains((name, said)) || recs.last() == (name, said)) by {
            order::lemma_contains_last(recs, (name, said));
        }
        if recs.last().0 == name {
            assert(recs.last() == (name, recs.last().1));
            assert(recs.contains((name, recs.last().1)));
        } else if let Some(said) = resolve::last_record(recs.drop_last(), name) {
            assert(recs.contains((name, said)));
        }
    }
}

proof fn lemma_only_record(value: Seq<char>, name: Seq<char>, said: Seq<char>)
    requires
        is_only_record(value, name, said),
    ensures
        resolve::last_record(resolve::records_of(value), name) == Some(said),
{
    let recs = resolve::records_of(value);
    lemma_last_record(recs, name);
    lemma_has_record(value, name, said);
    match resolve::last_record(recs, name) {
        Some(other) => {
            lemma_has_record(value, name, other);
        },
        None => {
            assert(recs.contains((name, said)));
        },
    }
}

/// Every option that a reply names is told of, in the order in which it names
/// them: by its name, set as it ships exactly where it is among the defaults,
/// with the description, the implications and the conflicts that its records
/// say.
pub proof fn every_option_is_told(
    m: Map<Seq<char>, Seq<char>>,
    origin: Seq<char>,
    mtime: i64,
    i: int,
)
    requires
        0 <= i < text::words_of(value_at(m, "OPTIONS"@)).len(),
    ensures
        ({
            let f = resolve::facts_said(m, origin, mtime);
            let names = text::words_of(value_at(m, "OPTIONS"@));
            let o = f.options[i];
            &&& f.origin == origin
            &&& f.pkgname == value_at(m, "PKGNAME"@)
            &&& f.source_mtime == mtime
            &&& f.options.len() == names.len()
            &&& o.name == names[i]
            &&& o.default_on == text::words_of(value_at(m, "DEFAULTS"@)).contains(names[i])
            &&& forall|said: Seq<char>| #[trigger]
                is_only_record(value_at(m, "DESC"@), names[i], said) ==> o.description == said
            &&& forall|said: Seq<char>| #[trigger]
                is_only_record(value_at(m, "IMPLIES"@), names[i], said) ==> o.implies
                    == text::words_of(said)
            &&& forall|said: Seq<char>| #[trigger]
                is_only_record(value_at(m, "PREVENTS"@), names[i], said) ==> o.prevents
                    == text::words_of(said)
            &&& (forall|said: Seq<char>| !#[trigger]
                has_record(value_at(m, "IMPLIES"@), names[i], said)) ==> o.implies.len() == 0
            &&& (forall|said: Seq<char>| !#[trigger]
                has_record(value_at(m, "PREVENTS"@), names[i], said)) ==> o.prevents.len() == 0
        }),
{
    let names = text::words_of(value_at(m, "OPTIONS"@));
    let name = names[i];
    assert forall|said: Seq<char>| #[trigger]
        is_only_record(value_at(m, "DESC"@), name, said) implies resolve::option_said(
        m,
        name,
    ).description == said by {
        lemma_only_record(value_at(m, "DESC"@), name, said);
    }
    assert forall|said: Seq<char>| #[trigger]
        is_only_record(value_at(m, "IMPLIES"@), name, said) implies resolve::option_said(
        m,
        name,
    ).implies == text::words_of(said) by {
        lemma_only_record(value_at(m, "IMPLIES"@), name, said);
    }
    assert forall|said: Seq<char>| #[trigger]
        is_only_record(value_at(m, "PREVENTS"@), name, said) implies resolve::option_said(
        m,
        name,
    ).prevents == text::words_of(said) by {
        lemma_only_record(value_at(m, "PREVENTS"@), name, said);
    }
    lemma_no_record(value_at(m, "IMPLIES"@), name);
    lemma_no_record(value_at(m, "PREVENTS"@), name);
}

proof fn lemma_no_record(value: Seq<char>, name: Seq<char>)
    ensures
        (forall|said: Seq<char>| !#[trigger] has_record(value, name, said))
            ==> resolve::last_record(resolve::records_of(value), name) is None,
{
    lemma_last_record(resolve::records_of(value), name);
    if let Some(said) = resolve::last_record(resolve::records_of(value), name) {
        lemma_has_record(value, name, said);
        assert(has_record(value, name, said));
    }
}

/// Whether this is one of the kinds of option groups.
pub open spec fn is_kind(kind: Seq<char>) -> bool {
    kind == "SINGLE"@ || kind == "MULTI"@ || kind == "RADIO"@ || kind == "GROUP"@
}

/// Whether a reply says that an option is a member of a group.
pub open spec fn is_member(
    m: Map<Seq<char>, Seq<char>>,
    kind: Seq<char>,
    group: Seq<char>,
    name: Seq<char>,
) -> bool {
    exists|said: Seq<char>| #[trigger]
        has_record(value_at(m, "GRP_"@ + kind), group, said) && text::words_of(said).contains(name)
}

proof fn lemma_kind_places(
    kind: Seq<char>,
    recs: Seq<(Seq<char>, Seq<char>)>,
    n: int,
    g: resolve::GroupingView,
)
    requires
        0 <= n <= recs.len(),
    ensures
        resolve::kind_places(kind, recs, n).contains(g) <==> g.kind == kind && exists|p: int|
            0 <= p < n && (#[trigger] recs[p]).0 == g.group && text::words_of(recs[p].1).contains(
                g.member,
            ),
    decreases n,
{
    if n > 0 {
        lemma_kind_places(kind, recs, n - 1, g);
        let a = resolve::kind_places(kind, recs, n - 1);
        let names = text::words_of(recs[n - 1].1);
        let b = resolve::group_places(kind, recs[n - 1].0, names, names.len() as int);
        lemma_in_sum(a, b, g);
        if b.contains(g) {
            let i = choose|i: int| 0 <= i < b.len() && b[i] == g;
            assert(names[i] == g.member);
            assert(recs[n - 1].0 == g.group);
        }
        if g.kind == kind && recs[n - 1].0 == g.group && names.contains(g.member) {
            let i = choose|i: int| 0 <= i < names.len() && names[i] == g.member;
            assert(b[i] == g);
        }
        if a.contains(g) {
            let p = choose|p: int|
                0 <= p < n - 1 && (#[trigger] recs[p]).0 == g.group && text::words_of(
                    recs[p].1,
                ).contains(g.member);
            assert(recs[p].0 == g.group);
        }
        if exists|p: int|
            0 <= p < n && (#[trigger] recs[p]).0 == g.group && text::words_of(recs[p].1).contains(
                g.member,
            ) {
            let p = choose|p: int|
                0 <= p < n && (#[trigger] recs[p]).0 == g.group && text::words_of(
                    recs[p].1,
                ).contains(g.member);
            assert(p < n - 1 || p == n - 1);
        }
    } else {
        assert(!resolve::kind_places(kind, recs, n).contains(g));
    }
}

proof fn lemma_places_upto(m: Map<Seq<char>, Seq<char>>, n: int, g: resolve::GroupingView)
    requires
        0 <= n <= 4,
    ensures
        resolve::places_upto(m, n).contains(g) <==> is_member(m, g.kind, g.group, g.member)
            && exists|c: int| 0 <= c < n && #[trigger] resolve::kind_texts()[c] == g.kind,
    decreases n,
{
    if n > 0 {
        lemma_places_upto(m, n - 1, g);
        let kind = resolve::kind_texts()[n - 1];
        let value = value_at(m, "GRP_"@ + kind);
        let recs = resolve::records_of(value);
        let a = resolve::places_upto(m, n - 1);
        let b = resolve::kind_places(kind, recs, recs.len() as int);
        lemma_in_sum(a, b, g);
        lemma_kind_places(kind, recs, recs.len() as int, g);
        if b.contains(g) {
            let p = choose|p: int|
                0 <= p < recs.len() && (#[trigger] recs[p]).0 == g.group && text::words_of(
                    recs[p].1,
                ).contains(g.member);
            assert(recs.contains((recs[p].0, recs[p].1)));
            lemma_has_record(value, recs[p].0, recs[p].1);
            assert(is_member(m, g.kind, g.group, g.member));
            assert(resolve::kind_texts()[n - 1] == g.kind);
        }
        if is_member(m, g.kind, g.group, g.member) && g.kind == kind {
            let said = choose|said: Seq<char>| #[trigger]
                has_record(value, g.group, said) && text::words_of(said).contains(g.member);
            lemma_has_record(value, g.group, said);
            let p = choose|p: int| 0 <= p < recs.len() && recs[p] == (g.group, said);
            assert(recs[p].0 == g.group);
        }
        if exists|c: int| 0 <= c < n && #[trigger] resolve::kind_texts()[c] == g.kind {
            let c = choose|c: int| 0 <= c < n && #[trigger] resolve::kind_texts()[c] == g.kind;
            assert(c < n - 1 || c == n - 1);
        }
        if exists|c: int| 0 <= c < n - 1 && #[trigger] resolve::kind_texts()[c] == g.kind {
            let c = choose|c: int| 0 <= c < n - 1 && #[trigger] resolve::kind_texts()[c] == g.kind;
            assert(resolve::kind_texts()[c] == g.kind);
        }
    }
}

proof fn lemma_last_place(all: Seq<resolve::GroupingView>, name: Seq<char>)
    ensures
        match resolve::last_place(all, name) {
            Some(p) => all.contains(p) && p.member == name,
            None => forall|p: resolve::GroupingView| #[trigger]
                all.contains(p) ==> p.member != name,
        },
    decreases all.len(),
{
    if all.len() > 0 {
        lemma_last_place(all.drop_last(), name);
        assert forall|p: resolve::GroupingView| #[trigger] all.contains(p) <==> (
        all.drop_last().contains(p) || all.last() == p) by {
            order::lemma_contains_last(all, p);
        }
        if let Some(p) = resolve::last_place(all, name) {
            assert(all.contains(p));
        }
    }
}

/// Every member of a group is told of as one: an option that a reply names as a
/// member of one group is of that kind and that group, and one that it names as
/// a member of none is of none.
pub proof fn every_member_is_in_its_group(
    m: Map<Seq<char>, Seq<char>>,
    origin: Seq<char>,
    mtime: i64,
    i: int,
    kind: Seq<char>,
    group: Seq<char>,
)
    requires
        0 <= i < text::words_of(value_at(m, "OPTIONS"@)).len(),
    ensures
        ({
            let name = text::words_of(value_at(m, "OPTIONS"@))[i];
            let o = resolve::facts_said(m, origin, mtime).options[i];
            &&& is_kind(kind) && is_member(m, kind, group, name) && (forall|
                k: Seq<char>,
                g: Seq<char>,
            | is_kind(k) && #[trigger] is_member(m, k, g, name) ==> k == kind && g == group)
                ==> o.group_type == kind && o.group_name == group
            &&& (forall|k: Seq<char>, g: Seq<char>| is_kind(k) ==> !#[trigger]
                is_member(m, k, g, name)) ==> o.group_type == "DEFINE"@ && o.group_name.len() == 0
        }),
{
    let name = text::words_of(value_at(m, "OPTIONS"@))[i];
    let all = resolve::places_upto(m, 4);
    let kinds = resolve::kind_texts();
    assert(kinds[0] == "SINGLE"@ && kinds[1] == "MULTI"@ && kinds[2] == "RADIO"@ && kinds[3]
        == "GROUP"@);
    lemma_last_place(all, name);
    match resolve::last_place(all, name) {
        Some(p) => {
            lemma_places_upto(m, 4, p);
            assert(is_kind(p.kind));
            assert(is_member(m, p.kind, p.group, name));
        },
        None => {
            let p = resolve::GroupingView { member: name, kind, group };
            lemma_places_upto(m, 4, p);
            if is_kind(kind) && is_member(m, kind, group, name) {
                assert(kinds[0] == kind || kinds[1] == kind || kinds[2] == kind || kinds[3]
                    == kind);
                assert(all.contains(p));
            }
        },
    }
}

/// A question put to `make`: the key that its answer is tagged with, and what is
/// to be expanded.
pub open spec fn asks(key: Seq<char>, what: Seq<char>) -> Seq<char> {
    key.push(US) + what
}

/// What is to be expanded for a property that every option has: for each option
/// its name, the property, and a separator.
pub open spec fn for_every_option(property: Seq<char>) -> Seq<char> {
    (("${COMPLETE_OPTIONS_LIST:@o@${o}"@.push(US) + "${${o}_"@ + property + "}"@).push(RS)) + "@}"@
}

proof fn lemma_optdep_queries(n: int, c: int)
    requires
        0 <= c < n <= 8,
    ensures
        resolve::optdep_queries(n).contains(
            resolve::optdep_query(resolve::class_texts()[c], true),
        ),
        resolve::optdep_queries(n).contains(
            resolve::optdep_query(resolve::class_texts()[c], false),
        ),
    decreases n,
{
    let r = resolve::optdep_queries(n);
    let a = resolve::optdep_queries(n - 1);
    let on = resolve::optdep_query(resolve::class_texts()[c], true);
    let off = resolve::optdep_query(resolve::class_texts()[c], false);
    if c < n - 1 {
        lemma_optdep_queries(n - 1, c);
        let i = choose|i: int| 0 <= i < a.len() && a[i] == on;
        let j = choose|j: int| 0 <= j < a.len() && a[j] == off;
        assert(r[i] == on);
        assert(r[j] == off);
    } else {
        assert(r[r.len() - 2] == on);
        assert(r[r.len() - 1] == off);
    }
}

/// Everything is asked about that is read: the package, the options with their
/// defaults, descriptions, implications and conflicts, the groups of every kind,
/// and of every class the plain dependencies and those by option, on and off.
pub proof fn everything_is_asked_about(class: Seq<char>, kind: Seq<char>)
    requires
        is_class(class),
        is_kind(kind),
    ensures
        ({
            let all = resolve::query_texts();
            &&& all.contains(asks("PKGNAME"@, "${PKGNAME}"@))
            &&& all.contains(asks("PKGBASE"@, "${PKGBASE}"@))
            &&& all.contains(asks("FLAVORS"@, "${FLAVORS}"@))
            &&& all.contains(asks("OPTIONS"@, "${COMPLETE_OPTIONS_LIST}"@))
            &&& all.contains(asks("DEFAULTS"@, "${PORT_OPTIONS}"@))
            &&& all.contains(asks("DESC"@, for_every_option("DESC"@)))
            &&& all.contains(asks("IMPLIES"@, for_every_option("IMPLIES"@)))
            &&& all.contains(asks("PREVENTS"@, for_every_option("PREVENTS"@)))
            &&& all.contains(asks("DEP_"@ + class, "${"@ + class + "_DEPENDS_ALL}"@))
            &&& all.contains(
                asks(brought_key(class, Polarity::On), for_every_option(class + "_DEPENDS"@ + ""@)),
            )
            &&& all.contains(
                asks(
                    brought_key(class, Polarity::Off),
                    for_every_option(class + "_DEPENDS"@ + "_OFF"@),
                ),
            )
            &&& all.contains(
                asks(
                    "GRP_"@ + kind,
                    (("${OPTIONS_"@ + kind + ":@g@${g}"@).push(US) + "${OPTIONS_"@ + kind
                        + "_${g}}"@).push(RS) + "@}"@,
                ),
            )
        }),
{
    let c = lemma_class(class);
    let kinds = resolve::kind_texts();
    assert(kinds[0] == "SINGLE"@ && kinds[1] == "MULTI"@ && kinds[2] == "RADIO"@ && kinds[3]
        == "GROUP"@);
    let k = if kind == "SINGLE"@ {
        0
    } else if kind == "MULTI"@ {
        1
    } else if kind == "RADIO"@ {
        2
    } else {
        3int
    };
    let plain = resolve::plain_queries();
    let groups = Seq::new(4, |i: int| resolve::group_query(resolve::kind_texts()[i]));
    let deps = Seq::new(8, |i: int| resolve::dep_query(resolve::class_texts()[i]));
    let by = resolve::optdep_queries(8);
    let all = resolve::query_texts();
    assert(all == plain + groups + deps + by);
    assert forall|q: Seq<char>|
        plain.contains(q) || groups.contains(q) || deps.contains(q) || by.contains(
            q,
        ) implies #[trigger] all.contains(q) by {
        lemma_in_sum(plain, groups, q);
        lemma_in_sum(plain + groups, deps, q);
        lemma_in_sum(plain + groups + deps, by, q);
    }
    lemma_optdep_queries(8, c);
    assert(groups[k] == resolve::group_query(kind));
    assert(groups.contains(groups[k]));
    assert(deps[c] == resolve::dep_query(class));
    assert(deps.contains(deps[c]));
    assert(plain[0] == asks("PKGNAME"@, "${PKGNAME}"@));
    assert(plain[1] == asks("PKGBASE"@, "${PKGBASE}"@));
    assert(plain[2] == asks("FLAVORS"@, "${FLAVORS}"@));
    assert(plain[3] == asks("OPTIONS"@, "${COMPLETE_OPTIONS_LIST}"@));
    assert(plain[4] == asks("DEFAULTS"@, "${PORT_OPTIONS}"@));
    assert(plain[5] == asks("DESC"@, for_every_option("DESC"@)));
    assert(plain[6] == asks("IMPLIES"@, for_every_option("IMPLIES"@)));
    assert(plain[7] == asks("PREVENTS"@, for_every_option("PREVENTS"@)));
    assert(plain.contains(plain[0]) && plain.contains(plain[1]) && plain.contains(plain[2])
        && plain.contains(plain[3]) && plain.contains(plain[4]) && plain.contains(plain[5])
        && plain.contains(plain[6]) && plain.contains(plain[7]));
}

} // verus!
