//! What is written can be read back, and what is not ours is left alone.
use crate::exporter;
use crate::exporter::{FileView, Sifted};
use crate::graph::live;
use crate::graph::{GraphView, OptionView};
use crate::order;
use crate::reader;
use crate::reader::SavedView;
use crate::text;
use vstd::prelude::*;

verus! {

/// Whether a name can stand in a file: one word, which no assignment operator
/// runs into.
pub open spec fn is_word(name: Seq<char>) -> bool {
    &&& name.len() > 0
    &&& forall|i: int| 0 <= i < name.len() ==> !text::is_white(#[trigger] name[i])
    &&& !reader::is_assign(name[0])
}

/// Text with nothing white at its ends is not trimmed.
proof fn lemma_trimmed(s: Seq<char>)
    requires
        s.len() > 0,
        !text::is_white(s[0]),
        !text::is_white(s.last()),
    ensures
        text::trimmed(s) == s,
{
    assert(text::trim_start(s) == s);
    assert(text::trim_end(s) == s);
}

/// One word is the one word of itself.
proof fn lemma_words(name: Seq<char>)
    requires
        is_word(name),
    ensures
        text::words_of(name) == seq![name],
{
    assert(!text::is_white(name[0]));
    assert(text::trim_start(name) == name);
    text::lemma_find_white(name, 0);
    let k = text::find_white(name, 0);
    if k < name.len() {
        assert(text::is_white(name[k]));
    }
    assert(name.take(k) =~= name);
    let rest = name.skip(k);
    assert(rest =~= seq![]);
    assert(text::trim_start(rest).len() == 0);
    assert(text::words_of(rest) =~= seq![]);
    assert(text::words_of(name) =~= seq![name]);
}

/// What is trimmed has no carriage return to lose.
proof fn lemma_trimmed_return(s: Seq<char>)
    ensures
        text::trimmed(text::strip_return(s)) == text::trimmed(s),
    decreases s.len(),
{
    if s.len() > 0 && s.last() == '\r' {
        let t = s.drop_last();
        if text::is_white(s[0]) {
            if s.len() == 1 {
                assert(t =~= seq![]);
                assert(s.skip(1) =~= seq![]);
                assert(text::trim_start(s) == text::trim_start(s.skip(1)));
                assert(text::trim_start(seq![]) =~= Seq::<char>::empty());
            } else {
                assert(t[0] == s[0]);
                assert(t.skip(1) =~= s.skip(1).drop_last());
                assert(s.skip(1).last() == '\r');
                lemma_trimmed_return(s.skip(1));
                assert(text::trim_start(t) == text::trim_start(t.skip(1)));
                assert(text::trim_start(s) == text::trim_start(s.skip(1)));
            }
        } else {
            assert(s.len() > 1);
            assert(t[0] == s[0]);
            assert(text::trim_start(s) == s);
            assert(text::trim_start(t) == t);
            assert(text::is_white('\r'));
            assert(text::trim_end(s) == text::trim_end(t));
        }
    }
}

/// The lines of a text are those that stand in it, but for what is trimmed.
proof fn lemma_lines(s: Seq<char>)
    ensures
        text::lines_of(s).len() == text::raw_lines_of(s).len(),
        forall|i: int|
            0 <= i < text::lines_of(s).len() ==> text::trimmed(#[trigger] text::lines_of(s)[i])
                == text::trimmed(text::raw_lines_of(s)[i]),
    decreases s.len(),
{
    text::lemma_find_from(s, '\n', 0);
    let k = text::find_from(s, '\n', 0);
    if s.len() > 0 && k < s.len() {
        let rest = s.skip(k + 1);
        lemma_lines(rest);
        lemma_trimmed_return(s.take(k));
        let a = text::lines_of(s);
        let b = text::raw_lines_of(s);
        assert(a == seq![text::strip_return(s.take(k))] + text::lines_of(rest));
        assert(b == seq![s.take(k)] + text::raw_lines_of(rest));
        assert forall|i: int| 0 <= i < a.len() implies text::trimmed(#[trigger] a[i])
            == text::trimmed(b[i]) by {
            if i > 0 {
                assert(a[i] == text::lines_of(rest)[i - 1]);
                assert(b[i] == text::raw_lines_of(rest)[i - 1]);
            }
        }
    }
}

/// A line that assigns a word to a variable, with `+=`.
proof fn lemma_assigned(head: Seq<char>, name: Seq<char>)
    requires
        is_word(name),
    ensures
        reader::assigned_to(head + "+="@ + name, head) == Some(name),
{
    reveal_strlit("+=");
    let line = head + "+="@ + name;
    let rest = line.skip(head.len() as int);
    assert(rest =~= "+="@ + name);
    assert(head.is_prefix_of(line));
    assert(rest[0] == '+');
    assert(rest[1] == '=');
    assert(reader::skip_blank(rest) == rest);
    let one = rest.skip(1);
    let two = one.skip(1);
    assert(one[0] == '=');
    assert(two =~= name);
    assert(!text::is_white(name[0]));
    assert(reader::skip_assign(two) == two);
    assert(reader::skip_assign(one) == reader::skip_assign(two));
    assert(reader::skip_assign(rest) == reader::skip_assign(one));
}

/// A map with one word set to a state.
proof fn lemma_with_word(m: Map<Seq<char>, bool>, name: Seq<char>, on: bool)
    requires
        is_word(name),
    ensures
        reader::with_words(m, name, on) == m.insert(name, on),
{
    lemma_words(name);
    let names = seq![name];
    assert(reader::with_states(m, names, 0, on) == m);
    assert(reader::with_states(m, names, 1, on) == m.insert(name, on));
}

/// A text behind another that does not start with what is looked for.
proof fn lemma_no_prefix(line: Seq<char>, head: Seq<char>, i: int)
    requires
        0 <= i < head.len(),
        i < line.len(),
        line[i] != head[i],
    ensures
        !head.is_prefix_of(line),
{
}

/// Reading the line that records an option records it.
proof fn lemma_state_line(m: Map<Seq<char>, bool>, o: (Seq<char>, bool))
    requires
        is_word(o.0),
    ensures
        reader::file_line(m, exporter::state_line(o)) == m.insert(o.0, o.1),
{
    let line = exporter::state_line(o);
    reveal_strlit("OPTIONS_FILE_SET+=");
    reveal_strlit("OPTIONS_FILE_UNSET+=");
    reveal_strlit("OPTIONS_FILE_SET");
    reveal_strlit("OPTIONS_FILE_UNSET");
    reveal_strlit("+=");
    assert(line.last() == o.0.last());
    assert(!text::is_white(o.0[o.0.len() - 1]));
    assert(line[0] == 'O');
    lemma_trimmed(line);
    lemma_with_word(m, o.0, o.1);
    if o.1 {
        assert("OPTIONS_FILE_SET+="@ =~= "OPTIONS_FILE_SET"@ + "+="@);
        lemma_assigned("OPTIONS_FILE_SET"@, o.0);
    } else {
        assert("OPTIONS_FILE_UNSET+="@ =~= "OPTIONS_FILE_UNSET"@ + "+="@);
        assert(line[13] == 'U');
        lemma_no_prefix(line, "OPTIONS_FILE_SET"@, 13);
        lemma_assigned("OPTIONS_FILE_UNSET"@, o.0);
    }
}

/// What the first `n` of some option states record.
pub open spec fn recorded(opts: Seq<(Seq<char>, bool)>, n: int) -> Map<Seq<char>, bool>
    decreases n,
{
    if n <= 0 {
        Map::empty()
    } else {
        recorded(opts, n - 1).insert(opts[n - 1].0, opts[n - 1].1)
    }
}

/// Names joined by blanks hold no newline where none of them does.
proof fn lemma_joined_lines(names: Seq<Seq<char>>)
    requires
        text::are_lines(names),
    ensures
        !text::joined(names, " "@).contains('\n'),
    decreases names.len(),
{
    reveal_strlit(" ");
    let j = text::joined(names, " "@);
    if names.len() == 1 {
        assert(j == names[0]);
    } else if names.len() > 1 {
        let init = names.drop_last();
        assert forall|i: int| 0 <= i < init.len() implies !(#[trigger] init[i]).contains('\n') by {
            assert(init[i] == names[i]);
        }
        lemma_joined_lines(init);
        let a = text::joined(init, " "@);
        let b = names.last();
        assert(!names[names.len() - 1].contains('\n'));
        if j.contains('\n') {
            let k = choose|k: int| 0 <= k < j.len() && j[k] == '\n';
            if k < a.len() {
                assert(a[k] == '\n');
            } else if k > a.len() {
                assert(b[k - a.len() - 1] == '\n');
            }
        }
    }
}

/// A text behind another holds a newline only where one of the two does.
proof fn lemma_concat_line(a: Seq<char>, b: Seq<char>)
    requires
        !a.contains('\n'),
        !b.contains('\n'),
    ensures
        !(a + b).contains('\n'),
{
    let j = a + b;
    if j.contains('\n') {
        let k = choose|k: int| 0 <= k < j.len() && j[k] == '\n';
        if k < a.len() {
            assert(a[k] == '\n');
        } else {
            assert(b[k - a.len()] == '\n');
        }
    }
}

/// A word holds no newline.
proof fn lemma_word_line(name: Seq<char>)
    requires
        is_word(name),
    ensures
        !name.contains('\n'),
{
    if name.contains('\n') {
        let k = choose|k: int| 0 <= k < name.len() && name[k] == '\n';
        assert(!text::is_white(name[k]));
    }
}

/// Option states whose names can stand in a file.
pub open spec fn are_words(opts: Seq<(Seq<char>, bool)>) -> bool {
    forall|i: int| 0 <= i < opts.len() ==> is_word((#[trigger] opts[i]).0)
}

/// The lines of an options file are lines.
proof fn lemma_file_lines(pkg: Seq<char>, opts: Seq<(Seq<char>, bool)>)
    requires
        are_words(opts),
        !pkg.contains('\n'),
    ensures
        text::are_lines(exporter::file_head(pkg, opts) + exporter::state_lines(opts)),
{
    let head = exporter::file_head(pkg, opts);
    let all = head + exporter::state_lines(opts);
    let names = exporter::state_names(opts);
    reveal_strlit("# This file is auto-generated by bgone.");
    reveal_strlit("# Options for ");
    reveal_strlit("_OPTIONS_READ=");
    reveal_strlit("_FILE_COMPLETE_OPTIONS_LIST=");
    reveal_strlit("OPTIONS_FILE_SET+=");
    reveal_strlit("OPTIONS_FILE_UNSET+=");
    assert forall|i: int| 0 <= i < names.len() implies !(#[trigger] names[i]).contains('\n') by {
        lemma_word_line(opts[i].0);
    }
    lemma_joined_lines(names);
    lemma_concat_line("# Options for "@, pkg);
    lemma_concat_line("_OPTIONS_READ="@, pkg);
    lemma_concat_line("_FILE_COMPLETE_OPTIONS_LIST="@, text::joined(names, " "@));
    assert forall|i: int| 0 <= i < all.len() implies !(#[trigger] all[i]).contains('\n') by {
        if i >= 4 {
            let o = opts[i - 4];
            assert(all[i] == exporter::state_line(o));
            lemma_word_line(o.0);
            lemma_concat_line("OPTIONS_FILE_SET+="@, o.0);
            lemma_concat_line("OPTIONS_FILE_UNSET+="@, o.0);
        } else {
            assert(all[i] == head[i]);
        }
    }
}

/// A line that starts with an underscore records nothing.
proof fn lemma_underscore(m: Map<Seq<char>, bool>, line: Seq<char>)
    requires
        line.len() > 0,
        line[0] == '_',
    ensures
        reader::file_line(m, line) == m,
{
    reveal_strlit("OPTIONS_FILE_SET");
    reveal_strlit("OPTIONS_FILE_UNSET");
    reveal_strlit("WITH_");
    reveal_strlit("WITHOUT_");
    lemma_trim_first(line);
    let t = text::trimmed(line);
    lemma_no_prefix(t, "OPTIONS_FILE_SET"@, 0);
    lemma_no_prefix(t, "OPTIONS_FILE_UNSET"@, 0);
    lemma_no_prefix(t, "WITH_"@, 0);
    lemma_no_prefix(t, "WITHOUT_"@, 0);
}

/// Trimming keeps the first character where it is not white.
proof fn lemma_trim_first(line: Seq<char>)
    requires
        line.len() > 0,
        !text::is_white(line[0]),
    ensures
        text::trimmed(line).len() > 0,
        text::trimmed(line)[0] == line[0],
{
    assert(text::trim_start(line) == line);
    lemma_trim_end_first(line);
}

/// Trimming the end keeps the first character where it is not white.
proof fn lemma_trim_end_first(s: Seq<char>)
    requires
        s.len() > 0,
        !text::is_white(s[0]),
    ensures
        text::trim_end(s).len() > 0,
        text::trim_end(s)[0] == s[0],
    decreases s.len(),
{
    if text::is_white(s.last()) {
        assert(s.len() > 1);
        lemma_trim_end_first(s.drop_last());
    }
}

/// A comment records nothing.
proof fn lemma_comment(m: Map<Seq<char>, bool>, line: Seq<char>)
    requires
        line.len() > 0,
        line[0] == '#',
    ensures
        reader::file_line(m, line) == m,
        reader::conf_line(m, line) == m,
{
    lemma_trim_first(line);
}

/// Reading depends on what is left of the lines once they are trimmed.
proof fn lemma_file_trimmed(a: Seq<Seq<char>>, b: Seq<Seq<char>>, n: int)
    requires
        n <= a.len(),
        a.len() == b.len(),
        forall|i: int| 0 <= i < a.len() ==> text::trimmed(#[trigger] a[i]) == text::trimmed(b[i]),
    ensures
        reader::file_lines(a, n) == reader::file_lines(b, n),
    decreases n,
{
    if n > 0 {
        lemma_file_trimmed(a, b, n - 1);
        assert(text::trimmed(a[n - 1]) == text::trimmed(b[n - 1]));
    }
}

/// Reading the head and the first `n` state lines gives the first `n` states.
proof fn lemma_states_read(pkg: Seq<char>, opts: Seq<(Seq<char>, bool)>, n: int)
    requires
        are_words(opts),
        0 <= n <= opts.len(),
    ensures
        ({
            let all = exporter::file_head(pkg, opts) + exporter::state_lines(opts);
            reader::file_lines(all, n + 4) == recorded(opts, n)
        }),
    decreases n,
{
    let head = exporter::file_head(pkg, opts);
    let all = head + exporter::state_lines(opts);
    if n == 0 {
        reveal_strlit("# This file is auto-generated by bgone.");
        reveal_strlit("# Options for ");
        reveal_strlit("_OPTIONS_READ=");
        reveal_strlit("_FILE_COMPLETE_OPTIONS_LIST=");
        let m = Map::<Seq<char>, bool>::empty();
        assert(all[0] == head[0]);
        assert(all[1] == head[1]);
        assert(all[2] == head[2]);
        assert(all[3] == head[3]);
        lemma_comment(m, all[0]);
        lemma_comment(m, all[1]);
        lemma_underscore(m, all[2]);
        lemma_underscore(m, all[3]);
        assert(reader::file_lines(all, 0) == m);
        assert(reader::file_lines(all, 1) == m);
        assert(reader::file_lines(all, 2) == m);
        assert(reader::file_lines(all, 3) == m);
        assert(reader::file_lines(all, 4) == m);
    } else {
        lemma_states_read(pkg, opts, n - 1);
        assert(all[n + 3] == exporter::state_line(opts[n - 1]));
        assert(is_word(opts[n - 1].0));
        lemma_state_line(recorded(opts, n - 1), opts[n - 1]);
    }
}

/// Reading an options file that was written gives back every state that went
/// into it, and nothing else.
pub proof fn options_file_reads_back(pkg: Seq<char>, opts: Seq<(Seq<char>, bool)>)
    requires
        are_words(opts),
        !pkg.contains('\n'),
    ensures
        reader::file_read(exporter::file_text(pkg, opts)) == recorded(opts, opts.len() as int),
{
    let all = exporter::file_head(pkg, opts) + exporter::state_lines(opts);
    let content = text::unlined(all);
    lemma_file_lines(pkg, opts);
    text::lemma_raw_lines_unlined(all);
    lemma_lines(content);
    lemma_file_trimmed(text::lines_of(content), all, all.len() as int);
    lemma_states_read(pkg, opts, opts.len() as int);
}

/// The order of option states is an order.
proof fn lemma_states_order()
    ensures
        order::is_order(exporter::states_le()),
{
    let le = exporter::states_le();
    assert forall|x: (Seq<char>, bool), y: (Seq<char>, bool)| #[trigger] le(x, y) || le(y, x) by {
        order::lemma_text_total(x.0, y.0);
    }
    assert forall|x: (Seq<char>, bool), y: (Seq<char>, bool), z: (Seq<char>, bool)| #[trigger]
        le(x, y) && #[trigger] le(y, z) implies le(x, z) by {
        order::lemma_text_trans(x.0, y.0, z.0);
    }
}

/// Every option of a port is among those recorded for it, and nothing else is.
proof fn lemma_states_upto(options: Seq<OptionView>, origin: Seq<char>, n: int)
    requires
        0 <= n <= options.len(),
    ensures
        forall|x: (Seq<char>, bool)| #[trigger]
            exporter::states_upto(options, origin, n).contains(x) <==> exists|k: int|
                0 <= k < n && (#[trigger] options[k]).port_origin == origin && x == (
                    options[k].name,
                    options[k].enabled,
                ),
    decreases n,
{
    let s = exporter::states_upto(options, origin, n);
    if n > 0 {
        lemma_states_upto(options, origin, n - 1);
        let rest = exporter::states_upto(options, origin, n - 1);
        let o = options[n - 1];
        assert forall|x: (Seq<char>, bool)| #[trigger] s.contains(x) <==> exists|k: int|
            0 <= k < n && (#[trigger] options[k]).port_origin == origin && x == (
                options[k].name,
                options[k].enabled,
            ) by {
            if s.len() > 0 && o.port_origin == origin {
                order::lemma_contains_last(s, x);
                assert(s.drop_last() =~= rest);
            }
            if rest.contains(x) {
                let k = choose|k: int|
                    0 <= k < n - 1 && (#[trigger] options[k]).port_origin == origin && x == (
                        options[k].name,
                        options[k].enabled,
                    );
                assert(options[k].port_origin == origin);
            }
            if o.port_origin == origin && x == (o.name, o.enabled) {
                assert(options[n - 1].port_origin == origin);
            }
        }
    } else {
        assert(s =~= seq![]);
    }
}

/// The names of a port's options are words, and options of one name are set
/// alike.
pub open spec fn well_named(options: Seq<OptionView>, origin: Seq<char>) -> bool {
    &&& forall|k: int|
        0 <= k < options.len() && (#[trigger] options[k]).port_origin == origin ==> is_word(
            options[k].name,
        )
    &&& forall|j: int, k: int|
        0 <= j < k < options.len() && (#[trigger] options[j]).port_origin == origin && (
        #[trigger] options[k]).port_origin == origin && options[j].name == options[k].name
            ==> options[j].enabled == options[k].enabled
}

/// No two of a port's options have one name.
pub open spec fn named_once(options: Seq<OptionView>, origin: Seq<char>) -> bool {
    forall|j: int, k: int|
        0 <= j < k < options.len() && (#[trigger] options[j]).port_origin == origin && (
        #[trigger] options[k]).port_origin == origin ==> options[j].name != options[k].name
}

/// The states of a port whose options are well named have names that are
/// words.
proof fn lemma_port_states(options: Seq<OptionView>, origin: Seq<char>)
    requires
        well_named(options, origin),
    ensures
        are_words(exporter::port_states(options, origin)),
        forall|x: (Seq<char>, bool), y: (Seq<char>, bool)|
            exporter::port_states(options, origin).contains(x) && exporter::port_states(
                options,
                origin,
            ).contains(y) && x.0 == y.0 ==> x == y,
        forall|k: int|
            0 <= k < options.len() && (#[trigger] options[k]).port_origin == origin
                ==> exporter::port_states(options, origin).contains(
                (options[k].name, options[k].enabled),
            ),
{
    let n = options.len() as int;
    let s = exporter::states_upto(options, origin, n);
    let p = exporter::port_states(options, origin);
    lemma_states_upto(options, origin, n);
    lemma_states_order();
    order::lemma_sort(s, exporter::states_le());
    assert forall|i: int| 0 <= i < p.len() implies is_word((#[trigger] p[i]).0) by {
        assert(p.contains(p[i]));
        assert(s.contains(p[i]));
        let k = choose|k: int|
            0 <= k < n && (#[trigger] options[k]).port_origin == origin && p[i] == (
                options[k].name,
                options[k].enabled,
            );
        assert(options[k].port_origin == origin);
    }
    assert forall|x: (Seq<char>, bool), y: (Seq<char>, bool)|
        p.contains(x) && p.contains(y) && x.0 == y.0 implies x == y by {
        assert(s.contains(x) && s.contains(y));
        let j = choose|k: int|
            0 <= k < n && (#[trigger] options[k]).port_origin == origin && x == (
                options[k].name,
                options[k].enabled,
            );
        let k = choose|k: int|
            0 <= k < n && (#[trigger] options[k]).port_origin == origin && y == (
                options[k].name,
                options[k].enabled,
            );
        assert(options[j].name == options[k].name);
        if j < k {
            assert(options[j].port_origin == origin && options[k].port_origin == origin);
        } else if k < j {
            assert(options[k].port_origin == origin && options[j].port_origin == origin);
        }
    }
    assert forall|k: int|
        0 <= k < options.len() && (#[trigger] options[k]).port_origin
            == origin implies p.contains((options[k].name, options[k].enabled)) by {
        assert(s.contains((options[k].name, options[k].enabled)));
    }
}

/// A list of option states with no name twice, as long as no two options of the
/// port have one name.
proof fn lemma_states_apart(options: Seq<OptionView>, origin: Seq<char>, n: int)
    requires
        named_once(options, origin),
        0 <= n <= options.len(),
    ensures
        exporter::states_upto(options, origin, n).no_duplicates(),
    decreases n,
{
    if n > 0 {
        lemma_states_apart(options, origin, n - 1);
        lemma_states_upto(options, origin, n - 1);
        let rest = exporter::states_upto(options, origin, n - 1);
        let o = options[n - 1];
        if rest.contains((o.name, o.enabled)) && o.port_origin == origin {
            let k = choose|k: int|
                0 <= k < n - 1 && (#[trigger] options[k]).port_origin == origin && (
                    o.name,
                    o.enabled,
                ) == (options[k].name, options[k].enabled);
            assert(options[k].port_origin == origin && options[n - 1].port_origin == origin);
        }
    }
}

/// Whether this is the name and the state of one of a port's options.
pub open spec fn is_state_in(
    options: Seq<OptionView>,
    origin: Seq<char>,
    x: (Seq<char>, bool),
) -> bool {
    exists|k: int|
        0 <= k < options.len() && (#[trigger] options[k]).port_origin == origin && x == (
            options[k].name,
            options[k].enabled,
        )
}

/// Every option that a port defines is in its options file, set or unset as it
/// is, and nothing else is; and where no two have one name, each is in it exactly
/// once. So the dialog does not open again for an option that the file leaves
/// out.
pub proof fn every_option_is_written_once(options: Seq<OptionView>, origin: Seq<char>)
    ensures
        forall|k: int|
            0 <= k < options.len() && (#[trigger] options[k]).port_origin == origin
                ==> exporter::port_states(options, origin).contains(
                (options[k].name, options[k].enabled),
            ),
        forall|i: int|
            0 <= i < exporter::port_states(options, origin).len() ==> is_state_in(
                options,
                origin,
                #[trigger] exporter::port_states(options, origin)[i],
            ),
        named_once(options, origin) ==> forall|i: int, j: int|
            0 <= i < j < exporter::port_states(options, origin).len() ==> (
            #[trigger] exporter::port_states(options, origin)[i]).0 != (
            #[trigger] exporter::port_states(options, origin)[j]).0,
{
    let n = options.len() as int;
    let s = exporter::states_upto(options, origin, n);
    let p = exporter::port_states(options, origin);
    lemma_states_upto(options, origin, n);
    lemma_states_order();
    order::lemma_sort(s, exporter::states_le());
    assert forall|k: int|
        0 <= k < options.len() && (#[trigger] options[k]).port_origin
            == origin implies p.contains((options[k].name, options[k].enabled)) by {
        assert(s.contains((options[k].name, options[k].enabled)));
    }
    assert forall|i: int| 0 <= i < p.len() implies is_state_in(
        options,
        origin,
        #[trigger] p[i],
    ) by {
        assert(p.contains(p[i]));
        assert(s.contains(p[i]));
    }
    if named_once(options, origin) {
        lemma_states_apart(options, origin, n);
        s.lemma_multiset_has_no_duplicates();
        p.lemma_multiset_has_no_duplicates_conv();
        assert forall|i: int, j: int| 0 <= i < j < p.len() implies (#[trigger] p[i]).0 != (
        #[trigger] p[j]).0 by {
            lemma_one_name(options, origin, p[i], p[j]);
        }
    }
}

/// Two states of options that no two names share are the same where their names
/// are.
proof fn lemma_one_name(
    options: Seq<OptionView>,
    origin: Seq<char>,
    x: (Seq<char>, bool),
    y: (Seq<char>, bool),
)
    requires
        named_once(options, origin),
        is_state_in(options, origin, x),
        is_state_in(options, origin, y),
    ensures
        x.0 == y.0 ==> x == y,
{
    let j = choose|k: int|
        0 <= k < options.len() && (#[trigger] options[k]).port_origin == origin && x == (
            options[k].name,
            options[k].enabled,
        );
    let k = choose|k: int|
        0 <= k < options.len() && (#[trigger] options[k]).port_origin == origin && y == (
            options[k].name,
            options[k].enabled,
        );
    assert(options[j].port_origin == origin && options[k].port_origin == origin);
    assert(j < k || k < j || j == k);
}

/// What is recorded of some states that agree where they name the same option.
proof fn lemma_recorded_agrees(opts: Seq<(Seq<char>, bool)>, n: int, x: (Seq<char>, bool))
    requires
        0 <= n <= opts.len(),
        forall|y: (Seq<char>, bool)| opts.contains(y) && y.0 == x.0 ==> y == x,
    ensures
        opts.take(n).contains(x) ==> recorded(opts, n).contains_key(x.0) && recorded(
            opts,
            n,
        )[x.0] == x.1,
    decreases n,
{
    if n > 0 {
        lemma_recorded_agrees(opts, n - 1, x);
        let last = opts[n - 1];
        assert(opts.contains(last));
        if opts.take(n).contains(x) && last.0 != x.0 {
            let k = choose|k: int| 0 <= k < n && opts.take(n)[k] == x;
            assert(opts[k] == x);
            assert(k < n - 1);
            assert(opts.take(n - 1)[k] == x);
        }
    }
}

/// Whether an origin is a category and a name, with no underscore in the
/// category.
pub open spec fn is_plain_origin(origin: Seq<char>) -> bool {
    let parts = text::split_of(origin, '/');
    parts.len() == 2 && !parts[0].contains('_') && origin == parts[0] + "/"@ + parts[1]
}

/// The folder of a port leads back to its origin.
proof fn lemma_folder(category: Seq<char>, port: Seq<char>)
    requires
        !category.contains('_'),
    ensures
        reader::folder_origin(category + "_"@ + port) == Some(category + "/"@ + port),
{
    reveal_strlit("_");
    let s = category + "_"@ + port;
    let k = category.len() as int;
    assert forall|j: int| 0 <= j < k implies s[j] != '_' by {
        assert(category.contains(category[j]));
    }
    assert(s[k] == '_');
    text::lemma_find_from_is(s, '_', 0, k);
    assert(s.take(k) =~= category);
    assert(s.skip(k + 1) =~= port);
}

/// A later session that reads the file written for a port finds every option
/// of it in the state in which it was saved, whatever else is saved.
pub proof fn saved_options_are_found_again(
    g: GraphView,
    origin: Seq<char>,
    k: int,
    saved: SavedView,
    shipped: bool,
)
    requires
        is_plain_origin(origin),
        well_named(g.options, origin),
        !exporter::package_name(g, origin, text::split_of(origin, '/')[1]).contains('\n'),
        0 <= k < g.options.len(),
        g.options[k].port_origin == origin,
    ensures
        exporter::file_for(g, origin) is Some,
        ({
            let f = exporter::file_for(g, origin)->0;
            reader::state_of(
                reader::with_file(saved, f.folder, f.content),
                origin,
                g.options[k].name,
                shipped,
            ) == g.options[k].enabled
        }),
{
    let parts = text::split_of(origin, '/');
    let opts = exporter::port_states(g.options, origin);
    let pkg = exporter::package_name(g, origin, parts[1]);
    let x = (g.options[k].name, g.options[k].enabled);
    lemma_port_states(g.options, origin);
    options_file_reads_back(pkg, opts);
    lemma_folder(parts[0], parts[1]);
    assert(opts.contains(x));
    assert(opts.take(opts.len() as int) =~= opts);
    lemma_recorded_agrees(opts, opts.len() as int, x);
    let states = recorded(opts, opts.len() as int);
    assert(states.contains_key(x.0));
    assert(!states.is_empty());
}

/// Whether a port can be written and read back: its origin is a category and a
/// name, its options are well named, and its package name is in one line.
pub open spec fn is_writable(g: GraphView, origin: Seq<char>) -> bool {
    &&& is_plain_origin(origin)
    &&& well_named(g.options, origin)
    &&& !exporter::package_name(g, origin, text::split_of(origin, '/')[1]).contains('\n')
}

/// The states that the file of a port records.
pub open spec fn states_in(g: GraphView, origin: Seq<char>) -> Map<Seq<char>, bool> {
    let opts = exporter::port_states(g.options, origin);
    recorded(opts, opts.len() as int)
}

/// Reading the file of a port that has an option records its states, and those
/// of no other port.
proof fn lemma_file_recorded(g: GraphView, origin: Seq<char>, k: int, saved: SavedView)
    requires
        is_writable(g, origin),
        0 <= k < g.options.len(),
        g.options[k].port_origin == origin,
    ensures
        exporter::file_for(g, origin) is Some,
        ({
            let f = exporter::file_for(g, origin)->0;
            reader::with_file(saved, f.folder, f.content) == (SavedView {
                ports: saved.ports.insert(origin, states_in(g, origin)),
                ..saved
            })
        }),
        states_in(g, origin).contains_key(g.options[k].name),
        states_in(g, origin)[g.options[k].name] == g.options[k].enabled,
{
    let parts = text::split_of(origin, '/');
    let opts = exporter::port_states(g.options, origin);
    let pkg = exporter::package_name(g, origin, parts[1]);
    let x = (g.options[k].name, g.options[k].enabled);
    lemma_port_states(g.options, origin);
    options_file_reads_back(pkg, opts);
    lemma_folder(parts[0], parts[1]);
    assert(opts.contains(x));
    assert(opts.take(opts.len() as int) =~= opts);
    lemma_recorded_agrees(opts, opts.len() as int, x);
    assert(states_in(g, origin).contains_key(x.0));
    assert(!states_in(g, origin).is_empty());
}

/// What is saved once the first `n` of some files have been read.
pub open spec fn with_files(saved: SavedView, files: Seq<FileView>, n: int) -> SavedView
    decreases n,
{
    if n <= 0 {
        saved
    } else {
        reader::with_file(
            with_files(saved, files, n - 1),
            files[n - 1].folder,
            files[n - 1].content,
        )
    }
}

/// The files of an export are those of the ports that are written.
proof fn lemma_files(g: GraphView, origins: Seq<Seq<char>>, n: int, f: FileView)
    requires
        0 <= n <= origins.len(),
    ensures
        exporter::files_upto(g, origins, n).contains(f) <==> exists|m: int|
            0 <= m < n && exporter::file_for(g, #[trigger] origins[m]) == Some(f),
    decreases n,
{
    if n > 0 {
        lemma_files(g, origins, n - 1, f);
        let a = exporter::files_upto(g, origins, n - 1);
        let r = exporter::files_upto(g, origins, n);
        if exporter::file_for(g, origins[n - 1]) is Some {
            assert(r.drop_last() =~= a);
            order::lemma_contains_last(r, f);
        }
        if a.contains(f) {
            let m = choose|m: int|
                0 <= m < n - 1 && exporter::file_for(g, #[trigger] origins[m]) == Some(f);
            assert(exporter::file_for(g, origins[m]) == Some(f));
        }
        if exists|m: int| 0 <= m < n && exporter::file_for(g, #[trigger] origins[m]) == Some(f) {
            let m = choose|m: int|
                0 <= m < n && exporter::file_for(g, #[trigger] origins[m]) == Some(f);
            assert(m < n - 1 || m == n - 1);
        }
    }
}

/// The port that a file of an export is for.
proof fn lemma_file_of(g: GraphView, f: FileView) -> (r: (Seq<char>, int))
    requires
        exporter::files_of(g).contains(f),
    ensures
        exporter::written_ports(g).contains(r.0),
        exporter::file_for(g, r.0) == Some(f),
        live::live_at(g, r.0),
        0 <= r.1 < g.options.len(),
        g.options[r.1].port_origin == r.0,
{
    let origins = exporter::written_ports(g);
    lemma_files(g, origins, origins.len() as int, f);
    let m = choose|m: int|
        0 <= m < origins.len() && exporter::file_for(g, #[trigger] origins[m]) == Some(f);
    let o = origins[m];
    assert(origins.contains(o));
    exporter::only_what_is_pulled_in_is_written(g, o);
    let k = choose|k: int| 0 <= k < g.options.len() && (#[trigger] g.options[k]).port_origin == o;
    (o, k)
}

/// What has been read of the files of an export: of each port whose file was
/// among them its states, and of no port that is not pulled in anything.
proof fn lemma_files_recorded(g: GraphView, files: Seq<FileView>, n: int, origin: Seq<char>)
    requires
        forall|o: Seq<char>| #[trigger]
            exporter::written_ports(g).contains(o) ==> is_writable(g, o),
        forall|f: FileView| #[trigger] files.contains(f) ==> exporter::files_of(g).contains(f),
        0 <= n <= files.len(),
    ensures
        ({
            let saved = with_files(reader::nothing_saved(), files, n);
            &&& saved.ports.contains_key(origin) ==> live::live_at(g, origin)
                && saved.ports[origin] == states_in(g, origin)
            &&& (exists|i: int|
                0 <= i < n && exporter::file_for(g, origin) == Some(#[trigger] files[i]))
                && exporter::written_ports(g).contains(origin) ==> saved.ports.contains_key(origin)
            &&& saved.globals == Map::<Seq<char>, bool>::empty()
        }),
    decreases n,
{
    if n > 0 {
        lemma_files_recorded(g, files, n - 1, origin);
        let f = files[n - 1];
        let before = with_files(reader::nothing_saved(), files, n - 1);
        assert(files.contains(f));
        let (o, k) = lemma_file_of(g, f);
        lemma_file_recorded(g, o, k, before);
        if exporter::written_ports(g).contains(origin) && exporter::file_for(g, origin) == Some(
            f,
        ) {
            exporter::only_what_is_pulled_in_is_written(g, origin);
            let j = choose|j: int|
                0 <= j < g.options.len() && (#[trigger] g.options[j]).port_origin == origin;
            lemma_file_recorded(g, origin, j, before);
            lemma_same_folder(g, origin, o);
        }
        if exists|i: int| 0 <= i < n && exporter::file_for(g, origin) == Some(#[trigger] files[i]) {
            let i = choose|i: int|
                0 <= i < n && exporter::file_for(g, origin) == Some(#[trigger] files[i]);
            assert(i < n - 1 || i == n - 1);
        }
    }
}

/// Ports whose files are in one folder are the same.
proof fn lemma_same_folder(g: GraphView, a: Seq<char>, b: Seq<char>)
    requires
        is_plain_origin(a),
        is_plain_origin(b),
        exporter::file_for(g, a) == exporter::file_for(g, b),
    ensures
        a == b,
{
    let p = text::split_of(a, '/');
    let q = text::split_of(b, '/');
    lemma_folder(p[0], p[1]);
    lemma_folder(q[0], q[1]);
}

/// A later session that reads all the files of an export, in any order, finds
/// every option of every port that is pulled in in the state in which it was
/// saved, and nothing saved for a port that is not.
pub proof fn all_saved_options_are_found_again(
    g: GraphView,
    files: Seq<FileView>,
    k: int,
    shipped: bool,
)
    requires
        forall|o: Seq<char>| #[trigger]
            exporter::written_ports(g).contains(o) ==> is_writable(g, o),
        forall|f: FileView| #[trigger] files.contains(f) <==> exporter::files_of(g).contains(f),
        0 <= k < g.options.len(),
    ensures
        ({
            let saved = with_files(reader::nothing_saved(), files, files.len() as int);
            let o = g.options[k];
            &&& live::live_at(g, o.port_origin) ==> reader::state_of(
                saved,
                o.port_origin,
                o.name,
                shipped,
            ) == o.enabled
            &&& forall|origin: Seq<char>| #[trigger]
                saved.ports.contains_key(origin) ==> live::live_at(g, origin)
        }),
{
    let n = files.len() as int;
    let saved = with_files(reader::nothing_saved(), files, n);
    let o = g.options[k];
    assert forall|origin: Seq<char>| #[trigger]
        saved.ports.contains_key(origin) implies live::live_at(g, origin) by {
        lemma_files_recorded(g, files, n, origin);
    }
    if live::live_at(g, o.port_origin) {
        let origin = o.port_origin;
        exporter::only_what_is_pulled_in_is_written(g, origin);
        assert(exporter::written_ports(g).contains(origin));
        lemma_file_recorded(g, origin, k, reader::nothing_saved());
        let f = exporter::file_for(g, origin)->0;
        let origins = exporter::written_ports(g);
        let m = choose|m: int| 0 <= m < origins.len() && origins[m] == origin;
        assert(exporter::file_for(g, origins[m]) == Some(f));
        lemma_files(g, origins, origins.len() as int, f);
        assert(exporter::files_of(g).contains(f));
        assert(files.contains(f));
        let i = choose|i: int| 0 <= i < files.len() && files[i] == f;
        assert(exporter::file_for(g, origin) == Some(files[i]));
        lemma_files_recorded(g, files, n, origin);
    }
}

/// Reading one run of lines and then another is reading both.
proof fn lemma_sift_concat(f: Sifted, a: Seq<Seq<char>>, b: Seq<Seq<char>>)
    ensures
        exporter::sift(f, a + b) == exporter::sift(exporter::sift(f, a), b),
    decreases b.len(),
{
    if b.len() == 0 {
        assert(a + b =~= a);
    } else {
        assert((a + b).drop_last() =~= a + b.drop_last());
        assert((a + b).last() == b.last());
        lemma_sift_concat(f, a, b.drop_last());
    }
}

/// Lines none of which opens a block.
spec fn no_begin(lines: Seq<Seq<char>>) -> bool {
    forall|i: int| 0 <= i < lines.len() ==> !exporter::is_begin(#[trigger] lines[i])
}

/// Lines outside a block that do not open one are kept.
proof fn lemma_sift_kept(f: Sifted, lines: Seq<Seq<char>>)
    requires
        !f.inside,
        no_begin(lines),
    ensures
        exporter::sift(f, lines) == (Sifted { kept: f.kept + lines, ..f }),
    decreases lines.len(),
{
    if lines.len() == 0 {
        assert(f.kept + lines =~= f.kept);
    } else {
        let init = lines.drop_last();
        assert forall|i: int| 0 <= i < init.len() implies !exporter::is_begin(
            #[trigger] init[i],
        ) by {
            assert(init[i] == lines[i]);
        }
        lemma_sift_kept(f, init);
        assert(!exporter::is_begin(lines[lines.len() - 1]));
        assert((f.kept + init).push(lines.last()) =~= f.kept + lines);
    }
}

/// Whether lines are a managed block: from the line that opens it to the one
/// that closes it.
pub open spec fn is_block(block: Seq<Seq<char>>) -> bool {
    &&& block.len() >= 2
    &&& exporter::is_begin(block[0])
    &&& exporter::is_end(block.last())
    &&& forall|i: int| 0 <= i < block.len() - 1 ==> !exporter::is_end(#[trigger] block[i])
}

/// The two markers are different.
proof fn lemma_markers(line: Seq<char>)
    ensures
        !(exporter::is_begin(line) && exporter::is_end(line)),
{
    reveal_strlit("# BEGIN bgone");
    reveal_strlit("# END bgone");
    assert("# BEGIN bgone"@.len() != "# END bgone"@.len());
}

/// What is known inside a block.
proof fn lemma_sift_inside(f: Sifted, block: Seq<Seq<char>>, n: int)
    requires
        !f.inside,
        is_block(block),
        1 <= n < block.len(),
    ensures
        exporter::sift(f, block.take(n)) == (Sifted {
            at: if f.at is None {
                Some(f.kept.len() as int)
            } else {
                f.at
            },
            inside: true,
            ..f
        }),
    decreases n,
{
    let t = block.take(n);
    assert(t.drop_last() =~= block.take(n - 1));
    assert(t.last() == block[n - 1]);
    if n == 1 {
        assert(block.take(0) =~= seq![]);
    } else {
        lemma_sift_inside(f, block, n - 1);
        assert(!exporter::is_end(block[n - 1]));
    }
}

/// A block tells where it is, and nothing else.
proof fn lemma_sift_block(f: Sifted, block: Seq<Seq<char>>)
    requires
        !f.inside,
        is_block(block),
    ensures
        exporter::sift(f, block) == (Sifted {
            at: if f.at is None {
                Some(f.kept.len() as int)
            } else {
                f.at
            },
            ..f
        }),
{
    lemma_sift_inside(f, block, block.len() - 1);
    assert(block.drop_last() =~= block.take(block.len() - 1));
    lemma_markers(block.last());
}

/// No line that is kept opens a block, and the place of the first block is
/// among those kept.
proof fn lemma_kept(lines: Seq<Seq<char>>)
    ensures
        no_begin(exporter::sifted(lines).kept),
        exporter::sifted(lines).at is Some ==> 0 <= exporter::sifted(lines).at->0
            <= exporter::sifted(lines).kept.len(),
        text::are_lines(lines) ==> text::are_lines(exporter::sifted(lines).kept),
    decreases lines.len(),
{
    if lines.len() > 0 {
        let init = lines.drop_last();
        lemma_kept(init);
        let f = exporter::sifted(init);
        let r = exporter::sifted(lines);
        assert(r == exporter::sift_line(f, lines.last()));
        if text::are_lines(lines) {
            assert forall|i: int| 0 <= i < init.len() implies !(#[trigger] init[i]).contains(
                '\n',
            ) by {
                assert(init[i] == lines[i]);
            }
            assert(!lines[lines.len() - 1].contains('\n'));
        }
    }
}

/// A blank line opens no block.
proof fn lemma_blank()
    ensures
        !exporter::is_begin(seq![]),
{
    reveal_strlit("# BEGIN bgone");
    assert(text::trim_start(seq![]) =~= Seq::<char>::empty());
    assert(text::trimmed(seq![]) =~= Seq::<char>::empty());
}

/// What is known of lines once a block has been spliced into them: the lines
/// that are the user's are as they were, but for the blank line before a block
/// that is appended.
pub proof fn splicing_keeps_what_is_not_ours(existing: Seq<Seq<char>>, block: Seq<Seq<char>>)
    requires
        is_block(block),
    ensures
        ({
            let f = exporter::sifted(existing);
            let r = exporter::sifted(exporter::spliced_lines(existing, block));
            &&& !r.inside
            &&& f.at is Some ==> r.kept == f.kept && r.at == f.at
            &&& f.at is None ==> r.kept == f.kept + exporter::parting(f.kept) && r.at == Some(
                r.kept.len() as int,
            )
        }),
{
    let u = exporter::unsifted();
    let f = exporter::sifted(existing);
    lemma_kept(existing);
    lemma_blank();
    match f.at {
        Some(a) => {
            let x = f.kept.take(a);
            let y = f.kept.skip(a);
            assert forall|i: int| 0 <= i < x.len() implies !exporter::is_begin(
                #[trigger] x[i],
            ) by {
                assert(x[i] == f.kept[i]);
            }
            assert forall|i: int| 0 <= i < y.len() implies !exporter::is_begin(
                #[trigger] y[i],
            ) by {
                assert(y[i] == f.kept[i + a]);
            }
            lemma_sift_concat(u, x + block, y);
            lemma_sift_concat(u, x, block);
            lemma_sift_kept(u, x);
            assert(u.kept + x =~= x);
            let v = exporter::sift(u, x);
            lemma_sift_block(v, block);
            let w = exporter::sift(v, block);
            lemma_sift_kept(w, y);
            assert(x + y =~= f.kept);
        },
        None => {
            let x = f.kept + exporter::parting(f.kept);
            assert forall|i: int| 0 <= i < x.len() implies !exporter::is_begin(
                #[trigger] x[i],
            ) by {
                if i < f.kept.len() {
                    assert(x[i] == f.kept[i]);
                }
            }
            lemma_sift_concat(u, x, block);
            lemma_sift_kept(u, x);
            assert(u.kept + x =~= x);
            lemma_sift_block(exporter::sift(u, x), block);
        },
    }
}

/// Splicing a block into lines that hold it changes nothing.
proof fn lemma_splice_again(existing: Seq<Seq<char>>, block: Seq<Seq<char>>)
    requires
        is_block(block),
    ensures
        ({
            let once = exporter::spliced_lines(existing, block);
            exporter::spliced_lines(once, block) == once
        }),
{
    let f = exporter::sifted(existing);
    let once = exporter::spliced_lines(existing, block);
    let r = exporter::sifted(once);
    splicing_keeps_what_is_not_ours(existing, block);
    lemma_kept(existing);
    if f.at is None {
        assert(r.kept.take(r.kept.len() as int) =~= r.kept);
        assert(r.kept.skip(r.kept.len() as int) =~= seq![]);
        assert(r.kept + block + Seq::<Seq<char>>::empty() =~= once);
    }
}

/// The lines that splicing makes are lines.
proof fn lemma_spliced_are_lines(existing: Seq<Seq<char>>, block: Seq<Seq<char>>)
    requires
        text::are_lines(existing),
        text::are_lines(block),
    ensures
        text::are_lines(exporter::spliced_lines(existing, block)),
{
    let f = exporter::sifted(existing);
    let r = exporter::spliced_lines(existing, block);
    lemma_kept(existing);
    assert forall|i: int| 0 <= i < r.len() implies !(#[trigger] r[i]).contains('\n') by {
        match f.at {
            Some(a) => {
                if i < a {
                    assert(r[i] == f.kept[i]);
                } else if i < a + block.len() {
                    assert(r[i] == block[i - a]);
                } else {
                    assert(r[i] == f.kept[i - block.len()]);
                }
            },
            None => {
                let p = exporter::parting(f.kept);
                if i < f.kept.len() {
                    assert(r[i] == f.kept[i]);
                } else if i < f.kept.len() + p.len() {
                    assert(r[i] == p[i - f.kept.len()]);
                } else {
                    assert(r[i] == block[i - f.kept.len() - p.len()]);
                }
            },
        }
    }
}

/// Splicing the same block into a file a second time changes nothing.
pub proof fn splicing_twice_is_splicing_once(existing: Seq<char>, block: Seq<char>)
    requires
        is_block(text::raw_lines_of(block)),
    ensures
        exporter::spliced(exporter::spliced(existing, block), block) == exporter::spliced(
            existing,
            block,
        ),
{
    let e = text::raw_lines_of(existing);
    let b = text::raw_lines_of(block);
    let once = exporter::spliced_lines(e, b);
    text::lemma_raw_lines_are(existing);
    text::lemma_raw_lines_are(block);
    lemma_spliced_are_lines(e, b);
    lemma_kept(e);
    assert(once.len() > 0);
    text::lemma_raw_lines_unlined(once);
    lemma_splice_again(e, b);
}

/// Lines one after the other make the texts of each one after the other.
proof fn lemma_unlined_add(a: Seq<Seq<char>>, b: Seq<Seq<char>>)
    ensures
        text::unlined(a + b) == text::unlined(a) + text::unlined(b),
    decreases b.len(),
{
    if b.len() == 0 {
        assert(a + b =~= a);
        assert(text::unlined(a) + text::unlined(b) =~= text::unlined(a));
    } else {
        lemma_unlined_add(a, b.drop_last());
        assert((a + b).drop_last() =~= a + b.drop_last());
        assert(text::unlined(a + b) =~= text::unlined(a) + text::unlined(b));
    }
}

/// Whether a block opens but once.
pub open spec fn opens_once(block: Seq<Seq<char>>) -> bool {
    is_block(block) && forall|i: int|
        0 < i < block.len() ==> !exporter::is_begin(#[trigger] block[i])
}

/// A file that a block has been spliced into ends in a newline, holds the block
/// whole, and has no line that opens a block but the block's own.
pub proof fn a_spliced_file_holds_the_block_once(existing: Seq<char>, block: Seq<char>)
    requires
        opens_once(text::raw_lines_of(block)),
    ensures
        ({
            let s = exporter::spliced(existing, block);
            let r = text::raw_lines_of(s);
            let b = text::raw_lines_of(block);
            &&& s.len() > 0 && s.last() == '\n'
            &&& text::has_part(s, text::unlined(b))
            &&& exists|a: int|
                0 <= a && a + b.len() <= r.len() && #[trigger] r.subrange(a, a + b.len()) == b
                    && forall|i: int|
                    0 <= i < r.len() ==> (exporter::is_begin(#[trigger] r[i]) <==> i == a)
        }),
{
    let e = text::raw_lines_of(existing);
    let b = text::raw_lines_of(block);
    let f = exporter::sifted(e);
    let r = exporter::spliced_lines(e, b);
    let s = exporter::spliced(existing, block);
    text::lemma_raw_lines_are(existing);
    text::lemma_raw_lines_are(block);
    lemma_spliced_are_lines(e, b);
    lemma_kept(e);
    lemma_blank();
    text::lemma_raw_lines_unlined(r);
    let x = match f.at {
        Some(a) => f.kept.take(a),
        None => f.kept + exporter::parting(f.kept),
    };
    let y = match f.at {
        Some(a) => f.kept.skip(a),
        None => seq![],
    };
    assert(r =~= x + b + y);
    assert(r.len() > 0);
    assert(s == text::unlined(r));
    assert(s.last() == '\n');
    lemma_unlined_add(x, b);
    lemma_unlined_add(x + b, y);
    let at = text::unlined(x).len() as int;
    assert(s.subrange(at, at + text::unlined(b).len()) =~= text::unlined(b));
    assert(text::stands_at(s, text::unlined(b), at));
    let a = x.len() as int;
    assert(r.subrange(a, a + b.len()) =~= b);
    assert forall|i: int| 0 <= i < r.len() implies (exporter::is_begin(#[trigger] r[i]) <==> i
        == a) by {
        if i < a {
            assert(r[i] == x[i]);
            match f.at {
                Some(w) => {
                    assert(x[i] == f.kept[i]);
                },
                None => {
                    if i < f.kept.len() {
                        assert(x[i] == f.kept[i]);
                    }
                },
            }
        } else if i < a + b.len() {
            assert(r[i] == b[i - a]);
        } else {
            assert(r[i] == y[i - a - b.len()]);
            assert(f.kept[i - b.len()] == y[i - a - b.len()]);
        }
    }
}

/// The markers are taken for what they are.
proof fn lemma_begin_line()
    ensures
        exporter::is_begin("# BEGIN bgone"@),
        exporter::is_end("# END bgone"@),
        !exporter::is_end("# BEGIN bgone"@),
{
    reveal_strlit("# BEGIN bgone");
    reveal_strlit("# END bgone");
    lemma_trimmed("# BEGIN bgone"@);
    lemma_trimmed("# END bgone"@);
    lemma_markers("# BEGIN bgone"@);
}

/// A line that sets a global opens and closes no block.
proof fn lemma_global_line(name: Seq<char>)
    ensures
        !exporter::is_end("OPTIONS_SET+="@ + name),
        !exporter::is_end("OPTIONS_UNSET+="@ + name),
        !exporter::is_begin("OPTIONS_SET+="@ + name),
        !exporter::is_begin("OPTIONS_UNSET+="@ + name),
{
    reveal_strlit("# BEGIN bgone");
    reveal_strlit("OPTIONS_SET+=");
    reveal_strlit("OPTIONS_UNSET+=");
    reveal_strlit("# END bgone");
    lemma_trim_first("OPTIONS_SET+="@ + name);
    lemma_trim_first("OPTIONS_UNSET+="@ + name);
}

/// No line for a global opens or closes a block.
proof fn lemma_global_lines(g: GraphView, names: Seq<Seq<char>>, n: int)
    requires
        n <= names.len(),
    ensures
        forall|i: int|
            0 <= i < exporter::global_lines(g, names, n).len() ==> !exporter::is_end(
                #[trigger] exporter::global_lines(g, names, n)[i],
            ) && !exporter::is_begin(exporter::global_lines(g, names, n)[i]),
    decreases n,
{
    if n > 0 {
        lemma_global_lines(g, names, n - 1);
        lemma_global_line(names[n - 1]);
        let rest = exporter::global_lines(g, names, n - 1);
        let lines = exporter::global_lines(g, names, n);
        assert forall|i: int| 0 <= i < lines.len() implies !exporter::is_end(
            #[trigger] lines[i],
        ) && !exporter::is_begin(lines[i]) by {
            if i < rest.len() {
                assert(lines[i] == rest[i]);
            }
        }
    }
}

/// The block that is written for a graph is a managed block, and opens but once.
pub proof fn written_block_is_a_block(g: GraphView)
    ensures
        is_block(exporter::block_lines(g)),
        opens_once(exporter::block_lines(g)),
{
    let names = exporter::global_names(g);
    let lines = exporter::global_lines(g, names, names.len() as int);
    let head = exporter::block_head();
    let all = exporter::block_lines(g);
    lemma_begin_line();
    lemma_global_lines(g, names, names.len() as int);
    reveal_strlit("# Global option overrides managed by bgone. Everything between");
    reveal_strlit("# these markers is rewritten on save; everything outside them");
    reveal_strlit("# is preserved.");
    reveal_strlit("# END bgone");
    lemma_trimmed("# Global option overrides managed by bgone. Everything between"@);
    lemma_trimmed("# these markers is rewritten on save; everything outside them"@);
    lemma_trimmed("# is preserved."@);
    assert(all[0] == head[0]);
    assert(all.last() == "# END bgone"@);
    assert forall|i: int| 0 <= i < all.len() - 1 implies !exporter::is_end(#[trigger] all[i]) by {
        if i < 4 {
            assert(all[i] == head[i]);
        } else {
            assert(all[i] == lines[i - 4]);
        }
    }
    reveal_strlit("# BEGIN bgone");
    lemma_markers("# END bgone"@);
    assert forall|i: int| 0 < i < all.len() implies !exporter::is_begin(#[trigger] all[i]) by {
        if i < 4 {
            assert(all[i] == head[i]);
            assert(all[i].len() > 13);
        } else if i < all.len() - 1 {
            assert(all[i] == lines[i - 4]);
        }
    }
}

/// What the first `n` of some names set globally: those on whose state every
/// port of the build that has them agrees.
pub open spec fn agreed(g: GraphView, names: Seq<Seq<char>>, n: int) -> Map<Seq<char>, bool>
    decreases n,
{
    if n <= 0 {
        Map::empty()
    } else {
        let rest = agreed(g, names, n - 1);
        if exporter::agrees(g, names[n - 1], true) {
            rest.insert(names[n - 1], true)
        } else if exporter::agrees(g, names[n - 1], false) {
            rest.insert(names[n - 1], false)
        } else {
            rest
        }
    }
}

/// Reading the line that sets a global sets it.
proof fn lemma_conf_line(m: Map<Seq<char>, bool>, name: Seq<char>)
    requires
        is_word(name),
    ensures
        reader::conf_line(m, "OPTIONS_SET+="@ + name) == m.insert(name, true),
        reader::conf_line(m, "OPTIONS_UNSET+="@ + name) == m.insert(name, false),
{
    reveal_strlit("OPTIONS_SET+=");
    reveal_strlit("OPTIONS_UNSET+=");
    reveal_strlit("OPTIONS_SET");
    reveal_strlit("OPTIONS_UNSET");
    reveal_strlit("+=");
    let a = "OPTIONS_SET+="@ + name;
    let b = "OPTIONS_UNSET+="@ + name;
    assert(a.last() == name.last() && b.last() == name.last());
    assert(!text::is_white(name[name.len() - 1]));
    assert(a[0] == 'O' && b[0] == 'O');
    lemma_trimmed(a);
    lemma_trimmed(b);
    lemma_with_word(m, name, true);
    lemma_with_word(m, name, false);
    assert("OPTIONS_SET+="@ =~= "OPTIONS_SET"@ + "+="@);
    lemma_assigned("OPTIONS_SET"@, name);
    assert("OPTIONS_UNSET+="@ =~= "OPTIONS_UNSET"@ + "+="@);
    assert(b[8] == 'U');
    lemma_no_prefix(b, "OPTIONS_SET"@, 8);
    lemma_assigned("OPTIONS_UNSET"@, name);
}

/// Reading lines and then others is reading both.
proof fn lemma_conf_concat(m: Map<Seq<char>, bool>, a: Seq<Seq<char>>, b: Seq<Seq<char>>, n: int)
    requires
        0 <= n <= b.len(),
    ensures
        reader::conf_lines(m, a + b, a.len() + n) == reader::conf_lines(
            reader::conf_lines(m, a, a.len() as int),
            b,
            n,
        ),
    decreases n,
{
    if n == 0 {
        lemma_conf_prefix(m, a, b, a.len() as int);
    } else {
        lemma_conf_concat(m, a, b, n - 1);
        assert((a + b)[a.len() + n - 1] == b[n - 1]);
    }
}

/// Reading the first lines does not depend on those behind them.
proof fn lemma_conf_prefix(m: Map<Seq<char>, bool>, a: Seq<Seq<char>>, b: Seq<Seq<char>>, n: int)
    requires
        0 <= n <= a.len(),
    ensures
        reader::conf_lines(m, a + b, n) == reader::conf_lines(m, a, n),
    decreases n,
{
    if n > 0 {
        lemma_conf_prefix(m, a, b, n - 1);
        assert((a + b)[n - 1] == a[n - 1]);
    }
}

/// Reading the lines for the first `n` names sets what is agreed on.
proof fn lemma_agreed_read(g: GraphView, names: Seq<Seq<char>>, n: int)
    requires
        0 <= n <= names.len(),
        forall|i: int| 0 <= i < names.len() ==> is_word(#[trigger] names[i]),
    ensures
        ({
            let lines = exporter::global_lines(g, names, n);
            reader::conf_lines(Map::empty(), lines, lines.len() as int) == agreed(g, names, n)
        }),
    decreases n,
{
    if n > 0 {
        lemma_agreed_read(g, names, n - 1);
        let rest = exporter::global_lines(g, names, n - 1);
        let lines = exporter::global_lines(g, names, n);
        assert(is_word(names[n - 1]));
        lemma_conf_line(agreed(g, names, n - 1), names[n - 1]);
        if lines.len() > rest.len() {
            assert(lines =~= rest + seq![lines.last()]);
            lemma_conf_prefix(Map::empty(), rest, seq![lines.last()], rest.len() as int);
        }
    }
}

/// Reading the lines of the managed block sets exactly the globals on which
/// the whole build agrees.
pub proof fn written_block_reads_back(g: GraphView)
    requires
        forall|i: int|
            0 <= i < exporter::global_names(g).len() ==> is_word(
                #[trigger] exporter::global_names(g)[i],
            ),
    ensures
        ({
            let names = exporter::global_names(g);
            let lines = exporter::block_lines(g);
            reader::conf_lines(Map::empty(), lines, lines.len() as int) == agreed(
                g,
                names,
                names.len() as int,
            )
        }),
{
    let names = exporter::global_names(g);
    let head = exporter::block_head();
    let lines = exporter::global_lines(g, names, names.len() as int);
    let tail = seq!["# END bgone"@];
    let e = Map::<Seq<char>, bool>::empty();
    reveal_strlit("# BEGIN bgone");
    reveal_strlit("# Global option overrides managed by bgone. Everything between");
    reveal_strlit("# these markers is rewritten on save; everything outside them");
    reveal_strlit("# is preserved.");
    reveal_strlit("# END bgone");
    lemma_comment(e, head[0]);
    lemma_comment(e, head[1]);
    lemma_comment(e, head[2]);
    lemma_comment(e, head[3]);
    assert(reader::conf_lines(e, head, 0) == e);
    assert(reader::conf_lines(e, head, 1) == e);
    assert(reader::conf_lines(e, head, 2) == e);
    assert(reader::conf_lines(e, head, 3) == e);
    assert(reader::conf_lines(e, head, 4) == e);
    lemma_conf_concat(e, head, lines, lines.len() as int);
    lemma_agreed_read(g, names, names.len() as int);
    lemma_conf_concat(e, head + lines, tail, 1);
    let m = agreed(g, names, names.len() as int);
    lemma_comment(m, tail[0]);
    assert(reader::conf_lines(m, tail, 0) == m);
}

} // verus!
