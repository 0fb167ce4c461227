//! The option state that a system has saved: global overrides from `make.conf`
//! and per-port options files.
use crate::text;
use crate::text::{lines, same, strip_head, trim, words};
use vstd::hash_map::StringHashMap;
use vstd::prelude::*;

verus! {

/// What a system has saved.
pub struct SystemOptions {
    /// Port origin (e.g. "www/apache24") -> (option name -> enabled)
    pub port_overrides: StringHashMap<StringHashMap<bool>>,
    /// Global option name -> enabled
    pub global_overrides: StringHashMap<bool>,
}

/// What a `SystemOptions` says.
pub struct SavedView {
    pub ports: Map<Seq<char>, Map<Seq<char>, bool>>,
    pub globals: Map<Seq<char>, bool>,
}

/// The states that a map of maps holds.
pub open spec fn state_maps(m: Map<Seq<char>, StringHashMap<bool>>) -> Map<
    Seq<char>,
    Map<Seq<char>, bool>,
> {
    Map::new(|k: Seq<char>| m.contains_key(k), |k: Seq<char>| m[k]@)
}

impl View for SystemOptions {
    type V = SavedView;

    open spec fn view(&self) -> SavedView {
        SavedView {
            ports: state_maps(self.port_overrides@),
            globals: self.global_overrides@,
        }
    }
}

/// The state of an option: what is saved for its port, else what is saved for
/// every port, else what the port ships.
pub open spec fn state_of(
    saved: SavedView,
    origin: Seq<char>,
    name: Seq<char>,
    shipped: bool,
) -> bool {
    if saved.ports.contains_key(origin) && saved.ports[origin].contains_key(name) {
        saved.ports[origin][name]
    } else if saved.globals.contains_key(name) {
        saved.globals[name]
    } else {
        shipped
    }
}

/// A text without the spaces and tabs at its start.
pub open spec fn skip_blank(s: Seq<char>) -> Seq<char>
    decreases s.len(),
{
    if s.len() > 0 && (s[0] == ' ' || s[0] == '\t') {
        skip_blank(s.skip(1))
    } else {
        s
    }
}

/// A character of an assignment operator.
pub open spec fn is_assign(c: char) -> bool {
    c == '=' || c == '+' || c == ':' || c == '?'
}

/// A text without the assignment operator and the blanks at its start.
pub open spec fn skip_assign(s: Seq<char>) -> Seq<char>
    decreases s.len(),
{
    if s.len() > 0 && (is_assign(s[0]) || s[0] == ' ' || s[0] == '\t') {
        skip_assign(s.skip(1))
    } else {
        s
    }
}

/// What is assigned to a variable, given what follows its name.
pub open spec fn assigned(rest: Seq<char>) -> Option<Seq<char>> {
    let t = skip_blank(rest);
    if t.len() > 0 && is_assign(t[0]) {
        Some(skip_assign(t))
    } else {
        None
    }
}

/// What a line assigns to a variable, where it is an assignment to it.
pub open spec fn assigned_to(line: Seq<char>, name: Seq<char>) -> Option<Seq<char>> {
    match text::without_head(line, name) {
        Some(rest) => assigned(rest),
        None => None,
    }
}

/// A map with the first `n` names set to one state.
pub open spec fn with_states(
    m: Map<Seq<char>, bool>,
    names: Seq<Seq<char>>,
    n: int,
    on: bool,
) -> Map<Seq<char>, bool>
    decreases n,
{
    if n <= 0 {
        m
    } else {
        with_states(m, names, n - 1, on).insert(names[n - 1], on)
    }
}

/// A map with every word of a text set to one state.
pub open spec fn with_words(m: Map<Seq<char>, bool>, value: Seq<char>, on: bool) -> Map<
    Seq<char>,
    bool,
> {
    let names = text::words_of(value);
    with_states(m, names, names.len() as int, on)
}

/// Whether a line, without the white space at its ends, says nothing.
pub open spec fn is_silent(line: Seq<char>) -> bool {
    line.len() == 0 || line[0] == '#'
}

/// The overrides after one line of `make.conf`.
pub open spec fn conf_line(m: Map<Seq<char>, bool>, raw: Seq<char>) -> Map<Seq<char>, bool> {
    let line = text::trimmed(raw);
    if is_silent(line) {
        m
    } else {
        match assigned_to(line, "OPTIONS_SET"@) {
            Some(value) => with_words(m, value, true),
            None => match assigned_to(line, "OPTIONS_UNSET"@) {
                Some(value) => with_words(m, value, false),
                None => m,
            },
        }
    }
}

/// The overrides after the first `n` lines of `make.conf`.
pub open spec fn conf_lines(
    m: Map<Seq<char>, bool>,
    all: Seq<Seq<char>>,
    n: int,
) -> Map<Seq<char>, bool>
    decreases n,
{
    if n <= 0 {
        m
    } else {
        conf_line(conf_lines(m, all, n - 1), all[n - 1])
    }
}

/// The overrides after the text of `make.conf`.
pub open spec fn conf_read(m: Map<Seq<char>, bool>, content: Seq<char>) -> Map<Seq<char>, bool> {
    let all = text::lines_of(content);
    conf_lines(m, all, all.len() as int)
}

/// A text without a tail that it ends with.
pub open spec fn without_tail(s: Seq<char>, tail: Seq<char>) -> Option<Seq<char>> {
    if tail.len() <= s.len() && s.skip(s.len() - tail.len()) == tail {
        Some(s.take(s.len() - tail.len()))
    } else {
        None
    }
}

/// The option that a line of the form `<head>NAME=true` names.
pub open spec fn switched(line: Seq<char>, head: Seq<char>) -> Option<Seq<char>> {
    match text::without_head(line, head) {
        Some(rest) => match without_tail(rest, "=true"@) {
            Some(name) => Some(text::trimmed(name)),
            None => None,
        },
        None => None,
    }
}

/// The states after one line of an options file. The forms with `WITH_` and
/// `WITHOUT_` are older ones that still record what the user picked.
pub open spec fn file_line(m: Map<Seq<char>, bool>, raw: Seq<char>) -> Map<Seq<char>, bool> {
    let line = text::trimmed(raw);
    if is_silent(line) {
        m
    } else {
        match assigned_to(line, "OPTIONS_FILE_SET"@) {
            Some(value) => with_words(m, value, true),
            None => match assigned_to(line, "OPTIONS_FILE_UNSET"@) {
                Some(value) => with_words(m, value, false),
                None => match switched(line, "WITH_"@) {
                    Some(name) => m.insert(name, true),
                    None => match switched(line, "WITHOUT_"@) {
                        Some(name) => m.insert(name, false),
                        None => m,
                    },
                },
            },
        }
    }
}

/// The states after the first `n` lines of an options file.
pub open spec fn file_lines(all: Seq<Seq<char>>, n: int) -> Map<Seq<char>, bool>
    decreases n,
{
    if n <= 0 {
        Map::empty()
    } else {
        file_line(file_lines(all, n - 1), all[n - 1])
    }
}

/// The states that the text of an options file records.
pub open spec fn file_read(content: Seq<char>) -> Map<Seq<char>, bool> {
    let all = text::lines_of(content);
    file_lines(all, all.len() as int)
}

/// The origin that a folder of the options directory stands for: its first
/// underscore is the slash.
pub open spec fn folder_origin(folder: Seq<char>) -> Option<Seq<char>> {
    match text::split_once_of(folder, '_') {
        Some((category, port)) => Some(category + "/"@ + port),
        None => None,
    }
}

/// What is saved with the options file of one folder read.
pub open spec fn with_file(saved: SavedView, folder: Seq<char>, content: Seq<char>) -> SavedView {
    match folder_origin(folder) {
        Some(origin) => {
            let states = file_read(content);
            if states.is_empty() {
                saved
            } else {
                SavedView { ports: saved.ports.insert(origin, states), ..saved }
            }
        },
        None => saved,
    }
}

/// Strips the assignment operator following a variable name, leaving the
/// whitespace-separated values. Returns `None` when what follows the name is
/// not an assignment, so that `OPTIONS_SET_FORCE=...` is not mistaken for
/// `OPTIONS_SET`.
pub fn assignment_values(rest: &str) -> (r: Option<String>)
    ensures
        text::opt_text(r) == assigned(rest@),
{
    let v = text::chars_of(rest);
    let mut i: usize = 0;
    proof {
        assert(rest@.skip(0) =~= rest@);
    }
    while i < v.len() && (v[i] == ' ' || v[i] == '\t')
        invariant
            i <= v@.len(),
            v@ == rest@,
            skip_blank(rest@) == skip_blank(rest@.skip(i as int)),
        decreases v@.len() - i,
    {
        proof {
            assert(rest@.skip(i as int)[0] == v@[i as int]);
            assert(rest@.skip(i as int).skip(1) =~= rest@.skip(i + 1));
        }
        i += 1;
    }
    let ghost t = rest@.skip(i as int);
    proof {
        if i < v@.len() {
            assert(t[0] == v@[i as int]);
        }
        assert(skip_blank(rest@) == t);
    }
    if i >= v.len() || !(v[i] == '=' || v[i] == '+' || v[i] == ':' || v[i] == '?') {
        return None;
    }
    while i < v.len() && (v[i] == '=' || v[i] == '+' || v[i] == ':' || v[i] == '?' || v[i] == ' '
        || v[i] == '\t')
        invariant
            i <= v@.len(),
            v@ == rest@,
            skip_assign(t) == skip_assign(rest@.skip(i as int)),
        decreases v@.len() - i,
    {
        proof {
            assert(rest@.skip(i as int)[0] == v@[i as int]);
            assert(rest@.skip(i as int).skip(1) =~= rest@.skip(i + 1));
        }
        i += 1;
    }
    let w = text::slice_of(v.as_slice(), i, v.len());
    proof {
        assert(w@ =~= rest@.skip(i as int));
        if i < v@.len() {
            assert(rest@.skip(i as int)[0] == v@[i as int]);
        }
    }
    Some(text::string_of(w.as_slice()))
}

/// What a line assigns to a variable, where it is an assignment to it.
fn assignment_to(line: &str, name: &str) -> (r: Option<String>)
    ensures
        text::opt_text(r) == assigned_to(line@, name@),
{
    match strip_head(line, name) {
        Some(rest) => assignment_values(rest.as_str()),
        None => None,
    }
}

/// Sets every word of a text to one state.
fn set_words(m: &mut StringHashMap<bool>, value: &str, on: bool)
    ensures
        final(m)@ == with_words(old(m)@, value@, on),
{
    let names = words(value);
    let ghost all = text::texts(names@);
    let mut n: usize = 0;
    while n < names.len()
        invariant
            n <= names@.len(),
            all == text::texts(names@),
            m@ == with_states(old(m)@, all, n as int, on),
        decreases names@.len() - n,
    {
        m.insert(names[n].clone(), on);
        n += 1;
    }
}

/// Whether a line, without the white space at its ends, says nothing.
fn says_nothing(line: &str) -> (r: bool)
    ensures
        r == is_silent(line@),
{
    let v = text::chars_of(line);
    v.len() == 0 || v[0] == '#'
}

/// A text without a tail that it ends with.
fn strip_tail(s: &str, tail: &str) -> (r: Option<String>)
    ensures
        text::opt_text(r) == without_tail(s@, tail@),
{
    let v = text::chars_of(s);
    let t = text::chars_of(tail);
    if t.len() > v.len() {
        return None;
    }
    let at: usize = v.len() - t.len();
    let end = text::slice_of(v.as_slice(), at, v.len());
    proof {
        assert(end@ =~= s@.skip(at as int));
    }
    let end_text = text::string_of(end.as_slice());
    if !same(end_text.as_str(), tail) {
        return None;
    }
    let head = text::slice_of(v.as_slice(), 0, at);
    proof {
        assert(head@ =~= s@.take(at as int));
    }
    Some(text::string_of(head.as_slice()))
}

/// The option that a line of the form `<head>NAME=true` names.
fn switch_name(line: &str, head: &str) -> (r: Option<String>)
    ensures
        text::opt_text(r) == switched(line@, head@),
{
    match strip_head(line, head) {
        Some(rest) => match strip_tail(rest.as_str(), "=true") {
            Some(name) => Some(trim(name.as_str())),
            None => None,
        },
        None => None,
    }
}

/// The states that the text of an options file records.
pub fn read_options_file(content: &str) -> (r: StringHashMap<bool>)
    ensures
        r@ == file_read(content@),
{
    let all = lines(content);
    let ghost av = text::texts(all@);
    let mut m: StringHashMap<bool> = StringHashMap::new();
    let mut n: usize = 0;
    while n < all.len()
        invariant
            n <= all@.len(),
            av == text::texts(all@),
            m@ == file_lines(av, n as int),
        decreases all@.len() - n,
    {
        proof {
            assert(av[n as int] == all@[n as int]@);
        }
        let line = trim(all[n].as_str());
        if !says_nothing(line.as_str()) {
            if let Some(value) = assignment_to(line.as_str(), "OPTIONS_FILE_SET") {
                set_words(&mut m, value.as_str(), true);
            } else if let Some(value) = assignment_to(line.as_str(), "OPTIONS_FILE_UNSET") {
                set_words(&mut m, value.as_str(), false);
            } else if let Some(name) = switch_name(line.as_str(), "WITH_") {
                m.insert(name, true);
            } else if let Some(name) = switch_name(line.as_str(), "WITHOUT_") {
                m.insert(name, false);
            }
        }
        n += 1;
    }
    m
}

/// The origin that a folder of the options directory stands for.
pub fn origin_of_folder(folder: &str) -> (r: Option<String>)
    ensures
        text::opt_text(r) == folder_origin(folder@),
{
    match text::split_once(folder, '_') {
        Some((category, port)) => Some(text::concat3(category.as_str(), "/", port.as_str())),
        None => None,
    }
}

impl Default for SystemOptions {
    fn default() -> (r: Self)
        ensures
            r@ == nothing_saved(),
    {
        let r = SystemOptions {
            port_overrides: StringHashMap::new(),
            global_overrides: StringHashMap::new(),
        };
        proof {
            assert(r@.ports =~= Map::empty());
        }
        r
    }
}

/// The state of a system that has saved nothing.
pub open spec fn nothing_saved() -> SavedView {
    SavedView { ports: Map::empty(), globals: Map::empty() }
}

impl SystemOptions {
    /// Reads the global overrides out of the text of `make.conf`.
    pub fn read_make_conf(&mut self, content: &str)
        ensures
            final(self)@ == (SavedView {
                globals: conf_read(old(self)@.globals, content@),
                ..old(self)@
            }),
    {
        let all = lines(content);
        let ghost av = text::texts(all@);
        let ghost m0 = self@.globals;
        let mut n: usize = 0;
        while n < all.len()
            invariant
                n <= all@.len(),
                av == text::texts(all@),
                self@ == (SavedView { globals: conf_lines(m0, av, n as int), ..old(self)@ }),
            decreases all@.len() - n,
        {
            proof {
                assert(av[n as int] == all@[n as int]@);
            }
            let line = trim(all[n].as_str());
            if !says_nothing(line.as_str()) {
                if let Some(value) = assignment_to(line.as_str(), "OPTIONS_SET") {
                    set_words(&mut self.global_overrides, value.as_str(), true);
                } else if let Some(value) = assignment_to(line.as_str(), "OPTIONS_UNSET") {
                    set_words(&mut self.global_overrides, value.as_str(), false);
                }
            }
            n += 1;
        }
    }

    /// Reads the options file of one folder of the options directory.
    pub fn read_port_file(&mut self, folder: &str, content: &str)
        ensures
            final(self)@ == with_file(old(self)@, folder@, content@),
    {
        if let Some(origin) = origin_of_folder(folder) {
            let states = read_options_file(content);
            if !states.is_empty() {
                let ghost before = self@.ports;
                let ghost sv = states@;
                let ghost o = origin@;
                self.port_overrides.insert(origin, states);
                proof {
                    assert(self@.ports =~= before.insert(o, sv));
                }
            }
        }
    }

    /// The state of an option: what is saved for its port, else what is saved
    /// for every port, else what the port ships.
    pub fn get_state(&self, origin: &str, opt_name: &str, default_state: bool) -> (r: bool)
        ensures
            r == state_of(self@, origin@, opt_name@, default_state),
    {
        if let Some(opts) = self.port_overrides.get(origin) {
            if let Some(state) = opts.get(opt_name) {
                return *state;
            }
        }
        if let Some(state) = self.global_overrides.get(opt_name) {
            return *state;
        }
        default_state
    }
}

/// A text made of assignment operators and blanks, such as ` += `, with an
/// operator in it.
pub open spec fn is_operator(op: Seq<char>) -> bool {
    &&& forall|i: int|
        0 <= i < op.len() ==> #[trigger] op[i] == '=' || op[i] == '+' || op[i] == ':' || op[i]
            == '?' || op[i] == ' ' || op[i] == '\t'
    &&& exists|i: int|
        0 <= i < op.len() && (#[trigger] op[i] == '=' || op[i] == '+' || op[i] == ':' || op[i]
            == '?')
}

/// A value does not start with what an operator is made of.
pub open spec fn is_value(value: Seq<char>) -> bool {
    value.len() > 0 ==> value[0] != '=' && value[0] != '+' && value[0] != ':' && value[0] != '?'
        && value[0] != ' ' && value[0] != '\t'
}

proof fn lemma_assign_skipped(op: Seq<char>, value: Seq<char>)
    requires
        is_value(value),
        forall|i: int|
            0 <= i < op.len() ==> is_assign(#[trigger] op[i]) || op[i] == ' ' || op[i] == '\t',
    ensures
        skip_assign(op + value) == value,
    decreases op.len(),
{
    let s = op + value;
    if op.len() > 0 {
        assert(s[0] == op[0]);
        assert(s.skip(1) =~= op.skip(1) + value);
        assert forall|i: int| 0 <= i < op.skip(1).len() implies is_assign(
            #[trigger] op.skip(1)[i],
        ) || op.skip(1)[i] == ' ' || op.skip(1)[i] == '\t' by {
            assert(op.skip(1)[i] == op[i + 1]);
        }
        lemma_assign_skipped(op.skip(1), value);
    } else {
        assert(s =~= value);
    }
}

proof fn lemma_assigned(op: Seq<char>, value: Seq<char>)
    requires
        is_operator(op),
        is_value(value),
    ensures
        assigned(op + value) == Some(value),
    decreases op.len(),
{
    let s = op + value;
    let k = choose|i: int|
        0 <= i < op.len() && (#[trigger] op[i] == '=' || op[i] == '+' || op[i] == ':' || op[i]
            == '?');
    assert(s[0] == op[0]);
    if op[0] == ' ' || op[0] == '\t' {
        let t = op.skip(1);
        assert(t[k - 1] == op[k]);
        assert forall|i: int| 0 <= i < t.len() implies #[trigger] t[i] == '=' || t[i] == '+' || t[i]
            == ':' || t[i] == '?' || t[i] == ' ' || t[i] == '\t' by {
            assert(t[i] == op[i + 1]);
        }
        assert(s.skip(1) =~= t + value);
        lemma_assigned(t, value);
        assert(skip_blank(s) == skip_blank(t + value));
    } else {
        assert(skip_blank(s) == s);
        lemma_assign_skipped(op, value);
    }
}

/// A line that starts with a key goes on behind it.
proof fn lemma_headed(key: Seq<char>, rest: Seq<char>)
    ensures
        text::without_head(key + rest, key) == Some(rest),
{
    assert((key + rest).take(key.len() as int) =~= key);
    assert((key + rest).skip(key.len() as int) =~= rest);
}

/// Setting names sets each of them, and no other.
proof fn lemma_states_set(m: Map<Seq<char>, bool>, names: Seq<Seq<char>>, n: int, on: bool, x: Seq<char>)
    requires
        0 <= n <= names.len(),
    ensures
        names.take(n).contains(x) ==> with_states(m, names, n, on).contains_key(x) && with_states(
            m,
            names,
            n,
            on,
        )[x] == on,
        !names.take(n).contains(x) ==> with_states(m, names, n, on).contains_key(x)
            == m.contains_key(x) && with_states(m, names, n, on)[x] == m[x],
    decreases n,
{
    if n > 0 {
        lemma_states_set(m, names, n - 1, on, x);
        assert(names.take(n).drop_last() =~= names.take(n - 1));
        crate::order::lemma_contains_last(names.take(n), x);
    } else {
        assert(names.take(n) =~= seq![]);
    }
}

proof fn lemma_words_set(m: Map<Seq<char>, bool>, value: Seq<char>, on: bool, x: Seq<char>)
    ensures
        text::words_of(value).contains(x) ==> with_words(m, value, on).contains_key(x)
            && with_words(m, value, on)[x] == on,
        !text::words_of(value).contains(x) ==> with_words(m, value, on).contains_key(x)
            == m.contains_key(x) && with_words(m, value, on)[x] == m[x],
{
    let names = text::words_of(value);
    lemma_states_set(m, names, names.len() as int, on, x);
    assert(names.take(names.len() as int) =~= names);
}

/// Every name of a list, and no other, is in one state in `after`; the others
/// are as they were in `before`.
pub open spec fn records_all(
    before: Map<Seq<char>, bool>,
    after: Map<Seq<char>, bool>,
    names: Seq<Seq<char>>,
    on: bool,
) -> bool {
    forall|x: Seq<char>|
        #![trigger after.contains_key(x)]
        #![trigger names.contains(x)]
        if names.contains(x) {
            after.contains_key(x) && after[x] == on
        } else {
            after.contains_key(x) == before.contains_key(x) && after[x] == before[x]
        }
}

/// A line of `make.conf` that assigns words to `OPTIONS_SET` records every one
/// of them as set, and one that assigns them to `OPTIONS_UNSET` every one as not
/// set; all other names stay as they were.
pub proof fn a_conf_line_records_every_word(
    m: Map<Seq<char>, bool>,
    raw: Seq<char>,
    op: Seq<char>,
    value: Seq<char>,
    on: bool,
)
    requires
        is_operator(op),
        is_value(value),
        text::trimmed(raw) == if on {
            "OPTIONS_SET"@
        } else {
            "OPTIONS_UNSET"@
        } + op + value,
    ensures
        records_all(m, conf_line(m, raw), text::words_of(value), on),
{
    reveal_strlit("OPTIONS_SET");
    reveal_strlit("OPTIONS_UNSET");
    let key = if on {
        "OPTIONS_SET"@
    } else {
        "OPTIONS_UNSET"@
    };
    let line = text::trimmed(raw);
    assert(line =~= key + (op + value));
    lemma_headed(key, op + value);
    lemma_assigned(op, value);
    assert(line[0] == 'O' && line[8] == key[8]);
    if !on {
        assert(line.take(11)[8] == 'U');
        assert("OPTIONS_SET"@[8] == 'S');
        assert(text::without_head(line, "OPTIONS_SET"@) is None);
    }
    assert(conf_line(m, raw) == with_words(m, value, on));
    assert forall|x: Seq<char>|
        #![trigger conf_line(m, raw).contains_key(x)]
        #![trigger text::words_of(value).contains(x)]
        if text::words_of(value).contains(x) {
            conf_line(m, raw).contains_key(x) && conf_line(m, raw)[x] == on
        } else {
            conf_line(m, raw).contains_key(x) == m.contains_key(x) && conf_line(m, raw)[x] == m[x]
        } by {
        lemma_words_set(m, value, on, x);
    }
}

/// A line of an options file that assigns words to `OPTIONS_FILE_SET` records
/// every one of them as set, and one that assigns them to `OPTIONS_FILE_UNSET`
/// every one as not set; all other names stay as they were.
pub proof fn a_file_line_records_every_word(
    m: Map<Seq<char>, bool>,
    raw: Seq<char>,
    op: Seq<char>,
    value: Seq<char>,
    on: bool,
)
    requires
        is_operator(op),
        is_value(value),
        text::trimmed(raw) == if on {
            "OPTIONS_FILE_SET"@
        } else {
            "OPTIONS_FILE_UNSET"@
        } + op + value,
    ensures
        records_all(m, file_line(m, raw), text::words_of(value), on),
{
    reveal_strlit("OPTIONS_FILE_SET");
    reveal_strlit("OPTIONS_FILE_UNSET");
    let key = if on {
        "OPTIONS_FILE_SET"@
    } else {
        "OPTIONS_FILE_UNSET"@
    };
    let line = text::trimmed(raw);
    assert(line =~= key + (op + value));
    lemma_headed(key, op + value);
    lemma_assigned(op, value);
    assert(line[0] == 'O' && line[13] == key[13]);
    if !on {
        assert(line.take(16)[13] == 'U');
        assert("OPTIONS_FILE_SET"@[13] == 'S');
        assert(text::without_head(line, "OPTIONS_FILE_SET"@) is None);
    }
    assert(file_line(m, raw) == with_words(m, value, on));
    assert forall|x: Seq<char>|
        #![trigger file_line(m, raw).contains_key(x)]
        #![trigger text::words_of(value).contains(x)]
        if text::words_of(value).contains(x) {
            file_line(m, raw).contains_key(x) && file_line(m, raw)[x] == on
        } else {
            file_line(m, raw).contains_key(x) == m.contains_key(x) && file_line(m, raw)[x] == m[x]
        } by {
        lemma_words_set(m, value, on, x);
    }
}

/// Whether a line assigns to a variable, and a name is among the words assigned.
pub open spec fn assigns(raw: Seq<char>, key: Seq<char>, name: Seq<char>) -> bool {
    exists|op: Seq<char>, value: Seq<char>|
        #![trigger key + op + value]
        is_operator(op) && is_value(value) && text::trimmed(raw) == key + op + value
            && text::words_of(value).contains(name)
}

proof fn lemma_skip_assign(t: Seq<char>) -> (k: int)
    ensures
        0 <= k <= t.len(),
        skip_assign(t) == t.skip(k),
        is_value(t.skip(k)),
        forall|i: int|
            0 <= i < k ==> is_assign(#[trigger] t[i]) || t[i] == ' ' || t[i] == '\t',
        t.len() > 0 && is_assign(t[0]) ==> k > 0,
    decreases t.len(),
{
    if t.len() > 0 && (is_assign(t[0]) || t[0] == ' ' || t[0] == '\t') {
        let k = lemma_skip_assign(t.skip(1));
        assert(t.skip(1).skip(k) =~= t.skip(k + 1));
        assert forall|i: int| 0 <= i < k + 1 implies is_assign(#[trigger] t[i]) || t[i] == ' '
            || t[i] == '\t' by {
            if i > 0 {
                assert(t.skip(1)[i - 1] == t[i]);
            }
        }
        k + 1
    } else {
        assert(t.skip(0) =~= t);
        0
    }
}

proof fn lemma_skip_blank(t: Seq<char>) -> (k: int)
    ensures
        0 <= k <= t.len(),
        skip_blank(t) == t.skip(k),
        forall|i: int| 0 <= i < k ==> #[trigger] t[i] == ' ' || t[i] == '\t',
    decreases t.len(),
{
    if t.len() > 0 && (t[0] == ' ' || t[0] == '\t') {
        let k = lemma_skip_blank(t.skip(1));
        assert(t.skip(1).skip(k) =~= t.skip(k + 1));
        assert forall|i: int| 0 <= i < k + 1 implies #[trigger] t[i] == ' ' || t[i] == '\t' by {
            if i > 0 {
                assert(t.skip(1)[i - 1] == t[i]);
            }
        }
        k + 1
    } else {
        assert(t.skip(0) =~= t);
        0
    }
}

/// What is assigned to a variable stands behind an operator.
proof fn lemma_assigns(raw: Seq<char>, key: Seq<char>, name: Seq<char>)
    ensures
        assigned_to(text::trimmed(raw), key) matches Some(value) && text::words_of(value).contains(
            name,
        ) ==> assigns(raw, key, name),
{
    let line = text::trimmed(raw);
    if let Some(value) = assigned_to(line, key) {
        let rest = text::without_head(line, key)->0;
        assert(line =~= key + rest);
        let a = lemma_skip_blank(rest);
        let t = rest.skip(a);
        let b = lemma_skip_assign(t);
        let op = rest.take(a + b);
        assert(t[0] == rest[a]);
        assert(op[a] == rest[a]);
        assert forall|i: int| 0 <= i < op.len() implies #[trigger] op[i] == '=' || op[i] == '+'
            || op[i] == ':' || op[i] == '?' || op[i] == ' ' || op[i] == '\t' by {
            assert(op[i] == rest[i]);
            if i >= a {
                assert(t[i - a] == rest[i]);
            }
        }
        assert(value == t.skip(b));
        assert(rest =~= op + value);
        assert(line =~= key + op + value);
        if text::words_of(value).contains(name) {
            assert(is_operator(op) && is_value(value) && line == key + op + value);
        }
    }
}

proof fn lemma_conf_last(
    m: Map<Seq<char>, bool>,
    all: Seq<Seq<char>>,
    i: int,
    n: int,
    name: Seq<char>,
    on: bool,
)
    requires
        0 <= i < n <= all.len(),
        assigns(
            all[i],
            if on {
                "OPTIONS_SET"@
            } else {
                "OPTIONS_UNSET"@
            },
            name,
        ),
        forall|j: int|
            i < j < n ==> !assigns(#[trigger] all[j], "OPTIONS_SET"@, name) && !assigns(
                all[j],
                "OPTIONS_UNSET"@,
                name,
            ),
    ensures
        conf_lines(m, all, n).contains_key(name),
        conf_lines(m, all, n)[name] == on,
    decreases n,
{
    let before = conf_lines(m, all, n - 1);
    if i == n - 1 {
        let key = if on {
            "OPTIONS_SET"@
        } else {
            "OPTIONS_UNSET"@
        };
        let (op, value) = choose|op: Seq<char>, value: Seq<char>|
            #![trigger key + op + value]
            is_operator(op) && is_value(value) && text::trimmed(all[i]) == key + op + value
                && text::words_of(value).contains(name);
        a_conf_line_records_every_word(before, all[i], op, value, on);
        assert(text::words_of(value).contains(name));
    } else {
        lemma_conf_last(m, all, i, n - 1, name, on);
        let line = text::trimmed(all[n - 1]);
        lemma_assigns(all[n - 1], "OPTIONS_SET"@, name);
        lemma_assigns(all[n - 1], "OPTIONS_UNSET"@, name);
        assert(!assigns(all[n - 1], "OPTIONS_SET"@, name));
        if let Some(value) = assigned_to(line, "OPTIONS_SET"@) {
            lemma_words_set(before, value, true, name);
        } else if let Some(value) = assigned_to(line, "OPTIONS_UNSET"@) {
            lemma_words_set(before, value, false, name);
        }
    }
}

/// Every line of `make.conf` counts, and the last that names an option decides:
/// an option that a line sets, or unsets, and no later line names is globally
/// set, or unset.
pub proof fn the_last_conf_line_decides(
    m: Map<Seq<char>, bool>,
    content: Seq<char>,
    i: int,
    name: Seq<char>,
    on: bool,
)
    requires
        0 <= i < text::lines_of(content).len(),
        assigns(
            text::lines_of(content)[i],
            if on {
                "OPTIONS_SET"@
            } else {
                "OPTIONS_UNSET"@
            },
            name,
        ),
        forall|j: int|
            i < j < text::lines_of(content).len() ==> !assigns(
                #[trigger] text::lines_of(content)[j],
                "OPTIONS_SET"@,
                name,
            ) && !assigns(text::lines_of(content)[j], "OPTIONS_UNSET"@, name),
    ensures
        conf_read(m, content).contains_key(name),
        conf_read(m, content)[name] == on,
{
    let all = text::lines_of(content);
    lemma_conf_last(m, all, i, all.len() as int, name, on);
}

/// Whether a line of an options file is of the older form that sets, or unsets,
/// one option.
pub open spec fn switches(raw: Seq<char>, name: Seq<char>, on: bool) -> bool {
    exists|inner: Seq<char>|
        #![trigger text::trimmed(inner)]
        name == text::trimmed(inner) && text::trimmed(raw) == if on {
            "WITH_"@
        } else {
            "WITHOUT_"@
        } + inner + "=true"@
}

/// Whether a line of an options file names an option.
pub open spec fn names_it(raw: Seq<char>, name: Seq<char>) -> bool {
    ||| assigns(raw, "OPTIONS_FILE_SET"@, name)
    ||| assigns(raw, "OPTIONS_FILE_UNSET"@, name)
    ||| switches(raw, name, true)
    ||| switches(raw, name, false)
}

proof fn lemma_switches(raw: Seq<char>, on: bool, name: Seq<char>)
    ensures
        switched(
            text::trimmed(raw),
            if on {
                "WITH_"@
            } else {
                "WITHOUT_"@
            },
        ) == Some(name) ==> switches(raw, name, on),
{
    let head = if on {
        "WITH_"@
    } else {
        "WITHOUT_"@
    };
    let line = text::trimmed(raw);
    if switched(line, head) == Some(name) {
        let rest = text::without_head(line, head)->0;
        let inner = without_tail(rest, "=true"@)->0;
        assert(line =~= head + rest);
        assert(rest =~= inner + "=true"@);
        assert(line =~= head + inner + "=true"@);
        assert(name == text::trimmed(inner));
    }
}

/// The line of the older form that sets, or unsets, one option records that.
pub proof fn a_switch_line_records_its_option(
    m: Map<Seq<char>, bool>,
    raw: Seq<char>,
    inner: Seq<char>,
    on: bool,
)
    requires
        text::trimmed(raw) == if on {
            "WITH_"@
        } else {
            "WITHOUT_"@
        } + inner + "=true"@,
    ensures
        file_line(m, raw) == m.insert(text::trimmed(inner), on),
{
    reveal_strlit("WITH_");
    reveal_strlit("WITHOUT_");
    reveal_strlit("OPTIONS_FILE_SET");
    reveal_strlit("OPTIONS_FILE_UNSET");
    let head = if on {
        "WITH_"@
    } else {
        "WITHOUT_"@
    };
    let tail = "=true"@;
    let line = text::trimmed(raw);
    assert(line =~= head + (inner + tail));
    lemma_headed(head, inner + tail);
    assert((inner + tail).skip(inner.len() as int) =~= tail);
    assert((inner + tail).take(inner.len() as int) =~= inner);
    assert(line[0] == 'W');
    if line.len() >= 16 {
        assert(line.take(16)[0] == 'W');
        assert("OPTIONS_FILE_SET"@[0] == 'O');
    }
    assert(text::without_head(line, "OPTIONS_FILE_SET"@) is None);
    if line.len() >= 18 {
        assert(line.take(18)[0] == 'W');
        assert("OPTIONS_FILE_UNSET"@[0] == 'O');
    }
    assert(text::without_head(line, "OPTIONS_FILE_UNSET"@) is None);
    if !on {
        assert(line[4] == 'O');
        assert(line.take(5)[4] == 'O');
        assert("WITH_"@[4] == '_');
        assert(text::without_head(line, "WITH_"@) is None);
    }
}

proof fn lemma_file_last(all: Seq<Seq<char>>, i: int, n: int, name: Seq<char>, on: bool)
    requires
        0 <= i < n <= all.len(),
        switches(all[i], name, on) || assigns(
            all[i],
            if on {
                "OPTIONS_FILE_SET"@
            } else {
                "OPTIONS_FILE_UNSET"@
            },
            name,
        ),
        forall|j: int| i < j < n ==> !names_it(#[trigger] all[j], name),
    ensures
        file_lines(all, n).contains_key(name),
        file_lines(all, n)[name] == on,
    decreases n,
{
    let before = file_lines(all, n - 1);
    let key = if on {
        "OPTIONS_FILE_SET"@
    } else {
        "OPTIONS_FILE_UNSET"@
    };
    if i == n - 1 {
        if switches(all[i], name, on) {
            let inner = choose|inner: Seq<char>|
                #![trigger text::trimmed(inner)]
                name == text::trimmed(inner) && text::trimmed(all[i]) == if on {
                    "WITH_"@
                } else {
                    "WITHOUT_"@
                } + inner + "=true"@;
            a_switch_line_records_its_option(before, all[i], inner, on);
        } else {
            let (op, value) = choose|op: Seq<char>, value: Seq<char>|
                #![trigger key + op + value]
                is_operator(op) && is_value(value) && text::trimmed(all[i]) == key + op + value
                    && text::words_of(value).contains(name);
            a_file_line_records_every_word(before, all[i], op, value, on);
            assert(text::words_of(value).contains(name));
        }
    } else {
        lemma_file_last(all, i, n - 1, name, on);
        let raw = all[n - 1];
        let line = text::trimmed(raw);
        lemma_assigns(raw, "OPTIONS_FILE_SET"@, name);
        lemma_assigns(raw, "OPTIONS_FILE_UNSET"@, name);
        lemma_switches(raw, true, name);
        lemma_switches(raw, false, name);
        assert(!names_it(raw, name));
        if let Some(value) = assigned_to(line, "OPTIONS_FILE_SET"@) {
            lemma_words_set(before, value, true, name);
        } else if let Some(value) = assigned_to(line, "OPTIONS_FILE_UNSET"@) {
            lemma_words_set(before, value, false, name);
        }
    }
}

/// Every line of an options file counts, and the last that names an option
/// decides, in whichever form: an option that a line sets, or unsets, and no
/// later line names is recorded as set, or unset, for the port whose folder the
/// file is in.
pub proof fn the_last_file_line_decides(
    saved: SavedView,
    category: Seq<char>,
    port: Seq<char>,
    content: Seq<char>,
    i: int,
    name: Seq<char>,
    on: bool,
    shipped: bool,
)
    requires
        !category.contains('_'),
        0 <= i < text::lines_of(content).len(),
        switches(text::lines_of(content)[i], name, on) || assigns(
            text::lines_of(content)[i],
            if on {
                "OPTIONS_FILE_SET"@
            } else {
                "OPTIONS_FILE_UNSET"@
            },
            name,
        ),
        forall|j: int|
            i < j < text::lines_of(content).len() ==> !names_it(
                #[trigger] text::lines_of(content)[j],
                name,
            ),
    ensures
        file_read(content).contains_key(name),
        file_read(content)[name] == on,
        state_of(
            with_file(saved, category.push('_') + port, content),
            category + "/"@ + port,
            name,
            shipped,
        ) == on,
{
    let all = text::lines_of(content);
    lemma_file_last(all, i, all.len() as int, name, on);
    text::parts_come_apart(category, '_', port);
    assert(!file_read(content).is_empty());
}

/// What is saved for a port outranks what is saved for every port, which
/// outranks what the port ships.
pub proof fn what_is_saved_outranks_what_is_shipped(
    saved: SavedView,
    origin: Seq<char>,
    name: Seq<char>,
    shipped: bool,
)
    ensures
        saved.ports.contains_key(origin) && saved.ports[origin].contains_key(name) ==> state_of(
            saved,
            origin,
            name,
            shipped,
        ) == saved.ports[origin][name],
        !(saved.ports.contains_key(origin) && saved.ports[origin].contains_key(name))
            && saved.globals.contains_key(name) ==> state_of(saved, origin, name, shipped)
            == saved.globals[name],
        !(saved.ports.contains_key(origin) && saved.ports[origin].contains_key(name))
            && !saved.globals.contains_key(name) ==> state_of(saved, origin, name, shipped)
            == shipped,
{
}

} // verus!
