//! What gets written: an options file for each port of the build, and the
//! managed block of `make.conf`.
use crate::graph;
use crate::graph::live;
use crate::graph::{DependencyGraph, GraphView, OptionView};
use crate::order;
use crate::order::Ordered;
use crate::text;
use crate::text::{raw_lines, same, trim, unlines};
use vstd::prelude::*;

verus! {

/// How much an export wrote.
#[derive(Debug, Clone, Copy, PartialEq, Eq, Structural)]
pub struct ExporterStats {
    pub files_written: usize,
    pub options_saved: usize,
}

/// One options file to write.
pub struct OptionsFile {
    /// The folder under the options directory that the file goes into.
    pub folder: String,
    pub content: String,
    /// How many options the file holds.
    pub count: usize,
}

/// What an `OptionsFile` says.
pub struct FileView {
    pub folder: Seq<char>,
    pub content: Seq<char>,
    pub count: nat,
}

impl View for OptionsFile {
    type V = FileView;

    open spec fn view(&self) -> FileView {
        FileView { folder: self.folder@, content: self.content@, count: self.count as nat }
    }
}

/// Whether a line opens the managed block.
pub open spec fn is_begin(line: Seq<char>) -> bool {
    text::trimmed(line) == "# BEGIN bgone"@
}

/// Whether a line closes the managed block.
pub open spec fn is_end(line: Seq<char>) -> bool {
    text::trimmed(line) == "# END bgone"@
}

/// What is known of a file up to a line: the lines that are the user's, how
/// many of them stand before the first managed block, and whether the line is
/// inside one.
pub struct Sifted {
    pub kept: Seq<Seq<char>>,
    pub at: Option<int>,
    pub inside: bool,
}

/// What one line more tells. A block that never closes reaches to the end of
/// the file.
pub open spec fn sift_line(f: Sifted, line: Seq<char>) -> Sifted {
    if is_begin(line) {
        Sifted {
            at: if f.at is None {
                Some(f.kept.len() as int)
            } else {
                f.at
            },
            inside: true,
            ..f
        }
    } else if f.inside {
        Sifted { inside: !is_end(line), ..f }
    } else {
        Sifted { kept: f.kept.push(line), ..f }
    }
}

/// What lines tell, behind what is known already.
pub open spec fn sift(f: Sifted, lines: Seq<Seq<char>>) -> Sifted
    decreases lines.len(),
{
    if lines.len() == 0 {
        f
    } else {
        sift_line(sift(f, lines.drop_last()), lines.last())
    }
}

/// What is known before the first line.
pub open spec fn unsifted() -> Sifted {
    Sifted { kept: seq![], at: None, inside: false }
}

/// What the lines of a file tell.
pub open spec fn sifted(lines: Seq<Seq<char>>) -> Sifted {
    sift(unsifted(), lines)
}

/// The blank line that parts the user's lines from a block appended to them.
pub open spec fn parting(kept: Seq<Seq<char>>) -> Seq<Seq<char>> {
    if kept.len() > 0 && text::trimmed(kept.last()).len() > 0 {
        seq![seq![]]
    } else {
        seq![]
    }
}

/// The lines of a file with its managed block replaced: in place of the first
/// one, or behind everything where there is none.
pub open spec fn spliced_lines(existing: Seq<Seq<char>>, block: Seq<Seq<char>>) -> Seq<Seq<char>> {
    let f = sifted(existing);
    match f.at {
        Some(a) => f.kept.take(a) + block + f.kept.skip(a),
        None => f.kept + parting(f.kept) + block,
    }
}

/// A file with its managed block replaced.
pub open spec fn spliced(existing: Seq<char>, block: Seq<char>) -> Seq<char> {
    let lines = spliced_lines(text::raw_lines_of(existing), text::raw_lines_of(block));
    if lines.len() == 0 {
        seq!['\n']
    } else {
        text::unlined(lines)
    }
}

/// Replaces the managed block in `existing` with `block`, appending one if none
/// is there. `block` runs sentinel to sentinel inclusive.
///
/// Every block found is removed and the replacement spliced where the first
/// stood. A `BEGIN` with no `END` swallows to end of file. Output always ends
/// in a newline; a final line without one gains it, which is the one byte-level
/// liberty taken with the user's content.
pub fn splice_managed_block(existing: &str, block: &str) -> (r: String)
    ensures
        r@ == spliced(existing@, block@),
{
    broadcast use text::lemma_texts_push;

    let all = raw_lines(existing);
    let block_lines = raw_lines(block);
    let ghost av = text::texts(all@);
    let ghost bv = text::texts(block_lines@);
    let mut kept: Vec<String> = Vec::new();
    let mut at: Option<usize> = None;
    let mut inside = false;
    let mut i: usize = 0;
    let ghost mut f = unsifted();
    proof {
        assert(text::texts(kept@) =~= seq![]);
        assert(av.take(0) =~= seq![]);
    }
    while i < all.len()
        invariant
            i <= all@.len(),
            av == text::texts(all@),
            f == sift(unsifted(), av.take(i as int)),
            f.kept == text::texts(kept@),
            f.inside == inside,
            match at {
                Some(a) => f.at == Some(a as int) && a <= kept@.len(),
                None => f.at is None,
            },
        decreases all@.len() - i,
    {
        proof {
            assert(av.take(i + 1).drop_last() =~= av.take(i as int));
            assert(av.take(i + 1).last() == all@[i as int]@);
            f = sift_line(f, all@[i as int]@);
        }
        let trimmed = trim(all[i].as_str());
        if same(trimmed.as_str(), "# BEGIN bgone") {
            if at.is_none() {
                at = Some(kept.len());
            }
            inside = true;
        } else if inside {
            if same(trimmed.as_str(), "# END bgone") {
                inside = false;
            }
        } else {
            kept.push(all[i].clone());
        }
        i += 1;
    }
    proof {
        assert(av.take(av.len() as int) =~= av);
    }
    let ghost kv = text::texts(kept@);
    let n: usize = kept.len();
    let head: usize = match at {
        Some(a) => a,
        None => n,
    };
    let mut out = copy_range(&kept, 0, head);
    proof {
        assert(kv.subrange(0, head as int) =~= kv.take(head as int));
        assert(kv.take(n as int) =~= kv);
    }
    if at.is_none() && n > 0 {
        let last = trim(kept[n - 1].as_str());
        if !last.as_str().is_empty() {
            out.push(String::new());
        }
    }
    let ghost first = text::texts(out@);
    proof {
        if f.at is None {
            assert(first =~= kv + parting(kv));
        }
    }
    append_texts(&mut out, &block_lines, 0);
    append_texts(&mut out, &kept, head);
    proof {
        assert(bv.skip(0) =~= bv);
        match f.at {
            Some(a) => {
                assert(text::texts(out@) =~= kv.take(a) + bv + kv.skip(a));
            },
            None => {
                assert(kv.skip(n as int) =~= seq![]);
                assert(text::texts(out@) =~= kv + parting(kv) + bv);
            },
        }
    }
    if out.len() == 0 {
        let mut r = String::new();
        r.push('\n');
        proof {
            assert(r@ =~= seq!['\n']);
        }
        return r;
    }
    unlines(&out)
}

/// A copy of part of a list of strings.
fn copy_range(v: &Vec<String>, from: usize, to: usize) -> (r: Vec<String>)
    requires
        from <= to <= v@.len(),
    ensures
        text::texts(r@) == text::texts(v@).subrange(from as int, to as int),
{
    broadcast use text::lemma_texts_push;

    let ghost all = text::texts(v@);
    let mut out: Vec<String> = Vec::new();
    let mut i: usize = from;
    proof {
        assert(text::texts(out@) =~= all.subrange(from as int, from as int));
    }
    while i < to
        invariant
            from <= i <= to <= v@.len(),
            all == text::texts(v@),
            text::texts(out@) == all.subrange(from as int, i as int),
        decreases to - i,
    {
        out.push(v[i].clone());
        proof {
            assert(all.subrange(from as int, i + 1) =~= all.subrange(from as int, i as int).push(
                v@[i as int]@,
            ));
        }
        i += 1;
    }
    out
}

/// Appends the strings of a list from `from` on.
pub fn append_texts(out: &mut Vec<String>, v: &Vec<String>, from: usize)
    requires
        from <= v@.len(),
    ensures
        text::texts(final(out)@) == text::texts(old(out)@) + text::texts(v@).skip(from as int),
{
    broadcast use text::lemma_texts_push;

    let ghost base = text::texts(out@);
    let ghost all = text::texts(v@);
    let mut i: usize = from;
    proof {
        assert(base + all.subrange(from as int, from as int) =~= base);
    }
    while i < v.len()
        invariant
            from <= i <= v@.len(),
            all == text::texts(v@),
            text::texts(out@) == base + all.subrange(from as int, i as int),
        decreases v@.len() - i,
    {
        out.push(v[i].clone());
        proof {
            assert(base + all.subrange(from as int, i + 1) =~= (base + all.subrange(
                from as int,
                i as int,
            )).push(v@[i as int]@));
        }
        i += 1;
    }
    proof {
        assert(all.subrange(from as int, all.len() as int) =~= all.skip(from as int));
    }
}

/// An option's name and state, as a file records them.
pub struct OptionState {
    pub name: String,
    pub enabled: bool,
}

impl View for OptionState {
    type V = (Seq<char>, bool);

    open spec fn view(&self) -> (Seq<char>, bool) {
        (self.name@, self.enabled)
    }
}

impl Ordered for OptionState {
    open spec fn before(a: (Seq<char>, bool), b: (Seq<char>, bool)) -> bool {
        order::text_le(a.0, b.0)
    }

    fn no_later(&self, other: &Self) -> (r: bool) {
        order::at_most(self.name.as_str(), other.name.as_str())
    }

    fn copied(&self) -> (r: Self) {
        OptionState { name: self.name.clone(), enabled: self.enabled }
    }
}

/// The order of option states, by name.
pub open spec fn states_le() -> spec_fn((Seq<char>, bool), (Seq<char>, bool)) -> bool {
    |a: (Seq<char>, bool), b: (Seq<char>, bool)| order::text_le(a.0, b.0)
}

/// The ports, among those of the first `n` options, that are pulled in.
pub open spec fn written_upto(g: GraphView, n: int) -> Seq<Seq<char>>
    decreases n,
{
    if n <= 0 {
        seq![]
    } else if live::live_at(g, g.options[n - 1].port_origin) {
        written_upto(g, n - 1).push(g.options[n - 1].port_origin)
    } else {
        written_upto(g, n - 1)
    }
}

/// The ports that have options and are pulled in, in order.
pub open spec fn written_ports(g: GraphView) -> Seq<Seq<char>> {
    order::text_set(written_upto(g, g.options.len() as int))
}

/// A port is written if it has an option and is pulled in, and only then: a
/// port that no choice pulls in leaves nothing behind.
pub proof fn only_what_is_pulled_in_is_written(g: GraphView, origin: Seq<char>)
    ensures
        written_ports(g).contains(origin) <==> live::live_at(g, origin) && exists|k: int|
            0 <= k < g.options.len() && (#[trigger] g.options[k]).port_origin == origin,
{
    order::lemma_text_set(written_upto(g, g.options.len() as int));
    lemma_written_upto(g, origin, g.options.len() as int);
}

proof fn lemma_written_upto(g: GraphView, origin: Seq<char>, n: int)
    requires
        0 <= n <= g.options.len(),
    ensures
        written_upto(g, n).contains(origin) <==> live::live_at(g, origin) && exists|k: int|
            0 <= k < n && (#[trigger] g.options[k]).port_origin == origin,
    decreases n,
{
    if n > 0 {
        lemma_written_upto(g, origin, n - 1);
        let t = written_upto(g, n - 1);
        let r = written_upto(g, n);
        if live::live_at(g, g.options[n - 1].port_origin) {
            assert(r.drop_last() =~= t);
            order::lemma_contains_last(r, origin);
        }
    }
}

/// The names and states of those of the first `n` options that are a port's.
pub open spec fn states_upto(options: Seq<OptionView>, origin: Seq<char>, n: int) -> Seq<
    (Seq<char>, bool),
>
    decreases n,
{
    if n <= 0 {
        seq![]
    } else {
        let rest = states_upto(options, origin, n - 1);
        if options[n - 1].port_origin == origin {
            rest.push((options[n - 1].name, options[n - 1].enabled))
        } else {
            rest
        }
    }
}

/// The names and states of a port's options, by name.
pub open spec fn port_states(options: Seq<OptionView>, origin: Seq<char>) -> Seq<
    (Seq<char>, bool),
> {
    order::sort_of(states_upto(options, origin, options.len() as int), states_le())
}

/// The line that records one option.
pub open spec fn state_line(o: (Seq<char>, bool)) -> Seq<char> {
    if o.1 {
        "OPTIONS_FILE_SET+="@ + o.0
    } else {
        "OPTIONS_FILE_UNSET+="@ + o.0
    }
}

/// The names of option states.
pub open spec fn state_names(opts: Seq<(Seq<char>, bool)>) -> Seq<Seq<char>> {
    Seq::new(opts.len(), |i: int| opts[i].0)
}

/// The lines that record option states.
pub open spec fn state_lines(opts: Seq<(Seq<char>, bool)>) -> Seq<Seq<char>> {
    Seq::new(opts.len(), |i: int| state_line(opts[i]))
}

/// The lines with which an options file begins.
pub open spec fn file_head(pkg: Seq<char>, opts: Seq<(Seq<char>, bool)>) -> Seq<Seq<char>> {
    seq![
        "# This file is auto-generated by bgone."@,
        "# Options for "@ + pkg,
        "_OPTIONS_READ="@ + pkg,
        "_FILE_COMPLETE_OPTIONS_LIST="@ + text::joined(state_names(opts), " "@),
    ]
}

/// The text of an options file.
pub open spec fn file_text(pkg: Seq<char>, opts: Seq<(Seq<char>, bool)>) -> Seq<char> {
    text::unlined(file_head(pkg, opts) + state_lines(opts))
}

/// The name by which a port's file calls its package: the one it is known by,
/// else the port's own.
pub open spec fn package_name(g: GraphView, origin: Seq<char>, port: Seq<char>) -> Seq<char> {
    if g.pkg_names.contains_key(origin) {
        g.pkg_names[origin]
    } else {
        port
    }
}

/// The file for a port: none where its origin is not a category and a name.
pub open spec fn file_for(g: GraphView, origin: Seq<char>) -> Option<FileView> {
    let parts = text::split_of(origin, '/');
    if parts.len() != 2 {
        None
    } else {
        let opts = port_states(g.options, origin);
        Some(
            FileView {
                folder: parts[0] + "_"@ + parts[1],
                content: file_text(package_name(g, origin, parts[1]), opts),
                count: opts.len(),
            },
        )
    }
}

/// The files for the first `n` of some ports.
pub open spec fn files_upto(g: GraphView, origins: Seq<Seq<char>>, n: int) -> Seq<FileView>
    decreases n,
{
    if n <= 0 {
        seq![]
    } else {
        let rest = files_upto(g, origins, n - 1);
        match file_for(g, origins[n - 1]) {
            Some(f) => rest.push(f),
            None => rest,
        }
    }
}

/// The files that an export writes.
pub open spec fn files_of(g: GraphView) -> Seq<FileView> {
    let origins = written_ports(g);
    files_upto(g, origins, origins.len() as int)
}

/// The names and states of a port's options, by name.
fn states_for(g: &DependencyGraph, origin: &str) -> (r: Vec<OptionState>)
    ensures
        order::views(r@) == port_states(g@.options, origin@),
{
    broadcast use order::lemma_views_push;

    let ghost options = g@.options;
    let mut out: Vec<OptionState> = Vec::new();
    let mut n: usize = 0;
    proof {
        assert(order::views(out@) =~= seq![]);
    }
    while n < g.option_nodes.len()
        invariant
            n <= options.len(),
            options == g@.options,
            order::views(out@) == states_upto(options, origin@, n as int),
        decreases options.len() - n,
    {
        proof {
            assert(options[n as int] == g.option_nodes@[n as int]@);
        }
        if same(g.option_nodes[n].port_origin.as_str(), origin) {
            out.push(
                OptionState {
                    name: g.option_nodes[n].name.clone(),
                    enabled: g.option_nodes[n].enabled,
                },
            );
        }
        n += 1;
    }
    let r = order::sort(&out);
    proof {
        assert((|a: (Seq<char>, bool), b: (Seq<char>, bool)| OptionState::before(a, b))
            =~= states_le());
    }
    r
}

/// The text of an options file.
fn write_file(pkg: &str, opts: &Vec<OptionState>) -> (r: String)
    ensures
        r@ == file_text(pkg@, order::views(opts@)),
{
    broadcast use text::lemma_texts_push;

    let ghost ov = order::views(opts@);
    let mut names: Vec<String> = Vec::new();
    let mut i: usize = 0;
    proof {
        assert(text::texts(names@) =~= state_names(ov).take(0));
    }
    while i < opts.len()
        invariant
            i <= opts@.len(),
            ov == order::views(opts@),
            text::texts(names@) == state_names(ov).take(i as int),
        decreases opts@.len() - i,
    {
        proof {
            assert(ov[i as int] == opts@[i as int]@);
            assert(state_names(ov).take(i + 1) =~= state_names(ov).take(i as int).push(
                ov[i as int].0,
            ));
        }
        names.push(opts[i].name.clone());
        i += 1;
    }
    proof {
        assert(state_names(ov).take(ov.len() as int) =~= state_names(ov));
    }
    let list = text::join(&names, " ");
    let mut out: Vec<String> = Vec::new();
    out.push("# This file is auto-generated by bgone.".to_owned());
    out.push(text::concat2("# Options for ", pkg));
    out.push(text::concat2("_OPTIONS_READ=", pkg));
    out.push(text::concat2("_FILE_COMPLETE_OPTIONS_LIST=", list.as_str()));
    let ghost head = file_head(pkg@, ov);
    proof {
        assert(text::texts(out@) =~= head);
        assert(head + state_lines(ov).take(0) =~= head);
    }
    i = 0;
    while i < opts.len()
        invariant
            i <= opts@.len(),
            ov == order::views(opts@),
            text::texts(out@) == head + state_lines(ov).take(i as int),
        decreases opts@.len() - i,
    {
        proof {
            assert(ov[i as int] == opts@[i as int]@);
            assert(head + state_lines(ov).take(i + 1) =~= (head + state_lines(ov).take(
                i as int,
            )).push(state_line(ov[i as int])));
        }
        if opts[i].enabled {
            out.push(text::concat2("OPTIONS_FILE_SET+=", opts[i].name.as_str()));
        } else {
            out.push(text::concat2("OPTIONS_FILE_UNSET+=", opts[i].name.as_str()));
        }
        i += 1;
    }
    proof {
        assert(state_lines(ov).take(ov.len() as int) =~= state_lines(ov));
    }
    unlines(&out)
}

/// The options files of an export: one for each port that is pulled in and
/// defines options.
///
/// A port stranded by an option being turned off is not part of the build, so
/// it gets no file. Every option the port defines appears in one list or the
/// other.
pub fn option_files(g: &DependencyGraph) -> (r: Vec<OptionsFile>)
    requires
        g@.wf(),
    ensures
        order::views(r@) == files_of(g@),
{
    broadcast use {text::lemma_texts_push, order::lemma_views_push};

    let ghost gv = g@;
    let mut ports: Vec<String> = Vec::new();
    let mut n: usize = 0;
    proof {
        assert(text::texts(ports@) =~= seq![]);
    }
    while n < g.option_nodes.len()
        invariant
            n <= gv.options.len(),
            gv == g@,
            gv.wf(),
            text::texts(ports@) == written_upto(gv, n as int),
        decreases gv.options.len() - n,
    {
        proof {
            assert(gv.options[n as int] == g.option_nodes@[n as int]@);
        }
        if g.is_live(g.option_nodes[n].port_origin.as_str()) {
            ports.push(g.option_nodes[n].port_origin.clone());
        }
        n += 1;
    }
    let origins = order::sorted_texts_once(&ports);
    let ghost ov = text::texts(origins@);
    let mut out: Vec<OptionsFile> = Vec::new();
    let mut i: usize = 0;
    proof {
        assert(order::views(out@) =~= seq![]);
    }
    while i < origins.len()
        invariant
            i <= origins@.len(),
            gv == g@,
            ov == text::texts(origins@),
            order::views(out@) == files_upto(gv, ov, i as int),
        decreases origins@.len() - i,
    {
        let origin = origins[i].as_str();
        proof {
            assert(ov[i as int] == origin@);
        }
        let parts = text::split(origin, '/');
        let ghost pv = text::texts(parts@);
        if parts.len() == 2 {
            proof {
                assert(pv[0] == parts@[0]@ && pv[1] == parts@[1]@);
            }
            let opts = states_for(g, origin);
            let pkg = match g.pkg_names.get(origin) {
                Some(name) => name.clone(),
                None => parts[1].clone(),
            };
            let content = write_file(pkg.as_str(), &opts);
            let folder = text::concat3(parts[0].as_str(), "_", parts[1].as_str());
            out.push(OptionsFile { folder, content, count: opts.len() });
        }
        i += 1;
    }
    out
}

/// The names of those of the first `n` options whose ports are pulled in.
pub open spec fn global_names_upto(g: GraphView, n: int) -> Seq<Seq<char>>
    decreases n,
{
    if n <= 0 {
        seq![]
    } else if live::live_at(g, g.options[n - 1].port_origin) {
        global_names_upto(g, n - 1).push(g.options[n - 1].name)
    } else {
        global_names_upto(g, n - 1)
    }
}

/// The option names of the build, in order.
pub open spec fn global_names(g: GraphView) -> Seq<Seq<char>> {
    order::text_set(global_names_upto(g, g.options.len() as int))
}

/// Whether every port of the build that has an option of this name has it in
/// this state.
pub open spec fn agrees(g: GraphView, name: Seq<char>, on: bool) -> bool {
    forall|k: int|
        0 <= k < g.options.len() && (#[trigger] g.options[k]).name == name && live::live_at(
            g,
            g.options[k].port_origin,
        ) ==> g.options[k].enabled == on
}

/// The lines for the first `n` names: an option name means different things to
/// different ports, so a global is written only where every port that has it
/// agrees.
pub open spec fn global_lines(g: GraphView, names: Seq<Seq<char>>, n: int) -> Seq<Seq<char>>
    decreases n,
{
    if n <= 0 {
        seq![]
    } else {
        let rest = global_lines(g, names, n - 1);
        let name = names[n - 1];
        if agrees(g, name, true) {
            rest.push("OPTIONS_SET+="@ + name)
        } else if agrees(g, name, false) {
            rest.push("OPTIONS_UNSET+="@ + name)
        } else {
            rest
        }
    }
}

/// The lines with which the managed block begins.
pub open spec fn block_head() -> Seq<Seq<char>> {
    seq![
        "# BEGIN bgone"@,
        "# Global option overrides managed by bgone. Everything between"@,
        "# these markers is rewritten on save; everything outside them"@,
        "# is preserved."@,
    ]
}

/// The lines of the managed block.
pub open spec fn block_lines(g: GraphView) -> Seq<Seq<char>> {
    let names = global_names(g);
    block_head() + global_lines(g, names, names.len() as int) + seq!["# END bgone"@]
}

/// Graphs alike in what their options are called, whose they are and whether
/// they are set, in what is pulled in and in what the packages are called.
pub open spec fn chosen_alike(a: GraphView, b: GraphView) -> bool {
    &&& a.options.len() == b.options.len()
    &&& forall|k: int|
        0 <= k < a.options.len() ==> (#[trigger] a.options[k]).name == b.options[k].name
            && a.options[k].port_origin == b.options[k].port_origin && a.options[k].enabled
            == b.options[k].enabled
    &&& a.by_origin == b.by_origin
    &&& a.live == b.live
    &&& a.pkg_names == b.pkg_names
}

proof fn lemma_alike_names(a: GraphView, b: GraphView, n: int)
    requires
        chosen_alike(a, b),
        n <= a.options.len(),
    ensures
        written_upto(a, n) == written_upto(b, n),
        global_names_upto(a, n) == global_names_upto(b, n),
    decreases n,
{
    if n > 0 {
        lemma_alike_names(a, b, n - 1);
        assert(a.options[n - 1].name == b.options[n - 1].name);
    }
}

proof fn lemma_alike_states(a: GraphView, b: GraphView, origin: Seq<char>, n: int)
    requires
        chosen_alike(a, b),
        n <= a.options.len(),
    ensures
        states_upto(a.options, origin, n) == states_upto(b.options, origin, n),
    decreases n,
{
    if n > 0 {
        lemma_alike_states(a, b, origin, n - 1);
        assert(a.options[n - 1].name == b.options[n - 1].name);
    }
}

proof fn lemma_alike_files(a: GraphView, b: GraphView, origins: Seq<Seq<char>>, n: int)
    requires
        chosen_alike(a, b),
    ensures
        files_upto(a, origins, n) == files_upto(b, origins, n),
    decreases n,
{
    if n > 0 {
        lemma_alike_files(a, b, origins, n - 1);
        lemma_alike_states(a, b, origins[n - 1], a.options.len() as int);
    }
}

proof fn lemma_alike_agree(a: GraphView, b: GraphView, name: Seq<char>, on: bool)
    requires
        chosen_alike(a, b),
        agrees(a, name, on),
    ensures
        agrees(b, name, on),
{
    assert forall|k: int|
        0 <= k < b.options.len() && (#[trigger] b.options[k]).name == name && live::live_at(
            b,
            b.options[k].port_origin,
        ) implies b.options[k].enabled == on by {
        assert(a.options[k].name == name);
    }
}

proof fn lemma_alike_lines(a: GraphView, b: GraphView, names: Seq<Seq<char>>, n: int)
    requires
        chosen_alike(a, b),
        chosen_alike(b, a),
    ensures
        global_lines(a, names, n) == global_lines(b, names, n),
    decreases n,
{
    if n > 0 {
        lemma_alike_lines(a, b, names, n - 1);
        let name = names[n - 1];
        if agrees(a, name, true) {
            lemma_alike_agree(a, b, name, true);
        }
        if agrees(b, name, true) {
            lemma_alike_agree(b, a, name, true);
        }
        if agrees(a, name, false) {
            lemma_alike_agree(a, b, name, false);
        }
        if agrees(b, name, false) {
            lemma_alike_agree(b, a, name, false);
        }
    }
}

/// What is written depends on what is chosen alone: not on what is open,
/// searched for, hidden or listed.
pub proof fn what_is_chosen_decides_what_is_written(a: GraphView, b: GraphView)
    requires
        chosen_alike(a, b),
    ensures
        files_of(a) == files_of(b),
        block_lines(a) == block_lines(b),
{
    lemma_alike_names(a, b, a.options.len() as int);
    let origins = written_ports(a);
    lemma_alike_files(a, b, origins, origins.len() as int);
    let names = global_names(a);
    assert forall|k: int| 0 <= k < b.options.len() implies (#[trigger] b.options[k]).name
        == a.options[k].name && b.options[k].port_origin == a.options[k].port_origin
        && b.options[k].enabled == a.options[k].enabled by {
        assert(a.options[k].name == b.options[k].name);
    }
    lemma_alike_lines(a, b, names, names.len() as int);
}

/// Whether every port of the build that has an option of this name has it in
/// this state.
fn all_agree(g: &DependencyGraph, name: &str, on: bool) -> (r: bool)
    requires
        g@.wf(),
    ensures
        r == agrees(g@, name@, on),
{
    let ghost gv = g@;
    let mut n: usize = 0;
    while n < g.option_nodes.len()
        invariant
            n <= gv.options.len(),
            gv == g@,
            gv.wf(),
            forall|k: int|
                0 <= k < n && (#[trigger] gv.options[k]).name == name@ && live::live_at(
                    gv,
                    gv.options[k].port_origin,
                ) ==> gv.options[k].enabled == on,
        decreases gv.options.len() - n,
    {
        proof {
            assert(gv.options[n as int] == g.option_nodes@[n as int]@);
        }
        if g.option_nodes[n].enabled != on && same(g.option_nodes[n].name.as_str(), name)
            && g.is_live(g.option_nodes[n].port_origin.as_str()) {
            return false;
        }
        n += 1;
    }
    true
}

/// The managed block of `make.conf`.
pub fn make_conf_block(g: &DependencyGraph) -> (r: String)
    requires
        g@.wf(),
    ensures
        r@ == text::unlined(block_lines(g@)),
{
    broadcast use text::lemma_texts_push;

    let ghost gv = g@;
    let mut found: Vec<String> = Vec::new();
    let mut n: usize = 0;
    proof {
        assert(text::texts(found@) =~= seq![]);
    }
    while n < g.option_nodes.len()
        invariant
            n <= gv.options.len(),
            gv == g@,
            gv.wf(),
            text::texts(found@) == global_names_upto(gv, n as int),
        decreases gv.options.len() - n,
    {
        proof {
            assert(gv.options[n as int] == g.option_nodes@[n as int]@);
        }
        if g.is_live(g.option_nodes[n].port_origin.as_str()) {
            found.push(g.option_nodes[n].name.clone());
        }
        n += 1;
    }
    let names = order::sorted_texts_once(&found);
    let ghost nv = text::texts(names@);
    let mut out: Vec<String> = Vec::new();
    out.push("# BEGIN bgone".to_owned());
    out.push("# Global option overrides managed by bgone. Everything between".to_owned());
    out.push("# these markers is rewritten on save; everything outside them".to_owned());
    out.push("# is preserved.".to_owned());
    proof {
        assert(text::texts(out@) =~= block_head());
        assert(block_head() + global_lines(gv, nv, 0) =~= block_head());
    }
    let mut i: usize = 0;
    while i < names.len()
        invariant
            i <= names@.len(),
            gv == g@,
            gv.wf(),
            nv == text::texts(names@),
            text::texts(out@) == block_head() + global_lines(gv, nv, i as int),
        decreases names@.len() - i,
    {
        let ghost before = text::texts(out@);
        proof {
            assert(nv[i as int] == names@[i as int]@);
        }
        if all_agree(g, names[i].as_str(), true) {
            out.push(text::concat2("OPTIONS_SET+=", names[i].as_str()));
            proof {
                let line = "OPTIONS_SET+="@ + nv[i as int];
                assert(text::texts(out@) == before.push(line));
                assert(global_lines(gv, nv, i + 1) == global_lines(gv, nv, i as int).push(line));
                assert(before.push(line) =~= block_head() + global_lines(gv, nv, i + 1));
            }
        } else if all_agree(g, names[i].as_str(), false) {
            out.push(text::concat2("OPTIONS_UNSET+=", names[i].as_str()));
            proof {
                let line = "OPTIONS_UNSET+="@ + nv[i as int];
                assert(text::texts(out@) == before.push(line));
                assert(global_lines(gv, nv, i + 1) == global_lines(gv, nv, i as int).push(line));
                assert(before.push(line) =~= block_head() + global_lines(gv, nv, i + 1));
            }
        }
        i += 1;
    }
    out.push("# END bgone".to_owned());
    proof {
        assert(text::texts(out@) =~= block_lines(gv));
    }
    unlines(&out)
}

/// `make.conf` with the managed block that the build calls for.
pub fn merged_make_conf(g: &DependencyGraph, existing: &str) -> (r: String)
    requires
        g@.wf(),
    ensures
        r@ == spliced(existing@, text::unlined(block_lines(g@))),
{
    let block = make_conf_block(g);
    splice_managed_block(existing, block.as_str())
}

/// How many options some files hold.
pub open spec fn options_in(files: Seq<FileView>) -> nat
    decreases files.len(),
{
    if files.len() == 0 {
        0
    } else {
        options_in(files.drop_last()) + files.last().count
    }
}

/// How much writing these files wrote.
pub fn stats_of(files: &Vec<OptionsFile>) -> (r: ExporterStats)
    requires
        options_in(order::views(files@)) <= usize::MAX,
    ensures
        r.files_written == files@.len(),
        r.options_saved == options_in(order::views(files@)),
{
    let ghost fv = order::views(files@);
    let mut total: usize = 0;
    let mut i: usize = 0;
    while i < files.len()
        invariant
            i <= files@.len(),
            fv == order::views(files@),
            options_in(fv) <= usize::MAX,
            total == options_in(fv.take(i as int)),
        decreases files@.len() - i,
    {
        proof {
            assert(fv.take(i + 1).drop_last() =~= fv.take(i as int));
            assert(fv.take(i + 1).last() == files@[i as int]@);
            lemma_options_in(fv, i + 1);
        }
        total += files[i].count;
        i += 1;
    }
    proof {
        assert(fv.take(fv.len() as int) =~= fv);
    }
    ExporterStats { files_written: files.len(), options_saved: total }
}

/// Fewer files hold no more options.
proof fn lemma_options_in(files: Seq<FileView>, n: int)
    requires
        0 <= n <= files.len(),
    ensures
        options_in(files.take(n)) <= options_in(files),
    decreases files.len(),
{
    if n == files.len() {
        assert(files.take(n) =~= files);
    } else {
        lemma_options_in(files.drop_last(), n);
        assert(files.drop_last().take(n) =~= files.take(n));
    }
}

/// Whether a port of the build has an option of this name.
pub open spec fn is_in_build(g: GraphView, name: Seq<char>) -> bool {
    exists|k: int|
        0 <= k < g.options.len() && (#[trigger] g.options[k]).name == name && live::live_at(
            g,
            g.options[k].port_origin,
        )
}

proof fn lemma_global_names(g: GraphView, n: int, name: Seq<char>)
    requires
        0 <= n <= g.options.len(),
    ensures
        global_names_upto(g, n).contains(name) <==> exists|k: int|
            0 <= k < n && (#[trigger] g.options[k]).name == name && live::live_at(
                g,
                g.options[k].port_origin,
            ),
    decreases n,
{
    if n > 0 {
        lemma_global_names(g, n - 1, name);
        let a = global_names_upto(g, n - 1);
        let r = global_names_upto(g, n);
        if live::live_at(g, g.options[n - 1].port_origin) {
            assert(r.drop_last() =~= a);
            order::lemma_contains_last(r, name);
        }
        if a.contains(name) {
            let k = choose|k: int|
                0 <= k < n - 1 && (#[trigger] g.options[k]).name == name && live::live_at(
                    g,
                    g.options[k].port_origin,
                );
            assert(g.options[k].name == name);
        }
        if exists|k: int|
            0 <= k < n && (#[trigger] g.options[k]).name == name && live::live_at(
                g,
                g.options[k].port_origin,
            ) {
            let k = choose|k: int|
                0 <= k < n && (#[trigger] g.options[k]).name == name && live::live_at(
                    g,
                    g.options[k].port_origin,
                );
            assert(k < n - 1 || k == n - 1);
        }
    }
}

/// The line of `make.conf` that sets, or unsets, an option for every port.
pub open spec fn global_line(name: Seq<char>, on: bool) -> Seq<char> {
    if on {
        "OPTIONS_SET+="@ + name
    } else {
        "OPTIONS_UNSET+="@ + name
    }
}

proof fn lemma_lines_apart(a: Seq<char>, x: bool, b: Seq<char>, y: bool)
    ensures
        global_line(a, x) == global_line(b, y) ==> a == b && x == y,
{
    reveal_strlit("OPTIONS_SET+=");
    reveal_strlit("OPTIONS_UNSET+=");
    let s = global_line(a, x);
    let t = global_line(b, y);
    if s == t {
        assert(s[8] == if x {
            'S'
        } else {
            'U'
        });
        assert(t[8] == if y {
            'S'
        } else {
            'U'
        });
        if x {
            assert(s.skip(13) =~= a);
            assert(t.skip(13) =~= b);
        } else {
            assert(s.skip(15) =~= a);
            assert(t.skip(15) =~= b);
        }
    }
}

proof fn lemma_global_lines(
    g: GraphView,
    names: Seq<Seq<char>>,
    n: int,
    name: Seq<char>,
    on: bool,
)
    requires
        0 <= n <= names.len(),
        forall|i: int| 0 <= i < n ==> is_in_build(g, #[trigger] names[i]),
    ensures
        global_lines(g, names, n).contains(global_line(name, on)) <==> names.take(n).contains(name)
            && agrees(g, name, on),
    decreases n,
{
    if n > 0 {
        lemma_global_lines(g, names, n - 1, name, on);
        let rest = global_lines(g, names, n - 1);
        let r = global_lines(g, names, n);
        let last = names[n - 1];
        assert(names.take(n).drop_last() =~= names.take(n - 1));
        order::lemma_contains_last(names.take(n), name);
        assert(is_in_build(g, last));
        let k = choose|k: int|
            0 <= k < g.options.len() && (#[trigger] g.options[k]).name == last && live::live_at(
                g,
                g.options[k].port_origin,
            );
        assert(!(agrees(g, last, true) && agrees(g, last, false))) by {
            if agrees(g, last, true) && agrees(g, last, false) {
                assert(g.options[k].enabled == true);
                assert(g.options[k].enabled == false);
            }
        }
        lemma_lines_apart(last, true, name, on);
        lemma_lines_apart(last, false, name, on);
        if r.len() > rest.len() {
            assert(r.drop_last() =~= rest);
            order::lemma_contains_last(r, global_line(name, on));
        }
    } else {
        assert(names.take(n) =~= seq![]);
    }
}

/// The managed block sets an option for every port exactly where the build has
/// it and every port of the build that has it agrees on it being set, and unsets
/// it exactly where they agree on it not being.
pub proof fn a_global_is_written_where_all_agree(g: GraphView, name: Seq<char>, on: bool)
    ensures
        block_lines(g).contains(global_line(name, on)) <==> is_in_build(g, name) && forall|k: int|
            0 <= k < g.options.len() && (#[trigger] g.options[k]).name == name && live::live_at(
                g,
                g.options[k].port_origin,
            ) ==> g.options[k].enabled == on,
{
    reveal_strlit("# BEGIN bgone");
    reveal_strlit("# Global option overrides managed by bgone. Everything between");
    reveal_strlit("# these markers is rewritten on save; everything outside them");
    reveal_strlit("# is preserved.");
    reveal_strlit("# END bgone");
    reveal_strlit("OPTIONS_SET+=");
    reveal_strlit("OPTIONS_UNSET+=");
    let names = global_names(g);
    let n = names.len() as int;
    let line = global_line(name, on);
    let lines = global_lines(g, names, n);
    let head = block_head();
    let tail = seq!["# END bgone"@];
    let all = g.options.len() as int;
    order::lemma_text_set(global_names_upto(g, all));
    lemma_global_names(g, all, name);
    assert forall|i: int| 0 <= i < n implies is_in_build(g, #[trigger] names[i]) by {
        assert(names.contains(names[i]));
        lemma_global_names(g, all, names[i]);
    }
    lemma_global_lines(g, names, n, name, on);
    assert(names.take(n) =~= names);
    crate::reply::lemma_in_sum(head, lines, line);
    crate::reply::lemma_in_sum(head + lines, tail, line);
    assert(line[0] == 'O');
    assert(!head.contains(line)) by {
        if head.contains(line) {
            let i = choose|i: int| 0 <= i < head.len() && head[i] == line;
            assert(head[i][0] == '#');
        }
    }
    assert(!tail.contains(line)) by {
        if tail.contains(line) {
            let i = choose|i: int| 0 <= i < tail.len() && tail[i] == line;
            assert(tail[i][0] == '#');
        }
    }
}

/// The file of a port is named by its category and its name with an underscore
/// between them, and is written for an origin of these two parts alone.
pub proof fn a_file_is_named_by_its_port(
    g: GraphView,
    category: Seq<char>,
    name: Seq<char>,
    rest: Seq<char>,
)
    requires
        !category.contains('/'),
        !name.contains('/'),
    ensures
        ({
            let origin = category.push('/') + name;
            &&& file_for(g, origin) matches Some(f)
            &&& f.folder == category + "_"@ + name
            &&& f.count == port_states(g.options, origin).len()
            &&& f.content == file_text(
                if g.pkg_names.contains_key(origin) {
                    g.pkg_names[origin]
                } else {
                    name
                },
                port_states(g.options, origin),
            )
        }),
        file_for(g, name) is None,
        file_for(g, category.push('/') + (name.push('/') + rest)) is None,
{
    text::parts_come_apart(category, '/', name);
    text::parts_come_apart(name, '/', rest);
    text::parts_come_apart(category, '/', name.push('/') + rest);
    let parts = text::split_of(category.push('/') + name, '/');
    assert(parts =~= seq![category, name]);
    assert(text::split_of(rest, '/').len() > 0);
}

proof fn lemma_files(g: GraphView, origins: Seq<Seq<char>>, n: int, f: FileView)
    requires
        0 <= n <= origins.len(),
    ensures
        files_upto(g, origins, n).contains(f) <==> exists|i: int|
            0 <= i < n && file_for(g, #[trigger] origins[i]) == Some(f),
    decreases n,
{
    if n > 0 {
        lemma_files(g, origins, n - 1, f);
        let rest = files_upto(g, origins, n - 1);
        if let Some(own) = file_for(g, origins[n - 1]) {
            let more = rest.push(own);
            assert(more.drop_last() =~= rest);
            order::lemma_contains_last(more, f);
        }
    }
}

/// An export writes the file of every port that is to be written, and no other.
pub proof fn every_port_gets_its_file(g: GraphView, f: FileView)
    ensures
        files_of(g).contains(f) <==> exists|origin: Seq<char>| #[trigger]
            written_ports(g).contains(origin) && file_for(g, origin) == Some(f),
{
    let origins = written_ports(g);
    lemma_files(g, origins, origins.len() as int, f);
    if files_of(g).contains(f) {
        let i = choose|i: int|
            0 <= i < origins.len() && file_for(g, #[trigger] origins[i]) == Some(f);
        assert(origins.contains(origins[i]));
    }
}

} // verus!
