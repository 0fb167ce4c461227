//! Text as sequences of characters: searching, trimming, splitting, joining
//! and ordering, each stated over `Seq<char>`.
use vstd::prelude::*;

verus! {

/// `String::push`: appends one character at the end.
pub assume_specification[ String::push ](s: &mut String, c: char)
    ensures
        final(s)@ == old(s)@.push(c),
;

/// The texts that a list of strings holds.
pub open spec fn texts(v: Seq<String>) -> Seq<Seq<char>> {
    Seq::new(v.len(), |i: int| v[i]@)
}

/// The text that an optional string holds.
pub open spec fn opt_text(o: Option<String>) -> Option<Seq<char>> {
    match o {
        Some(s) => Some(s@),
        None => None,
    }
}

/// A copy of an optional string.
pub fn copy_opt(o: &Option<String>) -> (r: Option<String>)
    ensures
        opt_text(r) == opt_text(*o),
{
    match o {
        Some(s) => Some(s.clone()),
        None => None,
    }
}

/// Whether an optional string holds this text.
pub fn opt_is(o: &Option<String>, s: &str) -> (r: bool)
    ensures
        r == (opt_text(*o) == Some(s@)),
{
    match o {
        Some(t) => same(t.as_str(), s),
        None => false,
    }
}

/// A longer list of strings holds one text more.
pub broadcast proof fn lemma_texts_push(v: Seq<String>, s: String)
    ensures
        #[trigger] texts(v.push(s)) == texts(v).push(s@),
{
    assert(texts(v.push(s)) =~= texts(v).push(s@));
}

/// The characters of a string, as a list that can be indexed.
pub fn chars_of(s: &str) -> (r: Vec<char>)
    ensures
        r@ == s@,
{
    let mut out: Vec<char> = Vec::new();
    for c in it: s.chars()
        invariant
            out@ == it.seq().take(it.index() as int),
            it.seq() == s@,
    {
        out.push(c);
    }
    out
}

/// The string made of a list of characters.
pub fn string_of(v: &[char]) -> (r: String)
    ensures
        r@ == v@,
{
    let mut out = String::new();
    let mut i: usize = 0;
    while i < v.len()
        invariant
            i <= v@.len(),
            out@ == v@.take(i as int),
        decreases v@.len() - i,
    {
        out.push(v[i]);
        i += 1;
    }
    out
}

/// The characters from `from` up to `to`.
pub fn slice_of(v: &[char], from: usize, to: usize) -> (r: Vec<char>)
    requires
        from <= to <= v@.len(),
    ensures
        r@ == v@.subrange(from as int, to as int),
{
    let mut out: Vec<char> = Vec::new();
    let mut i: usize = from;
    while i < to
        invariant
            from <= i <= to <= v@.len(),
            out@ == v@.subrange(from as int, i as int),
        decreases to - i,
    {
        out.push(v[i]);
        i += 1;
    }
    out
}

/// Whether two strings hold the same text.
pub fn same(a: &str, b: &str) -> (r: bool)
    ensures
        r == (a@ == b@),
{
    proof {
        vstd::utf8::encode_utf8_decode_utf8(a@);
        vstd::utf8::encode_utf8_decode_utf8(b@);
    }
    let x = a.as_bytes();
    let y = b.as_bytes();
    if x.len() != y.len() {
        return false;
    }
    let mut i: usize = 0;
    while i < x.len()
        invariant
            x@.len() == y@.len(),
            i <= x@.len(),
            forall|j: int| 0 <= j < i ==> x@[j] == y@[j],
            x@ == vstd::utf8::encode_utf8(a@),
            y@ == vstd::utf8::encode_utf8(b@),
        decreases x@.len() - i,
    {
        if x[i] != y[i] {
            return false;
        }
        i += 1;
    }
    proof {
        assert(x@ =~= y@);
    }
    true
}

/// Two texts one after the other.
pub fn concat2(a: &str, b: &str) -> (r: String)
    ensures
        r@ == a@ + b@,
{
    let mut out = a.to_owned();
    out.append(b);
    out
}

/// Three texts one after the other.
pub fn concat3(a: &str, b: &str, c: &str) -> (r: String)
    ensures
        r@ == a@ + b@ + c@,
{
    let mut out = a.to_owned();
    out.append(b);
    out.append(c);
    out
}

/// A copy of a list of strings.
pub fn copy_texts(v: &Vec<String>) -> (r: Vec<String>)
    ensures
        texts(r@) == texts(v@),
{
    let mut out: Vec<String> = Vec::new();
    let mut i: usize = 0;
    while i < v.len()
        invariant
            i <= v@.len(),
            texts(out@) == texts(v@).take(i as int),
        decreases v@.len() - i,
    {
        let ghost before = texts(out@);
        out.push(v[i].clone());
        proof {
            assert(texts(out@) =~= before.push(v@[i as int]@));
            assert(texts(v@).take(i + 1) =~= texts(v@).take(i as int).push(v@[i as int]@));
        }
        i += 1;
    }
    proof {
        assert(texts(v@).take(v@.len() as int) =~= texts(v@));
    }
    out
}

/// Whether a list of strings holds a text.
pub fn holds(v: &Vec<String>, s: &str) -> (r: bool)
    ensures
        r == texts(v@).contains(s@),
{
    let mut i: usize = 0;
    while i < v.len()
        invariant
            i <= v@.len(),
            forall|j: int| 0 <= j < i ==> v@[j]@ != s@,
        decreases v@.len() - i,
    {
        if same(v[i].as_str(), s) {
            proof {
                assert(texts(v@)[i as int] == s@);
            }
            return true;
        }
        i += 1;
    }
    proof {
        if texts(v@).contains(s@) {
            let j = choose|j: int| 0 <= j < texts(v@).len() && texts(v@)[j] == s@;
            assert(v@[j]@ == s@);
        }
    }
    false
}

/// The characters with the Unicode `White_Space` property.
pub open spec fn is_white(c: char) -> bool {
    ||| '\u{9}' <= c <= '\u{d}'
    ||| c == '\u{20}'
    ||| c == '\u{85}'
    ||| c == '\u{a0}'
    ||| c == '\u{1680}'
    ||| '\u{2000}' <= c <= '\u{200a}'
    ||| c == '\u{2028}'
    ||| c == '\u{2029}'
    ||| c == '\u{202f}'
    ||| c == '\u{205f}'
    ||| c == '\u{3000}'
}

/// Whether a character is white space.
pub fn is_white_space(c: char) -> (r: bool)
    ensures
        r == is_white(c),
{
    ('\u{9}' <= c && c <= '\u{d}') || c == '\u{20}' || c == '\u{85}' || c == '\u{a0}' || c
        == '\u{1680}' || ('\u{2000}' <= c && c <= '\u{200a}') || c == '\u{2028}' || c == '\u{2029}'
        || c == '\u{202f}' || c == '\u{205f}' || c == '\u{3000}'
}

/// The characters of the Unicode category of control codes.
pub open spec fn is_control_char(c: char) -> bool {
    c <= '\u{1f}' || '\u{7f}' <= c <= '\u{9f}'
}

/// Whether a character is a control code.
pub fn is_control(c: char) -> (r: bool)
    ensures
        r == is_control_char(c),
{
    c <= '\u{1f}' || ('\u{7f}' <= c && c <= '\u{9f}')
}

/// A text without the white space at its start.
pub open spec fn trim_start(s: Seq<char>) -> Seq<char>
    decreases s.len(),
{
    if s.len() > 0 && is_white(s[0]) {
        trim_start(s.skip(1))
    } else {
        s
    }
}

/// A text without the white space at its end.
pub open spec fn trim_end(s: Seq<char>) -> Seq<char>
    decreases s.len(),
{
    if s.len() > 0 && is_white(s.last()) {
        trim_end(s.drop_last())
    } else {
        s
    }
}

/// A text without the white space at either end.
pub open spec fn trimmed(s: Seq<char>) -> Seq<char> {
    trim_end(trim_start(s))
}

/// A text without the white space at either end.
pub fn trim(s: &str) -> (r: String)
    ensures
        r@ == trimmed(s@),
{
    let v = chars_of(s);
    let mut from: usize = 0;
    proof {
        assert(s@.skip(0) =~= s@);
    }
    while from < v.len() && is_white_space(v[from])
        invariant
            from <= v@.len(),
            v@ == s@,
            trim_start(s@) == trim_start(s@.skip(from as int)),
        decreases v@.len() - from,
    {
        proof {
            assert(s@.skip(from as int).skip(1) =~= s@.skip(from + 1));
        }
        from += 1;
    }
    let ghost t = s@.skip(from as int);
    proof {
        assert(trim_start(s@) == t);
        assert(t.take(t.len() as int) =~= t);
    }
    let mut to: usize = v.len();
    while to > from && is_white_space(v[to - 1])
        invariant
            from <= to <= v@.len(),
            v@ == s@,
            t == s@.skip(from as int),
            trim_end(t) == trim_end(t.take(to - from)),
        decreases to - from,
    {
        proof {
            assert(t.take(to - from).last() == v@[to - 1]);
            assert(t.take(to - from).drop_last() =~= t.take(to - from - 1));
        }
        to -= 1;
    }
    proof {
        assert(t.take(to - from) =~= s@.subrange(from as int, to as int));
        if to > from {
            assert(t.take(to - from).last() == v@[to - 1]);
        }
    }
    let w = slice_of(v.as_slice(), from, to);
    string_of(w.as_slice())
}

/// The place of the first `c` at or after `from`, or the length.
pub open spec fn find_from(s: Seq<char>, c: char, from: int) -> int
    decreases s.len() - from,
{
    if from >= s.len() {
        s.len() as int
    } else if s[from] == c {
        from
    } else {
        find_from(s, c, from + 1)
    }
}

/// What `find_from` finds is the first place.
pub proof fn lemma_find_from(s: Seq<char>, c: char, from: int)
    requires
        0 <= from <= s.len(),
    ensures
        from <= find_from(s, c, from) <= s.len(),
        forall|j: int| from <= j < find_from(s, c, from) ==> s[j] != c,
        find_from(s, c, from) < s.len() ==> s[find_from(s, c, from)] == c,
    decreases s.len() - from,
{
    if from < s.len() && s[from] != c {
        lemma_find_from(s, c, from + 1);
    }
}

/// The first place is the only one that `find_from` can be.
pub proof fn lemma_find_from_is(s: Seq<char>, c: char, from: int, k: int)
    requires
        0 <= from <= k <= s.len(),
        forall|j: int| from <= j < k ==> s[j] != c,
        k < s.len() ==> s[k] == c,
    ensures
        find_from(s, c, from) == k,
    decreases k - from,
{
    if from < k {
        assert(s[from] != c);
        lemma_find_from_is(s, c, from + 1, k);
    }
}

/// Looking from `from` on is looking in what is left there.
pub proof fn lemma_find_skip(s: Seq<char>, c: char, from: int)
    requires
        0 <= from <= s.len(),
    ensures
        find_from(s.skip(from), c, 0) == find_from(s, c, from) - from,
{
    lemma_find_from(s, c, from);
    let k = find_from(s, c, from) - from;
    let t = s.skip(from);
    assert forall|j: int| 0 <= j < k implies t[j] != c by {
        assert(t[j] == s[from + j]);
    }
    lemma_find_from_is(t, c, 0, k);
}

/// The place of the first `c` at or after `from`, or the length.
pub fn find_char(v: &[char], c: char, from: usize) -> (r: usize)
    requires
        from <= v@.len(),
    ensures
        r == find_from(v@, c, from as int),
        from <= r <= v@.len(),
        r < v@.len() ==> v@[r as int] == c,
{
    let mut i: usize = from;
    while i < v.len() && v[i] != c
        invariant
            from <= i <= v@.len(),
            forall|j: int| from <= j < i ==> v@[j] != c,
        decreases v@.len() - i,
    {
        i += 1;
    }
    proof {
        lemma_find_from_is(v@, c, from as int, i as int);
    }
    i
}

/// The two sides of the first `c`, where there is one.
pub open spec fn split_once_of(s: Seq<char>, c: char) -> Option<(Seq<char>, Seq<char>)> {
    let k = find_from(s, c, 0);
    if k < s.len() {
        Some((s.take(k), s.skip(k + 1)))
    } else {
        None
    }
}

/// Two strings as the two texts that they hold.
pub open spec fn pair_view(p: (String, String)) -> (Seq<char>, Seq<char>) {
    (p.0@, p.1@)
}

/// The two sides of the first `c`, where there is one.
pub fn split_once(s: &str, c: char) -> (r: Option<(String, String)>)
    ensures
        match r {
            Some(p) => split_once_of(s@, c) == Some(pair_view(p)),
            None => split_once_of(s@, c) is None,
        },
{
    let v = chars_of(s);
    let k = find_char(v.as_slice(), c, 0);
    if k < v.len() {
        let a = slice_of(v.as_slice(), 0, k);
        let b = slice_of(v.as_slice(), k + 1, v.len());
        proof {
            assert(a@ =~= s@.take(k as int));
            assert(b@ =~= s@.skip(k + 1));
        }
        Some((string_of(a.as_slice()), string_of(b.as_slice())))
    } else {
        None
    }
}

/// The place of the last `c`, or -1.
pub open spec fn find_last(s: Seq<char>, c: char) -> int
    decreases s.len(),
{
    if s.len() == 0 {
        -1
    } else if s.last() == c {
        s.len() - 1
    } else {
        find_last(s.drop_last(), c)
    }
}

/// The text before the last `c`, where there is one.
pub open spec fn before_last(s: Seq<char>, c: char) -> Option<Seq<char>> {
    let k = find_last(s, c);
    if k >= 0 {
        Some(s.take(k))
    } else {
        None
    }
}

/// The text before the last `c`, where there is one.
pub fn rsplit_head(s: &str, c: char) -> (r: Option<String>)
    ensures
        match r {
            Some(p) => before_last(s@, c) == Some(p@),
            None => before_last(s@, c) is None,
        },
{
    let v = chars_of(s);
    let mut n: usize = v.len();
    proof {
        assert(s@.take(n as int) =~= s@);
    }
    while n > 0
        invariant
            n <= v@.len(),
            v@ == s@,
            find_last(s@, c) == find_last(s@.take(n as int), c),
        decreases n,
    {
        proof {
            assert(s@.take(n as int).last() == s@[n - 1]);
            assert(s@.take(n as int).drop_last() =~= s@.take(n - 1));
        }
        if v[n - 1] == c {
            let a = slice_of(v.as_slice(), 0, n - 1);
            proof {
                assert(a@ =~= s@.take(n - 1));
            }
            return Some(string_of(a.as_slice()));
        }
        n -= 1;
    }
    None
}

/// The parts of a text between the `c`s in it.
pub open spec fn split_of(s: Seq<char>, c: char) -> Seq<Seq<char>>
    decreases s.len(),
{
    proof {
        lemma_find_from(s, c, 0);
    }
    let k = find_from(s, c, 0);
    if k >= s.len() {
        seq![s]
    } else {
        seq![s.take(k)] + split_of(s.skip(k + 1), c)
    }
}

/// The parts of a text between the `c`s in it.
pub fn split(s: &str, c: char) -> (r: Vec<String>)
    ensures
        texts(r@) == split_of(s@, c),
{
    let v = chars_of(s);
    let mut out: Vec<String> = Vec::new();
    let mut from: usize = 0;
    proof {
        assert(s@.skip(0) =~= s@);
        assert(texts(out@) + split_of(s@, c) =~= split_of(s@, c));
    }
    loop
        invariant
            from <= v@.len(),
            v@ == s@,
            split_of(s@, c) == texts(out@) + split_of(s@.skip(from as int), c),
        decreases v@.len() - from,
    {
        let k = find_char(v.as_slice(), c, from);
        let part = slice_of(v.as_slice(), from, k);
        let ghost before = texts(out@);
        let ghost t = s@.skip(from as int);
        proof {
            lemma_find_skip(s@, c, from as int);
            lemma_find_from(t, c, 0);
            assert(part@ =~= t.take(k - from));
        }
        out.push(string_of(part.as_slice()));
        proof {
            assert(texts(out@) =~= before.push(part@));
        }
        if k >= v.len() {
            proof {
                assert(t.take(t.len() as int) =~= t);
                assert(before.push(part@) =~= before + seq![t]);
            }
            return out;
        }
        proof {
            assert(t.skip(k - from + 1) =~= s@.skip(k + 1));
            assert(before + (seq![part@] + split_of(s@.skip(k + 1), c)) =~= before.push(part@)
                + split_of(s@.skip(k + 1), c));
        }
        from = k + 1;
    }
}

/// A line without the carriage return that ends it.
pub open spec fn strip_return(s: Seq<char>) -> Seq<char> {
    if s.len() > 0 && s.last() == '\r' {
        s.drop_last()
    } else {
        s
    }
}

/// The lines of a text: each ends at a newline, with or without a carriage
/// return before it, and nothing follows the last newline.
pub open spec fn lines_of(s: Seq<char>) -> Seq<Seq<char>>
    decreases s.len(),
{
    proof {
        lemma_find_from(s, '\n', 0);
    }
    let k = find_from(s, '\n', 0);
    if s.len() == 0 {
        seq![]
    } else if k >= s.len() {
        seq![s]
    } else {
        seq![strip_return(s.take(k))] + lines_of(s.skip(k + 1))
    }
}

/// The lines of a text.
pub fn lines(s: &str) -> (r: Vec<String>)
    ensures
        texts(r@) == lines_of(s@),
{
    let v = chars_of(s);
    let mut out: Vec<String> = Vec::new();
    let mut from: usize = 0;
    proof {
        assert(s@.skip(0) =~= s@);
        assert(texts(out@) + lines_of(s@) =~= lines_of(s@));
    }
    while from < v.len()
        invariant
            from <= v@.len(),
            v@ == s@,
            lines_of(s@) == texts(out@) + lines_of(s@.skip(from as int)),
        decreases v@.len() - from,
    {
        let k = find_char(v.as_slice(), '\n', from);
        let ghost before = texts(out@);
        let ghost t = s@.skip(from as int);
        proof {
            lemma_find_skip(s@, '\n', from as int);
            lemma_find_from(t, '\n', 0);
        }
        if k >= v.len() {
            let part = slice_of(v.as_slice(), from, k);
            out.push(string_of(part.as_slice()));
            proof {
                assert(part@ =~= t);
                assert(texts(out@) =~= before + seq![t]);
                assert(lines_of(t) =~= seq![t]);
            }
            return out;
        }
        let mut end: usize = k;
        if end > from && v[end - 1] == '\r' {
            end -= 1;
        }
        let part = slice_of(v.as_slice(), from, end);
        out.push(string_of(part.as_slice()));
        proof {
            let line = t.take(k - from);
            if k > from {
                assert(line.last() == v@[k - 1]);
            }
            assert(part@ =~= strip_return(line));
            assert(texts(out@) =~= before.push(part@));
            assert(t.skip(k - from + 1) =~= s@.skip(k + 1));
            assert(before + (seq![part@] + lines_of(s@.skip(k + 1))) =~= before.push(part@)
                + lines_of(s@.skip(k + 1)));
        }
        from = k + 1;
    }
    proof {
        assert(s@.skip(from as int) =~= Seq::<char>::empty());
        assert(lines_of(Seq::<char>::empty()) =~= Seq::<Seq<char>>::empty());
        assert(texts(out@) + Seq::<Seq<char>>::empty() =~= texts(out@));
    }
    out
}

/// The place of the first white space at or after `from`, or the length.
pub open spec fn find_white(s: Seq<char>, from: int) -> int
    decreases s.len() - from,
{
    if from >= s.len() {
        s.len() as int
    } else if is_white(s[from]) {
        from
    } else {
        find_white(s, from + 1)
    }
}

/// White space is found at or after where it is looked for.
pub proof fn lemma_find_white(s: Seq<char>, from: int)
    requires
        0 <= from <= s.len(),
    ensures
        from <= find_white(s, from) <= s.len(),
        forall|j: int| from <= j < find_white(s, from) ==> !is_white(s[j]),
        find_white(s, from) < s.len() ==> is_white(s[find_white(s, from)]),
    decreases s.len() - from,
{
    if from < s.len() && !is_white(s[from]) {
        lemma_find_white(s, from + 1);
    }
}

proof fn lemma_find_white_is(s: Seq<char>, from: int, k: int)
    requires
        0 <= from <= k <= s.len(),
        forall|j: int| from <= j < k ==> !is_white(s[j]),
        k < s.len() ==> is_white(s[k]),
    ensures
        find_white(s, from) == k,
    decreases k - from,
{
    if from < k {
        assert(!is_white(s[from]));
        lemma_find_white_is(s, from + 1, k);
    }
}

/// What is left of a text without the white space at its start is no longer.
pub proof fn lemma_trim_start_len(s: Seq<char>)
    ensures
        trim_start(s).len() <= s.len(),
        trim_start(s).len() > 0 ==> !is_white(trim_start(s)[0]),
    decreases s.len(),
{
    if s.len() > 0 && is_white(s[0]) {
        lemma_trim_start_len(s.skip(1));
    }
}

/// A word that starts a trimmed text is not empty.
pub proof fn lemma_word_shrinks(s: Seq<char>)
    ensures
        trim_start(s).len() <= s.len(),
        trim_start(s).len() > 0 ==> 0 < find_white(trim_start(s), 0) <= trim_start(s).len(),
{
    lemma_trim_start_len(s);
    let t = trim_start(s);
    lemma_find_white(t, 0);
    if t.len() > 0 {
        lemma_find_white(t, 1);
    }
}

/// The words of a text: the runs of characters that are not white space.
pub open spec fn words_of(s: Seq<char>) -> Seq<Seq<char>>
    decreases s.len(),
{
    proof {
        lemma_word_shrinks(s);
    }
    let t = trim_start(s);
    if t.len() == 0 {
        seq![]
    } else {
        seq![t.take(find_white(t, 0))] + words_of(t.skip(find_white(t, 0)))
    }
}

/// The words of a text.
pub fn words(s: &str) -> (r: Vec<String>)
    ensures
        texts(r@) == words_of(s@),
{
    let v = chars_of(s);
    let mut out: Vec<String> = Vec::new();
    let mut from: usize = 0;
    proof {
        assert(s@.skip(0) =~= s@);
        assert(texts(out@) + words_of(s@) =~= words_of(s@));
    }
    while from < v.len()
        invariant
            from <= v@.len(),
            v@ == s@,
            words_of(s@) == texts(out@) + words_of(s@.skip(from as int)),
        decreases v@.len() - from,
    {
        let ghost t = s@.skip(from as int);
        if is_white_space(v[from]) {
            proof {
                assert(t[0] == v@[from as int]);
                assert(t.skip(1) =~= s@.skip(from + 1));
                assert(trim_start(t) == trim_start(t.skip(1)));
                assert(words_of(t) == words_of(t.skip(1)));
            }
            from += 1;
        } else {
            let mut k: usize = from;
            while k < v.len() && !is_white_space(v[k])
                invariant
                    from <= k <= v@.len(),
                    forall|j: int| from <= j < k ==> !is_white(v@[j]),
                decreases v@.len() - k,
            {
                k += 1;
            }
            let ghost before = texts(out@);
            let part = slice_of(v.as_slice(), from, k);
            out.push(string_of(part.as_slice()));
            proof {
                assert(t[0] == v@[from as int]);
                assert(trim_start(t) == t);
                assert forall|j: int| 0 <= j < k - from implies !is_white(t[j]) by {
                    assert(t[j] == v@[from + j]);
                }
                lemma_find_white_is(t, 0, k - from);
                assert(k > from);
                assert(part@ =~= t.take(k - from));
                assert(t.skip(k - from) =~= s@.skip(k as int));
                assert(texts(out@) =~= before.push(part@));
                assert(before + (seq![part@] + words_of(s@.skip(k as int))) =~= before.push(part@)
                    + words_of(s@.skip(k as int)));
            }
            from = k;
        }
    }
    proof {
        assert(s@.skip(from as int) =~= Seq::<char>::empty());
        assert(words_of(Seq::<char>::empty()) =~= Seq::<Seq<char>>::empty());
        assert(texts(out@) + Seq::<Seq<char>>::empty() =~= texts(out@));
    }
    out
}

/// Whether `part` stands in `s` at `at`.
pub open spec fn stands_at(s: Seq<char>, part: Seq<char>, at: int) -> bool {
    0 <= at && at + part.len() <= s.len() && s.subrange(at, at + part.len()) == part
}

/// Whether `part` stands anywhere in `s`.
pub open spec fn has_part(s: Seq<char>, part: Seq<char>) -> bool {
    exists|at: int| stands_at(s, part, at)
}

/// Whether `part` stands in `v` at `at`.
fn found_at(v: &[char], part: &[char], at: usize) -> (r: bool)
    requires
        at + part@.len() <= v@.len(),
    ensures
        r == stands_at(v@, part@, at as int),
{
    let n: usize = v.len();
    let mut i: usize = 0;
    while i < part.len()
        invariant
            i <= part@.len(),
            n == v@.len(),
            at + part@.len() <= n,
            forall|j: int| 0 <= j < i ==> v@[at + j] == part@[j],
        decreases part@.len() - i,
    {
        if v[at + i] != part[i] {
            proof {
                assert(v@.subrange(at as int, at + part@.len())[i as int] != part@[i as int]);
            }
            return false;
        }
        i += 1;
    }
    proof {
        assert(v@.subrange(at as int, at + part@.len()) =~= part@);
    }
    true
}

/// Whether `part` stands anywhere in `s`.
pub fn contains(s: &str, part: &str) -> (r: bool)
    ensures
        r == has_part(s@, part@),
{
    let v = chars_of(s);
    let p = chars_of(part);
    if p.len() > v.len() {
        return false;
    }
    let last: usize = v.len() - p.len();
    let mut at: usize = 0;
    loop
        invariant
            v@ == s@,
            p@ == part@,
            p@.len() <= v@.len(),
            last == v@.len() - p@.len(),
            at <= last,
            forall|j: int| 0 <= j < at ==> !stands_at(s@, part@, j),
        decreases last - at,
    {
        if found_at(v.as_slice(), p.as_slice(), at) {
            return true;
        }
        if at == last {
            return false;
        }
        at += 1;
    }
}

/// Whether a text holds a character.
pub fn contains_char(s: &str, c: char) -> (r: bool)
    ensures
        r == s@.contains(c),
{
    let v = chars_of(s);
    let mut i: usize = 0;
    while i < v.len()
        invariant
            i <= v@.len(),
            v@ == s@,
            forall|j: int| 0 <= j < i ==> s@[j] != c,
        decreases v@.len() - i,
    {
        if v[i] == c {
            proof {
                assert(s@[i as int] == c);
            }
            return true;
        }
        i += 1;
    }
    false
}

/// Whether a text begins with another.
pub fn starts_with(s: &str, head: &str) -> (r: bool)
    ensures
        r == head@.is_prefix_of(s@),
{
    let v = chars_of(s);
    let p = chars_of(head);
    if p.len() > v.len() {
        return false;
    }
    let r = found_at(v.as_slice(), p.as_slice(), 0);
    r
}

/// A text without a head that it begins with.
pub open spec fn without_head(s: Seq<char>, head: Seq<char>) -> Option<Seq<char>> {
    if head.is_prefix_of(s) {
        Some(s.skip(head.len() as int))
    } else {
        None
    }
}

/// A text without a head that it begins with.
pub fn strip_head(s: &str, head: &str) -> (r: Option<String>)
    ensures
        match r {
            Some(t) => without_head(s@, head@) == Some(t@),
            None => without_head(s@, head@) is None,
        },
{
    if !starts_with(s, head) {
        return None;
    }
    let v = chars_of(s);
    let n = head.unicode_len();
    let w = slice_of(v.as_slice(), n, v.len());
    proof {
        assert(w@ =~= s@.skip(n as int));
    }
    Some(string_of(w.as_slice()))
}

/// Texts one after the other with `sep` between them.
pub open spec fn joined(parts: Seq<Seq<char>>, sep: Seq<char>) -> Seq<char>
    decreases parts.len(),
{
    if parts.len() == 0 {
        seq![]
    } else if parts.len() == 1 {
        parts[0]
    } else {
        joined(parts.drop_last(), sep) + sep + parts.last()
    }
}

/// Texts one after the other with `sep` between them.
pub fn join(parts: &Vec<String>, sep: &str) -> (r: String)
    ensures
        r@ == joined(texts(parts@), sep@),
{
    let mut out = String::new();
    let mut i: usize = 0;
    while i < parts.len()
        invariant
            i <= parts@.len(),
            out@ == joined(texts(parts@).take(i as int), sep@),
        decreases parts@.len() - i,
    {
        proof {
            assert(texts(parts@).take(i + 1).drop_last() =~= texts(parts@).take(i as int));
            assert(texts(parts@).take(i + 1).last() == parts@[i as int]@);
            if i == 0 {
                assert(out@ + parts@[0]@ =~= parts@[0]@);
            }
        }
        if i > 0 {
            out.append(sep);
        }
        out.append(parts[i].as_str());
        i += 1;
    }
    proof {
        assert(texts(parts@).take(parts@.len() as int) =~= texts(parts@));
    }
    out
}

/// The decimal digit of a number below ten.
pub open spec fn digit_of(n: nat) -> char {
    if n == 0 { '0' } else if n == 1 { '1' } else if n == 2 { '2' } else if n == 3 { '3' }
    else if n == 4 { '4' } else if n == 5 { '5' } else if n == 6 { '6' } else if n == 7 { '7' }
    else if n == 8 { '8' } else { '9' }
}

/// A number written in decimal.
pub open spec fn decimal_of(n: nat) -> Seq<char>
    decreases n,
{
    if n < 10 {
        seq![digit_of(n)]
    } else {
        decimal_of(n / 10).push(digit_of(n % 10))
    }
}

/// A number written in decimal.
pub fn decimal(n: usize) -> (r: String)
    ensures
        r@ == decimal_of(n as nat),
    decreases n,
{
    let d: usize = n % 10;
    let c = if d == 0 { '0' } else if d == 1 { '1' } else if d == 2 { '2' } else if d == 3 { '3' }
    else if d == 4 { '4' } else if d == 5 { '5' } else if d == 6 { '6' } else if d == 7 { '7' }
    else if d == 8 { '8' } else { '9' };
    let mut out = if n < 10 { String::new() } else { decimal(n / 10) };
    out.push(c);
    out
}

/// The lines of a text as they stand, a carriage return before a newline
/// included.
pub open spec fn raw_lines_of(s: Seq<char>) -> Seq<Seq<char>>
    decreases s.len(),
{
    proof {
        lemma_find_from(s, '\n', 0);
    }
    let k = find_from(s, '\n', 0);
    if s.len() == 0 {
        seq![]
    } else if k >= s.len() {
        seq![s]
    } else {
        seq![s.take(k)] + raw_lines_of(s.skip(k + 1))
    }
}

/// The lines of a text as they stand.
pub fn raw_lines(s: &str) -> (r: Vec<String>)
    ensures
        texts(r@) == raw_lines_of(s@),
{
    let v = chars_of(s);
    let mut out: Vec<String> = Vec::new();
    let mut from: usize = 0;
    proof {
        assert(s@.skip(0) =~= s@);
        assert(texts(out@) + raw_lines_of(s@) =~= raw_lines_of(s@));
    }
    while from < v.len()
        invariant
            from <= v@.len(),
            v@ == s@,
            raw_lines_of(s@) == texts(out@) + raw_lines_of(s@.skip(from as int)),
        decreases v@.len() - from,
    {
        let k = find_char(v.as_slice(), '\n', from);
        let ghost before = texts(out@);
        let ghost t = s@.skip(from as int);
        let part = slice_of(v.as_slice(), from, k);
        proof {
            lemma_find_skip(s@, '\n', from as int);
            lemma_find_from(t, '\n', 0);
            assert(part@ =~= t.take(k - from));
        }
        out.push(string_of(part.as_slice()));
        proof {
            assert(texts(out@) =~= before.push(part@));
        }
        if k >= v.len() {
            proof {
                assert(part@ =~= t);
                assert(texts(out@) =~= before + seq![t]);
                assert(raw_lines_of(t) =~= seq![t]);
            }
            return out;
        }
        proof {
            assert(t.skip(k - from + 1) =~= s@.skip(k + 1));
            assert(before + (seq![part@] + raw_lines_of(s@.skip(k + 1))) =~= before.push(part@)
                + raw_lines_of(s@.skip(k + 1)));
        }
        from = k + 1;
    }
    proof {
        assert(s@.skip(from as int) =~= Seq::<char>::empty());
        assert(raw_lines_of(Seq::<char>::empty()) =~= Seq::<Seq<char>>::empty());
        assert(texts(out@) + Seq::<Seq<char>>::empty() =~= texts(out@));
    }
    out
}

/// Lines one after the other, each ended by a newline.
pub open spec fn unlined(lines: Seq<Seq<char>>) -> Seq<char>
    decreases lines.len(),
{
    if lines.len() == 0 {
        seq![]
    } else {
        unlined(lines.drop_last()) + lines.last().push('\n')
    }
}

/// Lines one after the other, each ended by a newline.
pub fn unlines(lines: &Vec<String>) -> (r: String)
    ensures
        r@ == unlined(texts(lines@)),
{
    let ghost all = texts(lines@);
    let mut out = String::new();
    let mut i: usize = 0;
    while i < lines.len()
        invariant
            i <= lines@.len(),
            all == texts(lines@),
            out@ == unlined(all.take(i as int)),
        decreases lines@.len() - i,
    {
        let ghost before = out@;
        out.append(lines[i].as_str());
        out.push('\n');
        proof {
            assert(all.take(i + 1).drop_last() =~= all.take(i as int));
            assert(all.take(i + 1).last() == lines@[i as int]@);
            assert(out@ =~= before + lines@[i as int]@.push('\n'));
        }
        i += 1;
    }
    proof {
        assert(all.take(all.len() as int) =~= all);
    }
    out
}

/// No line holds a newline.
pub open spec fn are_lines(lines: Seq<Seq<char>>) -> bool {
    forall|i: int| 0 <= i < lines.len() ==> !(#[trigger] lines[i]).contains('\n')
}

/// The lines of a text hold no newline.
pub proof fn lemma_raw_lines_are(s: Seq<char>)
    ensures
        are_lines(raw_lines_of(s)),
    decreases s.len(),
{
    lemma_find_from(s, '\n', 0);
    let k = find_from(s, '\n', 0);
    if s.len() > 0 {
        if k >= s.len() {
            assert(!s.contains('\n'));
        } else {
            lemma_raw_lines_are(s.skip(k + 1));
            let rest = raw_lines_of(s.skip(k + 1));
            assert(!s.take(k).contains('\n')) by {
                if s.take(k).contains('\n') {
                    let j = choose|j: int| 0 <= j < k && s.take(k)[j] == '\n';
                    assert(s[j] == '\n');
                }
            }
            let all = seq![s.take(k)] + rest;
            assert forall|i: int| 0 <= i < all.len() implies !(#[trigger] all[i]).contains(
                '\n',
            ) by {
                if i > 0 {
                    assert(all[i] == rest[i - 1]);
                }
            }
        }
    }
}

/// Lines put one after the other are the lines of the text that they make.
pub proof fn lemma_raw_lines_unlined(lines: Seq<Seq<char>>)
    requires
        are_lines(lines),
    ensures
        raw_lines_of(unlined(lines)) == lines,
    decreases lines.len(),
{
    if lines.len() == 0 {
        assert(raw_lines_of(unlined(lines)) =~= lines);
    } else {
        let first = lines[0];
        let rest = lines.skip(1);
        assert forall|i: int| 0 <= i < rest.len() implies !(#[trigger] rest[i]).contains(
            '\n',
        ) by {
            assert(rest[i] == lines[i + 1]);
        }
        lemma_unlined_first(lines);
        let s = unlined(lines);
        assert(s =~= first + seq!['\n'] + unlined(rest));
        assert forall|j: int| 0 <= j < first.len() implies s[j] != '\n' by {
            assert(first.contains(first[j]));
        }
        assert(s[first.len() as int] == '\n');
        lemma_find_from_is(s, '\n', 0, first.len() as int);
        assert(s.take(first.len() as int) =~= first);
        assert(s.skip(first.len() as int + 1) =~= unlined(rest));
        lemma_raw_lines_unlined(rest);
        assert(seq![first] + rest =~= lines);
    }
}

/// The first line stands first in the text that lines make.
pub proof fn lemma_unlined_first(lines: Seq<Seq<char>>)
    requires
        lines.len() > 0,
    ensures
        unlined(lines) == lines[0] + seq!['\n'] + unlined(lines.skip(1)),
    decreases lines.len(),
{
    let rest = lines.skip(1);
    if lines.len() == 1 {
        assert(lines.drop_last() =~= seq![]);
        assert(rest =~= seq![]);
        assert(unlined(lines) =~= lines[0] + seq!['\n'] + unlined(rest));
    } else {
        lemma_unlined_first(lines.drop_last());
        assert(lines.drop_last().skip(1) =~= rest.drop_last());
        assert(lines.drop_last()[0] == lines[0]);
        assert(rest.last() == lines.last());
        assert(unlined(lines) =~= lines[0] + seq!['\n'] + unlined(rest));
    }
}

/// Appends the strings of a list.
pub fn append(out: &mut Vec<String>, v: &Vec<String>)
    ensures
        texts(final(out)@) == texts(old(out)@) + texts(v@),
{
    let ghost base = texts(out@);
    let ghost all = texts(v@);
    let mut i: usize = 0;
    proof {
        assert(base + all.take(0) =~= base);
    }
    while i < v.len()
        invariant
            i <= v@.len(),
            all == texts(v@),
            texts(out@) == base + all.take(i as int),
        decreases v@.len() - i,
    {
        let ghost before = out@;
        out.push(v[i].clone());
        proof {
            lemma_texts_push(before, out@.last());
            assert(base + all.take(i + 1) =~= (base + all.take(i as int)).push(v@[i as int]@));
        }
        i += 1;
    }
    proof {
        assert(all.take(all.len() as int) =~= all);
    }
}

/// Whether two lists hold the same texts.
pub fn same_texts(a: &Vec<String>, b: &Vec<String>) -> (r: bool)
    ensures
        r == (texts(a@) == texts(b@)),
{
    if a.len() != b.len() {
        proof {
            assert(texts(a@).len() != texts(b@).len());
        }
        return false;
    }
    let mut i: usize = 0;
    while i < a.len()
        invariant
            i <= a@.len(),
            a@.len() == b@.len(),
            forall|j: int| 0 <= j < i ==> a@[j]@ == b@[j]@,
        decreases a@.len() - i,
    {
        if !same(a[i].as_str(), b[i].as_str()) {
            proof {
                assert(texts(a@)[i as int] != texts(b@)[i as int]);
            }
            return false;
        }
        i += 1;
    }
    proof {
        assert(texts(a@) =~= texts(b@));
    }
    true
}

/// The words of two texts with white space between them are the words of the one
/// and then the words of the other.
pub proof fn words_come_apart(a: Seq<char>, c: char, b: Seq<char>)
    requires
        is_white(c),
    ensures
        words_of(a.push(c) + b) == words_of(a) + words_of(b),
    decreases a.len(),
{
    let s = a.push(c) + b;
    if a.len() == 0 {
        assert(s[0] == c);
        assert(s.skip(1) =~= b);
        assert(trim_start(s) == trim_start(b));
        assert(trim_start(a) == a);
        assert(words_of(s) == words_of(b));
        assert(words_of(a) + words_of(b) =~= words_of(b));
    } else if is_white(a[0]) {
        assert(s[0] == a[0]);
        assert(s.skip(1) =~= a.skip(1).push(c) + b);
        words_come_apart(a.skip(1), c, b);
        assert(trim_start(s) == trim_start(s.skip(1)));
        assert(trim_start(a) == trim_start(a.skip(1)));
        assert(words_of(s) == words_of(s.skip(1)));
        assert(words_of(a) == words_of(a.skip(1)));
    } else {
        let k = find_white(a, 0);
        lemma_find_white(a, 0);
        if k == 0 {
            assert(is_white(a[0]));
        }
        assert(s[0] == a[0]);
        assert(trim_start(s) == s && trim_start(a) == a);
        assert forall|j: int| 0 <= j < k implies !is_white(s[j]) by {
            assert(s[j] == a[j]);
        }
        if k < a.len() {
            assert(s[k] == a[k]);
        } else {
            assert(s[k] == c);
        }
        lemma_find_white_is(s, 0, k);
        assert(s.take(k) =~= a.take(k));
        assert(s.skip(k) =~= a.skip(k).push(c) + b);
        words_come_apart(a.skip(k), c, b);
        assert(words_of(s) =~= seq![a.take(k)] + (words_of(a.skip(k)) + words_of(b)));
        assert(words_of(a) =~= seq![a.take(k)] + words_of(a.skip(k)));
        assert(words_of(s) =~= words_of(a) + words_of(b));
    }
}

/// A text without white space is one word, unless it is empty; an empty text has
/// none.
pub proof fn a_word_is_one_word(s: Seq<char>)
    requires
        forall|i: int| 0 <= i < s.len() ==> !is_white(#[trigger] s[i]),
    ensures
        words_of(s) == if s.len() == 0 {
            Seq::<Seq<char>>::empty()
        } else {
            seq![s]
        },
{
    if s.len() > 0 {
        lemma_find_white_is(s, 0, s.len() as int);
        assert(s.take(s.len() as int) =~= s);
        let rest = s.skip(s.len() as int);
        assert(rest =~= seq![]);
        assert(trim_start(rest) == rest);
        assert(words_of(rest) =~= seq![]);
        assert(words_of(s) =~= seq![s]);
    } else {
        assert(trim_start(s) == s);
        assert(words_of(s) =~= seq![]);
    }
}

/// Trimming takes white space off the two ends, all of it, and nothing else.
pub proof fn trimming_takes_the_ends(s: Seq<char>) -> (r: (int, int))
    ensures
        0 <= r.0 <= r.1 <= s.len(),
        trimmed(s) == s.subrange(r.0, r.1),
        forall|i: int| 0 <= i < r.0 ==> is_white(#[trigger] s[i]),
        forall|i: int| r.1 <= i < s.len() ==> is_white(#[trigger] s[i]),
        r.0 < r.1 ==> !is_white(s[r.0]) && !is_white(s[r.1 - 1]),
{
    let a = lemma_start_taken(s);
    let t = s.skip(a);
    let b = lemma_end_taken(t);
    assert(trimmed(s) == t.take(b));
    assert(t.take(b) =~= s.subrange(a, a + b));
    assert forall|i: int| a + b <= i < s.len() implies is_white(#[trigger] s[i]) by {
        assert(t[i - a] == s[i]);
    }
    if b > 0 {
        assert(t[0] == s[a] && t[b - 1] == s[a + b - 1]);
    }
    (a, a + b)
}

proof fn lemma_start_taken(s: Seq<char>) -> (a: int)
    ensures
        0 <= a <= s.len(),
        trim_start(s) == s.skip(a),
        forall|i: int| 0 <= i < a ==> is_white(#[trigger] s[i]),
        a < s.len() ==> !is_white(s[a]),
    decreases s.len(),
{
    if s.len() > 0 && is_white(s[0]) {
        let b = lemma_start_taken(s.skip(1));
        assert(s.skip(1).skip(b) =~= s.skip(b + 1));
        assert forall|i: int| 0 <= i < b + 1 implies is_white(#[trigger] s[i]) by {
            if i > 0 {
                assert(s.skip(1)[i - 1] == s[i]);
            }
        }
        if b < s.skip(1).len() {
            assert(s.skip(1)[b] == s[b + 1]);
        }
        b + 1
    } else {
        assert(s.skip(0) =~= s);
        0
    }
}

proof fn lemma_end_taken(s: Seq<char>) -> (b: int)
    ensures
        0 <= b <= s.len(),
        trim_end(s) == s.take(b),
        forall|i: int| b <= i < s.len() ==> is_white(#[trigger] s[i]),
        b > 0 ==> !is_white(s[b - 1]),
    decreases s.len(),
{
    if s.len() > 0 && is_white(s.last()) {
        let t = s.drop_last();
        let b = lemma_end_taken(t);
        assert(t.take(b) =~= s.take(b));
        assert forall|i: int| b <= i < s.len() implies is_white(#[trigger] s[i]) by {
            if i < t.len() {
                assert(t[i] == s[i]);
            }
        }
        if b > 0 {
            assert(t[b - 1] == s[b - 1]);
        }
        b
    } else {
        assert(s.take(s.len() as int) =~= s);
        s.len() as int
    }
}

/// Splitting parts a text at every separator: what stands before the first one
/// comes first, and then the parts of what follows it.
pub proof fn parts_come_apart(a: Seq<char>, c: char, b: Seq<char>)
    requires
        !a.contains(c),
    ensures
        split_of(a.push(c) + b, c) == seq![a] + split_of(b, c),
        split_of(a, c) == seq![a],
        split_once_of(a.push(c) + b, c) == Some((a, b)),
        split_once_of(a, c) is None,
{
    let s = a.push(c) + b;
    let k = a.len() as int;
    assert forall|j: int| 0 <= j < k implies s[j] != c && a[j] != c by {
        assert(s[j] == a[j]);
        assert(a.contains(a[j]));
    }
    assert(s[k] == c);
    lemma_find_from_is(s, c, 0, k);
    lemma_find_from_is(a, c, 0, k);
    assert(s.take(k) =~= a);
    assert(s.skip(k + 1) =~= b);
}

/// The lines of a text are its first line and then the lines of what follows it.
pub proof fn lines_come_apart(a: Seq<char>, b: Seq<char>)
    requires
        !a.contains('\n'),
    ensures
        lines_of(a.push('\n') + b) == seq![strip_return(a)] + lines_of(b),
        a.len() > 0 ==> lines_of(a) == seq![a],
{
    let s = a.push('\n') + b;
    let k = a.len() as int;
    assert forall|j: int| 0 <= j < k implies s[j] != '\n' && a[j] != '\n' by {
        assert(s[j] == a[j]);
        assert(a.contains(a[j]));
    }
    assert(s[k] == '\n');
    lemma_find_from_is(s, '\n', 0, k);
    lemma_find_from_is(a, '\n', 0, k);
    assert(s.take(k) =~= a);
    assert(s.skip(k + 1) =~= b);
}

} // verus!
