//! Paths, as texts.
use crate::text;
use vstd::prelude::*;

verus! {

/// A path below another: the second one alone where it starts at the root.
pub open spec fn below(base: Seq<char>, part: Seq<char>) -> Seq<char> {
    if (part.len() > 0 && part[0] == '/') || base.len() == 0 {
        part
    } else if base.last() == '/' {
        base + part
    } else {
        base + "/"@ + part
    }
}

/// A path below another.
pub fn join(base: &str, part: &str) -> (r: String)
    ensures
        r@ == below(base@, part@),
{
    let b = text::chars_of(base);
    let p = text::chars_of(part);
    if (p.len() > 0 && p[0] == '/') || b.len() == 0 {
        part.to_owned()
    } else if b[b.len() - 1] == '/' {
        text::concat2(base, part)
    } else {
        text::concat3(base, "/", part)
    }
}

} // verus!
