//! Texts character by character.

use vstd::prelude::*;


verus! {

/// The characters of `text`.
pub fn chars_of(text: &str) -> (r: Vec<char>)
    ensures
        r@ == text@,
{
    let mut out: Vec<char> = Vec::new();
    let rest = text.chars();
    for c in iter: rest
        invariant
            iter.seq() == text@,
            out@ == text@.take(iter.index() as int),
    {
        out.push(c);
        assert(out@ =~= text@.take(iter.index() + 1));
    }
    assert(text@.take(text@.len() as int) =~= text@);
    out
}

/// Whether `pattern` stands in `chars` at `at`.
pub fn holds_at(chars: &Vec<char>, at: usize, pattern: &str) -> (r: bool)
    ensures
        r == (at + pattern@.len() <= chars@.len() && chars@.subrange(
            at as int,
            at + pattern@.len(),
        ) == pattern@),
{
    if at > chars.len() {
        return false;
    }
    let mut i: usize = at;
    let rest = pattern.chars();
    assert(chars@.subrange(at as int, at as int) =~= pattern@.take(0));
    for c in iter: rest
        invariant
            iter.seq() == pattern@,
            i == at + iter.index(),
            i <= chars@.len(),
            chars@.subrange(at as int, i as int) == pattern@.take(iter.index() as int),
    {
        if i >= chars.len() {
            return false;
        }
        if chars[i] != c {
            assert(at + pattern@.len() <= chars@.len() ==> chars@.subrange(
                at as int,
                at + pattern@.len(),
            )[i - at] != pattern@[i - at]);
            return false;
        }
        assert(chars@.subrange(at as int, i + 1) =~= pattern@.take(iter.index() + 1));
        i += 1;
    }
    assert(pattern@.take(pattern@.len() as int) =~= pattern@);
    true
}

} // verus!
