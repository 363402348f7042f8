//! Normalisation of the text read from script and recipe files.
use vstd::prelude::*;

use crate::text::{chars_of, string_of};

verus! {

/// `s` without its carriage returns.
pub open spec fn without_cr(s: Seq<char>) -> Seq<char>
    decreases s.len(),
{
    if s.len() == 0 {
        Seq::empty()
    } else if s.last() == '\r' {
        without_cr(s.drop_last())
    } else {
        without_cr(s.drop_last()).push(s.last())
    }
}

/// The decoded contents of a file with its carriage returns removed, so that
/// lines end with a bare line feed.
pub fn strip_carriage_returns(contents: &str) -> (r: String)
    ensures
        r@ == without_cr(contents@),
{
    let cs = chars_of(contents);
    let mut out: Vec<char> = Vec::new();
    let mut i: usize = 0;
    while i < cs.len()
        invariant
            i <= cs@.len(),
            out@ == without_cr(cs@.subrange(0, i as int)),
        decreases cs@.len() - i,
    {
        assert(cs@.subrange(0, i + 1).drop_last() =~= cs@.subrange(0, i as int));
        if cs[i] != '\r' {
            out.push(cs[i]);
        }
        i = i + 1;
    }
    assert(cs@.subrange(0, cs@.len() as int) =~= cs@);
    string_of(&out)
}

} // verus!
