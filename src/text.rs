use vstd::prelude::*;

use crate::decoder::lemma_filter_push;

verus! {

/// Ids up to and including this one are control or special tokens, which carry
/// no text.
pub const LAST_SPECIAL_TOKEN: usize = 14;

/// Whether token id `t` carries text.
pub open spec fn is_visible(t: usize) -> bool {
    t > LAST_SPECIAL_TOKEN
}

/// The ids of `tokens` that carry text, in order.
pub fn visible_tokens(tokens: &Vec<usize>) -> (r: Vec<usize>)
    ensures
        r@ == tokens@.filter(|t: usize| is_visible(t)),
{
    let mut r: Vec<usize> = Vec::new();
    let mut i: usize = 0;
    while i < tokens.len()
        invariant
            0 <= i <= tokens.len(),
            r@ == tokens@.subrange(0, i as int).filter(|t: usize| is_visible(t)),
        decreases tokens.len() - i,
    {
        let t = tokens[i];
        proof {
            assert(tokens@.subrange(0, i + 1) =~= tokens@.subrange(0, i as int).push(t));
            lemma_filter_push(tokens@.subrange(0, i as int), t, |t: usize| is_visible(t));
        }
        if t > LAST_SPECIAL_TOKEN {
            r.push(t);
        }
        i = i + 1;
    }
    assert(tokens@.subrange(0, i as int) =~= tokens@);
    r
}

} // verus!
