//! The random picker: one uniformly drawn corpus word, freshly seeded on
//! every call and never persisted.
use vstd::prelude::*;

use crate::corpus::Corpus;

verus! {

/// Relies on `rand::random_range` over `0..n`: the drawn value lies in
/// the range. Nothing more can be said of a random draw. The `requires`
/// keeps the range non-empty, on which the call would panic.
#[verifier::external_body]
fn random_index(n: usize) -> (r: usize)
    requires
        n > 0,
    ensures
        r < n,
{
    rand::random_range(0..n)
}

/// A uniformly random corpus word; a miss exactly when the corpus is
/// empty. Whatever the draw, the result is a corpus word.
pub fn get_random_word(corpus: &Corpus) -> (r: Option<String>)
    ensures
        r is Some <==> corpus.key_seq().len() > 0,
        r matches Some(w) ==> corpus.key_seq().contains(w@),
{
    let n = corpus.len();
    if n == 0 {
        return None;
    }
    let i = random_index(n);
    let w = corpus.key_at(i).clone();
    proof {
        assert(corpus.key_seq()[i as int] == w@);
    }
    Some(w)
}

} // verus!
