//! A personal dictionary library: exact lookup over a word/definitions
//! corpus, ranked prefix and fuzzy suggestions, and the small persistent
//! stores (search history, favorites, word of the day) that a lookup tool
//! keeps between runs.
#![verifier::loop_isolation(false)]
use vstd::prelude::*;

pub mod codec;
pub mod corpus;
pub mod distance;
pub mod favorites;
pub mod history;
pub mod errors;
pub mod pattern;
pub mod random;
pub mod suggest;
pub mod text;
pub mod wordofday;

pub use corpus::{Corpus, Pair};
pub use errors::DictError;
pub use suggest::{fuzzy_suggest, suggest_words};

verus! {

/// Builds the primary dictionary corpus from its loaded records.
pub fn get_default(entries: Vec<Pair>) -> (r: Corpus)
    ensures
        r.wf(),
        r.entries_seq() == entries@,
{
    Corpus::new(entries)
}

/// Builds the markup-annotated dictionary corpus from its loaded records.
pub fn get_markup(entries: Vec<Pair>) -> (r: Corpus)
    ensures
        r.wf(),
        r.entries_seq() == entries@,
{
    Corpus::new(entries)
}

} // verus!
