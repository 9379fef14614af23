//! The non-fatal error kinds the library reports to its caller.
use vstd::prelude::*;

verus! {

/// A caller-input or state-consistency error. Fatal conditions (a corpus
/// that fails to load, a state file that cannot be read or written) belong
/// to the I/O layer around the library, not here.
#[derive(Clone, Copy, Debug, PartialEq, Eq, Structural)]
pub enum DictError {
    /// The caller's matching pattern is not a valid regular expression.
    InvalidPattern,
    /// The word asked to be favorited is not a corpus word.
    NotInCorpus,
    /// The word asked to be favorited already is one.
    AlreadyFavorited,
    /// The word asked to be removed is not a favorite.
    NotFavorited,
}

impl DictError {
    /// A short user-facing description.
    pub fn message(&self) -> (r: &'static str)
        ensures
            r@.len() > 0,
    {
        let m = match self {
            DictError::InvalidPattern => "Invalid regex pattern",
            DictError::NotInCorpus => "not in the dictionary",
            DictError::AlreadyFavorited => "already in favorites",
            DictError::NotFavorited => "not in favorites",
        };
        proof {
            reveal_strlit("Invalid regex pattern");
            reveal_strlit("not in the dictionary");
            reveal_strlit("already in favorites");
            reveal_strlit("not in favorites");
        }
        m
    }
}

} // verus!
