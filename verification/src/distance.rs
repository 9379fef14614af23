//! Edit distance: the mathematical definition, and the outside routine
//! that computes it.
use vstd::prelude::*;

verus! {

/// The smaller of two naturals.
pub open spec fn min_nat(a: nat, b: nat) -> nat {
    if a <= b {
        a
    } else {
        b
    }
}

/// Levenshtein edit distance: the minimum number of character insertions,
/// deletions and substitutions that turn `a` into `b`.
pub open spec fn edit_dist(a: Seq<char>, b: Seq<char>) -> nat
    decreases a.len() + b.len(),
{
    if a.len() == 0 {
        b.len()
    } else if b.len() == 0 {
        a.len()
    } else {
        let swap_cost: nat = if a[0] == b[0] {
            0
        } else {
            1
        };
        min_nat(
            edit_dist(a.drop_first(), b) + 1,
            min_nat(
                edit_dist(a, b.drop_first()) + 1,
                edit_dist(a.drop_first(), b.drop_first()) + swap_cost,
            ),
        )
    }
}

/// Relies on `strsim::levenshtein`: the minimum number of character
/// insertions, deletions and substitutions required to change one string
/// into the other.
#[verifier::external_body]
pub fn levenshtein(a: &str, b: &str) -> (r: usize)
    ensures
        r == edit_dist(a@, b@),
{
    strsim::levenshtein(a, b)
}

} // verus!
