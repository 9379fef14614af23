//! The search-history store logic: a bounded, deduplicated, append-only
//! log of search terms. Loading and saving the backing file is the
//! caller's business; the rules live here.
use vstd::prelude::*;

use crate::text::{contains_str, str_views};

verus! {

/// The most terms the history keeps; older terms are evicted first.
pub const HISTORY_LIMIT: usize = 70;

/// What adding `t` leaves in a stored history `h`: nothing new when `t`
/// is already present, else `t` at the end, with the oldest entries
/// dropped to stay within the cap.
pub open spec fn hist_add(h: Seq<Seq<char>>, t: Seq<char>) -> Seq<Seq<char>> {
    if h.contains(t) {
        h
    } else if h.len() + 1 > HISTORY_LIMIT {
        h.push(t).skip(h.len() + 1 - (HISTORY_LIMIT as int))
    } else {
        h.push(t)
    }
}

/// Records `term` in the loaded history and returns what should be
/// persisted back.
pub fn add(history: Vec<String>, term: &str) -> (r: Vec<String>)
    ensures
        str_views(r@) == hist_add(str_views(history@), term@),
{
    let ghost h0 = str_views(history@);
    let mut h = history;
    if contains_str(&h, term) {
        return h;
    }
    h.push(term.to_owned());
    let ghost pushed = str_views(h@);
    proof {
        assert(pushed =~= h0.push(term@));
    }
    while h.len() > HISTORY_LIMIT
        invariant
            h@.len() <= pushed.len(),
            h@.len() == pushed.len() || h@.len() >= HISTORY_LIMIT,
            str_views(h@) == pushed.skip(pushed.len() - h@.len()),
        decreases h@.len(),
    {
        let ghost before = str_views(h@);
        let _ = h.remove(0);
        proof {
            assert(str_views(h@) =~= before.skip(1));
            assert(before.skip(1) =~= pushed.skip(pushed.len() - h@.len()));
        }
    }
    proof {
        if h0.len() + 1 > HISTORY_LIMIT {
            assert(str_views(h@) == hist_add(h0, term@));
        } else {
            assert(pushed.skip(0) =~= pushed);
        }
    }
    h
}

/// Law: adding the same term twice in a row leaves the history exactly as
/// the first add left it.
pub proof fn lemma_hist_add_idempotent(h: Seq<Seq<char>>, t: Seq<char>)
    ensures
        hist_add(hist_add(h, t), t) == hist_add(h, t),
{
    let r = hist_add(h, t);
    if !h.contains(t) {
        let pushed = h.push(t);
        assert(pushed[pushed.len() - 1] == t);
        if h.len() + 1 > HISTORY_LIMIT {
            let k = h.len() + 1 - (HISTORY_LIMIT as int);
            assert(r == pushed.skip(k));
            assert(r[r.len() - 1] == pushed[pushed.len() - 1]);
        }
        assert(r[r.len() - 1] == t);
        assert(r.contains(t));
    }
}

/// Law: the store invariant survives an add: never more than the cap,
/// never a duplicate, surviving entries in their old order with the new
/// term last.
pub proof fn lemma_hist_add_invariant(h: Seq<Seq<char>>, t: Seq<char>)
    requires
        h.no_duplicates(),
        h.len() <= HISTORY_LIMIT,
    ensures
        hist_add(h, t).no_duplicates(),
        hist_add(h, t).len() <= HISTORY_LIMIT,
        hist_add(h, t).contains(t),
{
    let r = hist_add(h, t);
    if h.contains(t) {
    } else {
        let pushed = h.push(t);
        assert forall|i: int, j: int| 0 <= i < j < pushed.len() implies pushed[i] != pushed[j] by {
            if j < h.len() {
            } else {
                assert(pushed[j] == t);
                assert(h.contains(h[i]));
            }
        }
        assert(pushed.no_duplicates());
        if h.len() + 1 > HISTORY_LIMIT {
            let k = h.len() + 1 - (HISTORY_LIMIT as int);
            assert(r == pushed.skip(k));
            assert forall|i: int, j: int| 0 <= i < j < r.len() implies r[i] != r[j] by {
                assert(r[i] == pushed[k + i]);
                assert(r[j] == pushed[k + j]);
            }
            assert(r[r.len() - 1] == pushed[pushed.len() - 1]);
        } else {
            assert(r[r.len() - 1] == t);
        }
        assert(r.contains(r[r.len() - 1]));
    }
}

} // verus!
