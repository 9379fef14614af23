//! The favorites store logic: a validated, duplicate-free list of corpus
//! words. Loading and saving the backing file is the caller's business;
//! the rules live here.
use vstd::prelude::*;

use crate::corpus::Corpus;
use crate::errors::DictError;
use crate::text::{contains_str, str_eq, str_views};

verus! {

/// Keeping an entry means it is not the removed word.
pub open spec fn keep_other(w: Seq<char>) -> spec_fn(Seq<char>) -> bool {
    |x: Seq<char>| x != w
}

/// What removing `w` leaves of a stored favorites list: every entry that
/// is not `w`, in its old order.
pub open spec fn fav_remove(f: Seq<Seq<char>>, w: Seq<char>) -> Seq<Seq<char>> {
    f.filter(keep_other(w))
}

/// Adds `word` to the loaded favorites. Fails, leaving the list as it
/// was, when `word` already is a favorite or is not a corpus word.
pub fn add(favorites: &mut Vec<String>, word: &str, corpus: &Corpus) -> (r: Result<
    (),
    DictError,
>)
    requires
        corpus.wf(),
    ensures
        str_views(old(favorites)@).contains(word@) ==> r == Err::<(), DictError>(
            DictError::AlreadyFavorited,
        ),
        !str_views(old(favorites)@).contains(word@) && !corpus.has_word(word@) ==> r == Err::<
            (),
            DictError,
        >(DictError::NotInCorpus),
        !str_views(old(favorites)@).contains(word@) && corpus.has_word(word@) ==> r is Ok
            && str_views(final(favorites)@) == str_views(old(favorites)@).push(word@),
        r is Err ==> *final(favorites) == *old(favorites),
{
    if contains_str(favorites, word) {
        return Err(DictError::AlreadyFavorited);
    }
    if !corpus.contains_key(word) {
        return Err(DictError::NotInCorpus);
    }
    let ghost before = str_views(favorites@);
    favorites.push(word.to_owned());
    proof {
        assert(str_views(favorites@) =~= before.push(word@));
    }
    Ok(())
}

/// Removes `word` from the loaded favorites. Fails, leaving the list as
/// it was, when `word` is not a favorite.
pub fn remove(favorites: &mut Vec<String>, word: &str) -> (r: Result<(), DictError>)
    ensures
        !str_views(old(favorites)@).contains(word@) ==> r == Err::<(), DictError>(
            DictError::NotFavorited,
        ) && *final(favorites) == *old(favorites),
        str_views(old(favorites)@).contains(word@) ==> r is Ok && str_views(final(favorites)@)
            == fav_remove(str_views(old(favorites)@), word@),
{
    if !contains_str(favorites, word) {
        return Err(DictError::NotFavorited);
    }
    let ghost f0 = str_views(favorites@);
    let ghost pred = keep_other(word@);
    let mut out: Vec<String> = Vec::new();
    proof {
        reveal(Seq::filter);
        assert(f0.take(0) =~= Seq::<Seq<char>>::empty());
        assert(str_views(out@) =~= f0.take(0).filter(pred));
    }
    let mut i: usize = 0;
    while i < favorites.len()
        invariant
            i <= favorites@.len(),
            favorites == old(favorites),
            f0 == str_views(favorites@),
            pred == keep_other(word@),
            str_views(out@) == f0.take(i as int).filter(pred),
        decreases favorites@.len() - i,
    {
        let ghost prev = str_views(out@);
        if !str_eq(favorites[i].as_str(), word) {
            out.push(favorites[i].clone());
            proof {
                assert(str_views(out@) =~= prev.push(f0[i as int]));
            }
        }
        proof {
            assert(f0.take(i + 1) =~= f0.take(i as int).push(f0[i as int]));
            f0.take(i as int).lemma_filter_push(f0[i as int], pred);
        }
        i = i + 1;
    }
    proof {
        assert(f0.take(f0.len() as int) =~= f0);
    }
    *favorites = out;
    Ok(())
}

/// Every element of `s` satisfying `pred` means filtering changes nothing.
proof fn lemma_filter_all<A>(s: Seq<A>, pred: spec_fn(A) -> bool)
    requires
        forall|i: int| 0 <= i < s.len() ==> pred(#[trigger] s[i]),
    ensures
        s.filter(pred) == s,
    decreases s.len(),
{
    reveal(Seq::filter);
    if s.len() > 0 {
        lemma_filter_all(s.drop_last(), pred);
        assert(s[s.len() - 1] == s.last());
        assert(s.drop_last().push(s.last()) =~= s);
    }
}

/// Law: the store invariant survives an add: a word enters only once,
/// so entries stay unique.
pub proof fn lemma_fav_add_invariant(f: Seq<Seq<char>>, w: Seq<char>)
    requires
        f.no_duplicates(),
        !f.contains(w),
    ensures
        f.push(w).no_duplicates(),
{
    let r = f.push(w);
    assert forall|i: int, j: int| 0 <= i < j < r.len() implies r[i] != r[j] by {
        if j == r.len() - 1 {
            assert(f.contains(f[i]));
        }
    }
}

/// Law: the store invariant survives a remove: what stays was there
/// before, still unique and in its old order.
pub proof fn lemma_fav_remove_invariant(f: Seq<Seq<char>>, w: Seq<char>)
    requires
        f.no_duplicates(),
    ensures
        fav_remove(f, w).no_duplicates(),
        forall|x: Seq<char>| #[trigger] fav_remove(f, w).contains(x) ==> f.contains(x),
    decreases f.len(),
{
    reveal(Seq::filter);
    let pred = keep_other(w);
    let r = f.filter(pred);
    if f.len() > 0 {
        let rest = f.drop_last();
        lemma_fav_remove_invariant(rest, w);
        assert forall|x: Seq<char>| #[trigger] rest.filter(pred).contains(x) implies f.contains(
            x,
        ) by {
            assert(rest.contains(x));
            let i = choose|i: int| 0 <= i < rest.len() && rest[i] == x;
            assert(f[i] == x);
        }
        if pred(f.last()) {
            assert(r == rest.filter(pred).push(f.last()));
            assert forall|i: int, j: int| 0 <= i < j < r.len() implies r[i] != r[j] by {
                if j == r.len() - 1 {
                    assert(rest.filter(pred).contains(r[i]));
                    assert(rest.contains(r[i]));
                    let k = choose|k: int| 0 <= k < rest.len() && rest[k] == r[i];
                    assert(f[k] == r[i]);
                    assert(f.last() == f[f.len() - 1]);
                }
            }
            assert forall|x: Seq<char>| #[trigger] r.contains(x) implies f.contains(x) by {
                let i = choose|i: int| 0 <= i < r.len() && r[i] == x;
                if i < r.len() - 1 {
                    assert(rest.filter(pred)[i] == x);
                    assert(rest.filter(pred).contains(x));
                } else {
                    assert(x == f.last());
                    assert(f[f.len() - 1] == x);
                }
            }
        } else {
            assert(r == rest.filter(pred));
        }
    }
}

/// Law: adding a word that was no favorite and then removing it restores
/// the favorites exactly.
pub proof fn lemma_fav_add_remove_roundtrip(f: Seq<Seq<char>>, w: Seq<char>)
    requires
        !f.contains(w),
    ensures
        fav_remove(f.push(w), w) == f,
{
    let pred = keep_other(w);
    f.lemma_filter_push(w, pred);
    assert forall|i: int| 0 <= i < f.len() implies pred(#[trigger] f[i]) by {
        assert(f.contains(f[i]));
    }
    lemma_filter_all(f, pred);
}

} // verus!
