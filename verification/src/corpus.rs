//! The loaded dictionary: an ordered list of word/definitions records.
//!
//! The corpus keeps every loaded record, so a word appearing twice
//! (homonyms with separate definition sets) loses nothing, and it fixes a
//! deterministic enumeration of the distinct words — first occurrence
//! first — which the suggestion engine and the word-of-day selection both
//! rely on.
use vstd::prelude::*;

use crate::text::{contains_str, str_eq, str_views, to_lowercase, to_uppercase, lower_of, upper_of};

verus! {

/// One loaded corpus record: a headword and its definitions, in load order.
pub struct Pair {
    pub word: String,
    pub definitions: Vec<String>,
}

/// The words of a record sequence, in load order, duplicates and all.
pub open spec fn words_of(entries: Seq<Pair>) -> Seq<Seq<char>> {
    entries.map_values(|p: Pair| p.word@)
}

/// The distinct words of `ws`, each at its first occurrence.
pub open spec fn dedup_keys(ws: Seq<Seq<char>>) -> Seq<Seq<char>>
    decreases ws.len(),
{
    if ws.len() == 0 {
        Seq::<Seq<char>>::empty()
    } else {
        let d = dedup_keys(ws.drop_last());
        if d.contains(ws.last()) {
            d
        } else {
            d.push(ws.last())
        }
    }
}

/// `dedup_keys` keeps exactly the members of `ws`, once each.
pub proof fn lemma_dedup_keys(ws: Seq<Seq<char>>)
    ensures
        dedup_keys(ws).no_duplicates(),
        forall|w: Seq<char>| #[trigger] dedup_keys(ws).contains(w) <==> ws.contains(w),
        dedup_keys(ws).len() <= ws.len(),
    decreases ws.len(),
{
    if ws.len() == 0 {
    } else {
        let rest = ws.drop_last();
        lemma_dedup_keys(rest);
        let d = dedup_keys(rest);
        let dk = dedup_keys(ws);
        assert forall|w: Seq<char>| #[trigger] dk.contains(w) implies ws.contains(w) by {
            let i = choose|i: int| 0 <= i < dk.len() && dk[i] == w;
            if i < d.len() {
                assert(d[i] == w);
                assert(d.contains(w));
                assert(rest.contains(w));
                let k = choose|k: int| 0 <= k < rest.len() && rest[k] == w;
                assert(ws[k] == w);
            } else {
                assert(dk[i] == ws.last());
                assert(ws[ws.len() - 1] == w);
            }
        }
        assert forall|w: Seq<char>| ws.contains(w) implies #[trigger] dk.contains(w) by {
            let i = choose|i: int| 0 <= i < ws.len() && ws[i] == w;
            if i < ws.len() - 1 {
                assert(rest[i] == w);
                assert(rest.contains(w));
                assert(d.contains(w));
                let k = choose|k: int| 0 <= k < d.len() && d[k] == w;
                assert(dk[k] == w);
            } else {
                if d.contains(ws.last()) {
                    let k = choose|k: int| 0 <= k < d.len() && d[k] == ws.last();
                    assert(dk[k] == w);
                } else {
                    assert(dk[dk.len() - 1] == w);
                }
            }
        }
        if !d.contains(ws.last()) {
            assert forall|i: int, j: int|
                0 <= i < j < dedup_keys(ws).len() implies dedup_keys(ws)[i] != dedup_keys(
                ws,
            )[j] by {
                if j < d.len() {
                } else {
                    assert(dedup_keys(ws)[j] == ws.last());
                    assert(d.contains(d[i]));
                }
            }
        }
    }
}

/// The definitions stored for `w`: the concatenation, in load order, of the
/// definition lists of every record whose word is `w`.
pub open spec fn lookup_spec(entries: Seq<Pair>, w: Seq<char>) -> Seq<Seq<char>>
    decreases entries.len(),
{
    if entries.len() == 0 {
        Seq::<Seq<char>>::empty()
    } else {
        lookup_spec(entries.drop_last(), w) + if entries.last().word@ == w {
            entries.last().definitions.deep_view()
        } else {
            Seq::<Seq<char>>::empty()
        }
    }
}

/// The corpus: the loaded records plus the fixed enumeration of their
/// distinct words.
pub struct Corpus {
    entries: Vec<Pair>,
    keys: Vec<String>,
}

impl Corpus {
    /// The loaded records.
    pub closed spec fn entries_seq(&self) -> Seq<Pair> {
        self.entries@
    }

    /// The distinct words, first occurrence first: the corpus's fixed key
    /// enumeration.
    pub closed spec fn key_seq(&self) -> Seq<Seq<char>> {
        str_views(self.keys@)
    }

    /// The key enumeration is exactly the distinct words of the records.
    pub open spec fn wf(&self) -> bool {
        self.key_seq() == dedup_keys(words_of(self.entries_seq()))
    }

    /// Whether `w` is a corpus word.
    pub open spec fn has_word(&self, w: Seq<char>) -> bool {
        self.key_seq().contains(w)
    }

    /// Builds the corpus from loaded records, keeping every record.
    pub fn new(entries: Vec<Pair>) -> (r: Corpus)
        ensures
            r.wf(),
            r.entries_seq() == entries@,
    {
        let mut keys: Vec<String> = Vec::new();
        let mut i: usize = 0;
        while i < entries.len()
            invariant
                i <= entries@.len(),
                str_views(keys@) == dedup_keys(words_of(entries@.take(i as int))),
            decreases entries@.len() - i,
        {
            let ghost prev = words_of(entries@.take(i as int));
            let ghost cur = words_of(entries@.take(i + 1));
            proof {
                assert(cur.drop_last() =~= prev);
                assert(cur.last() == entries@[i as int].word@);
            }
            let w = entries[i].word.clone();
            if !contains_str(&keys, w.as_str()) {
                keys.push(w);
                proof {
                    assert(str_views(keys@) =~= dedup_keys(cur));
                }
            }
            i = i + 1;
        }
        proof {
            assert(entries@.take(entries@.len() as int) =~= entries@);
        }
        Corpus { entries, keys }
    }

    /// How many distinct words the corpus holds.
    pub fn len(&self) -> (r: usize)
        ensures
            r == self.key_seq().len(),
    {
        self.keys.len()
    }

    /// Whether the corpus is empty.
    pub fn is_empty(&self) -> (r: bool)
        ensures
            r == (self.key_seq().len() == 0),
    {
        self.keys.len() == 0
    }

    /// Whether `word` is a corpus word (case-sensitive).
    pub fn contains_key(&self, word: &str) -> (r: bool)
        ensures
            r == self.has_word(word@),
    {
        contains_str(&self.keys, word)
    }

    /// The key at position `i` of the fixed enumeration.
    pub fn key_at(&self, i: usize) -> (r: &String)
        requires
            i < self.key_seq().len(),
        ensures
            r@ == self.key_seq()[i as int],
    {
        &self.keys[i]
    }

    /// Case-sensitive exact lookup: all definitions stored for `word`, in
    /// load order, or a miss when `word` is not a corpus word.
    pub fn exact_lookup(&self, word: &str) -> (r: Option<Vec<String>>)
        requires
            self.wf(),
        ensures
            match r {
                Some(defs) => self.has_word(word@) && defs.deep_view() == lookup_spec(
                    self.entries_seq(),
                    word@,
                ),
                None => !self.has_word(word@),
            },
    {
        let mut out: Vec<String> = Vec::new();
        let mut found = false;
        let mut i: usize = 0;
        while i < self.entries.len()
            invariant
                i <= self.entries@.len(),
                out.deep_view() == lookup_spec(self.entries@.take(i as int), word@),
                found == words_of(self.entries@.take(i as int)).contains(word@),
            decreases self.entries@.len() - i,
        {
            let ghost prev = self.entries@.take(i as int);
            let ghost cur = self.entries@.take(i + 1);
            proof {
                assert(cur.drop_last() =~= prev);
                assert(cur.last() == self.entries@[i as int]);
                assert(words_of(cur).drop_last() =~= words_of(prev));
                assert(words_of(cur).last() == self.entries@[i as int].word@);
                if words_of(cur).contains(word@) {
                    let k = choose|k: int|
                        0 <= k < words_of(cur).len() && words_of(cur)[k] == word@;
                    if k < i {
                        assert(words_of(prev)[k] == word@);
                    }
                }
                if words_of(prev).contains(word@) {
                    let k = choose|k: int|
                        0 <= k < words_of(prev).len() && words_of(prev)[k] == word@;
                    assert(words_of(cur)[k] == word@);
                }
            }
            if str_eq(self.entries[i].word.as_str(), word) {
                found = true;
                let defs = &self.entries[i].definitions;
                proof {
                    assert(out.deep_view() =~= lookup_spec(self.entries@.take(i as int), word@)
                        + defs.deep_view().take(0));
                }
                let mut j: usize = 0;
                while j < defs.len()
                    invariant
                        j <= defs@.len(),
                        defs == &self.entries@[i as int].definitions,
                        out.deep_view() == lookup_spec(self.entries@.take(i as int), word@)
                            + defs.deep_view().take(j as int),
                    decreases defs@.len() - j,
                {
                    let ghost before = out.deep_view();
                    out.push(defs[j].clone());
                    proof {
                        assert(out.deep_view() =~= before.push(defs@[j as int]@));
                        assert(defs.deep_view().take(j + 1) =~= defs.deep_view().take(
                            j as int,
                        ).push(defs@[j as int]@));
                        assert(out.deep_view() =~= lookup_spec(
                            self.entries@.take(i as int),
                            word@,
                        ) + defs.deep_view().take(j + 1));
                    }
                    j = j + 1;
                }
                proof {
                    assert(defs.deep_view().take(defs@.len() as int) =~= defs.deep_view());
                    assert(out.deep_view() =~= lookup_spec(cur, word@));
                }
            } else {
                proof {
                    assert(out.deep_view() =~= lookup_spec(cur, word@));
                }
            }
            i = i + 1;
        }
        proof {
            assert(self.entries@.take(self.entries@.len() as int) =~= self.entries@);
            lemma_dedup_keys(words_of(self.entries@));
        }
        if found {
            Some(out)
        } else {
            None
        }
    }

    /// A display hint: `word` is entirely in lower case and its upper-cased
    /// form is a different string that is itself a corpus word.
    pub fn capitalized_variant_hint(&self, word: &str) -> (r: bool)
        requires
            self.wf(),
        ensures
            r == (lower_of(word@) == word@ && upper_of(word@) != word@ && self.has_word(
                upper_of(word@),
            )),
    {
        let lw = to_lowercase(word);
        if !str_eq(lw.as_str(), word) {
            return false;
        }
        let uw = to_uppercase(word);
        if str_eq(uw.as_str(), word) {
            return false;
        }
        self.contains_key(uw.as_str())
    }
}

} // verus!
