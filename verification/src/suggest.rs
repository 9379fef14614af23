//! The suggestion engine: ranked "did you mean" candidates, by
//! case-insensitive prefix, by a caller-supplied pattern, or by bounded
//! edit distance, with deterministic ordering and pagination.
use vstd::prelude::*;
use vstd::relations::{sorted_by, total_ordering};

use crate::corpus::Corpus;
use crate::distance::{edit_dist, levenshtein};
use crate::errors::DictError;
use crate::pattern::{regex_match, regex_ok, CompiledPattern};
use crate::text::{lex_le, lower_of, str_is_prefix, str_views, to_lowercase, lemma_lex_le_total, str_lex_le};

verus! {

/// A scored candidate: a corpus word and its rank (smaller ranks first).
struct Cand {
    word: String,
    rank: usize,
}

/// The mathematical content of a candidate.
spec fn cand_view(c: Cand) -> (Seq<char>, nat) {
    (c.word@, c.rank as nat)
}

/// The mathematical content of a candidate list.
spec fn cand_views(s: Seq<Cand>) -> Seq<(Seq<char>, nat)> {
    s.map_values(|c: Cand| cand_view(c))
}

/// Candidate order: ascending rank, ties broken lexicographically by word.
pub open spec fn cand_order() -> spec_fn((Seq<char>, nat), (Seq<char>, nat)) -> bool {
    |a: (Seq<char>, nat), b: (Seq<char>, nat)|
        a.1 < b.1 || (a.1 == b.1 && lex_le(a.0, b.0))
}

/// The candidate order is a total order.
pub proof fn lemma_cand_order_total()
    ensures
        total_ordering(cand_order()),
{
    let leq = cand_order();
    assert forall|x: (Seq<char>, nat)| #[trigger] leq(x, x) by {
        lemma_lex_le_total(x.0, x.0, x.0);
    }
    assert forall|x: (Seq<char>, nat), y: (Seq<char>, nat)|
        #[trigger] leq(x, y) && #[trigger] leq(y, x) implies x == y by {
        lemma_lex_le_total(x.0, y.0, x.0);
    }
    assert forall|x: (Seq<char>, nat), y: (Seq<char>, nat), z: (Seq<char>, nat)|
        #[trigger] leq(x, y) && #[trigger] leq(y, z) implies leq(x, z) by {
        lemma_lex_le_total(x.0, y.0, z.0);
    }
    assert forall|x: (Seq<char>, nat), y: (Seq<char>, nat)|
        #[trigger] leq(x, y) || #[trigger] leq(y, x) by {
        lemma_lex_le_total(x.0, y.0, x.0);
    }
}

/// The rank of a prefix candidate: how many characters longer than the
/// query it is (zero when it is not longer).
pub open spec fn prefix_rank(k: Seq<char>, qlen: nat) -> nat {
    if k.len() >= qlen {
        (k.len() - qlen) as nat
    } else {
        0
    }
}

/// The prefix-mode matching rule: the candidate's lower-case form starts
/// with the query's lower-case form.
pub open spec fn prefix_pred(q: Seq<char>) -> spec_fn(Seq<char>) -> bool {
    |k: Seq<char>| lower_of(q).is_prefix_of(lower_of(k))
}

/// The pattern-mode matching rule: the compiled pattern matches the
/// candidate.
pub open spec fn pattern_pred(p: Seq<char>) -> spec_fn(Seq<char>) -> bool {
    |k: Seq<char>| regex_match(p, k)
}

/// The fuzzy-mode matching rule: edit distance at most `fuzzy_level`.
pub open spec fn fuzzy_pred(q: Seq<char>, fuzzy_level: nat) -> spec_fn(Seq<char>) -> bool {
    |k: Seq<char>| edit_dist(q, k) <= fuzzy_level
}

/// Pairs each word with its prefix rank against a query of length `qlen`.
pub open spec fn with_prefix_ranks(ks: Seq<Seq<char>>, qlen: nat) -> Seq<(Seq<char>, nat)> {
    ks.map_values(|k: Seq<char>| (k, prefix_rank(k, qlen)))
}

/// Pairs each word with its edit distance from the query.
pub open spec fn with_distances(ks: Seq<Seq<char>>, q: Seq<char>) -> Seq<(Seq<char>, nat)> {
    ks.map_values(|k: Seq<char>| (k, edit_dist(q, k)))
}

/// The words of a ranked candidate list, ranks dropped.
pub open spec fn words(cands: Seq<(Seq<char>, nat)>) -> Seq<Seq<char>> {
    cands.map_values(|c: (Seq<char>, nat)| c.0)
}

/// The page of `ws` a caller asked for: everything, or `limit` entries
/// starting at `offset`.
pub open spec fn page(ws: Seq<Seq<char>>, limit: int, offset: int, display_all: bool) -> Seq<
    Seq<char>,
> {
    if display_all {
        ws
    } else if offset >= ws.len() {
        Seq::<Seq<char>>::empty()
    } else if limit > ws.len() - offset {
        ws.subrange(offset, ws.len() as int)
    } else {
        ws.subrange(offset, offset + limit)
    }
}

/// All prefix-mode candidates for `q`, ranked.
pub open spec fn prefix_suggestions(keys: Seq<Seq<char>>, q: Seq<char>) -> Seq<(Seq<char>, nat)> {
    with_prefix_ranks(keys.filter(prefix_pred(q)), q.len()).sort_by(cand_order())
}

/// All pattern-mode candidates for `p`, ranked. With no query word given,
/// a candidate's rank is its own length.
pub open spec fn pattern_suggestions(keys: Seq<Seq<char>>, p: Seq<char>) -> Seq<(Seq<char>, nat)> {
    with_prefix_ranks(keys.filter(pattern_pred(p)), 0).sort_by(cand_order())
}

/// All fuzzy-mode candidates for `q` within distance `fuzzy_level`, ranked.
pub open spec fn fuzzy_suggestions(keys: Seq<Seq<char>>, q: Seq<char>, fuzzy_level: nat) -> Seq<
    (Seq<char>, nat),
> {
    with_distances(keys.filter(fuzzy_pred(q, fuzzy_level)), q).sort_by(cand_order())
}

/// Every member of a ranked candidate list came from the matching keys
/// and carries the rank the ranking function assigns its word.
proof fn lemma_ranked_members(
    keys: Seq<Seq<char>>,
    pred: spec_fn(Seq<char>) -> bool,
    rank: spec_fn(Seq<char>) -> nat,
)
    ensures
        forall|x: (Seq<char>, nat)|
            keys.filter(pred).map_values(|k: Seq<char>| (k, rank(k))).sort_by(
                cand_order(),
            ).contains(x) ==> #[trigger] pred(x.0) && x.1 == rank(x.0),
{
    let filtered = keys.filter(pred);
    let cands = filtered.map_values(|k: Seq<char>| (k, rank(k)));
    let s = cands.sort_by(cand_order());
    lemma_cand_order_total();
    cands.lemma_sort_by_ensures(cand_order());
    assert forall|x: (Seq<char>, nat)| s.contains(x) implies #[trigger] pred(x.0) && x.1 == rank(
        x.0,
    ) by {
        assert(cands.contains(x));
        let k = choose|k: int| 0 <= k < cands.len() && cands[k] == x;
        assert(cands[k] == (filtered[k], rank(filtered[k])));
        keys.lemma_filter_pred(pred, k);
    }
}

/// Law: a prefix suggestion's lower-case form always starts with the
/// lower-cased query, and suggestions come sorted ascending by extra
/// length beyond the query, alphabetically within a rank.
pub proof fn lemma_prefix_suggestions_sound(
    keys: Seq<Seq<char>>,
    q: Seq<char>,
    limit: int,
    offset: int,
    display_all: bool,
)
    requires
        0 <= limit,
        0 <= offset,
    ensures
        ({
            let pg = page(words(prefix_suggestions(keys, q)), limit, offset, display_all);
            &&& (forall|i: int|
                0 <= i < pg.len() ==> lower_of(q).is_prefix_of(lower_of(#[trigger] pg[i])))
            &&& (forall|i: int, j: int|
                0 <= i < j < pg.len() ==> prefix_rank(#[trigger] pg[i], q.len()) <= prefix_rank(
                    #[trigger] pg[j],
                    q.len(),
                ))
        }),
{
    let pred = prefix_pred(q);
    let rank = |k: Seq<char>| prefix_rank(k, q.len());
    let cands = with_prefix_ranks(keys.filter(pred), q.len());
    let s = prefix_suggestions(keys, q);
    assert(cands == keys.filter(pred).map_values(|k: Seq<char>| (k, rank(k))));
    lemma_ranked_members(keys, pred, rank);
    lemma_cand_order_total();
    cands.lemma_sort_by_ensures(cand_order());
    let ws = words(s);
    let pg = page(ws, limit, offset, display_all);
    let base: int = if display_all {
        0
    } else {
        offset
    };
    assert forall|i: int| 0 <= i < pg.len() implies lower_of(q).is_prefix_of(
        lower_of(#[trigger] pg[i]),
    ) by {
        assert(pg[i] == ws[base + i]);
        assert(ws[base + i] == s[base + i].0);
        assert(s.contains(s[base + i]));
        assert(pred(s[base + i].0));
    }
    assert forall|i: int, j: int| 0 <= i < j < pg.len() implies prefix_rank(
        #[trigger] pg[i],
        q.len(),
    ) <= prefix_rank(#[trigger] pg[j], q.len()) by {
        assert(pg[i] == s[base + i].0);
        assert(pg[j] == s[base + j].0);
        assert(s.contains(s[base + i]));
        assert(s.contains(s[base + j]));
        assert(cand_order()(s[base + i], s[base + j]));
    }
}

/// Law: a fuzzy suggestion is always within the requested edit distance
/// of the query, and suggestions come sorted ascending by distance,
/// alphabetically within a distance.
pub proof fn lemma_fuzzy_suggestions_sound(
    keys: Seq<Seq<char>>,
    q: Seq<char>,
    fuzzy_level: nat,
    limit: int,
    offset: int,
    display_all: bool,
)
    requires
        0 <= limit,
        0 <= offset,
    ensures
        ({
            let pg = page(
                words(fuzzy_suggestions(keys, q, fuzzy_level)),
                limit,
                offset,
                display_all,
            );
            &&& (forall|i: int| 0 <= i < pg.len() ==> edit_dist(q, #[trigger] pg[i]) <= fuzzy_level)
            &&& (forall|i: int, j: int|
                0 <= i < j < pg.len() ==> edit_dist(q, #[trigger] pg[i]) < edit_dist(
                    q,
                    #[trigger] pg[j],
                ) || (edit_dist(q, pg[i]) == edit_dist(q, pg[j]) && lex_le(pg[i], pg[j])))
        }),
{
    let pred = fuzzy_pred(q, fuzzy_level);
    let rank = |k: Seq<char>| edit_dist(q, k);
    let cands = with_distances(keys.filter(pred), q);
    let s = fuzzy_suggestions(keys, q, fuzzy_level);
    assert(cands == keys.filter(pred).map_values(|k: Seq<char>| (k, rank(k))));
    lemma_ranked_members(keys, pred, rank);
    lemma_cand_order_total();
    cands.lemma_sort_by_ensures(cand_order());
    let ws = words(s);
    let pg = page(ws, limit, offset, display_all);
    let base: int = if display_all {
        0
    } else {
        offset
    };
    assert forall|i: int| 0 <= i < pg.len() implies edit_dist(q, #[trigger] pg[i])
        <= fuzzy_level by {
        assert(pg[i] == s[base + i].0);
        assert(s.contains(s[base + i]));
        assert(pred(s[base + i].0));
    }
    assert forall|i: int, j: int| 0 <= i < j < pg.len() implies edit_dist(q, #[trigger] pg[i])
        < edit_dist(q, #[trigger] pg[j]) || (edit_dist(q, pg[i]) == edit_dist(q, pg[j]) && lex_le(
        pg[i],
        pg[j],
    )) by {
        assert(pg[i] == s[base + i].0);
        assert(pg[j] == s[base + j].0);
        assert(s.contains(s[base + i]));
        assert(s.contains(s[base + j]));
        assert(cand_order()(s[base + i], s[base + j]));
    }
}

/// Whether candidate `a` comes no later than candidate `b`.
fn cand_le(a: &Cand, b: &Cand) -> (r: bool)
    ensures
        r == cand_order()(cand_view(*a), cand_view(*b)),
{
    if a.rank < b.rank {
        true
    } else if a.rank == b.rank {
        str_lex_le(a.word.as_str(), b.word.as_str())
    } else {
        false
    }
}

/// Sorts candidates by rank, then word, by insertion into a fresh list.
fn sort_cands(cands: Vec<Cand>) -> (r: Vec<Cand>)
    ensures
        cand_views(r@) == cand_views(cands@).sort_by(cand_order()),
{
    broadcast use vstd::seq_lib::to_multiset_insert;
    broadcast use vstd::seq_lib::to_multiset_build;

    let ghost leq = cand_order();
    proof {
        lemma_cand_order_total();
    }
    let mut out: Vec<Cand> = Vec::new();
    proof {
        assert(cand_views(out@) =~= cand_views(cands@.take(0)));
    }
    let mut i: usize = 0;
    while i < cands.len()
        invariant
            i <= cands@.len(),
            sorted_by(cand_views(out@), cand_order()),
            cand_views(out@).to_multiset() == cand_views(cands@.take(i as int)).to_multiset(),
        decreases cands@.len() - i,
    {
        let c = Cand { word: cands[i].word.clone(), rank: cands[i].rank };
        proof {
            assert(cand_view(c) == cand_view(cands@[i as int]));
        }
        let mut pos: usize = 0;
        loop
            invariant
                pos <= out@.len(),
                forall|j: int| 0 <= j < pos ==> #[trigger] leq(
                    cand_views(out@)[j],
                    cand_view(c),
                ),
                leq == cand_order(),
            decreases out@.len() - pos,
        {
            if pos == out.len() {
                break;
            }
            if !cand_le(&out[pos], &c) {
                proof {
                    lemma_cand_order_total();
                }
                break;
            }
            proof {
                assert(cand_views(out@)[pos as int] == cand_view(out@[pos as int]));
            }
            pos = pos + 1;
        }
        let ghost old_views = cand_views(out@);
        out.insert(pos, c);
        proof {
            lemma_cand_order_total();
            assert(cand_views(out@) =~= old_views.insert(pos as int, cand_view(c)));
            let nv = cand_views(out@);
            assert forall|x: int, y: int| 0 <= x < y < nv.len() implies #[trigger] leq(
                nv[x],
                nv[y],
            ) by {
                let cv = cand_view(c);
                if pos < old_views.len() {
                    assert(!leq(old_views[pos as int], cv));
                    assert(leq(cv, old_views[pos as int]));
                }
                if x < pos {
                    assert(nv[x] == old_views[x]);
                }
                if y < pos {
                    assert(nv[y] == old_views[y]);
                }
                if x > pos {
                    assert(nv[x] == old_views[x - 1]);
                }
                if y > pos {
                    assert(nv[y] == old_views[y - 1]);
                }
                if x == pos && y > pos {
                    assert(leq(cv, old_views[pos as int]));
                    if y - 1 > pos {
                        assert(leq(old_views[pos as int], old_views[y - 1]));
                    }
                }
            }
            assert(cands@.take(i + 1) =~= cands@.take(i as int).push(cands@[i as int]));
            assert(cand_views(cands@.take(i + 1)) =~= cand_views(cands@.take(i as int)).push(
                cand_view(cands@[i as int]),
            ));
        }
        i = i + 1;
    }
    proof {
        assert(cands@.take(cands@.len() as int) =~= cands@);
        cand_views(cands@).lemma_sort_by_ensures(cand_order());
        vstd::seq_lib::lemma_sorted_unique(
            cand_views(out@),
            cand_views(cands@).sort_by(cand_order()),
            cand_order(),
        );
    }
    out
}

/// Clones out the words of the requested page of a ranked candidate list.
fn page_cands(cands: &Vec<Cand>, limit: usize, offset: usize, display_all: bool) -> (r: Vec<
    String,
>)
    ensures
        str_views(r@) == page(
            words(cand_views(cands@)),
            limit as int,
            offset as int,
            display_all,
        ),
{
    let ghost ws = words(cand_views(cands@));
    let mut out: Vec<String> = Vec::new();
    let start: usize = if display_all {
        0
    } else if offset > cands.len() {
        cands.len()
    } else {
        offset
    };
    let end: usize = if display_all {
        cands.len()
    } else if cands.len() - start > limit {
        start + limit
    } else {
        cands.len()
    };
    let mut i: usize = start;
    while i < end
        invariant
            start <= i <= end <= cands@.len(),
            str_views(out@) == ws.subrange(start as int, i as int),
        decreases end - i,
    {
        out.push(cands[i].word.clone());
        proof {
            assert(str_views(out@) =~= ws.subrange(start as int, i + 1));
        }
        i = i + 1;
    }
    proof {
        if display_all {
            assert(ws.subrange(0, ws.len() as int) =~= ws);
        } else if offset >= ws.len() {
            assert(str_views(out@) =~= Seq::<Seq<char>>::empty());
        }
    }
    out
}

/// Collects the prefix-mode candidates with their ranks, in key order.
fn collect_prefix(corpus: &Corpus, query: &str) -> (r: Vec<Cand>)
    ensures
        cand_views(r@) == with_prefix_ranks(
            corpus.key_seq().filter(prefix_pred(query@)),
            query@.len(),
        ),
{
    let ghost ks = corpus.key_seq();
    let ghost pred = prefix_pred(query@);
    let lq = to_lowercase(query);
    let qlen = query.unicode_len();
    let n = corpus.len();
    let mut out: Vec<Cand> = Vec::new();
    proof {
        reveal(Seq::filter);
        assert(ks.take(0) =~= Seq::<Seq<char>>::empty());
        assert(cand_views(out@) =~= with_prefix_ranks(ks.take(0).filter(pred), query@.len()));
    }
    let mut i: usize = 0;
    while i < n
        invariant
            i <= ks.len(),
            n == ks.len(),
            qlen == query@.len(),
            lq@ == lower_of(query@),
            pred == prefix_pred(query@),
            ks == corpus.key_seq(),
            cand_views(out@) == with_prefix_ranks(ks.take(i as int).filter(pred), query@.len()),
        decreases n - i,
    {
        let key = corpus.key_at(i);
        let lk = to_lowercase(key.as_str());
        let ghost prev = cand_views(out@);
        if str_is_prefix(lq.as_str(), lk.as_str()) {
            let klen = key.as_str().unicode_len();
            let rank: usize = if klen >= qlen {
                klen - qlen
            } else {
                0
            };
            out.push(Cand { word: key.clone(), rank });
            proof {
                assert(cand_views(out@) =~= prev.push((ks[i as int], prefix_rank(
                    ks[i as int],
                    query@.len(),
                ))));
            }
        }
        proof {
            assert(ks.take(i + 1) =~= ks.take(i as int).push(ks[i as int]));
            ks.take(i as int).lemma_filter_push(ks[i as int], pred);
            if pred(ks[i as int]) {
                assert(cand_views(out@) =~= with_prefix_ranks(
                    ks.take(i + 1).filter(pred),
                    query@.len(),
                ));
            } else {
                assert(cand_views(out@) =~= with_prefix_ranks(
                    ks.take(i + 1).filter(pred),
                    query@.len(),
                ));
            }
        }
        i = i + 1;
    }
    proof {
        assert(ks.take(ks.len() as int) =~= ks);
    }
    out
}

/// Collects the pattern-mode candidates with their ranks, in key order.
fn collect_pattern(corpus: &Corpus, rule: &CompiledPattern) -> (r: Vec<Cand>)
    ensures
        cand_views(r@) == with_prefix_ranks(corpus.key_seq().filter(pattern_pred(rule.pat())), 0),
{
    let ghost ks = corpus.key_seq();
    let ghost pred = pattern_pred(rule.pat());
    let n = corpus.len();
    let mut out: Vec<Cand> = Vec::new();
    proof {
        reveal(Seq::filter);
        assert(ks.take(0) =~= Seq::<Seq<char>>::empty());
        assert(cand_views(out@) =~= with_prefix_ranks(ks.take(0).filter(pred), 0));
    }
    let mut i: usize = 0;
    while i < n
        invariant
            i <= ks.len(),
            n == ks.len(),
            pred == pattern_pred(rule.pat()),
            ks == corpus.key_seq(),
            cand_views(out@) == with_prefix_ranks(ks.take(i as int).filter(pred), 0),
        decreases n - i,
    {
        let key = corpus.key_at(i);
        let ghost prev = cand_views(out@);
        if rule.is_match(key.as_str()) {
            let rank = key.as_str().unicode_len();
            out.push(Cand { word: key.clone(), rank });
            proof {
                assert(prefix_rank(ks[i as int], 0) == ks[i as int].len());
                assert(cand_views(out@) =~= prev.push((ks[i as int], prefix_rank(
                    ks[i as int],
                    0,
                ))));
            }
        }
        proof {
            assert(ks.take(i + 1) =~= ks.take(i as int).push(ks[i as int]));
            ks.take(i as int).lemma_filter_push(ks[i as int], pred);
            assert(cand_views(out@) =~= with_prefix_ranks(ks.take(i + 1).filter(pred), 0));
        }
        i = i + 1;
    }
    proof {
        assert(ks.take(ks.len() as int) =~= ks);
    }
    out
}

/// Collects the fuzzy-mode candidates with their distances, in key order.
fn collect_fuzzy(corpus: &Corpus, query: &str, fuzzy_level: usize) -> (r: Vec<Cand>)
    ensures
        cand_views(r@) == with_distances(
            corpus.key_seq().filter(fuzzy_pred(query@, fuzzy_level as nat)),
            query@,
        ),
{
    let ghost ks = corpus.key_seq();
    let ghost pred = fuzzy_pred(query@, fuzzy_level as nat);
    let n = corpus.len();
    let mut out: Vec<Cand> = Vec::new();
    proof {
        reveal(Seq::filter);
        assert(ks.take(0) =~= Seq::<Seq<char>>::empty());
        assert(cand_views(out@) =~= with_distances(ks.take(0).filter(pred), query@));
    }
    let mut i: usize = 0;
    while i < n
        invariant
            i <= ks.len(),
            n == ks.len(),
            pred == fuzzy_pred(query@, fuzzy_level as nat),
            ks == corpus.key_seq(),
            cand_views(out@) == with_distances(ks.take(i as int).filter(pred), query@),
        decreases n - i,
    {
        let key = corpus.key_at(i);
        let ghost prev = cand_views(out@);
        let dist = levenshtein(query, key.as_str());
        if dist <= fuzzy_level {
            out.push(Cand { word: key.clone(), rank: dist });
            proof {
                assert(cand_views(out@) =~= prev.push((ks[i as int], edit_dist(
                    query@,
                    ks[i as int],
                ))));
            }
        }
        proof {
            assert(ks.take(i + 1) =~= ks.take(i as int).push(ks[i as int]));
            ks.take(i as int).lemma_filter_push(ks[i as int], pred);
            assert(cand_views(out@) =~= with_distances(ks.take(i + 1).filter(pred), query@));
        }
        i = i + 1;
    }
    proof {
        assert(ks.take(ks.len() as int) =~= ks);
    }
    out
}

/// Ranked suggestions for a query word or an explicit pattern; exactly one
/// of the two must be given.
///
/// With a word, matching is case-insensitive starts-with and the rank is
/// the candidate's extra length beyond the query. With a pattern, the
/// pattern is used verbatim and an invalid one is reported as
/// `InvalidPattern`. Results come in ascending rank order, ties broken
/// alphabetically, paged by `limit` and `offset` unless `display_all`.
pub fn suggest_words(
    word: Option<&str>,
    corpus: &Corpus,
    pattern: Option<&str>,
    limit: usize,
    offset: usize,
    display_all: bool,
) -> (r: Result<Vec<String>, DictError>)
    requires
        corpus.wf(),
        word is Some <==> pattern is None,
    ensures
        word matches Some(q) ==> r matches Ok(out) && str_views(out@) == page(
            words(prefix_suggestions(corpus.key_seq(), q@)),
            limit as int,
            offset as int,
            display_all,
        ),
        pattern matches Some(p) ==> {
            &&& (r is Ok <==> regex_ok(p@))
            &&& (r matches Ok(out) ==> str_views(out@) == page(
                words(pattern_suggestions(corpus.key_seq(), p@)),
                limit as int,
                offset as int,
                display_all,
            ))
            &&& (r is Err ==> r == Err::<Vec<String>, DictError>(DictError::InvalidPattern))
        },
{
    match (word, pattern) {
        (Some(query), None) => {
            let cands = collect_prefix(corpus, query);
            let ranked = sort_cands(cands);
            Ok(page_cands(&ranked, limit, offset, display_all))
        },
        (None, Some(pat)) => {
            match CompiledPattern::compile(pat) {
                Ok(rule) => {
                    let cands = collect_pattern(corpus, &rule);
                    let ranked = sort_cands(cands);
                    Ok(page_cands(&ranked, limit, offset, display_all))
                },
                Err(_) => Err(DictError::InvalidPattern),
            }
        },
        _ => vstd::pervasive::unreached(),
    }
}

/// Ranked fuzzy suggestions: every corpus word within edit distance
/// `fuzzy_level` of the query, ascending by distance, ties broken
/// alphabetically, paged by `limit` and `offset` unless `display_all`.
pub fn fuzzy_suggest(
    word: Option<&str>,
    corpus: &Corpus,
    fuzzy_level: usize,
    limit: usize,
    offset: usize,
    display_all: bool,
) -> (r: Vec<String>)
    requires
        corpus.wf(),
        word is Some,
    ensures
        str_views(r@) == page(
            words(fuzzy_suggestions(corpus.key_seq(), word->Some_0@, fuzzy_level as nat)),
            limit as int,
            offset as int,
            display_all,
        ),
{
    match word {
        Some(query) => {
            let cands = collect_fuzzy(corpus, query, fuzzy_level);
            let ranked = sort_cands(cands);
            page_cands(&ranked, limit, offset, display_all)
        },
        None => vstd::pervasive::unreached(),
    }
}

} // verus!
