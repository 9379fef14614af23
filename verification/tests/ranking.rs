use zoega::{get_default, get_markup, Corpus, DictError, Pair};

fn entry(word: &str, defs: &[&str]) -> Pair {
    Pair { word: word.to_string(), definitions: defs.iter().map(|d| d.to_string()).collect() }
}

fn sample_corpus() -> Corpus {
    get_default(vec![
        entry("cart", &["a wagon"]),
        entry("cat", &["a feline"]),
        entry("category", &["a class"]),
        entry("dog", &["a canine"]),
    ])
}

#[test]
fn exact_lookup_hits_a_corpus_word() {
    let corpus = sample_corpus();
    let defs = corpus.exact_lookup("cat").expect("cat is a corpus word");
    assert_eq!(defs, vec!["a feline".to_string()]);
}

#[test]
fn exact_lookup_misses_a_non_member() {
    let corpus = sample_corpus();
    assert!(corpus.exact_lookup("cow").is_none());
    assert!(corpus.exact_lookup("Cat").is_none());
}

#[test]
fn exact_lookup_concatenates_homonym_definitions() {
    let corpus = get_default(vec![
        entry("bark", &["a dog's cry"]),
        entry("tree", &["a plant"]),
        entry("bark", &["a tree's skin", "a sailing ship"]),
    ]);
    let defs = corpus.exact_lookup("bark").expect("bark is a corpus word");
    assert_eq!(
        defs,
        vec![
            "a dog's cry".to_string(),
            "a tree's skin".to_string(),
            "a sailing ship".to_string()
        ]
    );
}

#[test]
fn prefix_suggestions_rank_by_extra_length() {
    let corpus = sample_corpus();
    let out = zoega::suggest_words(Some("cat"), &corpus, None, 5, 0, false).unwrap();
    assert_eq!(out, vec!["cat".to_string(), "category".to_string()]);
}

#[test]
fn prefix_suggestions_ignore_case() {
    let corpus = sample_corpus();
    let out = zoega::suggest_words(Some("CAT"), &corpus, None, 5, 0, false).unwrap();
    assert_eq!(out, vec!["cat".to_string(), "category".to_string()]);
}

#[test]
fn prefix_suggestions_break_ties_alphabetically() {
    let corpus = get_default(vec![
        entry("az", &["z"]),
        entry("ay", &["y"]),
        entry("ax", &["x"]),
    ]);
    let out = zoega::suggest_words(Some("a"), &corpus, None, 5, 0, false).unwrap();
    assert_eq!(out, vec!["ax".to_string(), "ay".to_string(), "az".to_string()]);
}

#[test]
fn prefix_suggestions_page_by_limit_and_offset() {
    let corpus = get_default(vec![
        entry("az", &["z"]),
        entry("ay", &["y"]),
        entry("ax", &["x"]),
    ]);
    let page = zoega::suggest_words(Some("a"), &corpus, None, 1, 1, false).unwrap();
    assert_eq!(page, vec!["ay".to_string()]);
    let all = zoega::suggest_words(Some("a"), &corpus, None, 1, 0, true).unwrap();
    assert_eq!(all.len(), 3);
    let beyond = zoega::suggest_words(Some("a"), &corpus, None, 5, 9, false).unwrap();
    assert!(beyond.is_empty());
}

#[test]
fn pattern_suggestions_use_the_pattern_verbatim() {
    let corpus = sample_corpus();
    let out = zoega::suggest_words(None, &corpus, Some("^do"), 5, 0, false).unwrap();
    assert_eq!(out, vec!["dog".to_string()]);
}

#[test]
fn pattern_suggestions_rank_by_word_length() {
    let corpus = sample_corpus();
    let out = zoega::suggest_words(None, &corpus, Some("^ca"), 5, 0, false).unwrap();
    assert_eq!(
        out,
        vec!["cat".to_string(), "cart".to_string(), "category".to_string()]
    );
}

#[test]
fn an_invalid_pattern_is_reported() {
    let corpus = sample_corpus();
    let r = zoega::suggest_words(None, &corpus, Some("["), 5, 0, false);
    assert_eq!(r, Err(DictError::InvalidPattern));
}

#[test]
fn fuzzy_suggestions_keep_only_close_words() {
    let corpus = get_default(vec![
        entry("cat", &["a feline"]),
        entry("bat", &["a club"]),
        entry("bad", &["not good"]),
        entry("cart", &["a wagon"]),
    ]);
    let out = zoega::fuzzy_suggest(Some("cat"), &corpus, 1, 10, 0, true);
    assert_eq!(
        out,
        vec!["cat".to_string(), "bat".to_string(), "cart".to_string()]
    );
}

#[test]
fn fuzzy_suggestions_sort_by_distance_then_word() {
    let corpus = get_default(vec![
        entry("cot", &["a bed"]),
        entry("bat", &["a club"]),
        entry("cat", &["a feline"]),
    ]);
    let out = zoega::fuzzy_suggest(Some("cat"), &corpus, 2, 10, 0, true);
    assert_eq!(
        out,
        vec!["cat".to_string(), "bat".to_string(), "cot".to_string()]
    );
}

#[test]
fn fuzzy_suggestions_page_like_prefix_ones() {
    let corpus = get_default(vec![
        entry("cat", &["a feline"]),
        entry("bat", &["a club"]),
        entry("cart", &["a wagon"]),
    ]);
    let page = zoega::fuzzy_suggest(Some("cat"), &corpus, 1, 1, 1, false);
    assert_eq!(page, vec!["bat".to_string()]);
}

#[test]
fn empty_corpus_suggests_nothing() {
    let corpus = get_default(vec![]);
    assert!(zoega::suggest_words(Some("cat"), &corpus, None, 5, 0, false).unwrap().is_empty());
    assert!(zoega::fuzzy_suggest(Some("cat"), &corpus, 3, 5, 0, true).is_empty());
}

#[test]
fn capitalized_variant_hint_spots_the_upper_case_twin() {
    let corpus = get_markup(vec![
        entry("cat", &["a feline"]),
        entry("CAT", &["the feline, capitalized"]),
        entry("dog", &["a canine"]),
    ]);
    assert!(corpus.capitalized_variant_hint("cat"));
    assert!(!corpus.capitalized_variant_hint("CAT"));
    assert!(!corpus.capitalized_variant_hint("dog"));
}

#[test]
fn random_word_is_a_corpus_word() {
    let corpus = sample_corpus();
    let w = zoega::random::get_random_word(&corpus).expect("corpus is not empty");
    assert!(corpus.exact_lookup(&w).is_some());
}

#[test]
fn random_word_misses_on_an_empty_corpus() {
    let corpus = get_default(vec![]);
    assert!(zoega::random::get_random_word(&corpus).is_none());
}

#[test]
fn duplicate_corpus_words_are_suggested_once() {
    let corpus = get_default(vec![
        entry("bark", &["a dog's cry"]),
        entry("bark", &["a tree's skin"]),
        entry("barley", &["a grain"]),
    ]);
    let out = zoega::suggest_words(Some("bar"), &corpus, None, 5, 0, false).unwrap();
    assert_eq!(out, vec!["bark".to_string(), "barley".to_string()]);
}

#[test]
fn an_empty_query_matches_every_word_by_length() {
    let corpus = get_default(vec![entry("uxi", &["an ox"]), entry("ær", &["a ewe"])]);
    let out = zoega::suggest_words(Some(""), &corpus, None, 5, 0, false).unwrap();
    assert_eq!(out, vec!["ær".to_string(), "uxi".to_string()]);
}
