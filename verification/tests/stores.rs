use zoega::{get_default, DictError, Pair};

fn entry(word: &str, defs: &[&str]) -> Pair {
    Pair { word: word.to_string(), definitions: defs.iter().map(|d| d.to_string()).collect() }
}

#[test]
fn history_add_appends_a_new_term() {
    let h = zoega::history::add(vec![], "fyrst");
    assert_eq!(h, vec!["fyrst".to_string()]);
    let h = zoega::history::add(h, "annarr");
    assert_eq!(h, vec!["fyrst".to_string(), "annarr".to_string()]);
}

#[test]
fn history_add_is_idempotent() {
    let once = zoega::history::add(vec!["a".to_string()], "b");
    let twice = zoega::history::add(once.clone(), "b");
    assert_eq!(twice, once);
}

#[test]
fn history_evicts_the_oldest_past_seventy() {
    let mut h: Vec<String> = Vec::new();
    for i in 0..71 {
        h = zoega::history::add(h, &format!("term{}", i));
    }
    assert_eq!(h.len(), 70);
    assert!(!h.contains(&"term0".to_string()));
    assert_eq!(h[0], "term1".to_string());
    assert_eq!(h[69], "term70".to_string());
}

#[test]
fn favorites_add_and_remove_restore_the_old_state() {
    let corpus = get_default(vec![entry("orm", &["a serpent"]), entry("ulfr", &["a wolf"])]);
    let mut favs = vec!["orm".to_string()];
    assert!(zoega::favorites::add(&mut favs, "ulfr", &corpus).is_ok());
    assert_eq!(favs, vec!["orm".to_string(), "ulfr".to_string()]);
    assert!(zoega::favorites::remove(&mut favs, "ulfr").is_ok());
    assert_eq!(favs, vec!["orm".to_string()]);
}

#[test]
fn favorites_reject_a_word_outside_the_corpus() {
    let corpus = get_default(vec![entry("orm", &["a serpent"])]);
    let mut favs = vec!["orm".to_string()];
    let r = zoega::favorites::add(&mut favs, "dreki", &corpus);
    assert_eq!(r, Err(DictError::NotInCorpus));
    assert_eq!(favs, vec!["orm".to_string()]);
}

#[test]
fn favorites_reject_a_duplicate() {
    let corpus = get_default(vec![entry("orm", &["a serpent"])]);
    let mut favs = vec!["orm".to_string()];
    let r = zoega::favorites::add(&mut favs, "orm", &corpus);
    assert_eq!(r, Err(DictError::AlreadyFavorited));
    assert_eq!(favs, vec!["orm".to_string()]);
}

#[test]
fn favorites_reject_removing_a_non_favorite() {
    let mut favs = vec!["orm".to_string()];
    let r = zoega::favorites::remove(&mut favs, "ulfr");
    assert_eq!(r, Err(DictError::NotFavorited));
    assert_eq!(favs, vec!["orm".to_string()]);
}

#[test]
fn lines_encode_newline_delimited() {
    let lines = vec!["alpha".to_string(), "beta".to_string()];
    let content = zoega::codec::encode_lines(&lines);
    assert_eq!(content, "alpha\nbeta\n".to_string());
}

#[test]
fn lines_decode_what_was_encoded() {
    let lines = vec!["alpha".to_string(), "".to_string(), "gamma".to_string()];
    let content = zoega::codec::encode_lines(&lines);
    let back = zoega::codec::decode_lines(&content);
    assert_eq!(back, lines);
}

#[test]
fn lines_decode_accepts_a_missing_final_newline() {
    let back = zoega::codec::decode_lines("alpha\nbeta");
    assert_eq!(back, vec!["alpha".to_string(), "beta".to_string()]);
}

#[test]
fn history_state_survives_a_persistence_round_trip() {
    let mut h: Vec<String> = Vec::new();
    for term in ["heim", "ferð", "skip"] {
        h = zoega::history::add(h, term);
    }
    let reloaded = zoega::codec::decode_lines(&zoega::codec::encode_lines(&h));
    assert_eq!(reloaded, h);
}

#[test]
fn favorites_state_survives_a_persistence_round_trip() {
    let corpus = get_default(vec![entry("orm", &["a serpent"]), entry("ulfr", &["a wolf"])]);
    let mut favs: Vec<String> = Vec::new();
    assert!(zoega::favorites::add(&mut favs, "orm", &corpus).is_ok());
    assert!(zoega::favorites::add(&mut favs, "ulfr", &corpus).is_ok());
    let reloaded = zoega::codec::decode_lines(&zoega::codec::encode_lines(&favs));
    assert_eq!(reloaded, favs);
}
