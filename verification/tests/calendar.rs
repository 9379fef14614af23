use zoega::wordofday::{decode_record, encode_record, get_word_of_the_day, Day, WodRecord};
use zoega::{get_default, Pair};

fn entry(word: &str, defs: &[&str]) -> Pair {
    Pair { word: word.to_string(), definitions: defs.iter().map(|d| d.to_string()).collect() }
}

fn day(year: u16, month: u8, d: u8) -> Day {
    Day { year, month, day: d }
}

#[test]
fn ordinal_counts_days_from_january_first() {
    assert_eq!(day(2023, 1, 1).ordinal(), 1);
    assert_eq!(day(2023, 3, 1).ordinal(), 60);
    assert_eq!(day(2024, 3, 1).ordinal(), 61);
    assert_eq!(day(2023, 12, 31).ordinal(), 365);
    assert_eq!(day(2024, 12, 31).ordinal(), 366);
    assert_eq!(day(1900, 3, 1).ordinal(), 60);
    assert_eq!(day(2000, 3, 1).ordinal(), 61);
}

#[test]
fn iso_form_is_zero_padded() {
    assert_eq!(day(2024, 3, 7).to_iso(), "2024-03-07".to_string());
    assert_eq!(day(987, 12, 25).to_iso(), "0987-12-25".to_string());
}

#[test]
fn iso_form_reads_back_as_the_same_day() {
    let d = day(2024, 2, 29);
    assert_eq!(Day::from_iso(&d.to_iso()), Some(d));
}

#[test]
fn malformed_iso_days_are_rejected() {
    assert_eq!(Day::from_iso("2023-02-29"), None);
    assert_eq!(Day::from_iso("2024-13-01"), None);
    assert_eq!(Day::from_iso("2024-00-10"), None);
    assert_eq!(Day::from_iso("2024-01-32"), None);
    assert_eq!(Day::from_iso("2024-1-2"), None);
    assert_eq!(Day::from_iso("yesterday!"), None);
    assert_eq!(Day::from_iso(""), None);
}

#[test]
fn a_record_survives_a_persistence_round_trip() {
    let rec = WodRecord { date: day(2026, 10, 12), word: "dagr".to_string() };
    let content = encode_record(&rec);
    assert_eq!(content, "2026-10-12\ndagr\n".to_string());
    let back = decode_record(&content).expect("a well-formed record decodes");
    assert_eq!(back.date, rec.date);
    assert_eq!(back.word, rec.word);
}

#[test]
fn garbled_records_are_rejected() {
    assert!(decode_record("").is_none());
    assert!(decode_record("2026-10-12\n").is_none());
    assert!(decode_record("2026-10-12\na\nb\n").is_none());
    assert!(decode_record("not a date\nword\n").is_none());
}

#[test]
fn the_word_of_a_day_is_picked_by_ordinal() {
    let corpus = get_default(vec![
        entry("alpha", &["first"]),
        entry("beta", &["second"]),
        entry("gamma", &["third"]),
    ]);
    let today = day(2023, 1, 2);
    let (word, rec) = get_word_of_the_day(&corpus, &today, None);
    assert_eq!(word, "gamma".to_string());
    let rec = rec.expect("a fresh pick is persisted");
    assert_eq!(rec.date, today);
    assert_eq!(rec.word, word);
}

#[test]
fn the_same_day_yields_the_same_word_twice() {
    let corpus = get_default(vec![
        entry("alpha", &["first"]),
        entry("beta", &["second"]),
        entry("gamma", &["third"]),
    ]);
    let today = day(2026, 10, 12);
    let (first, rec) = get_word_of_the_day(&corpus, &today, None);
    let stored = rec.expect("a fresh pick is persisted");
    let (second, rewrite) = get_word_of_the_day(&corpus, &today, Some(&stored));
    assert_eq!(second, first);
    assert!(rewrite.is_none());
}

#[test]
fn a_new_day_replaces_a_stale_record() {
    let corpus = get_default(vec![
        entry("alpha", &["first"]),
        entry("beta", &["second"]),
        entry("gamma", &["third"]),
    ]);
    let stale = WodRecord { date: day(2023, 1, 2), word: "gamma".to_string() };
    let today = day(2023, 1, 3);
    let (word, rec) = get_word_of_the_day(&corpus, &today, Some(&stale));
    assert_eq!(word, "alpha".to_string());
    assert_eq!(rec.expect("a fresh pick is persisted").date, today);
}

#[test]
fn duplicate_corpus_words_count_once_for_selection() {
    let corpus = get_default(vec![
        entry("alpha", &["first"]),
        entry("alpha", &["first again"]),
        entry("beta", &["second"]),
    ]);
    let today = day(2023, 1, 2);
    let (word, _) = get_word_of_the_day(&corpus, &today, None);
    assert_eq!(word, "alpha".to_string());
}
