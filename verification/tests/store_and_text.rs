use emote_tally::canonical::{check_emote_name, display_of_key, get_emote};
use emote_tally::ranking::{count_all_entries, count_by_emote, format_page, rank_descending};
use emote_tally::store::UsageStore;
use emote_tally::text::{count_occurrences, parse_u64, str_contains, u64_to_string};
use emote_tally::StoreError;

#[test]
fn canonical_key_is_render_markup() {
    assert_eq!(get_emote(42, String::from("pog")), "<:pog:42>");
    assert_eq!(get_emote(0, String::from("a")), "<:a:0>");
    assert_eq!(
        get_emote(u64::MAX, String::from("big")),
        "<:big:18446744073709551615>"
    );
}

#[test]
fn display_is_recovered_from_key() {
    assert_eq!(display_of_key("<:pog:42>"), "pog");
    assert_eq!(display_of_key("<:sad:7>"), "sad");
    assert_eq!(display_of_key("noshape"), "noshape");
    assert_eq!(display_of_key(""), "");
}

#[test]
fn decimal_rendering() {
    assert_eq!(u64_to_string(0), "0");
    assert_eq!(u64_to_string(10), "10");
    assert_eq!(u64_to_string(987654321), "987654321");
    assert_eq!(u64_to_string(u64::MAX), "18446744073709551615");
}

#[test]
fn decimal_parsing() {
    assert_eq!(parse_u64("0"), Some(0));
    assert_eq!(parse_u64("42"), Some(42));
    assert_eq!(parse_u64("18446744073709551615"), Some(u64::MAX));
    assert_eq!(parse_u64("18446744073709551616"), None);
    assert_eq!(parse_u64(""), None);
    assert_eq!(parse_u64("12a"), None);
    assert_eq!(parse_u64("-3"), None);
}

#[test]
fn occurrence_counting_on_text() {
    assert_eq!(count_occurrences("", "x"), 0);
    assert_eq!(count_occurrences("hello", "ll"), 1);
    assert_eq!(count_occurrences("aaa", "aa"), 1);
    assert_eq!(count_occurrences("aaaa", "aa"), 2);
    assert_eq!(count_occurrences("<:pog:42> and <:pog:42>", "<:pog:42>"), 2);
    assert_eq!(count_occurrences("abc", ""), 0);
    assert!(str_contains("abc", "bc"));
    assert!(!str_contains("abc", "cb"));
    assert!(str_contains("abc", ""));
}

#[test]
fn recorded_occurrences_aggregate_per_emote() {
    // record emote (42, "pog") three times and (7, "sad") once
    let mut store = UsageStore::new();
    for _ in 0..3 {
        assert!(store.record_occurrence(42, "pog").is_ok());
    }
    assert!(store.record_occurrence(7, "sad").is_ok());
    assert_eq!(store.count_for("42"), 3);
    assert_eq!(store.count_for("7"), 1);
    assert_eq!(store.count_for("pog"), 3);
    assert_eq!(store.count_for("nothing"), 0);
    assert_eq!(store.event_total(), 4);
}

#[test]
fn record_then_remove_leaves_counts_unchanged() {
    let mut store = UsageStore::new();
    store.record_occurrence(42, "pog").unwrap();
    store.record_occurrence(42, "pog").unwrap();
    let before = store.count_for("42");
    store.record_occurrence(42, "pog").unwrap();
    store.remove_one_occurrence(42, "pog").unwrap();
    assert_eq!(store.count_for("42"), before);
    assert_eq!(store.event_total(), 2);
}

#[test]
fn removal_targets_one_matching_event_only() {
    let mut store = UsageStore::new();
    store.record_occurrence(42, "pog").unwrap();
    store.record_occurrence(7, "sad").unwrap();
    store.remove_one_occurrence(42, "pog").unwrap();
    assert_eq!(store.count_for("pog"), 0);
    assert_eq!(store.count_for("sad"), 1);
}

#[test]
fn removal_without_match_is_not_found() {
    let mut store = UsageStore::new();
    assert_eq!(store.remove_one_occurrence(42, "pog"), Err(StoreError::NotFound));
    store.record_occurrence(7, "sad").unwrap();
    assert_eq!(store.remove_one_occurrence(42, "pog"), Err(StoreError::NotFound));
    assert_eq!(store.event_total(), 1);
}

#[test]
fn malformed_names_are_rejected() {
    let mut store = UsageStore::new();
    assert_eq!(store.record_occurrence(1, ""), Err(StoreError::InvalidInput));
    assert_eq!(store.record_occurrence(1, "a:b"), Err(StoreError::InvalidInput));
    assert_eq!(store.record_occurrence(1, "<pog>"), Err(StoreError::InvalidInput));
    assert_eq!(store.remove_one_occurrence(1, ""), Err(StoreError::InvalidInput));
    assert_eq!(store.event_total(), 0);
}

#[test]
fn timestamps_filter_older_events() {
    let mut store = UsageStore::new();
    store.record_occurrence_at(42, "pog", 100).unwrap();
    store.record_occurrence_at(42, "pog", 200).unwrap();
    store.record_occurrence_at(7, "sad", 300).unwrap();
    assert_eq!(store.count_for_before("pog", 201), 2);
    assert_eq!(store.count_for_before("pog", 200), 1);
    assert_eq!(store.count_for_before("pog", 100), 0);
    assert_eq!(store.count_for_before("sad", 1000), 1);
}

#[test]
fn tallying_counts_every_distinct_value_once() {
    let values = vec![
        String::from("a"),
        String::from("b"),
        String::from("a"),
        String::from("a"),
        String::from("c"),
        String::from("b"),
    ];
    let tally = count_all_entries(values);
    assert_eq!(tally.len(), 3);
    let mut seen = vec![];
    for (value, count) in &tally {
        seen.push((value.clone(), *count));
    }
    assert!(seen.contains(&(String::from("a"), 3)));
    assert!(seen.contains(&(String::from("b"), 2)));
    assert!(seen.contains(&(String::from("c"), 1)));
}

#[test]
fn name_validity_mirrors_key_formation() {
    assert!(check_emote_name("pog"));
    assert!(check_emote_name("under_score9"));
    assert!(!check_emote_name(""));
    assert!(!check_emote_name("a:b"));
    assert!(!check_emote_name("<a"));
    assert!(!check_emote_name("a>"));
}

#[test]
fn page_windows_slice_the_ranking() {
    let ranked = vec![
        (String::from("<:a:1>"), 9),
        (String::from("<:b:2>"), 5),
        (String::from("<:c:3>"), 1),
    ];
    assert_eq!(format_page(&ranked, 0, 2), "a => 9\nb => 5\n");
    assert_eq!(format_page(&ranked, 1, 2), "c => 1\n");
    assert_eq!(format_page(&ranked, 2, 2), "");
    assert_eq!(format_page(&ranked, 0, 25), "a => 9\nb => 5\nc => 1\n");
}

#[test]
fn aggregation_keys_by_full_canonical_key() {
    // a changed display name for the same id is a distinct tracked entity
    let mut store = UsageStore::new();
    store.record_occurrence(42, "pog").unwrap();
    store.record_occurrence(42, "pogv2").unwrap();
    store.record_occurrence(42, "pog").unwrap();
    let tally = count_by_emote(&store);
    assert_eq!(tally.len(), 2);
    assert!(tally.contains(&(String::from("<:pog:42>"), 2)));
    assert!(tally.contains(&(String::from("<:pogv2:42>"), 1)));
}

#[test]
fn ranking_is_descending_by_count() {
    let tally = vec![
        (String::from("a"), 1),
        (String::from("b"), 5),
        (String::from("c"), 3),
    ];
    let ranked = rank_descending(tally);
    assert_eq!(ranked.len(), 3);
    assert_eq!(ranked[0], (String::from("b"), 5));
    assert_eq!(ranked[1], (String::from("c"), 3));
    assert_eq!(ranked[2], (String::from("a"), 1));
}
