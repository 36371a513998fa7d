use emote_tally::commands::{run_command, Command};
use emote_tally::filter::TrackabilityFilter;
use emote_tally::ingest::{
    on_message_posted, on_reaction_added, on_reaction_removed, parse_reaction_payload,
};
use emote_tally::paging::{handle_navigation, NavDirection, NavOutcome, PageState};
use emote_tally::ranking::render_page;
use emote_tally::store::UsageStore;
use emote_tally::StoreError;

fn seeded_store() -> UsageStore {
    // emote (42, "pog") three times, (7, "sad") once
    let mut store = UsageStore::new();
    for _ in 0..3 {
        store.record_occurrence(42, "pog").unwrap();
    }
    store.record_occurrence(7, "sad").unwrap();
    store
}

fn track_all() -> TrackabilityFilter {
    TrackabilityFilter::new(String::new())
}

#[test]
fn first_page_ranks_descending() {
    let store = seeded_store();
    assert_eq!(render_page(&store, 0, 25), "pog => 3\nsad => 1\n");
}

#[test]
fn pages_beyond_the_last_are_empty() {
    let store = seeded_store();
    assert_eq!(render_page(&store, 1, 25), "");
    assert_eq!(render_page(&store, 1000, 25), "");
    let empty = UsageStore::new();
    assert_eq!(render_page(&empty, 0, 25), "");
}

#[test]
fn single_entry_pages() {
    // with page_size 1 the two emotes land on pages 0 and 1
    let store = seeded_store();
    assert_eq!(render_page(&store, 0, 1), "pog => 3\n");
    assert_eq!(render_page(&store, 1, 1), "sad => 1\n");
    assert_eq!(render_page(&store, 2, 1), "");
}

#[test]
fn trackability_follows_the_configured_pattern() {
    let filter = TrackabilityFilter::new(String::from("pog"));
    assert!(filter.is_trackable("pog"));
    assert!(filter.is_trackable("pogchamp"));
    assert!(!filter.is_trackable("sad"));
    assert!(!filter.is_trackable("a_pog"));

    let all = track_all();
    assert!(all.is_trackable("anything"));

    // a pattern that does not compile matches nothing
    let broken = TrackabilityFilter::new(String::from("("));
    assert!(!broken.is_trackable("pog"));
}

#[test]
fn reaction_payloads_are_parsed_strictly() {
    assert_eq!(
        parse_reaction_payload("pog:42"),
        Some((String::from("pog"), 42))
    );
    assert_eq!(parse_reaction_payload("pog"), None);
    assert_eq!(parse_reaction_payload("a:b:c"), None);
    assert_eq!(parse_reaction_payload("pog:"), None);
    assert_eq!(parse_reaction_payload(":42"), Some((String::new(), 42)));
    assert_eq!(parse_reaction_payload("pog:9x"), None);
    assert_eq!(parse_reaction_payload("pog:18446744073709551616"), None);
}

#[test]
fn reactions_record_and_remove_one_occurrence() {
    let mut store = UsageStore::new();
    let filter = track_all();
    assert_eq!(on_reaction_added(&mut store, &filter, 42, "pog"), Ok(true));
    assert_eq!(store.count_for("pog"), 1);
    assert_eq!(on_reaction_removed(&mut store, &filter, 42, "pog"), Ok(true));
    assert_eq!(store.count_for("pog"), 0);
    assert_eq!(
        on_reaction_removed(&mut store, &filter, 42, "pog"),
        Err(StoreError::NotFound)
    );
}

#[test]
fn untrackable_reactions_are_ignored() {
    let mut store = UsageStore::new();
    let filter = TrackabilityFilter::new(String::from("pog"));
    assert_eq!(on_reaction_added(&mut store, &filter, 7, "sad"), Ok(false));
    assert_eq!(store.event_total(), 0);
    assert_eq!(
        on_reaction_added(&mut store, &filter, 1, "pog:bad"),
        Err(StoreError::InvalidInput)
    );
    assert_eq!(store.event_total(), 0);
}

#[test]
fn message_ingestion_counts_every_occurrence() {
    let mut store = UsageStore::new();
    let filter = track_all();
    let catalog = vec![(42, String::from("pog")), (7, String::from("sad"))];
    on_message_posted(
        &mut store,
        &filter,
        "go <:pog:42> go <:pog:42><:pog:42> but never sad",
        &catalog,
    );
    assert_eq!(store.count_for("pog"), 3);
    assert_eq!(store.count_for("sad"), 0);
    assert_eq!(store.event_total(), 3);
}

#[test]
fn message_ingestion_respects_the_filter() {
    let mut store = UsageStore::new();
    let filter = TrackabilityFilter::new(String::from("pog"));
    let catalog = vec![(42, String::from("pog")), (7, String::from("sad"))];
    on_message_posted(&mut store, &filter, "<:pog:42> <:sad:7>", &catalog);
    assert_eq!(store.count_for("pog"), 1);
    assert_eq!(store.count_for("sad"), 0);
}

#[test]
fn back_at_first_page_is_rejected() {
    // a Back transition at page 0 keeps page 0 and does not edit
    let store = seeded_store();
    let mut pages = PageState::new();
    pages.register(77);
    let outcome = handle_navigation(&mut pages, &store, 77, NavDirection::Back, false, 1);
    assert!(matches!(outcome, NavOutcome::Dismissed));
    assert_eq!(pages.get_page(77), Some(0));
}

#[test]
fn forward_walks_pages_and_stops_at_the_last() {
    let store = seeded_store();
    let mut pages = PageState::new();
    pages.register(77);

    let first = handle_navigation(&mut pages, &store, 77, NavDirection::Forward, false, 1);
    match first {
        NavOutcome::Moved(content) => assert_eq!(content, "sad => 1\n"),
        _ => panic!("expected a move to the second page"),
    }
    assert_eq!(pages.get_page(77), Some(1));

    // a Forward transition past the last page leaves the page unchanged
    let second = handle_navigation(&mut pages, &store, 77, NavDirection::Forward, false, 1);
    assert!(matches!(second, NavOutcome::Dismissed));
    assert_eq!(pages.get_page(77), Some(1));

    let third = handle_navigation(&mut pages, &store, 77, NavDirection::Back, false, 1);
    match third {
        NavOutcome::Moved(content) => assert_eq!(content, "pog => 3\n"),
        _ => panic!("expected a move back to the first page"),
    }
    assert_eq!(pages.get_page(77), Some(0));
}

#[test]
fn bot_clicks_and_unknown_messages_are_ignored() {
    let store = seeded_store();
    let mut pages = PageState::new();
    pages.register(77);
    let from_bot = handle_navigation(&mut pages, &store, 77, NavDirection::Forward, true, 1);
    assert!(matches!(from_bot, NavOutcome::Ignored));
    assert_eq!(pages.get_page(77), Some(0));

    let untracked = handle_navigation(&mut pages, &store, 99, NavDirection::Forward, false, 1);
    assert!(matches!(untracked, NavOutcome::Ignored));
    assert_eq!(pages.get_page(99), None);
}

#[test]
fn registering_twice_keeps_the_page() {
    let store = seeded_store();
    let mut pages = PageState::new();
    pages.register(77);
    let moved = handle_navigation(&mut pages, &store, 77, NavDirection::Forward, false, 1);
    assert!(matches!(moved, NavOutcome::Moved(_)));
    pages.register(77);
    assert_eq!(pages.get_page(77), Some(1));
}

#[test]
fn count_command_replies_with_the_count() {
    let store = seeded_store();
    assert_eq!(
        run_command(&store, &Command::CountEmote(String::from("pog"))),
        "Count of pog is: 3"
    );
    assert_eq!(
        run_command(&store, &Command::CountEmote(String::from("42"))),
        "Count of 42 is: 3"
    );
    assert_eq!(
        run_command(&store, &Command::CountEmote(String::from("unknown"))),
        "Count of unknown is: 0"
    );
}

#[test]
fn leaderboard_command_serves_the_first_page() {
    let store = seeded_store();
    assert_eq!(
        run_command(&store, &Command::CountAllEmotes),
        "pog => 3\nsad => 1\n"
    );
    let empty = UsageStore::new();
    assert_eq!(run_command(&empty, &Command::CountAllEmotes), "");
}

#[test]
fn dated_count_command_sees_past_events() {
    let mut store = UsageStore::new();
    store.record_occurrence_at(42, "pog", 100).unwrap();
    store.record_occurrence_at(42, "pog", 200).unwrap();
    assert_eq!(
        run_command(&store, &Command::CountEmoteFrom(String::from("pog"))),
        "Count of pog is: 2"
    );
}
