use nlp_bot_api::processor::container::Container;
use nlp_bot_api::processor::entry::Entry;
use nlp_bot_api::processor::ngram::{NgramForByCountCommand, NgramForStore};
use nlp_bot_api::processor::{Error, Processor, ENTRY_LIMIT};
use nlp_bot_api::store::filters::Order;
use nlp_bot_api::store::{Sql, StoreError};

const SEVEN_DAYS: i64 = 604800;

fn said(id: &str, container: &str, sender: &str, time: i64, content: &str) -> Entry {
    Entry {
        entry_id: id.to_string(),
        container_id: container.to_string(),
        sender_id: sender.to_string(),
        unix_timestamp: time,
        content: content.to_string(),
    }
}

fn key(content: &str, length: u32, time: i64, container: &str, sender: &str) -> NgramForStore {
    NgramForStore {
        content: content.to_string(),
        length,
        time,
        container_id: container.to_string(),
        sender_id: sender.to_string(),
    }
}

fn node(id: &str, parent: &str) -> Container {
    Container { container_id: id.to_string(), container_parent_id: parent.to_string() }
}

fn texts(list: &[&str]) -> Vec<String> {
    list.iter().map(|t| t.to_string()).collect()
}

fn shown(ranking: &[NgramForByCountCommand]) -> Vec<(String, u32)> {
    ranking.iter().map(|l| (l.content.clone(), l.count)).collect()
}

fn chain() -> Processor {
    let mut processor = Processor::new(Sql::new());
    processor.add_container(&node("guild", "discord"));
    processor.add_container(&node("channel", "guild"));
    processor.add_container(&node("thread", "channel"));
    processor
}

#[test]
fn two_entries_of_the_same_text_count_twice() {
    let mut processor = Processor::new(Sql::new());
    assert_eq!(processor.add_entries(&[said("1", "c", "u", 0, "a a")]), Ok(()));
    assert_eq!(processor.add_entries(&[said("2", "c", "u", 0, "a a")]), Ok(()));
    assert_eq!(processor.store().ngram_count(&key("a", 1, 0, "c", "u")), 4);
    assert_eq!(processor.store().ngram_count(&key("a a", 2, 0, "c", "u")), 2);
    assert_eq!(processor.store().get_entries_count_in_container("c"), Ok(2));
    assert_eq!(processor.store().get_ngram_count_in_container("c"), Ok(2));
}

#[test]
fn entry_that_is_ingested_again_changes_nothing() {
    let mut processor = Processor::new(Sql::new());
    assert_eq!(processor.add_entry(said("1", "c", "u", 0, "a a")), Ok(()));
    assert_eq!(processor.store().ngram_count(&key("a", 1, 0, "c", "u")), 2);
    assert_eq!(processor.add_entry(said("1", "c", "u", 0, "a a")), Ok(()));
    assert_eq!(processor.add_entries(&[said("1", "c", "u", 0, "a a"), said("1", "c", "u", 0, "a a")]), Ok(()));
    assert_eq!(processor.store().get_entries_count_in_container("c"), Ok(1));
    assert_eq!(processor.store().ngram_count(&key("a", 1, 0, "c", "u")), 2);
    assert_eq!(processor.store().ngram_count(&key("a a", 2, 0, "c", "u")), 1);
    // Not even where the text has changed.
    assert_eq!(processor.add_entry(said("1", "c", "u", 0, "b")), Ok(()));
    assert_eq!(processor.store().ngram_count(&key("b", 1, 0, "c", "u")), 0);
}

#[test]
fn entry_that_stands_twice_in_a_list_is_ingested_once() {
    let mut processor = Processor::new(Sql::new());
    assert_eq!(
        processor.add_entries(&[said("1", "c", "u", 0, "x"), said("2", "c", "u", 0, "x"), said("1", "c", "u", 0, "x")]),
        Ok(())
    );
    assert_eq!(processor.store().get_entries_count_in_container("c"), Ok(2));
    assert_eq!(processor.store().ngram_count(&key("x", 1, 0, "c", "u")), 2);
}

#[test]
fn ingested_entries_are_marked_as_counted() {
    let mut processor = Processor::new(Sql::new());
    assert_eq!(processor.add_entries(&[said("1", "c", "u", 0, "a b"), said("2", "c", "u", 5, "c")]), Ok(()));
    assert!(processor.store().get_entries_without_cached_ngrams(10, None).is_empty());
    assert_eq!(processor.store().is_entry_cached(&"1".to_string()), Some(true));
    assert_eq!(processor.cache_ngrams(), Ok(()));
    assert_eq!(processor.store().ngram_count(&key("a", 1, 0, "c", "u")), 1);
}

#[test]
fn ingestion_buckets_by_the_week_of_the_entry() {
    let mut processor = Processor::new(Sql::new());
    assert_eq!(
        processor.add_entries(&[
            said("1", "c", "u", 10, "hi"),
            said("2", "c", "u", SEVEN_DAYS - 1, "hi"),
            said("3", "c", "u", SEVEN_DAYS, "hi"),
            said("4", "c", "v", 20, "hi"),
            said("5", "d", "u", 30, "hi"),
        ]),
        Ok(())
    );
    assert_eq!(processor.store().ngram_count(&key("hi", 1, 0, "c", "u")), 2);
    assert_eq!(processor.store().ngram_count(&key("hi", 1, SEVEN_DAYS, "c", "u")), 1);
    assert_eq!(processor.store().ngram_count(&key("hi", 1, 0, "c", "v")), 1);
    assert_eq!(processor.store().ngram_count(&key("hi", 1, 0, "d", "u")), 1);
}

#[test]
fn ingestion_stops_where_a_count_does_not_fit() {
    let mut store = Sql::new();
    assert!(store.restore_ngram(key("b", 1, 0, "c", "u"), u32::MAX));
    let mut processor = Processor::new(store);
    assert_eq!(
        processor.add_entries(&[said("1", "c", "u", 0, "a"), said("2", "c", "u", 0, "a b"), said("3", "c", "u", 0, "a")]),
        Err(Error::DatabaseError(StoreError::CountOutOfRange))
    );
    assert!(processor.store().has_entry(&"1".to_string()));
    assert!(!processor.store().has_entry(&"2".to_string()));
    assert!(!processor.store().has_entry(&"3".to_string()));
    assert_eq!(processor.store().ngram_count(&key("a", 1, 0, "c", "u")), 2);
    assert_eq!(processor.store().ngram_count(&key("b", 1, 0, "c", "u")), u32::MAX);
}

#[test]
fn leaf_has_nothing_below_it() {
    let processor = chain();
    assert!(processor.get_child_container_ids("thread").is_empty());
    assert_eq!(processor.expand_container_ids_with_children(&texts(&["thread"])), texts(&["thread"]));
    assert_eq!(processor.expand_container_ids_with_children(&texts(&["unknown"])), texts(&["unknown"]));
}

#[test]
fn chain_of_three_is_found_whole() {
    let processor = chain();
    assert_eq!(
        processor.expand_container_ids_with_children(&texts(&["guild"])),
        texts(&["guild", "channel", "thread"])
    );
    assert_eq!(processor.get_child_container_ids("guild"), texts(&["channel", "thread"]));
    assert_eq!(processor.get_child_container_ids("channel"), texts(&["thread"]));
    assert_eq!(
        processor.get_child_container_ids("discord"),
        texts(&["guild", "channel", "thread"])
    );
}

#[test]
fn descendants_come_level_by_level() {
    let mut processor = Processor::new(Sql::new());
    processor.add_container(&node("g", "discord"));
    processor.add_container(&node("a", "g"));
    processor.add_container(&node("a1", "a"));
    processor.add_container(&node("b", "g"));
    processor.add_container(&node("b1", "b"));
    processor.add_container(&node("a2", "a"));
    processor.add_container(&node("a1x", "a1"));
    assert_eq!(
        processor.get_child_container_ids("g"),
        texts(&["a", "b", "a1", "a2", "b1", "a1x"])
    );
    assert_eq!(
        processor.expand_container_ids_with_children(&texts(&["a", "b"])),
        texts(&["a", "b", "a1", "a2", "a1x", "b1"])
    );
    assert!(processor.expand_container_ids_with_children(&[]).is_empty());
}

#[test]
fn search_among_containers_with_a_cycle_ends() {
    let mut processor = Processor::new(Sql::new());
    processor.add_container(&node("a", "b"));
    processor.add_container(&node("b", "a"));
    // As many levels as there are containers.
    assert_eq!(processor.get_child_container_ids("a"), texts(&["b", "a"]));
}

#[test]
fn counts_below_a_container_leave_the_container_out() {
    let mut processor = chain();
    assert_eq!(
        processor.add_entries(&[
            said("1", "guild", "u", 0, "in the guild"),
            said("2", "channel", "u", 0, "a b"),
            said("3", "thread", "u", 0, "c"),
            said("4", "thread", "u", 0, "c d"),
        ]),
        Ok(())
    );
    assert_eq!(processor.get_entries_count_in_container("guild"), Ok(3));
    assert_eq!(processor.get_entries_count_in_container("channel"), Ok(2));
    assert_eq!(processor.get_entries_count_in_container("thread"), Ok(0));
    // a, a b, b in the channel; c, c d, d in the thread.
    assert_eq!(processor.get_ngram_count_in_container("guild"), Ok(6));
    assert_eq!(processor.get_ngram_count_in_container("channel"), Ok(3));
    assert_eq!(processor.get_ngram_count_in_container("thread"), Ok(0));
}

#[test]
fn first_and_last_entry_are_asked_of_the_store() {
    let mut processor = Processor::new(Sql::new());
    assert_eq!(
        processor.get_first_and_last_entry_id_in_container("c"),
        Err(Error::DatabaseError(StoreError::NotFound))
    );
    assert_eq!(
        processor.add_entries(&[said("20", "c", "u", 200, "x"), said("10", "c", "u", 100, "x"), said("30", "c", "u", 300, "x")]),
        Ok(())
    );
    assert_eq!(
        processor.get_first_and_last_entry_id_in_container("c"),
        Ok(("10".to_string(), "30".to_string()))
    );
}

#[test]
fn ranking_reaches_all_that_lies_below_the_scope() {
    let mut processor = chain();
    assert_eq!(
        processor.add_entries(&[
            said("1", "guild", "u", 0, "top"),
            said("2", "channel", "u", 0, "mid mid"),
            said("3", "thread", "v", 0, "low low low"),
            said("4", "elsewhere", "u", 0, "far far far far"),
        ]),
        Ok(())
    );
    let ranking = processor
        .get_ngrams_by_count(None, Some(1), None, &texts(&["channel"]), None)
        .unwrap();
    assert_eq!(shown(&ranking), vec![("low".to_string(), 3), ("mid".to_string(), 2)]);
    let ranking = processor
        .get_ngrams_by_count(None, Some(1), Some(1), &texts(&["guild"]), Some(Order::Ascending))
        .unwrap();
    assert_eq!(shown(&ranking), vec![("top".to_string(), 1)]);
    let ranking = processor.get_ngrams_by_count(None, Some(1), None, &[], None).unwrap();
    assert_eq!(
        shown(&ranking),
        vec![
            ("far".to_string(), 4),
            ("low".to_string(), 3),
            ("mid".to_string(), 2),
            ("top".to_string(), 1),
        ]
    );
    let ranking = processor
        .get_ngrams_by_count(Some("v".to_string()), None, None, &texts(&["guild"]), None)
        .unwrap();
    assert_eq!(
        shown(&ranking),
        vec![("low".to_string(), 3), ("low low".to_string(), 2), ("low low low".to_string(), 1)]
    );
}

#[test]
fn ranking_without_a_limit_has_ten_lines() {
    let mut processor = Processor::new(Sql::new());
    assert_eq!(
        processor.add_entry(said("1", "c", "u", 0, "a b c d e f g h i j k l m")),
        Ok(())
    );
    let ranking = processor.get_ngrams_by_count(None, Some(1), None, &[], None).unwrap();
    assert_eq!(ranking.len(), 10);
    let ranking = processor.get_ngrams_by_count(None, Some(1), Some(12), &[], None).unwrap();
    assert_eq!(ranking.len(), 12);
}

#[test]
fn series_has_zero_points_in_its_silent_stretches() {
    let mut processor = chain();
    assert_eq!(
        processor.add_entries(&[
            said("1", "channel", "u", 5, "hello there"),
            said("2", "thread", "u", 3 * SEVEN_DAYS + 1, "hello"),
            said("3", "thread", "u", 3 * SEVEN_DAYS + 2, "hello"),
            said("4", "elsewhere", "u", SEVEN_DAYS, "hello"),
        ]),
        Ok(())
    );
    let series: Vec<(i64, u32)> = processor
        .get_ngram_by_content("hello", None, &texts(&["guild"]))
        .iter()
        .map(|p| (p.time, p.count))
        .collect();
    assert_eq!(
        series,
        vec![(0, 1), (SEVEN_DAYS, 0), (2 * SEVEN_DAYS, 0), (3 * SEVEN_DAYS, 2)]
    );
    let series: Vec<(i64, u32)> = processor
        .get_ngram_by_content("hello", Some("u".to_string()), &[])
        .iter()
        .map(|p| (p.time, p.count))
        .collect();
    assert_eq!(
        series,
        vec![(0, 1), (SEVEN_DAYS, 1), (2 * SEVEN_DAYS, 0), (3 * SEVEN_DAYS, 2)]
    );
    assert!(processor.get_ngram_by_content("goodbye", None, &[]).is_empty());
}

#[test]
fn sweep_counts_what_was_stored_uncounted() {
    let entries = vec![
        said("1", "c", "u", 10, "a a"),
        said("2", "c", "u", 20, "a b"),
        said("3", "d", "v", SEVEN_DAYS + 30, "b"),
        said("4", "d", "v", 40, ""),
    ];
    let mut store = Sql::new();
    store.add_entries(&entries, false);
    let mut processor = Processor::new(store);
    assert_eq!(processor.cache_ngrams(), Ok(()));
    assert!(processor.store().get_entries_without_cached_ngrams(10, None).is_empty());
    // The counts are those of one pass over all entries.
    let mut direct = Sql::new();
    assert_eq!(direct.add_ngrams(&Entry::get_ngrams_from_entries_slice(&entries)), Ok(()));
    for ngram in Entry::get_ngrams_from_entries_slice(&entries) {
        assert_eq!(processor.store().ngram_count(&ngram), direct.ngram_count(&ngram));
    }
    assert_eq!(processor.store().ngram_count(&key("a", 1, 0, "c", "u")), 3);
    assert_eq!(processor.store().ngram_count(&key("a a", 2, 0, "c", "u")), 1);
    assert_eq!(processor.store().ngram_count(&key("a b", 2, 0, "c", "u")), 1);
    assert_eq!(processor.store().ngram_count(&key("b", 1, 0, "c", "u")), 1);
    assert_eq!(processor.store().ngram_count(&key("b", 1, SEVEN_DAYS, "d", "v")), 1);
    assert_eq!(processor.store().get_ngram_count_in_container("c"), Ok(4));
    assert_eq!(processor.store().get_ngram_count_in_container("d"), Ok(1));
}

#[test]
fn sweep_counts_each_entry_once() {
    let mut store = Sql::new();
    store.add_entries(&[said("old", "c", "u", 10, "x")], false);
    let mut processor = Processor::new(store);
    assert_eq!(processor.add_entry(said("new", "c", "u", 20, "x")), Ok(()));
    assert_eq!(processor.store().ngram_count(&key("x", 1, 0, "c", "u")), 1);
    assert_eq!(processor.cache_ngrams(), Ok(()));
    assert_eq!(processor.store().ngram_count(&key("x", 1, 0, "c", "u")), 2);
    assert_eq!(processor.cache_ngrams(), Ok(()));
    assert_eq!(processor.store().ngram_count(&key("x", 1, 0, "c", "u")), 2);
    // An entry that waits is not ingested when it is handed in again.
    let mut store = Sql::new();
    store.add_entries(&[said("waits", "c", "u", 10, "y")], false);
    let mut processor = Processor::new(store);
    assert_eq!(processor.add_entry(said("waits", "c", "u", 10, "y")), Ok(()));
    assert_eq!(processor.store().ngram_count(&key("y", 1, 0, "c", "u")), 0);
    assert_eq!(processor.cache_ngrams(), Ok(()));
    assert_eq!(processor.store().ngram_count(&key("y", 1, 0, "c", "u")), 1);
}

#[test]
fn sweep_goes_through_more_than_one_page() {
    let total = ENTRY_LIMIT as i64 * 2 + 7;
    let entries: Vec<Entry> =
        (0..total).map(|i| said(&format!("{}", i), "c", "u", i, "w")).collect();
    let mut store = Sql::new();
    store.add_entries(&entries, false);
    let mut processor = Processor::new(store);
    assert_eq!(processor.cache_ngrams(), Ok(()));
    assert!(processor.store().get_entries_without_cached_ngrams(10, None).is_empty());
    let weeks = total / SEVEN_DAYS;
    assert_eq!(weeks, 0);
    assert_eq!(processor.store().ngram_count(&key("w", 1, 0, "c", "u")), total as u32);
}

#[test]
fn sweep_reaches_entries_of_the_age_of_a_page_end() {
    let total = ENTRY_LIMIT as usize + 1;
    let entries: Vec<Entry> =
        (0..total).map(|i| said(&format!("{}", i), "c", "u", 500, "w")).collect();
    let mut store = Sql::new();
    store.add_entries(&entries, false);
    let mut processor = Processor::new(store);
    // All entries have one timestamp. The page after the first starts
    // strictly below it and is empty; the sweep then starts again from the
    // newest and finds the entry that the first page had no room for.
    assert_eq!(processor.cache_ngrams(), Ok(()));
    assert!(processor.store().get_entries_without_cached_ngrams(10, None).is_empty());
    assert_eq!(processor.store().is_entry_cached(&format!("{}", ENTRY_LIMIT)), Some(true));
    assert_eq!(processor.store().ngram_count(&key("w", 1, 0, "c", "u")), ENTRY_LIMIT + 1);
    // Another sweep finds nothing to count.
    assert_eq!(processor.cache_ngrams(), Ok(()));
    assert_eq!(processor.store().ngram_count(&key("w", 1, 0, "c", "u")), ENTRY_LIMIT + 1);
}

#[test]
fn sweep_counts_ties_that_lie_across_several_page_ends() {
    // Three pages and a half, in blocks of 700 entries of one timestamp: each
    // page ends within a block.
    let total = ENTRY_LIMIT as usize * 3 + 500;
    let entries: Vec<Entry> = (0..total)
        .map(|i| said(&format!("{}", i), "c", "u", (i / 700) as i64, "tie"))
        .collect();
    let mut store = Sql::new();
    store.add_entries(&entries, false);
    let mut processor = Processor::new(store);
    assert_eq!(processor.cache_ngrams(), Ok(()));
    assert!(processor.store().get_entries_without_cached_ngrams(10, None).is_empty());
    assert_eq!(processor.store().ngram_count(&key("tie", 1, 0, "c", "u")), total as u32);
}

#[test]
fn sweep_that_is_given_up_sets_no_flag_without_counting() {
    // The second page cannot be counted: the row of its n-gram is full.
    let mut store = Sql::new();
    assert!(store.restore_ngram(key("full", 1, 0, "c", "u"), u32::MAX));
    let mut entries: Vec<Entry> = (0..ENTRY_LIMIT as usize)
        .map(|i| said(&format!("{}", i), "c", "u", 1000 + i as i64, "fine"))
        .collect();
    entries.push(said("late", "c", "u", 5, "full"));
    store.add_entries(&entries, false);
    let mut processor = Processor::new(store);
    assert_eq!(processor.cache_ngrams(), Err(Error::DatabaseError(StoreError::CountOutOfRange)));
    assert_eq!(processor.store().ngram_count(&key("fine", 1, 0, "c", "u")), ENTRY_LIMIT);
    assert_eq!(processor.store().ngram_count(&key("full", 1, 0, "c", "u")), u32::MAX);
    assert_eq!(processor.store().is_entry_cached(&"0".to_string()), Some(true));
    assert_eq!(processor.store().is_entry_cached(&"late".to_string()), Some(false));
    let left = processor.store().get_entries_without_cached_ngrams(10, None);
    assert_eq!(left.len(), 1);
    assert_eq!(left[0].entry_id, "late");
}

#[test]
fn sweep_stops_where_a_count_does_not_fit() {
    let mut store = Sql::new();
    assert!(store.restore_ngram(key("z", 1, 0, "c", "u"), u32::MAX));
    store.add_entries(&[said("1", "c", "u", 0, "z")], false);
    let mut processor = Processor::new(store);
    assert_eq!(processor.cache_ngrams(), Err(Error::DatabaseError(StoreError::CountOutOfRange)));
    assert_eq!(processor.store().is_entry_cached(&"1".to_string()), Some(false));
    assert_eq!(processor.store().ngram_count(&key("z", 1, 0, "c", "u")), u32::MAX);
}

#[test]
fn container_is_handed_on_to_the_store() {
    let mut processor = Processor::new(Sql::new());
    processor.add_container(&node("a", "b"));
    processor.add_container(&node("a", "c"));
    assert_eq!(processor.store().container_count(), 1);
    assert_eq!(processor.store().get_child_container_ids("b"), texts(&["a"]));
}

#[test]
fn sweep_counts_entries_of_one_age_that_fill_no_page() {
    let entries: Vec<Entry> =
        (0..50).map(|i| said(&format!("{}", i), "c", "u", 777, "same time")).collect();
    let mut store = Sql::new();
    store.add_entries(&entries, false);
    let mut processor = Processor::new(store);
    assert_eq!(processor.cache_ngrams(), Ok(()));
    assert!(processor.store().get_entries_without_cached_ngrams(10, None).is_empty());
    assert_eq!(processor.store().ngram_count(&key("same", 1, 0, "c", "u")), 50);
    assert_eq!(processor.store().ngram_count(&key("same time", 2, 0, "c", "u")), 50);
}

#[test]
fn sweep_of_a_full_page_of_one_age_counts_it_all() {
    let entries: Vec<Entry> = (0..ENTRY_LIMIT)
        .map(|i| said(&format!("{}", i), "c", "u", 777, "w"))
        .collect();
    let mut store = Sql::new();
    store.add_entries(&entries, false);
    let mut processor = Processor::new(store);
    assert_eq!(processor.cache_ngrams(), Ok(()));
    assert!(processor.store().get_entries_without_cached_ngrams(10, None).is_empty());
    assert_eq!(processor.store().ngram_count(&key("w", 1, 0, "c", "u")), ENTRY_LIMIT);
}
