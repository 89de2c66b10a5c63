use nlp_bot_api::processor::container::Container;
use nlp_bot_api::processor::entry::Entry;
use nlp_bot_api::processor::ngram::{NgramForByCountCommand, NgramForStore};
use nlp_bot_api::store::filters::{NgramsByContentFilter, NgramsByCountFilter, Order};
use nlp_bot_api::store::{Sql, StoreError};

const WEEK_IN_SECONDS: i64 = 604800;

fn stored_entry(id: &str, container: &str, time: i64) -> Entry {
    Entry {
        entry_id: id.to_string(),
        container_id: container.to_string(),
        sender_id: "sender".to_string(),
        unix_timestamp: time,
        content: "text".to_string(),
    }
}

fn ngram(content: &str, length: u32, time: i64, container: &str, sender: &str) -> NgramForStore {
    NgramForStore {
        content: content.to_string(),
        length,
        time,
        container_id: container.to_string(),
        sender_id: sender.to_string(),
    }
}

fn container(id: &str, parent: &str) -> Container {
    Container { container_id: id.to_string(), container_parent_id: parent.to_string() }
}

fn ids(entries: &[Entry]) -> Vec<String> {
    entries.iter().map(|e| e.entry_id.clone()).collect()
}

fn lines(ranking: &[NgramForByCountCommand]) -> Vec<(String, u32)> {
    ranking.iter().map(|l| (l.content.clone(), l.count)).collect()
}

fn ranking_filter(limit: u32, order: Order) -> NgramsByCountFilter {
    NgramsByCountFilter {
        sender_id: None,
        length: None,
        container_ids: Vec::new(),
        limit,
        order,
    }
}

fn with_counts(rows: &[(&str, u32, &str, &str, u32)]) -> Sql {
    let mut store = Sql::new();
    for (content, length, container, sender, count) in rows {
        assert!(store.restore_ngram(ngram(content, *length, 0, container, sender), *count));
    }
    store
}

#[test]
fn new_store_is_empty() {
    let store = Sql::new();
    assert_eq!(store.container_count(), 0);
    assert_eq!(store.get_entries_count_in_container("c"), Ok(0));
    assert_eq!(store.get_ngram_count_in_container("c"), Ok(0));
    assert!(store.get_entries_without_cached_ngrams(10, None).is_empty());
    assert!(store.get_child_container_ids("c").is_empty());
}

#[test]
fn entry_is_stored_once() {
    let mut store = Sql::new();
    store.add_entries(&[stored_entry("1", "c", 10)], true);
    assert_eq!(store.get_entries_count_in_container("c"), Ok(1));
    store.add_entries(&[stored_entry("1", "c", 10)], true);
    assert_eq!(store.get_entries_count_in_container("c"), Ok(1));
    // Not even with other fields, or within one list.
    store.add_entries(&[stored_entry("1", "d", 99), stored_entry("2", "d", 5), stored_entry("2", "c", 6)], false);
    assert_eq!(store.get_entries_count_in_container("c"), Ok(1));
    assert_eq!(store.get_entries_count_in_container("d"), Ok(1));
    assert_eq!(store.is_entry_cached(&"1".to_string()), Some(true));
    assert_eq!(store.is_entry_cached(&"2".to_string()), Some(false));
    assert_eq!(store.is_entry_cached(&"3".to_string()), None);
    assert!(store.has_entry(&"2".to_string()));
    assert!(!store.has_entry(&"3".to_string()));
}

#[test]
fn empty_lists_change_nothing() {
    let mut store = Sql::new();
    store.add_entries(&[], true);
    assert_eq!(store.add_ngrams(&[]), Ok(()));
    store.mark_entry_as_ngrams_cached(&[]);
    assert_eq!(store.get_entries_count_in_container("c"), Ok(0));
    assert_eq!(store.get_ngram_count_in_container("c"), Ok(0));
}

#[test]
fn uncached_entries_come_newest_first() {
    let mut store = Sql::new();
    store.add_entries(
        &[stored_entry("a", "c", 10), stored_entry("b", "c", 30), stored_entry("c", "d", 20)],
        false,
    );
    store.add_entries(&[stored_entry("d", "c", 40)], true);
    assert_eq!(ids(&store.get_entries_without_cached_ngrams(10, None)), vec!["b", "c", "a"]);
    assert_eq!(ids(&store.get_entries_without_cached_ngrams(2, None)), vec!["b", "c"]);
    assert!(store.get_entries_without_cached_ngrams(0, None).is_empty());
}

#[test]
fn uncached_entries_below_a_cursor_are_strictly_older() {
    let mut store = Sql::new();
    store.add_entries(
        &[
            stored_entry("a", "c", 10),
            stored_entry("b", "c", 30),
            stored_entry("c", "c", 20),
            stored_entry("d", "c", 20),
        ],
        false,
    );
    assert_eq!(ids(&store.get_entries_without_cached_ngrams(10, Some("b".to_string()))), vec!["c", "d", "a"]);
    assert_eq!(ids(&store.get_entries_without_cached_ngrams(10, Some("c".to_string()))), vec!["a"]);
    assert_eq!(ids(&store.get_entries_without_cached_ngrams(10, Some("d".to_string()))), vec!["a"]);
    assert!(store.get_entries_without_cached_ngrams(10, Some("a".to_string())).is_empty());
    // A cursor that names nothing lets nothing through.
    assert!(store.get_entries_without_cached_ngrams(10, Some("zz".to_string())).is_empty());
}

#[test]
fn uncached_entries_carry_all_their_fields() {
    let mut store = Sql::new();
    store.add_entries(
        &[Entry {
            entry_id: "id".to_string(),
            container_id: "container".to_string(),
            sender_id: "who".to_string(),
            unix_timestamp: -5,
            content: "what was said".to_string(),
        }],
        false,
    );
    let page = store.get_entries_without_cached_ngrams(1, None);
    assert_eq!(page.len(), 1);
    assert_eq!(page[0].entry_id, "id");
    assert_eq!(page[0].container_id, "container");
    assert_eq!(page[0].sender_id, "who");
    assert_eq!(page[0].unix_timestamp, -5);
    assert_eq!(page[0].content, "what was said");
}

#[test]
fn marked_entries_are_no_longer_uncached() {
    let mut store = Sql::new();
    store.add_entries(
        &[stored_entry("a", "c", 10), stored_entry("b", "c", 30), stored_entry("c", "c", 20)],
        false,
    );
    store.mark_entry_as_ngrams_cached(&["b".to_string(), "nobody".to_string(), "a".to_string()]);
    assert_eq!(ids(&store.get_entries_without_cached_ngrams(10, None)), vec!["c"]);
    assert_eq!(store.get_entries_count_in_container("c"), Ok(3));
    store.mark_entry_as_ngrams_cached(&["c".to_string()]);
    assert!(store.get_entries_without_cached_ngrams(10, None).is_empty());
}

#[test]
fn first_and_last_entry_are_the_oldest_and_the_newest() {
    let mut store = Sql::new();
    store.add_entries(
        &[
            stored_entry("a", "c", 10),
            stored_entry("b", "c", 30),
            stored_entry("c", "c", 5),
            stored_entry("d", "other", 1),
            stored_entry("e", "other", 99),
        ],
        true,
    );
    assert_eq!(store.get_first_entry_id_in_container("c"), Ok("c".to_string()));
    assert_eq!(store.get_last_entry_id_in_container("c"), Ok("b".to_string()));
    assert_eq!(store.get_first_entry_id_in_container("other"), Ok("d".to_string()));
    assert_eq!(store.get_last_entry_id_in_container("other"), Ok("e".to_string()));
}

#[test]
fn first_and_last_entry_of_one_age_are_the_earliest_stored() {
    let mut store = Sql::new();
    store.add_entries(&[stored_entry("a", "c", 7), stored_entry("b", "c", 7)], true);
    assert_eq!(store.get_first_entry_id_in_container("c"), Ok("a".to_string()));
    assert_eq!(store.get_last_entry_id_in_container("c"), Ok("a".to_string()));
}

#[test]
fn container_without_entries_has_no_first_and_no_last() {
    let mut store = Sql::new();
    store.add_container(&container("c", "p"));
    store.add_entries(&[stored_entry("a", "other", 7)], true);
    assert_eq!(store.get_first_entry_id_in_container("c"), Err(StoreError::NotFound));
    assert_eq!(store.get_last_entry_id_in_container("c"), Err(StoreError::NotFound));
}

#[test]
fn container_is_stored_once() {
    let mut store = Sql::new();
    store.add_container(&container("child", "parent"));
    store.add_container(&container("child", "elsewhere"));
    assert_eq!(store.container_count(), 1);
    assert_eq!(store.get_child_container_ids("parent"), vec!["child"]);
    assert!(store.get_child_container_ids("elsewhere").is_empty());
}

#[test]
fn children_are_the_direct_ones_in_stored_order() {
    let mut store = Sql::new();
    store.add_container(&container("guild", "discord"));
    store.add_container(&container("b", "guild"));
    store.add_container(&container("a", "guild"));
    store.add_container(&container("thread", "a"));
    assert_eq!(store.get_child_container_ids("guild"), vec!["b", "a"]);
    assert_eq!(store.get_child_container_ids("discord"), vec!["guild"]);
    assert_eq!(store.get_child_container_ids("a"), vec!["thread"]);
    assert!(store.get_child_container_ids("thread").is_empty());
}

#[test]
fn counts_are_those_of_the_very_container() {
    let mut store = Sql::new();
    store.add_container(&container("child", "parent"));
    store.add_entries(
        &[stored_entry("1", "parent", 1), stored_entry("2", "child", 2), stored_entry("3", "child", 3)],
        true,
    );
    assert_eq!(store.add_ngrams(&[ngram("a", 1, 0, "parent", "u"), ngram("a", 1, 0, "child", "u"), ngram("b", 1, 0, "child", "u"), ngram("b", 1, 0, "child", "u")]), Ok(()));
    assert_eq!(store.get_entries_count_in_container("parent"), Ok(1));
    assert_eq!(store.get_entries_count_in_container("child"), Ok(2));
    assert_eq!(store.get_ngram_count_in_container("parent"), Ok(1));
    assert_eq!(store.get_ngram_count_in_container("child"), Ok(2));
}

#[test]
fn ngrams_are_counted_under_their_five_part_key() {
    let mut store = Sql::new();
    let base = ngram("a", 1, 0, "c", "u");
    assert_eq!(
        store.add_ngrams(&[
            ngram("a", 1, 0, "c", "u"),
            ngram("a", 1, 0, "c", "u"),
            ngram("a", 2, 0, "c", "u"),
            ngram("a", 1, WEEK_IN_SECONDS, "c", "u"),
            ngram("a", 1, 0, "d", "u"),
            ngram("a", 1, 0, "c", "v"),
            ngram("b", 1, 0, "c", "u"),
            ngram("a", 1, 0, "c", "u"),
        ]),
        Ok(())
    );
    assert_eq!(store.ngram_count(&base), 3);
    assert_eq!(store.ngram_count(&ngram("a", 2, 0, "c", "u")), 1);
    assert_eq!(store.ngram_count(&ngram("a", 1, WEEK_IN_SECONDS, "c", "u")), 1);
    assert_eq!(store.ngram_count(&ngram("a", 1, 0, "d", "u")), 1);
    assert_eq!(store.ngram_count(&ngram("a", 1, 0, "c", "v")), 1);
    assert_eq!(store.ngram_count(&ngram("b", 1, 0, "c", "u")), 1);
    assert_eq!(store.ngram_count(&ngram("c", 1, 0, "c", "u")), 0);
    assert_eq!(store.get_ngram_count_in_container("c"), Ok(5));
    assert_eq!(store.add_ngrams(&[ngram("a", 1, 0, "c", "u")]), Ok(()));
    assert_eq!(store.ngram_count(&base), 4);
    assert_eq!(store.get_ngram_count_in_container("c"), Ok(5));
}

#[test]
fn restored_row_holds_its_count() {
    let mut store = Sql::new();
    assert!(store.restore_ngram(ngram("a", 1, 0, "c", "u"), 41));
    assert_eq!(store.ngram_count(&ngram("a", 1, 0, "c", "u")), 41);
    assert!(!store.restore_ngram(ngram("a", 1, 0, "c", "u"), 7));
    assert!(!store.restore_ngram(ngram("b", 1, 0, "c", "u"), 0));
    assert_eq!(store.ngram_count(&ngram("a", 1, 0, "c", "u")), 41);
    assert_eq!(store.ngram_count(&ngram("b", 1, 0, "c", "u")), 0);
    assert_eq!(store.add_ngrams(&[ngram("a", 1, 0, "c", "u")]), Ok(()));
    assert_eq!(store.ngram_count(&ngram("a", 1, 0, "c", "u")), 42);
}

#[test]
fn full_row_counts_no_further() {
    let mut store = Sql::new();
    assert!(store.restore_ngram(ngram("full", 1, 0, "c", "u"), u32::MAX - 1));
    assert_eq!(
        store.add_ngrams(&[
            ngram("other", 1, 0, "c", "u"),
            ngram("full", 1, 0, "c", "u"),
            ngram("full", 1, 0, "c", "u"),
            ngram("late", 1, 0, "c", "u"),
        ]),
        Err(StoreError::CountOutOfRange)
    );
    // What was counted before the full row stays counted.
    assert_eq!(store.ngram_count(&ngram("other", 1, 0, "c", "u")), 1);
    assert_eq!(store.ngram_count(&ngram("full", 1, 0, "c", "u")), u32::MAX);
    assert_eq!(store.ngram_count(&ngram("late", 1, 0, "c", "u")), 0);
}

#[test]
fn ranking_puts_the_most_frequent_first() {
    let store = with_counts(&[("a", 1, "c", "u", 5), ("b", 1, "c", "u", 9)]);
    let ranking = store.get_ngrams_by_count(&ranking_filter(1, Order::Descending)).unwrap();
    assert_eq!(lines(&ranking), vec![("b".to_string(), 9)]);
    let ranking = store.get_ngrams_by_count(&ranking_filter(10, Order::Descending)).unwrap();
    assert_eq!(lines(&ranking), vec![("b".to_string(), 9), ("a".to_string(), 5)]);
}

#[test]
fn ranking_puts_the_least_frequent_first_when_ascending() {
    let store = with_counts(&[("a", 1, "c", "u", 5), ("b", 1, "c", "u", 9), ("c", 1, "c", "u", 1)]);
    let ranking = store.get_ngrams_by_count(&ranking_filter(2, Order::Ascending)).unwrap();
    assert_eq!(lines(&ranking), vec![("c".to_string(), 1), ("a".to_string(), 5)]);
}

#[test]
fn ranking_sums_the_rows_of_a_text() {
    let store = with_counts(&[
        ("a", 1, "c", "u", 5),
        ("b", 1, "c", "u", 9),
        ("a", 1, "d", "u", 3),
        ("a", 1, "c", "v", 2),
    ]);
    let ranking = store.get_ngrams_by_count(&ranking_filter(10, Order::Descending)).unwrap();
    assert_eq!(lines(&ranking), vec![("a".to_string(), 10), ("b".to_string(), 9)]);
}

#[test]
fn ranking_counts_only_what_the_filter_lets_through() {
    let store = with_counts(&[
        ("a", 1, "c", "u", 5),
        ("b", 1, "c", "v", 9),
        ("a b", 2, "c", "u", 4),
        ("a", 1, "d", "u", 3),
        ("c", 1, "e", "w", 8),
    ]);
    let mut filter = ranking_filter(10, Order::Descending);
    filter.sender_id = Some("u".to_string());
    assert_eq!(
        lines(&store.get_ngrams_by_count(&filter).unwrap()),
        vec![("a".to_string(), 8), ("a b".to_string(), 4)]
    );
    filter.length = Some(2);
    assert_eq!(lines(&store.get_ngrams_by_count(&filter).unwrap()), vec![("a b".to_string(), 4)]);
    filter.sender_id = None;
    filter.length = Some(1);
    filter.container_ids = vec!["c".to_string(), "e".to_string()];
    assert_eq!(
        lines(&store.get_ngrams_by_count(&filter).unwrap()),
        vec![("b".to_string(), 9), ("c".to_string(), 8), ("a".to_string(), 5)]
    );
    filter.container_ids = vec!["nowhere".to_string()];
    assert!(store.get_ngrams_by_count(&filter).unwrap().is_empty());
}

#[test]
fn ranking_with_scope_and_length_but_no_sender_is_filtered_by_both() {
    let store = with_counts(&[("a", 1, "c", "u", 5), ("a b", 2, "c", "u", 4), ("z z", 2, "d", "u", 7)]);
    let mut filter = ranking_filter(10, Order::Descending);
    filter.container_ids = vec!["c".to_string()];
    filter.length = Some(2);
    assert_eq!(lines(&store.get_ngrams_by_count(&filter).unwrap()), vec![("a b".to_string(), 4)]);
}

#[test]
fn ranking_of_nothing_or_with_no_lines_is_empty() {
    let store = Sql::new();
    assert!(store.get_ngrams_by_count(&ranking_filter(10, Order::Descending)).unwrap().is_empty());
    let store = with_counts(&[("a", 1, "c", "u", 5)]);
    assert!(store.get_ngrams_by_count(&ranking_filter(0, Order::Descending)).unwrap().is_empty());
}

#[test]
fn ranking_fails_where_a_total_does_not_fit() {
    let store = with_counts(&[("a", 1, "c", "u", u32::MAX), ("a", 1, "d", "u", 1), ("b", 1, "c", "u", 2)]);
    assert_eq!(
        store.get_ngrams_by_count(&ranking_filter(10, Order::Descending)).map(|r| lines(&r)),
        Err(StoreError::CountOutOfRange)
    );
    let mut filter = ranking_filter(10, Order::Descending);
    filter.container_ids = vec!["c".to_string()];
    assert_eq!(
        store.get_ngrams_by_count(&filter).map(|r| lines(&r)),
        Ok(vec![("a".to_string(), u32::MAX), ("b".to_string(), 2)])
    );
}

#[test]
fn series_is_ordered_by_bucket() {
    let mut store = Sql::new();
    assert!(store.restore_ngram(ngram("a", 1, 2 * WEEK_IN_SECONDS, "c", "u"), 3));
    assert!(store.restore_ngram(ngram("a", 1, 0, "c", "u"), 5));
    assert!(store.restore_ngram(ngram("b", 1, WEEK_IN_SECONDS, "c", "u"), 9));
    assert!(store.restore_ngram(ngram("a", 1, WEEK_IN_SECONDS, "d", "v"), 7));
    assert!(store.restore_ngram(ngram("a", 1, 0, "c", "v"), 1));
    let filter = NgramsByContentFilter {
        content: "a".to_string(),
        sender_id: None,
        container_ids: Vec::new(),
    };
    let series: Vec<(i64, u32)> =
        store.get_ngrams_by_content(&filter).iter().map(|p| (p.time, p.count)).collect();
    assert_eq!(
        series,
        vec![(0, 5), (0, 1), (WEEK_IN_SECONDS, 7), (2 * WEEK_IN_SECONDS, 3)]
    );
    let filter = NgramsByContentFilter {
        content: "a".to_string(),
        sender_id: Some("u".to_string()),
        container_ids: vec!["c".to_string()],
    };
    let series: Vec<(i64, u32)> =
        store.get_ngrams_by_content(&filter).iter().map(|p| (p.time, p.count)).collect();
    assert_eq!(series, vec![(0, 5), (2 * WEEK_IN_SECONDS, 3)]);
    let filter = NgramsByContentFilter {
        content: "missing".to_string(),
        sender_id: None,
        container_ids: Vec::new(),
    };
    assert!(store.get_ngrams_by_content(&filter).is_empty());
}

#[test]
fn default_filter_asks_for_the_ten_most_frequent() {
    let filter = NgramsByCountFilter::default();
    assert!(filter.sender_id.is_none());
    assert!(filter.length.is_none());
    assert!(filter.container_ids.is_empty());
    assert_eq!(filter.limit, 10);
    assert_eq!(filter.order, Order::Descending);
}

#[test]
fn order_is_read_from_its_word() {
    assert_eq!(Order::from_str("asc"), Ok(Order::Ascending));
    assert_eq!(Order::from_str("desc"), Ok(Order::Descending));
    assert_eq!(Order::from_str("ASC"), Err("Invalid order".to_string()));
    assert_eq!(Order::from_str(""), Err("Invalid order".to_string()));
    assert_eq!(Order::from_str("descending"), Err("Invalid order".to_string()));
    assert_eq!("asc".parse::<Order>(), Ok(Order::Ascending));
    assert_eq!("up".parse::<Order>(), Err("Invalid order".to_string()));
}

#[test]
fn touched_rows_are_those_of_the_listed_entries() {
    let mut store = Sql::new();
    let first = Entry {
        entry_id: "1".to_string(),
        container_id: "c".to_string(),
        sender_id: "u".to_string(),
        unix_timestamp: 10,
        content: "a a".to_string(),
    };
    let second = Entry {
        entry_id: "2".to_string(),
        container_id: "c".to_string(),
        sender_id: "u".to_string(),
        unix_timestamp: 20,
        content: "b".to_string(),
    };
    let changed = Entry {
        entry_id: "1".to_string(),
        container_id: "elsewhere".to_string(),
        sender_id: "v".to_string(),
        unix_timestamp: 99,
        content: "a".to_string(),
    };
    store.add_entries(&[first.clone()], true);
    store.add_entries(&[second.clone()], false);
    assert_eq!(store.add_ngrams(&first.get_ngrams()), Ok(()));
    let touched = store.rows_touched_by(&[second.clone(), stored_entry("3", "c", 5), first.clone()]);
    let rows: Vec<(String, String, bool)> = touched
        .entries
        .iter()
        .map(|row| (row.entry.entry_id.clone(), row.entry.content.clone(), row.ngrams_cached))
        .collect();
    assert_eq!(
        rows,
        vec![
            ("2".to_string(), "b".to_string(), false),
            ("1".to_string(), "a a".to_string(), true),
        ]
    );
    // The n-grams of "b" and of "text" were not counted; "a" stands twice in
    // the first entry.
    let counts: Vec<(String, u32)> =
        touched.ngrams.iter().map(|row| (row.ngram.content.clone(), row.count)).collect();
    assert_eq!(
        counts,
        vec![("a".to_string(), 2), ("a a".to_string(), 1), ("a".to_string(), 2)]
    );
    // The row is the stored one, whatever the listed entry holds.
    let touched = store.rows_touched_by(&[changed]);
    assert_eq!(touched.entries.len(), 1);
    assert_eq!(touched.entries[0].entry.content, "a a");
    assert_eq!(touched.entries[0].entry.container_id, "c");
    assert_eq!(touched.entries[0].entry.unix_timestamp, 10);
    assert!(touched.ngrams.is_empty());
    let touched = store.rows_touched_by(&[]);
    assert!(touched.entries.is_empty() && touched.ngrams.is_empty());
}
