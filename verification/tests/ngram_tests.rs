use nlp_bot_api::processor::ngram::{
    fill_gaps, get_ngram, get_ngram_time, get_ngrams_in_word_list, NgramsForByContentCommand,
    MAX_NGRAM_LENGTH, SECONDS_IN_WEEK,
};

const WEEK: i64 = 604800;

fn point(time: i64, count: u32) -> NgramsForByContentCommand {
    NgramsForByContentCommand { count, time }
}

fn pairs(series: &[NgramsForByContentCommand]) -> Vec<(i64, u32)> {
    series.iter().map(|p| (p.time, p.count)).collect()
}

fn strings(words: &[&str]) -> Vec<String> {
    words.iter().map(|w| w.to_string()).collect()
}

#[test]
fn constants_have_their_values() {
    assert_eq!(SECONDS_IN_WEEK, 7 * 24 * 60 * 60);
    assert_eq!(MAX_NGRAM_LENGTH, 5);
}

#[test]
fn time_bucket_of_the_first_week_is_zero() {
    assert_eq!(get_ngram_time(0), 0);
    assert_eq!(get_ngram_time(1), 0);
    assert_eq!(get_ngram_time(WEEK - 1), 0);
}

#[test]
fn time_bucket_starts_anew_each_week() {
    assert_eq!(get_ngram_time(WEEK), WEEK);
    assert_eq!(get_ngram_time(WEEK + 1), WEEK);
    assert_eq!(get_ngram_time(3 * WEEK + 12345), 3 * WEEK);
    assert_eq!(get_ngram_time(1_700_000_000), 1_699_488_000);
}

#[test]
fn time_bucket_of_a_time_before_the_epoch_lies_below_it() {
    assert_eq!(get_ngram_time(-1), -WEEK);
    assert_eq!(get_ngram_time(-WEEK), -WEEK);
    assert_eq!(get_ngram_time(-WEEK - 1), -2 * WEEK);
}

#[test]
fn time_bucket_is_a_multiple_of_a_week_at_most_a_week_below() {
    let samples: [i64; 12] = [
        0,
        1,
        -1,
        WEEK,
        -WEEK,
        123_456_789,
        -123_456_789,
        1_700_000_000,
        i64::MAX,
        i64::MAX - WEEK,
        i64::MIN + WEEK,
        i64::MIN + 2 * WEEK + 17,
    ];
    for t in samples {
        let bucket = get_ngram_time(t);
        assert_eq!(bucket % WEEK, 0, "bucket of {} is a multiple of a week", t);
        assert!(bucket <= t);
        assert!((t as i128) - (bucket as i128) < WEEK as i128);
    }
}

#[test]
fn time_bucket_at_the_bottom_of_the_range_is_the_bottom() {
    assert_eq!(get_ngram_time(i64::MIN), i64::MIN);
    assert_eq!(get_ngram_time(i64::MIN + 1), i64::MIN);
    // The lowest multiple of a week that an i64 holds.
    let lowest = -(i64::MAX / WEEK) * WEEK;
    assert_eq!(get_ngram_time(lowest), lowest);
    assert_eq!(get_ngram_time(lowest - 1), i64::MIN);
    assert_eq!(get_ngram_time(lowest + WEEK - 1), lowest);
}

#[test]
fn gap_of_three_weeks_gets_two_fillers() {
    let mut series = vec![point(0, 5), point(3 * WEEK, 2)];
    fill_gaps(&mut series);
    assert_eq!(pairs(&series), vec![(0, 5), (WEEK, 0), (2 * WEEK, 0), (3 * WEEK, 2)]);
}

#[test]
fn gap_of_one_and_a_half_weeks_gets_one_filler() {
    let mut series = vec![point(0, 5), point(WEEK + WEEK / 2, 2)];
    fill_gaps(&mut series);
    assert_eq!(pairs(&series), vec![(0, 5), (WEEK, 0), (WEEK + WEEK / 2, 2)]);
}

#[test]
fn gaps_of_at_most_a_week_get_no_filler() {
    let mut series = vec![point(0, 5), point(WEEK, 2), point(WEEK + 1, 7), point(2 * WEEK, 1)];
    fill_gaps(&mut series);
    assert_eq!(pairs(&series), vec![(0, 5), (WEEK, 2), (WEEK + 1, 7), (2 * WEEK, 1)]);
}

#[test]
fn gap_of_exactly_two_weeks_gets_one_filler() {
    let mut series = vec![point(WEEK, 1), point(3 * WEEK, 1)];
    fill_gaps(&mut series);
    assert_eq!(pairs(&series), vec![(WEEK, 1), (2 * WEEK, 0), (3 * WEEK, 1)]);
}

#[test]
fn gap_of_a_second_more_than_two_weeks_gets_two_fillers() {
    let mut series = vec![point(0, 1), point(2 * WEEK + 1, 1)];
    fill_gaps(&mut series);
    assert_eq!(pairs(&series), vec![(0, 1), (WEEK, 0), (WEEK + 1, 0), (2 * WEEK + 1, 1)]);
}

#[test]
fn series_without_a_pair_stays_as_it_is() {
    let mut empty: Vec<NgramsForByContentCommand> = Vec::new();
    fill_gaps(&mut empty);
    assert!(empty.is_empty());
    let mut single = vec![point(42, 3)];
    fill_gaps(&mut single);
    assert_eq!(pairs(&single), vec![(42, 3)]);
}

#[test]
fn every_pair_of_the_series_is_looked_at() {
    let mut series = vec![point(0, 1), point(5 * WEEK, 2), point(6 * WEEK, 3), point(8 * WEEK, 4)];
    fill_gaps(&mut series);
    assert_eq!(
        pairs(&series),
        vec![
            (0, 1),
            (WEEK, 0),
            (4 * WEEK, 0),
            (5 * WEEK, 2),
            (6 * WEEK, 3),
            (7 * WEEK, 0),
            (8 * WEEK, 4),
        ]
    );
}

#[test]
fn fillers_are_not_looked_at_again() {
    // The filler a week before the second point is ten weeks after the first
    // filler; no further filler is put between the two.
    let mut series = vec![point(0, 1), point(12 * WEEK, 1)];
    fill_gaps(&mut series);
    assert_eq!(pairs(&series), vec![(0, 1), (WEEK, 0), (11 * WEEK, 0), (12 * WEEK, 1)]);
}

#[test]
fn series_that_goes_back_in_time_gets_no_filler() {
    let mut series = vec![point(10 * WEEK, 1), point(0, 2)];
    fill_gaps(&mut series);
    assert_eq!(pairs(&series), vec![(10 * WEEK, 1), (0, 2)]);
}

#[test]
fn gap_over_the_whole_range_is_filled_without_overflow() {
    let mut series = vec![point(i64::MIN, 1), point(i64::MAX, 2)];
    fill_gaps(&mut series);
    assert_eq!(
        pairs(&series),
        vec![(i64::MIN, 1), (i64::MIN + WEEK, 0), (i64::MAX - WEEK, 0), (i64::MAX, 2)]
    );
}

#[test]
fn word_list_gives_every_window() {
    let words = strings(&["a", "b", "c"]);
    let windows = get_ngrams_in_word_list(&words, 2);
    let shown: Vec<Vec<String>> = windows.iter().map(|w| w.to_vec()).collect();
    assert_eq!(
        shown,
        vec![
            strings(&["a"]),
            strings(&["a", "b"]),
            strings(&["b"]),
            strings(&["b", "c"]),
            strings(&["c"]),
        ]
    );
}

#[test]
fn word_list_windows_start_at_the_first_word() {
    let words = strings(&["only"]);
    let windows = get_ngrams_in_word_list(&words, 5);
    assert_eq!(windows.len(), 1);
    assert_eq!(windows[0].to_vec(), strings(&["only"]));
}

#[test]
fn word_list_windows_are_at_most_five_words_long() {
    let words = strings(&["a", "b", "c", "d", "e", "f", "g"]);
    let windows = get_ngrams_in_word_list(&words, MAX_NGRAM_LENGTH);
    // 5 + 5 + 5 + 4 + 3 + 2 + 1
    assert_eq!(windows.len(), 25);
    assert!(windows.iter().all(|w| 1 <= w.len() && w.len() <= 5));
    assert_eq!(windows[4].to_vec(), strings(&["a", "b", "c", "d", "e"]));
    assert_eq!(windows[5].to_vec(), strings(&["b"]));
    assert_eq!(windows[24].to_vec(), strings(&["g"]));
}

#[test]
fn word_list_without_words_or_lengths_gives_nothing() {
    let none: Vec<String> = Vec::new();
    assert!(get_ngrams_in_word_list(&none, 5).is_empty());
    let words = strings(&["a", "b"]);
    assert!(get_ngrams_in_word_list(&words, 0).is_empty());
}

#[test]
fn word_list_takes_the_greatest_length() {
    let words = strings(&["a", "b"]);
    let windows = get_ngrams_in_word_list(&words, 255);
    assert_eq!(windows.len(), 3);
}

#[test]
fn ngram_is_there_only_where_the_list_reaches() {
    let words = strings(&["a", "b", "c"]);
    assert_eq!(get_ngram(&words, 2, 1).map(|w| w.to_vec()), Some(strings(&["b", "c"])));
    assert_eq!(get_ngram(&words, 3, 0).map(|w| w.to_vec()), Some(strings(&["a", "b", "c"])));
    assert_eq!(get_ngram(&words, 0, 3).map(|w| w.to_vec()), Some(Vec::new()));
    assert!(get_ngram(&words, 2, 2).is_none());
    assert!(get_ngram(&words, 1, 3).is_none());
    assert!(get_ngram(&words, 1, usize::MAX).is_none());
}
