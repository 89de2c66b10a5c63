use nlp_bot_api::bot::{
    parse_message_id, Backfill, BackfillError, Bot, PaginationDirection, ParseError,
};
use nlp_bot_api::processor::entry::Entry;
use nlp_bot_api::processor::ngram::NgramForStore;
use nlp_bot_api::processor::{Error, Processor};
use nlp_bot_api::store::{Sql, StoreError};

fn message(id: &str, channel: &str, time: i64, content: &str) -> Entry {
    Entry {
        entry_id: id.to_string(),
        container_id: channel.to_string(),
        sender_id: "author".to_string(),
        unix_timestamp: time,
        content: content.to_string(),
    }
}

fn counted(content: &str, channel: &str) -> NgramForStore {
    NgramForStore {
        content: content.to_string(),
        length: 1,
        time: 0,
        container_id: channel.to_string(),
        sender_id: "author".to_string(),
    }
}

fn up(message_id: Option<u64>, then_down: Option<u64>) -> Backfill {
    Backfill::Walking { direction: PaginationDirection::Up { message_id }, then_down }
}

fn down(message_id: u64) -> Backfill {
    Backfill::Walking { direction: PaginationDirection::Down { message_id }, then_down: None }
}

fn fresh_bot() -> Bot {
    Bot::new(Processor::new(Sql::new()))
}

#[test]
fn id_is_read_from_decimal_digits() {
    assert_eq!(parse_message_id("1"), Ok(1));
    assert_eq!(parse_message_id("1234567890123456789"), Ok(1234567890123456789));
    assert_eq!(parse_message_id("0042"), Ok(42));
    assert_eq!(parse_message_id("+7"), Ok(7));
    assert_eq!(parse_message_id("18446744073709551615"), Ok(u64::MAX));
}

#[test]
fn empty_text_is_no_id() {
    assert_eq!(parse_message_id(""), Err(ParseError::Empty));
}

#[test]
fn text_with_anything_but_digits_is_no_id() {
    assert_eq!(parse_message_id("12a"), Err(ParseError::InvalidDigit));
    assert_eq!(parse_message_id("-5"), Err(ParseError::InvalidDigit));
    assert_eq!(parse_message_id(" 5"), Err(ParseError::InvalidDigit));
    assert_eq!(parse_message_id("5 "), Err(ParseError::InvalidDigit));
    assert_eq!(parse_message_id("+"), Err(ParseError::InvalidDigit));
    assert_eq!(parse_message_id("++5"), Err(ParseError::InvalidDigit));
    assert_eq!(parse_message_id("5+"), Err(ParseError::InvalidDigit));
    assert_eq!(parse_message_id("\u{663}"), Err(ParseError::InvalidDigit));
    assert_eq!(parse_message_id("99999999999999999999999x"), Err(ParseError::InvalidDigit));
}

#[test]
fn number_of_more_than_64_bits_is_no_id() {
    assert_eq!(parse_message_id("18446744073709551616"), Err(ParseError::Overflow));
    assert_eq!(parse_message_id("99999999999999999999999"), Err(ParseError::Overflow));
    assert_eq!(parse_message_id("184467440737095516150"), Err(ParseError::Overflow));
}

#[test]
fn zero_is_no_id() {
    assert_eq!(parse_message_id("0"), Err(ParseError::Zero));
    assert_eq!(parse_message_id("000"), Err(ParseError::Zero));
    assert_eq!(parse_message_id("+0"), Err(ParseError::Zero));
}

#[test]
fn id_is_read_as_the_standard_library_reads_it() {
    let samples = [
        "1", "10", "007", "+12", "18446744073709551615", "18446744073709551616", "", "+", "-1",
        "1e3", "12 ", "0x10", "99999999999999999999", "4294967296", "١٢٣",
    ];
    for sample in samples {
        let expected = sample.parse::<u64>().ok().filter(|id| *id != 0);
        assert_eq!(parse_message_id(sample).ok(), expected, "id of {:?}", sample);
    }
}

#[test]
fn backfill_of_a_known_container_walks_up_and_then_down() {
    let walk = Backfill::start(Some((100, 900)));
    assert_eq!(walk, up(Some(100), Some(900)));
    assert_eq!(walk.request(), Some(PaginationDirection::Up { message_id: Some(100) }));
    let walk = walk.advance(Some(50));
    assert_eq!(walk, up(Some(50), Some(900)));
    let walk = walk.advance(Some(7));
    assert_eq!(walk.request(), Some(PaginationDirection::Up { message_id: Some(7) }));
    let walk = walk.advance(None);
    assert_eq!(walk, down(900));
    assert_eq!(walk.request(), Some(PaginationDirection::Down { message_id: 900 }));
    let walk = walk.advance(Some(950));
    assert_eq!(walk, down(950));
    let walk = walk.advance(None);
    assert_eq!(walk, Backfill::Done);
    assert_eq!(walk.request(), None);
}

#[test]
fn backfill_of_an_unseen_container_walks_up_from_now() {
    let walk = Backfill::start(None);
    assert_eq!(walk, up(None, None));
    assert_eq!(walk.request(), Some(PaginationDirection::Up { message_id: None }));
    let walk = walk.advance(Some(500));
    assert_eq!(walk, up(Some(500), None));
    let walk = walk.advance(None);
    assert_eq!(walk, Backfill::Done);
}

#[test]
fn backfill_that_is_done_stays_done() {
    assert_eq!(Backfill::Done.advance(Some(5)), Backfill::Done);
    assert_eq!(Backfill::Done.advance(None), Backfill::Done);
}

#[test]
fn backfill_of_a_history_without_records_is_done_at_once() {
    assert_eq!(Backfill::start(None).advance(None), Backfill::Done);
    assert_eq!(Backfill::start(Some((3, 3))).advance(None).advance(None), Backfill::Done);
}

#[test]
fn bot_starts_the_backfill_from_what_is_stored() {
    let mut bot = fresh_bot();
    assert_eq!(bot.paginate("channel"), Ok(up(None, None)));
    assert_eq!(
        bot.message(message("200", "channel", 20, "b")),
        Ok(())
    );
    assert_eq!(bot.message(message("100", "channel", 10, "a")), Ok(()));
    assert_eq!(bot.message(message("300", "channel", 30, "c")), Ok(()));
    assert_eq!(bot.message(message("999", "other", 99, "d")), Ok(()));
    assert_eq!(bot.paginate("channel"), Ok(up(Some(100), Some(300))));
    assert_eq!(bot.paginate("other"), Ok(up(Some(999), Some(999))));
    assert_eq!(bot.paginate("unseen"), Ok(up(None, None)));
}

#[test]
fn bot_gives_the_backfill_up_where_a_stored_id_is_none() {
    let mut bot = fresh_bot();
    assert_eq!(bot.message(message("not a number", "channel", 10, "a")), Ok(()));
    assert_eq!(bot.paginate("channel"), Err(BackfillError::ParseError(ParseError::InvalidDigit)));
    let mut bot = fresh_bot();
    assert_eq!(bot.message(message("5", "channel", 10, "a")), Ok(()));
    assert_eq!(bot.message(message("0", "channel", 20, "a")), Ok(()));
    assert_eq!(bot.paginate("channel"), Err(BackfillError::ParseError(ParseError::Zero)));
    let mut bot = fresh_bot();
    assert_eq!(bot.message(message("", "channel", 10, "a")), Ok(()));
    assert_eq!(bot.message(message("99999999999999999999", "channel", 20, "a")), Ok(()));
    assert_eq!(bot.paginate("channel"), Err(BackfillError::ParseError(ParseError::Empty)));
}

#[test]
fn bot_ingests_each_page_and_moves_on_to_its_last_record() {
    let mut bot = fresh_bot();
    let walk = Backfill::start(None);
    let page = vec![message("30", "channel", 30, "x"), message("20", "channel", 20, "x")];
    let walk = bot.paginate_in_direction(walk, &page).unwrap();
    assert_eq!(walk, up(Some(20), None));
    assert_eq!(bot.processor().store().get_entries_count_in_container("channel"), Ok(2));
    assert_eq!(bot.processor().store().ngram_count(&counted("x", "channel")), 2);
    let page = vec![message("10", "channel", 10, "x")];
    let walk = bot.paginate_in_direction(walk, &page).unwrap();
    assert_eq!(walk, up(Some(10), None));
    let walk = bot.paginate_in_direction(walk, &[]).unwrap();
    assert_eq!(walk, Backfill::Done);
    assert_eq!(bot.processor().store().ngram_count(&counted("x", "channel")), 3);
}

#[test]
fn bot_ingests_a_page_that_it_is_given_again_only_once() {
    let mut bot = fresh_bot();
    let page = vec![message("30", "channel", 30, "x"), message("20", "channel", 20, "x")];
    assert_eq!(bot.paginate_in_direction(Backfill::start(None), &page), Ok(up(Some(20), None)));
    assert_eq!(bot.paginate_in_direction(Backfill::start(None), &page), Ok(up(Some(20), None)));
    assert_eq!(bot.processor().store().get_entries_count_in_container("channel"), Ok(2));
    assert_eq!(bot.processor().store().ngram_count(&counted("x", "channel")), 2);
}

#[test]
fn bot_walks_down_after_the_walk_up() {
    let mut bot = fresh_bot();
    assert_eq!(bot.message(message("500", "channel", 50, "live")), Ok(()));
    let walk = bot.paginate("channel").unwrap();
    assert_eq!(walk, up(Some(500), Some(500)));
    let walk = bot.paginate_in_direction(walk, &[message("400", "channel", 40, "old")]).unwrap();
    assert_eq!(walk, up(Some(400), Some(500)));
    let walk = bot.paginate_in_direction(walk, &[]).unwrap();
    assert_eq!(walk, down(500));
    let walk = bot.paginate_in_direction(walk, &[message("600", "channel", 60, "new")]).unwrap();
    assert_eq!(walk, down(600));
    let walk = bot.paginate_in_direction(walk, &[]).unwrap();
    assert_eq!(walk, Backfill::Done);
    assert_eq!(
        bot.processor().get_first_and_last_entry_id_in_container("channel"),
        Ok(("400".to_string(), "600".to_string()))
    );
}

#[test]
fn bot_gives_the_backfill_up_where_a_page_ends_in_no_id() {
    let mut bot = fresh_bot();
    let page = vec![message("30", "channel", 30, "x"), message("abc", "channel", 20, "x")];
    assert_eq!(
        bot.paginate_in_direction(Backfill::start(None), &page),
        Err(BackfillError::ParseError(ParseError::InvalidDigit))
    );
    // The page was ingested all the same.
    assert_eq!(bot.processor().store().get_entries_count_in_container("channel"), Ok(2));
}

#[test]
fn bot_gives_the_backfill_up_where_a_page_cannot_be_ingested() {
    let mut store = Sql::new();
    assert!(store.restore_ngram(counted("x", "channel"), u32::MAX));
    let mut bot = Bot::new(Processor::new(store));
    let page = vec![message("30", "channel", 30, "x")];
    assert_eq!(
        bot.paginate_in_direction(Backfill::start(None), &page),
        Err(BackfillError::IngestionError(Error::DatabaseError(StoreError::CountOutOfRange)))
    );
    assert_eq!(
        bot.message(message("31", "channel", 31, "x")),
        Err(Error::DatabaseError(StoreError::CountOutOfRange))
    );
    assert_eq!(bot.processor().store().get_entries_count_in_container("channel"), Ok(0));
}

#[test]
fn bot_stores_guilds_below_the_platform_and_channels_below_guilds() {
    let mut bot = fresh_bot();
    bot.process_guild("guild");
    assert_eq!(bot.process_channel("channel", "guild"), Ok(up(None, None)));
    assert_eq!(bot.process_channel("second", "guild"), Ok(up(None, None)));
    bot.process_guild("guild");
    assert_eq!(bot.processor().store().container_count(), 3);
    assert_eq!(bot.processor().get_child_container_ids("discord"), vec!["guild", "channel", "second"]);
    assert_eq!(bot.message(message("77", "channel", 1, "x")), Ok(()));
    assert_eq!(bot.process_channel("channel", "guild"), Ok(up(Some(77), Some(77))));
}
