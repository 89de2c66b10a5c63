//! The coordinator of a container's backfill, and the handler of what the
//! chat platform reports.
//!
//! History is read from the platform page by page. The coordinator decides
//! what to ask for next; whoever talks to the platform asks, and hands each
//! page back.

use crate::processor::{error_text, Error, Processor};
use crate::processor::container::{Container, ContainerView};
use crate::processor::entry::Entry;
use crate::processor::ingestion::{ingested_all, ingestion_fits, ingestion_stopped};
use crate::processor::ngram::views;
use crate::store::StoreError;
use crate::store::tables::{entries_in, is_first_in, is_last_in, with_container, EntryRow, Tables};
use vstd::prelude::*;

verus! {

/// Why a text is no id of the platform.
#[derive(Debug, Clone, Copy, PartialEq, Eq, Structural)]
pub enum ParseError {
    /// The text is empty.
    Empty,
    /// The text holds something else than decimal digits after an optional
    /// plus sign, or no digit at all.
    InvalidDigit,
    /// The number does not fit 64 bits.
    Overflow,
    /// The number is zero, which the platform gives to nothing.
    Zero,
}

/// What a parse error says.
pub open spec fn parse_error_text(error: ParseError) -> Seq<char> {
    match error {
        ParseError::Empty => "cannot parse integer from empty string"@,
        ParseError::InvalidDigit => "invalid digit found in string"@,
        ParseError::Overflow => "number too large to fit in target type"@,
        ParseError::Zero => "number would be zero for non-zero type"@,
    }
}

impl ParseError {
    /// The error in words.
    pub fn message(&self) -> (text: String)
        ensures
            text@ == parse_error_text(*self),
    {
        match self {
            ParseError::Empty => String::from_str("cannot parse integer from empty string"),
            ParseError::InvalidDigit => String::from_str("invalid digit found in string"),
            ParseError::Overflow => String::from_str("number too large to fit in target type"),
            ParseError::Zero => String::from_str("number would be zero for non-zero type"),
        }
    }
}

/// Whether a character is a decimal digit.
pub open spec fn is_digit(c: char) -> bool {
    '0' <= c <= '9'
}

/// The value of a decimal digit.
pub open spec fn digit_value(c: char) -> int {
    c as int - 48
}

/// The digits of a text: all of it but one leading plus sign.
pub open spec fn digits_of(text: Seq<char>) -> Seq<char> {
    if text.len() > 0 && text[0] == '+' {
        text.skip(1)
    } else {
        text
    }
}

/// Whether a text holds decimal digits only.
pub open spec fn all_digits(text: Seq<char>) -> bool {
    forall|i: int| 0 <= i < text.len() ==> is_digit(#[trigger] text[i])
}

/// The number that decimal digits write.
pub open spec fn decimal_value(digits: Seq<char>) -> int
    decreases digits.len(),
{
    if digits.len() == 0 {
        0
    } else {
        decimal_value(digits.drop_last()) * 10 + digit_value(digits.last())
    }
}

/// The id that a text writes: a positive number of at most 64 bits in
/// decimal digits, which a plus sign may precede.
pub open spec fn parsed_id(text: Seq<char>) -> Result<int, ParseError> {
    if text.len() == 0 {
        Err(ParseError::Empty)
    } else if digits_of(text).len() == 0 || !all_digits(digits_of(text)) {
        Err(ParseError::InvalidDigit)
    } else if decimal_value(digits_of(text)) > u64::MAX {
        Err(ParseError::Overflow)
    } else if decimal_value(digits_of(text)) == 0 {
        Err(ParseError::Zero)
    } else {
        Ok(decimal_value(digits_of(text)))
    }
}

/// Whether an id that was read is the one that the text writes.
pub open spec fn is_parsed(text: Seq<char>, id: Result<u64, ParseError>) -> bool {
    match id {
        Ok(number) => parsed_id(text) == Ok::<int, ParseError>(number as int),
        Err(error) => parsed_id(text) == Err::<int, ParseError>(error),
    }
}

/// No digits write a number below zero.
pub proof fn lemma_decimal_value_nonnegative(digits: Seq<char>)
    requires
        all_digits(digits),
    ensures
        decimal_value(digits) >= 0,
    decreases digits.len(),
{
    if digits.len() > 0 {
        assert(is_digit(digits[digits.len() - 1]));
        assert forall|i: int| 0 <= i < digits.drop_last().len() implies is_digit(
            #[trigger] digits.drop_last()[i],
        ) by {
            assert(is_digit(digits[i]));
        }
        lemma_decimal_value_nonnegative(digits.drop_last());
    }
}

/// Reads an id of the platform from its text.
pub fn parse_message_id(text: &str) -> (id: Result<u64, ParseError>)
    ensures
        is_parsed(text@, id),
{
    let length: usize = text.unicode_len();
    if length == 0 {
        return Err(ParseError::Empty);
    }
    let mut value: u64 = 0;
    let mut overflowed: bool = false;
    let mut invalid: bool = false;
    let mut skip: usize = 0;
    let mut i: usize = 0;
    assert(text@.subrange(0, 0) =~= Seq::<char>::empty());
    for c in it: text.chars()
        invariant
            it.seq() == text@,
            length == text@.len(),
            i == it.index(),
            i <= length,
            skip <= 1,
            skip <= i || i == 0,
            i == 0 ==> skip == 0,
            i > 0 ==> (skip == 1 <==> text@[0] == '+'),
            invalid <==> exists|j: int| skip <= j < i && !is_digit(#[trigger] text@[j]),
            !invalid && i >= skip ==> (overflowed <==> decimal_value(
                text@.subrange(skip as int, i as int),
            ) > u64::MAX),
            !invalid && !overflowed && i >= skip ==> value == decimal_value(
                text@.subrange(skip as int, i as int),
            ),
    {
        proof {
            assert(c == text@[i as int]);
        }
        if i == 0 && c == '+' {
            skip = 1;
            assert(text@.subrange(1, 1) =~= Seq::<char>::empty());
        } else if c >= '0' && c <= '9' {
            let ghost before = text@.subrange(skip as int, i as int);
            let ghost after = text@.subrange(skip as int, i as int + 1);
            proof {
                assert(after.drop_last() =~= before);
                assert(after.last() == c);
                if !invalid {
                    assert(all_digits(before)) by {
                        assert forall|j: int| 0 <= j < before.len() implies is_digit(
                            #[trigger] before[j],
                        ) by {
                            assert(before[j] == text@[skip + j]);
                        }
                    }
                    lemma_decimal_value_nonnegative(before);
                }
            }
            let digit: u64 = (c as u32 - '0' as u32) as u64;
            if !overflowed {
                if value > (u64::MAX - digit) / 10 {
                    overflowed = true;
                } else {
                    value = value * 10 + digit;
                }
            }
        } else {
            invalid = true;
        }
        i = i + 1;
    }
    let ghost digits = digits_of(text@);
    proof {
        assert(digits =~= text@.subrange(skip as int, length as int));
        if invalid {
            let j = choose|j: int| skip <= j < length && !is_digit(#[trigger] text@[j]);
            assert(digits[j - skip] == text@[j]);
        } else {
            assert forall|j: int| 0 <= j < digits.len() implies is_digit(#[trigger] digits[j]) by {
                assert(digits[j] == text@[skip + j]);
            }
        }
    }
    if invalid || skip == length {
        Err(ParseError::InvalidDigit)
    } else if overflowed {
        Err(ParseError::Overflow)
    } else if value == 0 {
        Err(ParseError::Zero)
    } else {
        Ok(value)
    }
}

/// In which direction a container's history is read, and from where.
#[allow(inconsistent_fields)]
#[derive(Debug, Clone, Copy, PartialEq, Eq, Structural)]
pub enum PaginationDirection {
    /// Towards the older: what was written before the message, or before
    /// now where no message is given.
    Up { message_id: Option<u64> },
    /// Towards the newer: what was written after the message.
    Down { message_id: u64 },
}

/// Where the backfill of one container stands.
#[derive(Debug, Clone, Copy, PartialEq, Eq, Structural)]
pub enum Backfill {
    /// A page is to be read in `direction`. Once the walk up has reached
    /// the beginning of the history, the walk down starts after `then_down`.
    Walking { direction: PaginationDirection, then_down: Option<u64> },
    /// Both walks have ended.
    Done,
}

/// Where a backfill starts. Of a container with stored entries the history
/// before the oldest of them is read first and then the history after the
/// newest; of a container without any, all of the history, from now back.
pub open spec fn backfill_start(known: Option<(u64, u64)>) -> Backfill {
    match known {
        Some((first, last)) => Backfill::Walking {
            direction: PaginationDirection::Up { message_id: Some(first) },
            then_down: Some(last),
        },
        None => Backfill::Walking {
            direction: PaginationDirection::Up { message_id: None },
            then_down: None,
        },
    }
}

/// Where a backfill stands after a page: `last_in_page` is the id of the
/// page's last record, and `None` says that the page was empty. A page with
/// records moves the walk on to its last record. An empty page ends the
/// walk: after the walk up comes the walk down, where one is due, and after
/// that nothing.
pub open spec fn backfill_after(walk: Backfill, last_in_page: Option<u64>) -> Backfill {
    match walk {
        Backfill::Done => Backfill::Done,
        Backfill::Walking { direction, then_down } => match (direction, last_in_page) {
            (PaginationDirection::Up { message_id }, Some(id)) => Backfill::Walking {
                direction: PaginationDirection::Up { message_id: Some(id) },
                then_down: then_down,
            },
            (PaginationDirection::Down { message_id }, Some(id)) => Backfill::Walking {
                direction: PaginationDirection::Down { message_id: id },
                then_down: then_down,
            },
            (PaginationDirection::Up { message_id }, None) => match then_down {
                Some(last) => Backfill::Walking {
                    direction: PaginationDirection::Down { message_id: last },
                    then_down: None,
                },
                None => Backfill::Done,
            },
            (PaginationDirection::Down { message_id }, None) => Backfill::Done,
        },
    }
}

impl Backfill {
    /// Where a backfill starts, given the ids of the oldest and the newest
    /// stored entry of the container, if it has any.
    pub fn start(known: Option<(u64, u64)>) -> (walk: Backfill)
        ensures
            walk == backfill_start(known),
    {
        match known {
            Some((first, last)) => Backfill::Walking {
                direction: PaginationDirection::Up { message_id: Some(first) },
                then_down: Some(last),
            },
            None => Backfill::Walking {
                direction: PaginationDirection::Up { message_id: None },
                then_down: None,
            },
        }
    }

    /// The page to ask the platform for, if the backfill is not done.
    pub fn request(&self) -> (page: Option<PaginationDirection>)
        ensures
            page == match *self {
                Backfill::Walking { direction, then_down } => Some(direction),
                Backfill::Done => None,
            },
    {
        match self {
            Backfill::Walking { direction, then_down } => Some(*direction),
            Backfill::Done => None,
        }
    }

    /// Where the backfill stands after the page that was asked for.
    pub fn advance(self, last_in_page: Option<u64>) -> (walk: Backfill)
        ensures
            walk == backfill_after(self, last_in_page),
    {
        match self {
            Backfill::Done => Backfill::Done,
            Backfill::Walking { direction, then_down } => match (direction, last_in_page) {
                (PaginationDirection::Up { message_id }, Some(id)) => Backfill::Walking {
                    direction: PaginationDirection::Up { message_id: Some(id) },
                    then_down: then_down,
                },
                (PaginationDirection::Down { message_id }, Some(id)) => Backfill::Walking {
                    direction: PaginationDirection::Down { message_id: id },
                    then_down: then_down,
                },
                (PaginationDirection::Up { message_id }, None) => match then_down {
                    Some(last) => Backfill::Walking {
                        direction: PaginationDirection::Down { message_id: last },
                        then_down: None,
                    },
                    None => Backfill::Done,
                },
                (PaginationDirection::Down { message_id }, None) => Backfill::Done,
            },
        }
    }
}

/// Why a backfill was given up.
#[derive(Debug, Clone, Copy, PartialEq, Eq, Structural)]
pub enum BackfillError {
    /// An id that the walk had to go on from is no id of the platform.
    ParseError(ParseError),
    /// A page could not be ingested.
    IngestionError(Error),
}

/// What a backfill error says.
pub open spec fn backfill_error_text(error: BackfillError) -> Seq<char> {
    match error {
        BackfillError::ParseError(inner) => "The database contains a message ID that is not a number! "@
            + parse_error_text(inner),
        BackfillError::IngestionError(inner) => "Failed to add entries! "@ + error_text(inner),
    }
}

impl BackfillError {
    /// The error in words.
    pub fn message(&self) -> (text: String)
        ensures
            text@ == backfill_error_text(*self),
    {
        match self {
            BackfillError::ParseError(inner) => {
                let mut text: String = String::from_str(
                    "The database contains a message ID that is not a number! ",
                );
                let cause: String = inner.message();
                text.append(cause.as_str());
                text
            },
            BackfillError::IngestionError(inner) => {
                let mut text: String = String::from_str("Failed to add entries! ");
                let cause: String = inner.message();
                text.append(cause.as_str());
                text
            },
        }
    }
}

/// The id under which the platform itself is stored as the parent of its
/// guilds.
pub open spec fn platform_id() -> Seq<char> {
    "discord"@
}

/// Handles what the platform reports: new messages, and the guilds and
/// channels whose history is to be read.
pub struct Bot {
    processor: Processor,
}

impl View for Bot {
    type V = Tables;

    closed spec fn view(&self) -> Tables {
        self.processor@
    }
}

impl Bot {
    /// Whether the tables meet their uniqueness constraints.
    pub open spec fn wf(&self) -> bool {
        self@.wf()
    }

    /// A bot that ingests into the given processor.
    pub fn new(processor: Processor) -> (bot: Self)
        ensures
            bot@ == processor@,
    {
        Bot { processor }
    }

    /// The processor, for queries.
    pub fn processor(&self) -> (processor: &Processor)
        ensures
            processor@ == self@,
    {
        &self.processor
    }

    /// Ingests a message that was just written.
    pub fn message(&mut self, entry: Entry) -> (done: Result<(), Error>)
        requires
            old(self).wf(),
        ensures
            final(self).wf(),
            final(self)@.containers == old(self)@.containers,
            done is Ok <==> ingestion_fits(old(self)@, seq![entry@]),
            done is Ok ==> final(self)@ == ingested_all(old(self)@, seq![entry@]),
            done matches Err(error) ==> error == Error::DatabaseError(StoreError::CountOutOfRange)
                && ingestion_stopped(old(self)@, seq![entry@], final(self)@),
    {
        let mut one: Vec<Entry> = Vec::new();
        one.push(entry);
        assert(views(one@) =~= seq![entry@]);
        self.processor.add_entries(one.as_slice())
    }

    /// Stores a guild as a container below the platform.
    pub fn process_guild(&mut self, guild_id: &str)
        requires
            old(self).wf(),
        ensures
            final(self).wf(),
            final(self)@.containers == with_container(
                old(self)@.containers,
                ContainerView { container_id: guild_id@, container_parent_id: platform_id() },
            ),
            final(self)@.entries == old(self)@.entries,
            final(self)@.ngrams == old(self)@.ngrams,
    {
        let container = Container {
            container_id: guild_id.to_owned(),
            container_parent_id: String::from_str("discord"),
        };
        self.processor.add_container(&container);
    }

    /// Stores a channel as a container below its guild, and says where the
    /// backfill of the channel starts.
    pub fn process_channel(&mut self, channel_id: &str, guild_id: &str) -> (walk: Result<
        Backfill,
        BackfillError,
    >)
        requires
            old(self).wf(),
        ensures
            final(self).wf(),
            final(self)@.containers == with_container(
                old(self)@.containers,
                ContainerView { container_id: channel_id@, container_parent_id: guild_id@ },
            ),
            final(self)@.entries == old(self)@.entries,
            final(self)@.ngrams == old(self)@.ngrams,
            is_backfill_start(final(self)@.entries, channel_id@, walk),
    {
        let container = Container {
            container_id: channel_id.to_owned(),
            container_parent_id: guild_id.to_owned(),
        };
        self.processor.add_container(&container);
        self.paginate(channel_id)
    }

    /// Where the backfill of a container starts: before its oldest stored
    /// entry and then after its newest, or from now back where it has none.
    /// The ids of the two entries are read as ids of the platform; the
    /// backfill is given up where one of them is none.
    pub fn paginate(&self, container_id: &str) -> (walk: Result<Backfill, BackfillError>)
        ensures
            is_backfill_start(self@.entries, container_id@, walk),
    {
        match self.processor.get_first_and_last_entry_id_in_container(container_id) {
            Ok((first, last)) => {
                let walk: Result<Backfill, BackfillError> = match parse_message_id(first.as_str()) {
                    Err(error) => Err(BackfillError::ParseError(error)),
                    Ok(first_id) => match parse_message_id(last.as_str()) {
                        Err(error) => Err(BackfillError::ParseError(error)),
                        Ok(last_id) => Ok(Backfill::start(Some((first_id, last_id)))),
                    },
                };
                proof {
                    let rows = self@.entries;
                    let (i, j) = choose|i: int, j: int|
                        is_first_in(rows, container_id@, i) && is_last_in(rows, container_id@, j)
                            && first@ == (#[trigger] rows[i]).entry.entry_id && last@ == (
                        #[trigger] rows[j]).entry.entry_id;
                    assert(starts_between(rows[i].entry.entry_id, rows[j].entry.entry_id, walk));
                }
                walk
            },
            Err(_) => Ok(Backfill::start(None)),
        }
    }

    /// Takes a page that the platform gave for the backfill's request. An
    /// empty page ends the walk. Any other page is ingested whole, and the
    /// walk goes on from the page's last record. Where the page cannot be
    /// ingested, or the id of its last record is no id of the platform, the
    /// backfill is given up.
    pub fn paginate_in_direction(&mut self, walk: Backfill, page: &[Entry]) -> (next: Result<
        Backfill,
        BackfillError,
    >)
        requires
            old(self).wf(),
        ensures
            final(self).wf(),
            final(self)@.containers == old(self)@.containers,
            page@.len() == 0 ==> next == Ok::<Backfill, BackfillError>(backfill_after(walk, None))
                && final(self)@ == old(self)@,
            page@.len() > 0 ==> (ingestion_fits(old(self)@, views(page@)) <==> !(
            next matches Err(BackfillError::IngestionError(_)))),
            page@.len() > 0 && ingestion_fits(old(self)@, views(page@)) ==> final(self)@
                == ingested_all(old(self)@, views(page@)) && match parsed_id(
                page@.last()@.entry_id,
            ) {
                Ok(id) => next matches Ok(state) && state == backfill_after(walk, Some(id as u64)),
                Err(error) => next == Err::<Backfill, BackfillError>(
                    BackfillError::ParseError(error),
                ),
            },
            next matches Err(BackfillError::IngestionError(error)) ==> error
                == Error::DatabaseError(StoreError::CountOutOfRange) && ingestion_stopped(
                old(self)@,
                views(page@),
                final(self)@,
            ),
    {
        if page.len() == 0 {
            return Ok(walk.advance(None));
        }
        match self.processor.add_entries(page) {
            Ok(()) => {},
            Err(error) => {
                return Err(BackfillError::IngestionError(error));
            },
        }
        match parse_message_id(page[page.len() - 1].entry_id.as_str()) {
            Ok(id) => Ok(walk.advance(Some(id))),
            Err(error) => Err(BackfillError::ParseError(error)),
        }
    }
}

/// Whether `walk` is where the backfill of a container starts. Where the
/// container has entries, the ids of its first and its last entry are read:
/// the first that is no id of the platform is the error, and with both read
/// the walk starts before the first. Where it has none, the walk starts from
/// now.
pub open spec fn is_backfill_start(
    rows: Seq<EntryRow>,
    container_id: Seq<char>,
    walk: Result<Backfill, BackfillError>,
) -> bool {
    if entries_in(rows, container_id) == 0 {
        walk == Ok::<Backfill, BackfillError>(backfill_start(None))
    } else {
        exists|i: int, j: int|
            is_first_in(rows, container_id, i) && is_last_in(rows, container_id, j)
                && #[trigger] starts_between(
                rows[i].entry.entry_id,
                rows[j].entry.entry_id,
                walk,
            )
    }
}

/// Whether `walk` is where a backfill starts between the entries with
/// these two ids.
pub open spec fn starts_between(
    first: Seq<char>,
    last: Seq<char>,
    walk: Result<Backfill, BackfillError>,
) -> bool {
    match (parsed_id(first), parsed_id(last)) {
        (Err(error), _) => walk == Err::<Backfill, BackfillError>(BackfillError::ParseError(error)),
        (Ok(_), Err(error)) => walk == Err::<Backfill, BackfillError>(
            BackfillError::ParseError(error),
        ),
        (Ok(first_id), Ok(last_id)) => walk == Ok::<Backfill, BackfillError>(
            backfill_start(Some((first_id as u64, last_id as u64))),
        ),
    }
}

} // verus!
