//! Entries: the timestamped text records that are indexed.

use crate::processor::ngram::{
    get_ngram_time, get_ngrams_in_word_list, lemma_windows_ordered, slice_views, time_bucket,
    views, window_slices, windows, MAX_NGRAM_LENGTH, NgramForStore, NgramKey,
};
use crate::processor::tokens::{join_words, joined, lowercase_words, lowercase_words_of};
use vstd::prelude::*;

verus! {

/// One observed text record.
#[derive(Debug)]
pub struct Entry {
    pub entry_id: String,
    pub container_id: String,
    pub sender_id: String,
    pub unix_timestamp: i64,
    pub content: String,
}

/// An entry over text and the integers.
pub struct EntryView {
    pub entry_id: Seq<char>,
    pub container_id: Seq<char>,
    pub sender_id: Seq<char>,
    pub unix_timestamp: int,
    pub content: Seq<char>,
}

impl View for Entry {
    type V = EntryView;

    open spec fn view(&self) -> EntryView {
        EntryView {
            entry_id: self.entry_id@,
            container_id: self.container_id@,
            sender_id: self.sender_id@,
            unix_timestamp: self.unix_timestamp as int,
            content: self.content@,
        }
    }
}

impl Clone for Entry {
    fn clone(&self) -> (copy: Self)
        ensures
            copy@ == self@,
    {
        Entry {
            entry_id: self.entry_id.clone(),
            container_id: self.container_id.clone(),
            sender_id: self.sender_id.clone(),
            unix_timestamp: self.unix_timestamp,
            content: self.content.clone(),
        }
    }
}

/// The n-gram that a window of an entry's words makes.
pub open spec fn ngram_at(entry: EntryView, words: Seq<Seq<char>>, window: (int, int)) -> NgramKey {
    NgramKey {
        content: joined(words.subrange(window.0, window.0 + window.1)),
        length: window.1,
        time: time_bucket(entry.unix_timestamp),
        container_id: entry.container_id,
        sender_id: entry.sender_id,
    }
}

/// The n-grams of an entry: one for each run of 1 to 5 consecutive words of
/// its text in lower case, ordered by where the run starts and then by its
/// length, all in the week bucket of the entry's timestamp.
pub open spec fn ngrams_of(entry: EntryView) -> Seq<NgramKey> {
    Seq::new(
        windows(lowercase_words_of(entry.content).len() as int, 5).len(),
        |k: int|
            ngram_at(
                entry,
                lowercase_words_of(entry.content),
                windows(lowercase_words_of(entry.content).len() as int, 5)[k],
            ),
    )
}

/// The n-grams of a list of entries, entry after entry.
pub open spec fn ngrams_of_all(entries: Seq<EntryView>) -> Seq<NgramKey>
    decreases entries.len(),
{
    if entries.len() == 0 {
        Seq::empty()
    } else {
        ngrams_of_all(entries.drop_last()) + ngrams_of(entries.last())
    }
}

/// Each n-gram of an entry is a run of 1 to 5 consecutive words of its text,
/// the n-grams are ordered by where their runs start and then by the length
/// of the runs, and a text without words has no n-grams.
pub proof fn lemma_ngrams_are_windows(entry: EntryView)
    ensures
        ngrams_of(entry).len() == windows(lowercase_words_of(entry.content).len() as int, 5).len(),
        forall|k: int|
            0 <= k < ngrams_of(entry).len() ==> {
                let w = #[trigger] windows(lowercase_words_of(entry.content).len() as int, 5)[k];
                &&& 0 <= w.0
                &&& 1 <= w.1 <= 5
                &&& w.0 + w.1 <= lowercase_words_of(entry.content).len()
                &&& ngrams_of(entry)[k] == ngram_at(entry, lowercase_words_of(entry.content), w)
            },
        forall|k: int, l: int|
            0 <= k < l < ngrams_of(entry).len() ==> {
                let a = #[trigger] windows(lowercase_words_of(entry.content).len() as int, 5)[k];
                let b = #[trigger] windows(lowercase_words_of(entry.content).len() as int, 5)[l];
                a.0 < b.0 || (a.0 == b.0 && a.1 < b.1)
            },
        lowercase_words_of(entry.content).len() == 0 ==> ngrams_of(entry).len() == 0,
{
    let n = lowercase_words_of(entry.content).len() as int;
    lemma_windows_ordered(n, 5, n);
}

impl Entry {
    /// Extracts the entry's n-grams: the n-grams of the words of its text in
    /// lower case.
    pub fn get_ngrams(&self) -> (ngrams: Vec<NgramForStore>)
        ensures
            views(ngrams@) == ngrams_of(self@),
            lowercase_words_of(self@.content).len() == 0 ==> ngrams@.len() == 0,
    {
        let words: Vec<String> = lowercase_words(self.content.as_str());
        let ngrams: Vec<NgramForStore> = self.ngrams_of_words(words.as_slice());
        proof {
            lemma_windows_ordered(words@.len() as int, 5, words@.len() as int);
            assert(views(ngrams@) =~= ngrams_of(self@));
        }
        ngrams
    }

    /// The n-grams that the entry has where its text is made of the given
    /// words: one for each run of 1 to 5 consecutive words, ordered by where
    /// the run starts and then by its length, each with the words of its run
    /// joined by single spaces, in the week bucket of the entry's timestamp,
    /// for the entry's container and sender.
    pub fn ngrams_of_words(&self, words: &[String]) -> (ngrams: Vec<NgramForStore>)
        ensures
            ngrams@.len() == windows(words@.len() as int, 5).len(),
            forall|k: int|
                0 <= k < ngrams@.len() ==> (#[trigger] ngrams@[k])@ == ngram_at(
                    self@,
                    views(words@),
                    windows(words@.len() as int, 5)[k],
                ),
    {
        let runs: Vec<&[String]> = get_ngrams_in_word_list(words, MAX_NGRAM_LENGTH);
        let time: i64 = get_ngram_time(self.unix_timestamp);
        let ghost texts = views(words@);
        let ghost spans = windows(words@.len() as int, 5);
        proof {
            lemma_windows_ordered(words@.len() as int, 5, words@.len() as int);
            assert(slice_views(runs@).len() == runs@.len());
            assert(window_slices(words@, spans).len() == spans.len());
        }
        let mut ngrams: Vec<NgramForStore> = Vec::new();
        let mut k: usize = 0;
        while k < runs.len()
            invariant
                k <= runs@.len(),
                runs@.len() == spans.len(),
                texts == views(words@),
                spans == windows(words@.len() as int, 5),
                slice_views(runs@) == window_slices(words@, spans),
                forall|l: int|
                    0 <= l < spans.len() ==> {
                        let w = #[trigger] spans[l];
                        0 <= w.0 && 1 <= w.1 <= 5 && w.0 + w.1 <= words@.len()
                    },
                time == time_bucket(self@.unix_timestamp),
                ngrams@.len() == k,
                forall|l: int|
                    0 <= l < k ==> (#[trigger] ngrams@[l])@ == ngram_at(self@, texts, spans[l]),
            decreases runs@.len() - k,
        {
            let run: &[String] = runs[k];
            proof {
                let w = spans[k as int];
                assert(slice_views(runs@)[k as int] == run@);
                assert(window_slices(words@, spans)[k as int] == words@.subrange(w.0, w.0 + w.1));
                assert(views(run@) =~= texts.subrange(w.0, w.0 + w.1));
            }
            let ngram = NgramForStore {
                content: join_words(run),
                length: run.len() as u32,
                time: time,
                container_id: self.container_id.clone(),
                sender_id: self.sender_id.clone(),
            };
            ngrams.push(ngram);
            k = k + 1;
        }
        ngrams
    }

    /// Extracts the n-grams of each entry of the list, entry after entry.
    pub fn get_ngrams_from_entries_slice(entries: &[Self]) -> (ngrams: Vec<NgramForStore>)
        ensures
            views(ngrams@) == ngrams_of_all(views(entries@)),
    {
        let mut ngrams: Vec<NgramForStore> = Vec::new();
        let mut i: usize = 0;
        assert(views(entries@).take(0) =~= Seq::<EntryView>::empty());
        while i < entries.len()
            invariant
                i <= entries@.len(),
                views(ngrams@) == ngrams_of_all(views(entries@).take(i as int)),
            decreases entries@.len() - i,
        {
            let mut more: Vec<NgramForStore> = entries[i].get_ngrams();
            proof {
                assert(views(entries@).take(i as int + 1).drop_last() =~= views(entries@).take(
                    i as int,
                ));
                assert(views(entries@).take(i as int + 1).last() == entries@[i as int]@);
                assert(views(ngrams@ + more@) =~= views(ngrams@) + views(more@));
            }
            ngrams.append(&mut more);
            i = i + 1;
        }
        assert(views(entries@).take(i as int) =~= views(entries@));
        ngrams
    }
}

} // verus!
