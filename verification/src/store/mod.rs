//! The store: the three tables (entries, containers and n-gram counts) and
//! the statements that read and write them.
//!
//! The tables are held in memory, in the order in which their rows were first
//! written. Each statement has the effect that its contract states; an engine
//! that keeps the tables on disk has to give its statements the same effect.

pub mod filters;
pub mod message;
pub mod queries;
pub mod select;
pub mod tables;

use crate::processor::container::Container;
use crate::processor::entry::{ngrams_of_all, Entry, EntryView};
use crate::processor::ngram::{
    views, NgramForByCountCommand, NgramForStore, NgramKey, NgramsForByContentCommand,
};
use crate::store::filters::{option_text, NgramsByContentFilter, NgramsByCountFilter, Order};
use crate::store::queries::{
    ages_at, awaits_counting, descends, entries_at, in_scope, in_series, is_page, is_ranked,
    is_ranking, is_sender, is_series, lemma_places_step, lemma_total_grows, lines_at, points_at,
    ranked_contents, series_rows, times_at, total_of, totals_fit, totals_of, waiting_rows,
};
use crate::store::select::{as_places, integers, is_selection, places, select_first};
use crate::store::tables::{
    children_of, count_of, counts_fit, entries_in, entry_row, has_container, has_entry, has_key,
    ids_of, is_first_in, is_last_in, lemma_count_of_absent, lemma_count_of_bounded,
    lemma_count_of_row, lemma_counted_wf, lemma_entries_in_none, lemma_occurrences_grow,
    lemma_with_ngrams_counts, ngram_rows_in, ngram_rows_wf, occurrences, rows_of_entries,
    rows_of_keys, with_container, with_entries, with_marks, with_ngrams, EntryRow, NgramRow,
    Tables,
};
use vstd::prelude::*;

verus! {

/// Why a statement gave no result.
#[derive(Debug, Clone, Copy, PartialEq, Eq, Structural)]
pub enum StoreError {
    /// No row answers the statement.
    NotFound,
    /// A count does not fit the integer type that holds it.
    CountOutOfRange,
}

/// What a store error says.
pub open spec fn store_error_text(error: StoreError) -> Seq<char> {
    match error {
        StoreError::NotFound => "no rows returned by a query that expected to return at least one row"@,
        StoreError::CountOutOfRange => "a count is out of the range of its column"@,
    }
}

impl StoreError {
    /// The error in words.
    pub fn message(&self) -> (text: String)
        ensures
            text@ == store_error_text(*self),
    {
        match self {
            StoreError::NotFound => String::from_str(
                "no rows returned by a query that expected to return at least one row",
            ),
            StoreError::CountOutOfRange => String::from_str(
                "a count is out of the range of its column",
            ),
        }
    }
}

/// Where a text first stands in a list.
fn find_text(list: &Vec<String>, text: &String) -> (found: Option<usize>)
    ensures
        found matches Some(g) ==> g < list@.len() && list@[g as int]@ == text@,
        found is None ==> !views(list@).contains(text@),
{
    let mut g: usize = 0;
    while g < list.len()
        invariant
            g <= list@.len(),
            forall|h: int| 0 <= h < g ==> (#[trigger] list@[h])@ != text@,
        decreases list@.len() - g,
    {
        if list[g] == *text {
            return Some(g);
        }
        g = g + 1;
    }
    proof {
        assert forall|h: int| 0 <= h < views(list@).len() implies (#[trigger] views(list@)[h])
            != text@ by {
            assert(list@[h]@ != text@);
        }
    }
    None
}

/// Whether a container is within a scope.
fn scope_holds(container_ids: &Vec<String>, container_id: &String) -> (held: bool)
    ensures
        held == in_scope(views(container_ids@), container_id@),
{
    if container_ids.len() == 0 {
        return true;
    }
    match find_text(container_ids, container_id) {
        Some(g) => {
            assert(views(container_ids@)[g as int] == container_id@);
            true
        },
        None => false,
    }
}

/// Whether a sender is the one asked for, where one is asked for.
fn sender_is(wanted: &Option<String>, sender_id: &String) -> (is: bool)
    ensures
        is == is_sender(option_text(*wanted), sender_id@),
{
    match wanted {
        None => true,
        Some(id) => *id == *sender_id,
    }
}

/// A row of the entries table.
#[derive(Debug)]
pub struct StoredEntry {
    pub entry: Entry,
    pub ngrams_cached: bool,
}

impl View for StoredEntry {
    type V = EntryRow;

    open spec fn view(&self) -> EntryRow {
        EntryRow { entry: self.entry@, ngrams_cached: self.ngrams_cached }
    }
}

/// A row of the n-grams table.
#[derive(Debug)]
pub struct StoredNgram {
    pub ngram: NgramForStore,
    pub count: u32,
}

impl View for StoredNgram {
    type V = NgramRow;

    open spec fn view(&self) -> NgramRow {
        NgramRow { key: self.ngram@, count: self.count as int }
    }
}

/// The rows that a list of entries has to do with, as the store holds them:
/// what a copy of the tables has to write down after the entries were
/// ingested or counted.
#[derive(Debug)]
pub struct TouchedRows {
    pub entries: Vec<StoredEntry>,
    pub ngrams: Vec<StoredNgram>,
}

/// The store: the three tables and their statements.
pub struct Sql {
    entries: Vec<StoredEntry>,
    containers: Vec<Container>,
    ngrams: Vec<StoredNgram>,
}

impl View for Sql {
    type V = Tables;

    closed spec fn view(&self) -> Tables {
        Tables {
            entries: views(self.entries@),
            containers: views(self.containers@),
            ngrams: views(self.ngrams@),
        }
    }
}

impl Sql {
    /// Whether the tables meet their uniqueness constraints. Every statement
    /// keeps them.
    pub open spec fn wf(&self) -> bool {
        self@.wf()
    }

    /// A store with three empty tables.
    pub fn new() -> (store: Self)
        ensures
            store.wf(),
            store@.entries.len() == 0,
            store@.containers.len() == 0,
            store@.ngrams.len() == 0,
    {
        Sql { entries: Vec::new(), containers: Vec::new(), ngrams: Vec::new() }
    }

    /// Where the entry with this id stands in the table.
    fn find_entry(&self, entry_id: &String) -> (found: Option<usize>)
        ensures
            found matches Some(i) ==> i < self@.entries.len() && self@.entries[i as int].entry.entry_id
                == entry_id@,
            found is None ==> !has_entry(self@.entries, entry_id@),
    {
        let mut i: usize = 0;
        while i < self.entries.len()
            invariant
                i <= self.entries@.len(),
                forall|j: int| 0 <= j < i ==> (#[trigger] self@.entries[j]).entry.entry_id != entry_id@,
            decreases self.entries@.len() - i,
        {
            if self.entries[i].entry.entry_id == *entry_id {
                return Some(i);
            }
            i = i + 1;
        }
        None
    }

    /// Where the container with this id stands in the table.
    fn find_container(&self, container_id: &String) -> (found: Option<usize>)
        ensures
            found matches Some(i) ==> i < self@.containers.len()
                && self@.containers[i as int].container_id == container_id@,
            found is None ==> !has_container(self@.containers, container_id@),
    {
        let mut i: usize = 0;
        while i < self.containers.len()
            invariant
                i <= self.containers@.len(),
                forall|j: int|
                    0 <= j < i ==> (#[trigger] self@.containers[j]).container_id != container_id@,
            decreases self.containers@.len() - i,
        {
            if self.containers[i].container_id == *container_id {
                return Some(i);
            }
            i = i + 1;
        }
        None
    }

    /// Whether the n-grams of the entry with this id have been counted, if
    /// such an entry is stored.
    pub fn is_entry_cached(&self, entry_id: &String) -> (cached: Option<bool>)
        ensures
            cached is Some <==> has_entry(self@.entries, entry_id@),
            cached matches Some(flag) ==> exists|i: int|
                0 <= i < self@.entries.len() && (#[trigger] self@.entries[i]).entry.entry_id
                    == entry_id@ && self@.entries[i].ngrams_cached == flag,
    {
        match self.find_entry(entry_id) {
            Some(i) => {
                assert(self@.entries[i as int].entry.entry_id == entry_id@);
                Some(self.entries[i].ngrams_cached)
            },
            None => None,
        }
    }

    /// How often the key of this n-gram was counted.
    pub fn ngram_count(&self, ngram: &NgramForStore) -> (count: u32)
        requires
            self.wf(),
        ensures
            count == count_of(self@.ngrams, ngram@),
    {
        match self.find_ngram(ngram) {
            Some(i) => {
                proof {
                    lemma_count_of_row(self@.ngrams, i as int);
                }
                self.ngrams[i].count
            },
            None => {
                proof {
                    lemma_count_of_absent(self@.ngrams, ngram@);
                }
                0
            },
        }
    }

    /// Puts back a row of the n-grams table that was written down earlier:
    /// the key with its count. Nothing is put back where the key has a row
    /// already or the count is 0, as no row holds such a count.
    pub fn restore_ngram(&mut self, ngram: NgramForStore, count: u32) -> (restored: bool)
        requires
            old(self).wf(),
        ensures
            final(self).wf(),
            final(self)@.entries == old(self)@.entries,
            final(self)@.containers == old(self)@.containers,
            restored <==> !has_key(old(self)@.ngrams, ngram@) && count > 0,
            restored ==> final(self)@.ngrams == old(self)@.ngrams.push(
                NgramRow { key: ngram@, count: count as int },
            ),
            !restored ==> final(self)@.ngrams == old(self)@.ngrams,
    {
        if count == 0 {
            return false;
        }
        match self.find_ngram(&ngram) {
            Some(i) => {
                assert(self@.ngrams[i as int].key == ngram@);
                false
            },
            None => {
                let ghost before = self@.ngrams;
                let ghost key = ngram@;
                self.ngrams.push(StoredNgram { ngram: ngram, count: count });
                proof {
                    assert(self@.ngrams =~= before.push(NgramRow { key: key, count: count as int }));
                    assert forall|a: int, b: int| 0 <= a < b < self@.ngrams.len() implies (
                    #[trigger] self@.ngrams[a]).key != (#[trigger] self@.ngrams[b]).key by {
                        assert(self@.ngrams[a] == before[a]);
                        if b < before.len() {
                            assert(self@.ngrams[b] == before[b]);
                        }
                    }
                    assert forall|a: int| 0 <= a < self@.ngrams.len() implies 1 <= (
                    #[trigger] self@.ngrams[a]).count <= u32::MAX by {
                        if a < before.len() {
                            assert(self@.ngrams[a] == before[a]);
                        }
                    }
                    assert(ngram_rows_wf(self@.ngrams));
                    assert(self@.entries == old(self)@.entries);
                    assert(self@.containers == old(self)@.containers);
                    assert(self@.wf());
                }
                true
            },
        }
    }

    /// The rows of the listed entries, as far as they are stored, and the
    /// counts of their n-grams, as far as they were counted.
    pub fn rows_touched_by(&self, entries: &[Entry]) -> (touched: TouchedRows)
        requires
            self.wf(),
        ensures
            views(touched.entries@) == rows_of_entries(self@.entries, ids_of(views(entries@))),
            views(touched.ngrams@) == rows_of_keys(self@.ngrams, ngrams_of_all(views(entries@))),
    {
        let ghost rows = self@.entries;
        let ghost ids = ids_of(views(entries@));
        let mut stored: Vec<StoredEntry> = Vec::new();
        let mut i: usize = 0;
        assert(ids.take(0) =~= Seq::<Seq<char>>::empty());
        while i < entries.len()
            invariant
                i <= entries@.len(),
                self.wf(),
                rows == self@.entries,
                ids == ids_of(views(entries@)),
                views(stored@) == rows_of_entries(rows, ids.take(i as int)),
            decreases entries@.len() - i,
        {
            proof {
                assert(ids.take(i as int + 1).drop_last() =~= ids.take(i as int));
                assert(ids.take(i as int + 1).last() == entries@[i as int]@.entry_id);
            }
            match self.find_entry(&entries[i].entry_id) {
                Some(at) => {
                    let row = StoredEntry {
                        entry: self.entries[at].entry.clone(),
                        ngrams_cached: self.entries[at].ngrams_cached,
                    };
                    proof {
                        let id = entries@[i as int]@.entry_id;
                        assert(rows[at as int].entry.entry_id == id);
                        let chosen = choose|c: int|
                            0 <= c < rows.len() && (#[trigger] rows[c]).entry.entry_id == id;
                        if chosen < at {
                            assert(rows[chosen].entry.entry_id != rows[at as int].entry.entry_id);
                        } else if at < chosen {
                            assert(rows[at as int].entry.entry_id != rows[chosen].entry.entry_id);
                        }
                        assert(row@ == entry_row(rows, id));
                        assert(views(stored@.push(row)) =~= views(stored@).push(row@));
                    }
                    stored.push(row);
                },
                None => {},
            }
            i = i + 1;
        }
        assert(ids.take(i as int) =~= ids);
        let ngrams: Vec<NgramForStore> = Entry::get_ngrams_from_entries_slice(entries);
        let ghost keys = views(ngrams@);
        let mut tallied: Vec<StoredNgram> = Vec::new();
        let mut k: usize = 0;
        assert(keys.take(0) =~= Seq::<NgramKey>::empty());
        while k < ngrams.len()
            invariant
                k <= ngrams@.len(),
                self.wf(),
                keys == views(ngrams@),
                views(tallied@) == rows_of_keys(self@.ngrams, keys.take(k as int)),
            decreases ngrams@.len() - k,
        {
            proof {
                assert(keys.take(k as int + 1).drop_last() =~= keys.take(k as int));
                assert(keys.take(k as int + 1).last() == ngrams@[k as int]@);
            }
            let count: u32 = self.ngram_count(&ngrams[k]);
            if count > 0 {
                let row = StoredNgram { ngram: ngrams[k].clone(), count: count };
                assert(views(tallied@.push(row)) =~= views(tallied@).push(row@));
                tallied.push(row);
            }
            k = k + 1;
        }
        assert(keys.take(k as int) =~= keys);
        TouchedRows { entries: stored, ngrams: tallied }
    }

    /// How many containers are stored.
    pub fn container_count(&self) -> (count: usize)
        ensures
            count == self@.containers.len(),
    {
        self.containers.len()
    }

    /// Whether an entry with this id is stored.
    pub fn has_entry(&self, entry_id: &String) -> (held: bool)
        ensures
            held == has_entry(self@.entries, entry_id@),
    {
        match self.find_entry(entry_id) {
            Some(i) => {
                assert(self@.entries[i as int].entry.entry_id == entry_id@);
                true
            },
            None => false,
        }
    }

    /// Stores a container unless one with its id is stored already.
    pub fn add_container(&mut self, container: &Container)
        requires
            old(self).wf(),
        ensures
            final(self).wf(),
            final(self)@.containers == with_container(old(self)@.containers, container@),
            final(self)@.entries == old(self)@.entries,
            final(self)@.ngrams == old(self)@.ngrams,
    {
        if self.find_container(&container.container_id).is_none() {
            self.containers.push(container.clone());
            let ghost before = old(self)@.containers;
            assert(self@.containers =~= before.push(container@));
            assert forall|i: int, j: int| 0 <= i < j < self@.containers.len() implies (
            #[trigger] self@.containers[i]).container_id != (
            #[trigger] self@.containers[j]).container_id by {
                assert(self@.containers[i] == before[i]);
                if j < before.len() {
                    assert(self@.containers[j] == before[j]);
                }
            }
            assert(self@.entries == old(self)@.entries);
            assert(self@.ngrams == old(self)@.ngrams);
            assert(self@.wf());
        }
    }

    /// The containers directly below `container_id`, in the order in which
    /// they were stored.
    pub fn get_child_container_ids(&self, container_id: &str) -> (ids: Vec<String>)
        ensures
            views(ids@) == children_of(self@.containers, container_id@),
    {
        let parent: String = container_id.to_owned();
        let mut ids: Vec<String> = Vec::new();
        let mut i: usize = 0;
        while i < self.containers.len()
            invariant
                i <= self.containers@.len(),
                parent@ == container_id@,
                views(ids@) == children_of(self@.containers.take(i as int), parent@),
            decreases self.containers@.len() - i,
        {
            assert(self@.containers.take(i as int + 1).drop_last() =~= self@.containers.take(
                i as int,
            ));
            if self.containers[i].container_parent_id == parent {
                let id = self.containers[i].container_id.clone();
                assert(views(ids@.push(id)) =~= views(ids@).push(id@));
                ids.push(id);
            }
            i = i + 1;
        }
        assert(self@.containers.take(i as int) =~= self@.containers);
        ids
    }

    /// Stores each entry whose id is not stored yet, with the given flag; an
    /// entry whose id is stored already is passed over without a trace.
    ///
    /// Ingestion counts the n-grams of an entry before it stores the entry,
    /// and stores it with the flag set. Entries that are brought in from
    /// elsewhere without being counted are stored with the flag unset, and
    /// wait for the sweep.
    pub fn add_entries(&mut self, entries: &[Entry], ngrams_cached: bool)
        requires
            old(self).wf(),
        ensures
            final(self).wf(),
            final(self)@.entries == with_entries(
                old(self)@.entries,
                views(entries@),
                ngrams_cached,
            ),
            final(self)@.containers == old(self)@.containers,
            final(self)@.ngrams == old(self)@.ngrams,
    {
        let mut i: usize = 0;
        assert(views(entries@).take(0) =~= Seq::<EntryView>::empty());
        while i < entries.len()
            invariant
                i <= entries@.len(),
                self.wf(),
                self@.entries == with_entries(
                    old(self)@.entries,
                    views(entries@).take(i as int),
                    ngrams_cached,
                ),
                self@.containers == old(self)@.containers,
                self@.ngrams == old(self)@.ngrams,
            decreases entries@.len() - i,
        {
            let ghost before = self@.entries;
            assert(views(entries@).take(i as int + 1).drop_last() =~= views(entries@).take(
                i as int,
            ));
            assert(views(entries@).take(i as int + 1).last() == entries@[i as int]@);
            if self.find_entry(&entries[i].entry_id).is_none() {
                self.entries.push(
                    StoredEntry { entry: entries[i].clone(), ngrams_cached: ngrams_cached },
                );
                assert(self@.entries =~= before.push(
                    EntryRow { entry: entries@[i as int]@, ngrams_cached: ngrams_cached },
                ));
            }
            i = i + 1;
        }
        assert(views(entries@).take(i as int) =~= views(entries@));
    }

    /// Sets the flag on each stored entry whose id is among `entry_ids`.
    pub fn mark_entry_as_ngrams_cached(&mut self, entry_ids: &[String])
        requires
            old(self).wf(),
        ensures
            final(self).wf(),
            final(self)@.entries == with_marks(old(self)@.entries, views(entry_ids@)),
            final(self)@.containers == old(self)@.containers,
            final(self)@.ngrams == old(self)@.ngrams,
    {
        let ghost ids = views(entry_ids@);
        let mut i: usize = 0;
        while i < self.entries.len()
            invariant
                i <= self.entries@.len(),
                ids == views(entry_ids@),
                self@.entries.len() == old(self)@.entries.len(),
                forall|j: int|
                    0 <= j < i ==> (#[trigger] self@.entries[j]) == with_marks(
                        old(self)@.entries,
                        ids,
                    )[j],
                forall|j: int|
                    i <= j < self@.entries.len() ==> (#[trigger] self@.entries[j]) == old(self)@.entries[j],
                self@.containers == old(self)@.containers,
                self@.ngrams == old(self)@.ngrams,
            decreases self.entries@.len() - i,
        {
            let mut k: usize = 0;
            let mut listed: bool = false;
            while k < entry_ids.len()
                invariant
                    k <= entry_ids@.len(),
                    i < self.entries@.len(),
                    ids == views(entry_ids@),
                    listed <==> exists|l: int|
                        0 <= l < k && (#[trigger] ids[l]) == self@.entries[i as int].entry.entry_id,
                decreases entry_ids@.len() - k,
            {
                if entry_ids[k] == self.entries[i].entry.entry_id {
                    assert(ids[k as int] == self@.entries[i as int].entry.entry_id);
                    listed = true;
                }
                k = k + 1;
            }
            assert(listed == ids.contains(self@.entries[i as int].entry.entry_id)) by {
                if ids.contains(self@.entries[i as int].entry.entry_id) {
                    let l = choose|l: int|
                        0 <= l < ids.len() && ids[l] == self@.entries[i as int].entry.entry_id;
                    assert(ids[l] == self@.entries[i as int].entry.entry_id);
                }
            }
            if listed {
                let ghost before = self@.entries;
                self.entries[i].ngrams_cached = true;
                assert(self@.entries[i as int].entry == before[i as int].entry);
                assert(forall|j: int|
                    0 <= j < self@.entries.len() && j != i ==> (#[trigger] self@.entries[j])
                        == before[j]);
            }
            i = i + 1;
        }
        assert(self@.entries =~= with_marks(old(self)@.entries, ids));
    }
    /// How many entries were written in exactly this container; its
    /// descendants are not counted.
    pub fn get_entries_count_in_container(&self, container_id: &str) -> (count: Result<
        i32,
        StoreError,
    >)
        ensures
            count is Ok <==> entries_in(self@.entries, container_id@) <= i32::MAX,
            count matches Ok(n) ==> n == entries_in(self@.entries, container_id@),
            count matches Err(error) ==> error == StoreError::CountOutOfRange,
    {
        let wanted: String = container_id.to_owned();
        let mut count: usize = 0;
        let mut i: usize = 0;
        while i < self.entries.len()
            invariant
                i <= self.entries@.len(),
                wanted@ == container_id@,
                count <= i,
                count == entries_in(self@.entries.take(i as int), wanted@),
            decreases self.entries@.len() - i,
        {
            assert(self@.entries.take(i as int + 1).drop_last() =~= self@.entries.take(i as int));
            if self.entries[i].entry.container_id == wanted {
                count = count + 1;
            }
            i = i + 1;
        }
        assert(self@.entries.take(i as int) =~= self@.entries);
        if count > i32::MAX as usize {
            Err(StoreError::CountOutOfRange)
        } else {
            Ok(count as i32)
        }
    }

    /// How many n-gram rows belong to exactly this container; its
    /// descendants are not counted.
    pub fn get_ngram_count_in_container(&self, container_id: &str) -> (count: Result<
        i32,
        StoreError,
    >)
        ensures
            count is Ok <==> ngram_rows_in(self@.ngrams, container_id@) <= i32::MAX,
            count matches Ok(n) ==> n == ngram_rows_in(self@.ngrams, container_id@),
            count matches Err(error) ==> error == StoreError::CountOutOfRange,
    {
        let wanted: String = container_id.to_owned();
        let mut count: usize = 0;
        let mut i: usize = 0;
        while i < self.ngrams.len()
            invariant
                i <= self.ngrams@.len(),
                wanted@ == container_id@,
                count <= i,
                count == ngram_rows_in(self@.ngrams.take(i as int), wanted@),
            decreases self.ngrams@.len() - i,
        {
            assert(self@.ngrams.take(i as int + 1).drop_last() =~= self@.ngrams.take(i as int));
            if self.ngrams[i].ngram.container_id == wanted {
                count = count + 1;
            }
            i = i + 1;
        }
        assert(self@.ngrams.take(i as int) =~= self@.ngrams);
        if count > i32::MAX as usize {
            Err(StoreError::CountOutOfRange)
        } else {
            Ok(count as i32)
        }
    }

    /// The id of the oldest entry written in exactly this container.
    pub fn get_first_entry_id_in_container(&self, container_id: &str) -> (id: Result<
        String,
        StoreError,
    >)
        ensures
            id is Ok <==> entries_in(self@.entries, container_id@) > 0,
            id matches Ok(entry_id) ==> exists|i: int|
                is_first_in(self@.entries, container_id@, i) && entry_id@ == (
                #[trigger] self@.entries[i]).entry.entry_id,
            id matches Err(error) ==> error == StoreError::NotFound,
    {
        let wanted: String = container_id.to_owned();
        let mut best: Option<usize> = None;
        let mut i: usize = 0;
        while i < self.entries.len()
            invariant
                i <= self.entries@.len(),
                wanted@ == container_id@,
                best is Some <==> entries_in(self@.entries.take(i as int), wanted@) > 0,
                best matches Some(b) ==> b < i && is_first_in(
                    self@.entries.take(i as int),
                    wanted@,
                    b as int,
                ),
            decreases self.entries@.len() - i,
        {
            let ghost seen = self@.entries.take(i as int);
            let ghost more = self@.entries.take(i as int + 1);
            assert(more.drop_last() =~= seen);
            if self.entries[i].entry.container_id == wanted {
                match best {
                    Some(b) => {
                        if self.entries[i].entry.unix_timestamp
                            < self.entries[b].entry.unix_timestamp {
                            best = Some(i);
                            assert forall|j: int|
                                0 <= j < more.len() && (#[trigger] more[j]).entry.container_id
                                    == wanted@ implies {
                                ||| more[i as int].entry.unix_timestamp
                                    < more[j].entry.unix_timestamp
                                ||| more[i as int].entry.unix_timestamp
                                    == more[j].entry.unix_timestamp && i <= j
                            } by {
                                if j < i {
                                    assert(seen[j] == more[j]);
                                }
                            }
                        } else {
                            assert forall|j: int|
                                0 <= j < more.len() && (#[trigger] more[j]).entry.container_id
                                    == wanted@ implies {
                                ||| more[b as int].entry.unix_timestamp
                                    < more[j].entry.unix_timestamp
                                ||| more[b as int].entry.unix_timestamp
                                    == more[j].entry.unix_timestamp && b <= j
                            } by {
                                if j < i {
                                    assert(seen[j] == more[j]);
                                }
                            }
                        }
                    },
                    None => {
                        best = Some(i);
                        proof {
                            lemma_entries_in_none(seen, wanted@);
                            assert forall|j: int| 0 <= j < i implies (
                            #[trigger] more[j]).entry.container_id != wanted@ by {
                                assert(seen[j] == more[j]);
                            }
                        }
                    },
                }
            } else {
                if let Some(b) = best {
                    assert forall|j: int|
                        0 <= j < more.len() && (#[trigger] more[j]).entry.container_id
                            == wanted@ implies {
                        ||| more[b as int].entry.unix_timestamp < more[j].entry.unix_timestamp
                        ||| more[b as int].entry.unix_timestamp == more[j].entry.unix_timestamp
                            && b <= j
                    } by {
                        assert(seen[j] == more[j]);
                    }
                }
            }
            i = i + 1;
        }
        assert(self@.entries.take(i as int) =~= self@.entries);
        match best {
            Some(b) => Ok(self.entries[b].entry.entry_id.clone()),
            None => Err(StoreError::NotFound),
        }
    }

    /// The id of the newest entry written in exactly this container.
    pub fn get_last_entry_id_in_container(&self, container_id: &str) -> (id: Result<
        String,
        StoreError,
    >)
        ensures
            id is Ok <==> entries_in(self@.entries, container_id@) > 0,
            id matches Ok(entry_id) ==> exists|i: int|
                is_last_in(self@.entries, container_id@, i) && entry_id@ == (
                #[trigger] self@.entries[i]).entry.entry_id,
            id matches Err(error) ==> error == StoreError::NotFound,
    {
        let wanted: String = container_id.to_owned();
        let mut best: Option<usize> = None;
        let mut i: usize = 0;
        while i < self.entries.len()
            invariant
                i <= self.entries@.len(),
                wanted@ == container_id@,
                best is Some <==> entries_in(self@.entries.take(i as int), wanted@) > 0,
                best matches Some(b) ==> b < i && is_last_in(
                    self@.entries.take(i as int),
                    wanted@,
                    b as int,
                ),
            decreases self.entries@.len() - i,
        {
            let ghost seen = self@.entries.take(i as int);
            let ghost more = self@.entries.take(i as int + 1);
            assert(more.drop_last() =~= seen);
            if self.entries[i].entry.container_id == wanted {
                match best {
                    Some(b) => {
                        if self.entries[i].entry.unix_timestamp
                            > self.entries[b].entry.unix_timestamp {
                            best = Some(i);
                            assert forall|j: int|
                                0 <= j < more.len() && (#[trigger] more[j]).entry.container_id
                                    == wanted@ implies {
                                ||| more[i as int].entry.unix_timestamp
                                    > more[j].entry.unix_timestamp
                                ||| more[i as int].entry.unix_timestamp
                                    == more[j].entry.unix_timestamp && i <= j
                            } by {
                                if j < i {
                                    assert(seen[j] == more[j]);
                                }
                            }
                        } else {
                            assert forall|j: int|
                                0 <= j < more.len() && (#[trigger] more[j]).entry.container_id
                                    == wanted@ implies {
                                ||| more[b as int].entry.unix_timestamp
                                    > more[j].entry.unix_timestamp
                                ||| more[b as int].entry.unix_timestamp
                                    == more[j].entry.unix_timestamp && b <= j
                            } by {
                                if j < i {
                                    assert(seen[j] == more[j]);
                                }
                            }
                        }
                    },
                    None => {
                        best = Some(i);
                        proof {
                            lemma_entries_in_none(seen, wanted@);
                            assert forall|j: int| 0 <= j < i implies (
                            #[trigger] more[j]).entry.container_id != wanted@ by {
                                assert(seen[j] == more[j]);
                            }
                        }
                    },
                }
            } else {
                if let Some(b) = best {
                    assert forall|j: int|
                        0 <= j < more.len() && (#[trigger] more[j]).entry.container_id
                            == wanted@ implies {
                        ||| more[b as int].entry.unix_timestamp > more[j].entry.unix_timestamp
                        ||| more[b as int].entry.unix_timestamp == more[j].entry.unix_timestamp
                            && b <= j
                    } by {
                        assert(seen[j] == more[j]);
                    }
                }
            }
            i = i + 1;
        }
        assert(self@.entries.take(i as int) =~= self@.entries);
        match best {
            Some(b) => Ok(self.entries[b].entry.entry_id.clone()),
            None => Err(StoreError::NotFound),
        }
    }

    /// Where the row with this key stands in the table.
    fn find_ngram(&self, ngram: &NgramForStore) -> (found: Option<usize>)
        ensures
            found matches Some(i) ==> i < self@.ngrams.len() && self@.ngrams[i as int].key
                == ngram@,
            found is None ==> !has_key(self@.ngrams, ngram@),
    {
        let mut i: usize = 0;
        while i < self.ngrams.len()
            invariant
                i <= self.ngrams@.len(),
                forall|j: int| 0 <= j < i ==> (#[trigger] self@.ngrams[j]).key != ngram@,
            decreases self.ngrams@.len() - i,
        {
            let row = &self.ngrams[i].ngram;
            if row.length == ngram.length && row.time == ngram.time && row.content == ngram.content
                && row.sender_id == ngram.sender_id && row.container_id == ngram.container_id {
                return Some(i);
            }
            i = i + 1;
        }
        None
    }

    /// Counts each n-gram of the list once under its key, in order: the
    /// key's row counts one more, or a row with count 1 is appended. Where a
    /// row is full the statement stops there, and what was counted before
    /// stays counted.
    pub fn add_ngrams(&mut self, ngrams: &[NgramForStore]) -> (done: Result<(), StoreError>)
        requires
            old(self).wf(),
        ensures
            final(self).wf(),
            final(self)@.entries == old(self)@.entries,
            final(self)@.containers == old(self)@.containers,
            done is Ok <==> counts_fit(old(self)@.ngrams, views(ngrams@)),
            done is Ok ==> final(self)@.ngrams == with_ngrams(old(self)@.ngrams, views(ngrams@)),
            done matches Err(error) ==> error == StoreError::CountOutOfRange && exists|k: int|
                0 <= k < ngrams@.len() && final(self)@.ngrams == with_ngrams(
                    old(self)@.ngrams,
                    #[trigger] views(ngrams@).take(k),
                ) && count_of(final(self)@.ngrams, ngrams@[k]@) == u32::MAX,
    {
        let ghost keys = views(ngrams@);
        let ghost start = self@.ngrams;
        let mut i: usize = 0;
        assert(keys.take(0) =~= Seq::<NgramKey>::empty());
        while i < ngrams.len()
            invariant
                i <= ngrams@.len(),
                keys == views(ngrams@),
                start == old(self)@.ngrams,
                self.wf(),
                self@.entries == old(self)@.entries,
                self@.containers == old(self)@.containers,
                self@.ngrams == with_ngrams(start, keys.take(i as int)),
            decreases ngrams@.len() - i,
        {
            let ghost before = self@.ngrams;
            let ghost key = ngrams@[i as int]@;
            assert(keys.take(i as int + 1).drop_last() =~= keys.take(i as int));
            assert(keys.take(i as int + 1).last() == key);
            match self.find_ngram(&ngrams[i]) {
                Some(at) => {
                    proof {
                        lemma_count_of_row(before, at as int);
                        let chosen = choose|c: int|
                            0 <= c < before.len() && (#[trigger] before[c]).key == key;
                        assert(chosen == at) by {
                            if chosen < at {
                                assert(before[chosen].key != before[at as int].key);
                            } else if at < chosen {
                                assert(before[at as int].key != before[chosen].key);
                            }
                        }
                    }
                    if self.ngrams[at].count == u32::MAX {
                        proof {
                            lemma_with_ngrams_counts(start, keys.take(i as int), key);
                            lemma_occurrences_grow(keys, i as int + 1, key);
                            assert(!counts_fit(start, keys));
                        }
                        return Err(StoreError::CountOutOfRange);
                    }
                    let count: u32 = self.ngrams[at].count;
                    self.ngrams[at].count = count + 1;
                    proof {
                        assert(self@.ngrams =~= before.update(
                            at as int,
                            NgramRow { key: key, count: count + 1 },
                        ));
                        lemma_counted_wf(before, key);
                    }
                },
                None => {
                    self.ngrams.push(StoredNgram { ngram: ngrams[i].clone(), count: 1 });
                    proof {
                        assert(self@.ngrams =~= before.push(NgramRow { key: key, count: 1 }));
                        lemma_count_of_absent(before, key);
                        lemma_counted_wf(before, key);
                    }
                },
            }
            i = i + 1;
        }
        proof {
            assert(keys.take(i as int) =~= keys);
            assert forall|key: NgramKey| count_of(start, key) + occurrences(keys, key)
                <= u32::MAX by {
                lemma_with_ngrams_counts(start, keys, key);
                lemma_count_of_bounded(self@.ngrams, key);
            }
        }
        Ok(())
    }

    /// The `limit` newest entries whose n-grams have not been counted,
    /// newest first. With a cursor, only entries older than the entry that
    /// the cursor names are read, so that a sweep can go on below the last
    /// entry of the page before.
    pub fn get_entries_without_cached_ngrams(&self, limit: u32, start_id: Option<String>) -> (page:
        Vec<Entry>)
        requires
            self.wf(),
        ensures
            is_page(self@.entries, option_text(start_id), limit as int, views(page@)),
    {
        let ghost rows = self@.entries;
        let ghost start = option_text(start_id);
        let ghost keep = awaits_counting(rows, start);
        let mut open: bool = true;
        let mut bounded: bool = false;
        let mut bound: i64 = 0;
        match &start_id {
            None => {},
            Some(id) => {
                match self.find_entry(id) {
                    Some(c) => {
                        bounded = true;
                        bound = self.entries[c].entry.unix_timestamp;
                        proof {
                            assert forall|r: int| 0 <= r < rows.len() implies (keep(
                                #[trigger] rows[r],
                            ) <==> !rows[r].ngrams_cached && rows[r].entry.unix_timestamp
                                < bound) by {
                                if keep(rows[r]) {
                                    let d = choose|d: int|
                                        0 <= d < rows.len() && (#[trigger] rows[d]).entry.entry_id
                                            == id@ && rows[r].entry.unix_timestamp
                                            < rows[d].entry.unix_timestamp;
                                    if d < c {
                                        assert(rows[d].entry.entry_id != rows[c as int].entry.entry_id);
                                    } else if c < d {
                                        assert(rows[c as int].entry.entry_id != rows[d].entry.entry_id);
                                    }
                                }
                                if !rows[r].ngrams_cached && rows[r].entry.unix_timestamp < bound {
                                    assert(rows[c as int].entry.entry_id == id@);
                                }
                            }
                        }
                    },
                    None => {
                        open = false;
                    },
                }
            },
        }
        let mut waiting: Vec<usize> = Vec::new();
        let mut ages: Vec<i64> = Vec::new();
        let mut i: usize = 0;
        assert(as_places(waiting@) =~= places(rows.take(0), keep));
        assert(integers(ages@) =~= ages_at(rows, as_places(waiting@)));
        while i < self.entries.len()
            invariant
                i <= self.entries@.len(),
                rows == self@.entries,
                keep == awaits_counting(rows, start),
                forall|r: int|
                    0 <= r < rows.len() ==> (keep(#[trigger] rows[r]) <==> open
                        && !rows[r].ngrams_cached && (bounded ==> rows[r].entry.unix_timestamp
                        < bound)),
                as_places(waiting@) == places(rows.take(i as int), keep),
                integers(ages@) == ages_at(rows, as_places(waiting@)),
                waiting@.len() == ages@.len(),
                forall|k: int| 0 <= k < waiting@.len() ==> (#[trigger] waiting@[k]) < rows.len(),
            decreases self.entries@.len() - i,
        {
            proof {
                lemma_places_step(rows, keep, i as int);
            }
            let ghost before = as_places(waiting@);
            if open && !self.entries[i].ngrams_cached && (!bounded
                || self.entries[i].entry.unix_timestamp < bound) {
                assert(keep(rows[i as int]));
                let ghost ages_before = integers(ages@);
                waiting.push(i);
                ages.push(self.entries[i].entry.unix_timestamp);
                assert(as_places(waiting@) =~= before.push(i as int));
                assert(integers(ages@) =~= ages_at(rows, as_places(waiting@))) by {
                    assert forall|k: int| 0 <= k < ages@.len() implies integers(ages@)[k]
                        == ages_at(rows, as_places(waiting@))[k] by {
                        if k < ages_before.len() {
                            assert(ages_before[k] == ages_at(rows, before)[k]);
                        }
                    }
                }
            } else {
                assert(!keep(rows[i as int]));
            }
            i = i + 1;
        }
        assert(rows.take(i as int) =~= rows);
        let picked = select_first(&ages, limit as usize, true);
        let mut page: Vec<Entry> = Vec::new();
        let mut k: usize = 0;
        assert(views(page@) =~= entries_at(rows, as_places(waiting@), picked@.take(0)));
        while k < picked.len()
            invariant
                k <= picked@.len(),
                page@.len() == k,
                rows == self@.entries,
                waiting@.len() == ages@.len(),
                forall|l: int| 0 <= l < picked@.len() ==> (#[trigger] picked@[l]) < waiting@.len(),
                forall|l: int| 0 <= l < waiting@.len() ==> (#[trigger] waiting@[l]) < rows.len(),
                views(page@) == entries_at(rows, as_places(waiting@), picked@.take(k as int)),
            decreases picked@.len() - k,
        {
            let at: usize = waiting[picked[k]];
            let entry = self.entries[at].entry.clone();
            let ghost shown = views(page@);
            page.push(entry);
            assert(views(page@) =~= entries_at(
                rows,
                as_places(waiting@),
                picked@.take(k as int + 1),
            )) by {
                assert forall|l: int| 0 <= l < views(page@).len() implies views(page@)[l]
                    == entries_at(rows, as_places(waiting@), picked@.take(k as int + 1))[l] by {
                    if l < k {
                        assert(views(page@)[l] == shown[l]);
                    }
                }
            }
            k = k + 1;
        }
        assert(picked@.take(k as int) =~= picked@);
        assert(is_selection(ages_at(rows, waiting_rows(rows, start)), limit as int, true, picked@));
        page
    }

    /// The occurrences of one n-gram over time: one point for each row of
    /// the n-gram that the filter lets through, by ascending bucket.
    pub fn get_ngrams_by_content(&self, filter: &NgramsByContentFilter) -> (series: Vec<
        NgramsForByContentCommand,
    >)
        requires
            self.wf(),
        ensures
            is_series(self@.ngrams, filter@, views(series@)),
    {
        let ghost rows = self@.ngrams;
        let ghost keep = in_series(filter@);
        let mut read: Vec<usize> = Vec::new();
        let mut times: Vec<i64> = Vec::new();
        let mut i: usize = 0;
        assert(as_places(read@) =~= places(rows.take(0), keep));
        assert(integers(times@) =~= times_at(rows, as_places(read@)));
        while i < self.ngrams.len()
            invariant
                i <= self.ngrams@.len(),
                rows == self@.ngrams,
                keep == in_series(filter@),
                as_places(read@) == places(rows.take(i as int), keep),
                integers(times@) == times_at(rows, as_places(read@)),
                read@.len() == times@.len(),
                forall|k: int| 0 <= k < read@.len() ==> (#[trigger] read@[k]) < rows.len(),
            decreases self.ngrams@.len() - i,
        {
            proof {
                lemma_places_step(rows, keep, i as int);
            }
            let ghost before = as_places(read@);
            let row = &self.ngrams[i].ngram;
            if row.content == filter.content && scope_holds(&filter.container_ids, &row.container_id)
                && sender_is(&filter.sender_id, &row.sender_id) {
                assert(keep(rows[i as int]));
                let ghost times_before = integers(times@);
                read.push(i);
                times.push(row.time);
                assert(as_places(read@) =~= before.push(i as int));
                assert(integers(times@) =~= times_at(rows, as_places(read@))) by {
                    assert forall|k: int| 0 <= k < times@.len() implies integers(times@)[k]
                        == times_at(rows, as_places(read@))[k] by {
                        if k < times_before.len() {
                            assert(times_before[k] == times_at(rows, before)[k]);
                        }
                    }
                }
            } else {
                assert(!keep(rows[i as int]));
            }
            i = i + 1;
        }
        assert(rows.take(i as int) =~= rows);
        let picked = select_first(&times, times.len(), false);
        let mut series: Vec<NgramsForByContentCommand> = Vec::new();
        let mut k: usize = 0;
        assert(views(series@) =~= points_at(rows, as_places(read@), picked@.take(0)));
        while k < picked.len()
            invariant
                k <= picked@.len(),
                series@.len() == k,
                rows == self@.ngrams,
                read@.len() == times@.len(),
                forall|l: int| 0 <= l < picked@.len() ==> (#[trigger] picked@[l]) < read@.len(),
                forall|l: int| 0 <= l < read@.len() ==> (#[trigger] read@[l]) < rows.len(),
                views(series@) == points_at(rows, as_places(read@), picked@.take(k as int)),
            decreases picked@.len() - k,
        {
            let at: usize = read[picked[k]];
            let point = NgramsForByContentCommand {
                count: self.ngrams[at].count,
                time: self.ngrams[at].ngram.time,
            };
            let ghost shown = views(series@);
            series.push(point);
            assert(views(series@) =~= points_at(rows, as_places(read@), picked@.take(k as int + 1)))
                by {
                assert forall|l: int| 0 <= l < views(series@).len() implies views(series@)[l]
                    == points_at(rows, as_places(read@), picked@.take(k as int + 1))[l] by {
                    if l < k {
                        assert(views(series@)[l] == shown[l]);
                    }
                }
            }
            k = k + 1;
        }
        assert(picked@.take(k as int) =~= picked@);
        assert(is_selection(
            times_at(rows, series_rows(rows, filter@)),
            series_rows(rows, filter@).len() as int,
            false,
            picked@,
        ));
        series
    }

    /// The most (or least) frequent n-grams: the counts of the rows that the
    /// filter lets through are summed by text, the texts ordered by their
    /// sums, and the first `limit` of them kept.
    pub fn get_ngrams_by_count(&self, filter: &NgramsByCountFilter) -> (ranking: Result<
        Vec<NgramForByCountCommand>,
        StoreError,
    >)
        requires
            self.wf(),
        ensures
            ranking is Ok <==> totals_fit(self@.ngrams, filter@),
            ranking matches Ok(lines) ==> is_ranking(self@.ngrams, filter@, views(lines@)),
            ranking matches Err(error) ==> error == StoreError::CountOutOfRange,
    {
        let ghost rows = self@.ngrams;
        let ghost f = filter@;
        let mut contents: Vec<String> = Vec::new();
        let mut totals: Vec<i64> = Vec::new();
        let mut i: usize = 0;
        assert(views(contents@) =~= ranked_contents(rows.take(0), f));
        assert(integers(totals@) =~= totals_of(rows.take(0), f, views(contents@)));
        while i < self.ngrams.len()
            invariant
                i <= self.ngrams@.len(),
                rows == self@.ngrams,
                ngram_rows_wf(rows),
                f == filter@,
                contents@.len() == totals@.len(),
                views(contents@) == ranked_contents(rows.take(i as int), f),
                integers(totals@) == totals_of(rows.take(i as int), f, views(contents@)),
                forall|g: int| 0 <= g < totals@.len() ==> 0 <= (#[trigger] totals@[g]) <= u32::MAX,
                forall|g: int, h: int|
                    0 <= g < h < contents@.len() ==> (#[trigger] contents@[g])@ != (
                    #[trigger] contents@[h])@,
                forall|content: Seq<char>|
                    !views(contents@).contains(content) ==> total_of(
                        rows.take(i as int),
                        f,
                        content,
                    ) == 0,
            decreases self.ngrams@.len() - i,
        {
            let ghost seen = rows.take(i as int);
            let ghost more = rows.take(i as int + 1);
            let ghost texts_before = views(contents@);
            let ghost totals_before = integers(totals@);
            proof {
                assert(more.drop_last() =~= seen);
                assert(more.last() == rows[i as int]);
                assert(1 <= rows[i as int].count <= u32::MAX);
            }
            let row = &self.ngrams[i].ngram;
            let wanted: bool = scope_holds(&filter.container_ids, &row.container_id) && sender_is(
                &filter.sender_id,
                &row.sender_id,
            ) && match filter.length {
                None => true,
                Some(length) => row.length == length,
            };
            assert(wanted == is_ranked(f, rows[i as int]));
            if wanted {
                match find_text(&contents, &row.content) {
                    Some(g) => {
                        assert(texts_before[g as int] == rows[i as int].key.content);
                        assert(texts_before.contains(rows[i as int].key.content));
                        let sum: i64 = totals[g] + self.ngrams[i].count as i64;
                        if sum > u32::MAX as i64 {
                            proof {
                                let content = rows[i as int].key.content;
                                assert(totals_before[g as int] == total_of(seen, f, content));
                                lemma_total_grows(rows, f, content, i as int + 1);
                                assert(!totals_fit(rows, f));
                            }
                            return Err(StoreError::CountOutOfRange);
                        }
                        totals.set(g, sum);
                        proof {
                            assert(integers(totals@) =~= totals_of(more, f, views(contents@))) by {
                                assert forall|h: int| 0 <= h < totals@.len() implies integers(
                                    totals@,
                                )[h] == totals_of(more, f, views(contents@))[h] by {
                                    assert(totals_before[h] == total_of(seen, f, texts_before[h]));
                                    if h != g {
                                        assert(contents@[h]@ != contents@[g as int]@);
                                    }
                                }
                            }
                        }
                    },
                    None => {
                        let text = row.content.clone();
                        contents.push(text);
                        totals.push(self.ngrams[i].count as i64);
                        proof {
                            assert(views(contents@) =~= texts_before.push(
                                rows[i as int].key.content,
                            ));
                            assert(integers(totals@) =~= totals_of(more, f, views(contents@))) by {
                                assert forall|h: int| 0 <= h < totals@.len() implies integers(
                                    totals@,
                                )[h] == totals_of(more, f, views(contents@))[h] by {
                                    if h < totals_before.len() {
                                        assert(totals_before[h] == total_of(
                                            seen,
                                            f,
                                            texts_before[h],
                                        ));
                                        assert(texts_before.contains(texts_before[h]));
                                    }
                                }
                            }
                            assert forall|a: int, b: int|
                                0 <= a < b < contents@.len() implies (#[trigger] contents@[a])@ != (
                            #[trigger] contents@[b])@ by {
                                if b == contents@.len() - 1 {
                                    assert(texts_before[a] == contents@[a]@);
                                    assert(texts_before.contains(contents@[a]@));
                                }
                            }
                            assert forall|content: Seq<char>|
                                !views(contents@).contains(content) implies total_of(
                                more,
                                f,
                                content,
                            ) == 0 by {
                                if texts_before.contains(content) {
                                    let w = choose|w: int|
                                        0 <= w < texts_before.len() && texts_before[w] == content;
                                    assert(views(contents@)[w] == content);
                                }
                                if content == rows[i as int].key.content {
                                    assert(views(contents@)[contents@.len() - 1] == content);
                                }
                            }
                        }
                    },
                }
            } else {
                proof {
                    assert(integers(totals@) =~= totals_of(more, f, views(contents@))) by {
                        assert forall|h: int| 0 <= h < totals@.len() implies integers(totals@)[h]
                            == totals_of(more, f, views(contents@))[h] by {
                            assert(totals_before[h] == total_of(seen, f, texts_before[h]));
                        }
                    }
                }
            }
            i = i + 1;
        }
        assert(rows.take(i as int) =~= rows);
        let descending: bool = match filter.order {
            Order::Descending => true,
            Order::Ascending => false,
        };
        let picked = select_first(&totals, filter.limit as usize, descending);
        let mut lines: Vec<NgramForByCountCommand> = Vec::new();
        let mut k: usize = 0;
        assert(views(lines@) =~= lines_at(rows, f, views(contents@), picked@.take(0)));
        while k < picked.len()
            invariant
                k <= picked@.len(),
                lines@.len() == k,
                contents@.len() == totals@.len(),
                integers(totals@) == totals_of(rows, f, views(contents@)),
                forall|g: int| 0 <= g < totals@.len() ==> 0 <= (#[trigger] totals@[g]) <= u32::MAX,
                forall|l: int| 0 <= l < picked@.len() ==> (#[trigger] picked@[l]) < totals@.len(),
                views(lines@) == lines_at(rows, f, views(contents@), picked@.take(k as int)),
            decreases picked@.len() - k,
        {
            let g: usize = picked[k];
            let line = NgramForByCountCommand {
                content: contents[g].clone(),
                count: totals[g] as u32,
            };
            let ghost shown = views(lines@);
            assert(integers(totals@)[g as int] == total_of(rows, f, views(contents@)[g as int]));
            lines.push(line);
            assert(views(lines@) =~= lines_at(
                rows,
                f,
                views(contents@),
                picked@.take(k as int + 1),
            )) by {
                assert forall|l: int| 0 <= l < views(lines@).len() implies views(lines@)[l]
                    == lines_at(rows, f, views(contents@), picked@.take(k as int + 1))[l] by {
                    if l < k {
                        assert(views(lines@)[l] == shown[l]);
                    }
                }
            }
            k = k + 1;
        }
        proof {
            assert(picked@.take(k as int) =~= picked@);
            assert(is_selection(
                totals_of(rows, f, ranked_contents(rows, f)),
                f.limit,
                descends(f.order),
                picked@,
            ));
            assert forall|content: Seq<char>| total_of(rows, f, content) <= u32::MAX by {
                if views(contents@).contains(content) {
                    let w = choose|w: int|
                        0 <= w < views(contents@).len() && views(contents@)[w] == content;
                    assert(integers(totals@)[w] == total_of(rows, f, views(contents@)[w]));
                }
            }
        }
        Ok(lines)
    }
}

} // verus!
