//! The processor: ingestion, the sweep that counts what ingestion left
//! uncounted, and the queries over a container and all that lies below it.

pub mod container;
pub mod entry;
pub mod ingestion;
pub mod ngram;
pub mod sweep;
pub mod tokens;
pub mod tree;

use crate::processor::container::{Container, ContainerView};
use crate::processor::entry::{ngrams_of, ngrams_of_all, Entry, EntryView};
use crate::processor::ingestion::{
    ingested, ingested_all, ingestion_fits, ingestion_stopped, lemma_ingestion_fits_prefix,
};
use crate::processor::ngram::{
    fill_gaps, filled, views, NgramForByCountCommand, NgramForStore, NgramKey,
    NgramsForByContentCommand, SeriesPoint,
};
use crate::processor::sweep::{
    all_counted, all_paid, conserved, flags_raised, flipped, is_stuck, key_weight,
    lemma_flipped_sum, lemma_marks_flip, lemma_nothing_pending, lemma_page_rows,
    lemma_page_weight, lemma_pending_nonnegative, lemma_unit_weights, lemma_waiting_nonnegative,
    nothing_lost, pending_count, pending_fits, unit_weight, waiting_count,
};
use crate::processor::tree::{
    descendants_of, descendants_of_all, entries_in_all, expanded, lemma_entries_in_all_grows,
    lemma_ngram_rows_in_all_grows, level_below, levels_below, ngram_rows_in_all,
};
use crate::store::{store_error_text, Sql, StoreError};
use crate::store::filters::{
    option_text, ByContentFilterView, ByCountFilterView, NgramsByContentFilter,
    NgramsByCountFilter, Order,
};
use crate::store::queries::{awaits_counting, is_ranking, is_series, totals_fit};
use crate::store::tables::{
    count_of, counts_fit, entries_in, has_entry, ids_of, is_first_in, is_last_in,
    lemma_count_of_bounded, lemma_occurrences_grow, lemma_with_ngrams_counts, occurrences,
    with_container, with_entries, with_ngrams, EntryRow, Tables,
};
use vstd::prelude::*;

verus! {

/// How many entries the sweep reads at a time.
pub const ENTRY_LIMIT: u32 = 1000;

/// Why the processor gave no result.
#[derive(Debug, Clone, Copy, PartialEq, Eq, Structural)]
pub enum Error {
    /// The store refused a statement.
    DatabaseError(StoreError),
}

/// What a processor error says.
pub open spec fn error_text(error: Error) -> Seq<char> {
    match error {
        Error::DatabaseError(inner) => "Database error: "@ + store_error_text(inner),
    }
}

impl Error {
    /// The error in words.
    pub fn message(&self) -> (text: String)
        ensures
            text@ == error_text(*self),
    {
        match self {
            Error::DatabaseError(inner) => {
                let mut text: String = String::from_str("Database error: ");
                let cause: String = inner.message();
                text.append(cause.as_str());
                text
            },
        }
    }
}

/// Ingests entries into a store and answers queries over it.
pub struct Processor {
    store: Sql,
}

impl View for Processor {
    type V = Tables;

    closed spec fn view(&self) -> Tables {
        self.store@
    }
}

/// The filter of a ranking as the processor hands it to the store: the
/// scope widened, and the ten most frequent where nothing else is asked.
pub open spec fn ranking_filter(
    containers: Seq<ContainerView>,
    sender_id: Option<Seq<char>>,
    length: Option<int>,
    limit: Option<int>,
    container_ids: Seq<Seq<char>>,
    order: Option<Order>,
) -> ByCountFilterView {
    ByCountFilterView {
        sender_id: sender_id,
        length: length,
        container_ids: expanded(containers, container_ids),
        limit: match limit {
            Some(limit) => limit,
            None => 10,
        },
        order: match order {
            Some(order) => order,
            None => Order::Descending,
        },
    }
}

/// The filter of a time series as the processor hands it to the store.
pub open spec fn series_filter(
    containers: Seq<ContainerView>,
    content: Seq<char>,
    sender_id: Option<Seq<char>>,
    container_ids: Seq<Seq<char>>,
) -> ByContentFilterView {
    ByContentFilterView {
        content: content,
        sender_id: sender_id,
        container_ids: expanded(containers, container_ids),
    }
}

/// An optional number as an integer.
pub open spec fn option_int(value: Option<u32>) -> Option<int> {
    match value {
        Some(number) => Some(number as int),
        None => None,
    }
}

impl Processor {
    /// Whether the tables meet their uniqueness constraints. Every function
    /// of the processor keeps them.
    pub open spec fn wf(&self) -> bool {
        self@.wf()
    }

    /// A processor over the given store.
    pub fn new(store: Sql) -> (processor: Self)
        ensures
            processor@ == store@,
    {
        Processor { store }
    }

    /// The store, for reading.
    pub fn store(&self) -> (store: &Sql)
        ensures
            store@ == self@,
    {
        &self.store
    }

    /// Stores a container unless one with its id is stored already.
    pub fn add_container(&mut self, container: &Container)
        requires
            old(self).wf(),
        ensures
            final(self).wf(),
            final(self)@.containers == with_container(old(self)@.containers, container@),
            final(self)@.entries == old(self)@.entries,
            final(self)@.ngrams == old(self)@.ngrams,
    {
        self.store.add_container(container);
    }

    /// Ingests one entry: stores it and counts its n-grams, unless an entry
    /// with its id is stored already. A second ingestion of an entry
    /// therefore changes nothing.
    pub fn add_entry(&mut self, entry: Entry) -> (done: Result<(), Error>)
        requires
            old(self).wf(),
        ensures
            final(self).wf(),
            final(self)@.containers == old(self)@.containers,
            has_entry(old(self)@.entries, entry@.entry_id) ==> done is Ok && final(self)@ == old(self)@,
            done is Ok <==> has_entry(old(self)@.entries, entry@.entry_id) || counts_fit(
                old(self)@.ngrams,
                ngrams_of(entry@),
            ),
            done is Ok ==> final(self)@ == ingested(old(self)@, entry@),
            done matches Err(error) ==> error == Error::DatabaseError(StoreError::CountOutOfRange)
                && final(self)@.entries == old(self)@.entries && exists|k: int|
                0 <= k < ngrams_of(entry@).len() && final(self)@.ngrams == with_ngrams(
                    old(self)@.ngrams,
                    #[trigger] ngrams_of(entry@).take(k),
                ),
    {
        if self.store.has_entry(&entry.entry_id) {
            return Ok(());
        }
        let ngrams: Vec<NgramForStore> = entry.get_ngrams();
        match self.store.add_ngrams(ngrams.as_slice()) {
            Ok(()) => {},
            Err(error) => {
                return Err(Error::DatabaseError(error));
            },
        }
        let ghost tallied = self@;
        let mut one: Vec<Entry> = Vec::new();
        one.push(entry);
        proof {
            let listed = views(one@);
            assert(listed.drop_last() =~= Seq::<EntryView>::empty());
            assert(listed.last() == entry@);
        }
        self.store.add_entries(one.as_slice(), true);
        proof {
            let listed = views(one@);
            assert(with_entries(tallied.entries, listed.drop_last(), true) == tallied.entries);
            assert(self@.entries == old(self)@.entries.push(
                EntryRow { entry: entry@, ngrams_cached: true },
            ));
            assert(self@.ngrams == with_ngrams(old(self)@.ngrams, ngrams_of(entry@)));
        }
        Ok(())
    }

    /// Ingests a list of entries in order, each as `add_entry` does. Where
    /// a count does not fit, ingestion stops there: the entries before are
    /// ingested, the one that did not fit is not stored, and the entries
    /// after it are not looked at.
    pub fn add_entries(&mut self, entries: &[Entry]) -> (done: Result<(), Error>)
        requires
            old(self).wf(),
        ensures
            final(self).wf(),
            final(self)@.containers == old(self)@.containers,
            done is Ok <==> ingestion_fits(old(self)@, views(entries@)),
            done is Ok ==> final(self)@ == ingested_all(old(self)@, views(entries@)),
            done matches Err(error) ==> error == Error::DatabaseError(StoreError::CountOutOfRange)
                && ingestion_stopped(old(self)@, views(entries@), final(self)@),
    {
        let ghost listed = views(entries@);
        let mut i: usize = 0;
        assert(listed.take(0) =~= Seq::<EntryView>::empty());
        while i < entries.len()
            invariant
                i <= entries@.len(),
                listed == views(entries@),
                self.wf(),
                self@ == ingested_all(old(self)@, listed.take(i as int)),
                ingestion_fits(old(self)@, listed.take(i as int)),
                self@.containers == old(self)@.containers,
            decreases entries@.len() - i,
        {
            let ghost before = self@;
            proof {
                assert(listed.take(i as int + 1).drop_last() =~= listed.take(i as int));
                assert(listed.take(i as int + 1).last() == entries@[i as int]@);
            }
            match self.add_entry(entries[i].clone()) {
                Ok(()) => {},
                Err(error) => {
                    proof {
                        if ingestion_fits(old(self)@, listed) {
                            lemma_ingestion_fits_prefix(old(self)@, listed, i as int + 1);
                        }
                        let k = choose|k: int|
                            0 <= k < ngrams_of(entries@[i as int]@).len() && self@.ngrams
                                == with_ngrams(
                                before.ngrams,
                                #[trigger] ngrams_of(entries@[i as int]@).take(k),
                            );
                        assert(listed[i as int] == entries@[i as int]@);
                        assert(self@.ngrams == with_ngrams(
                            ingested_all(old(self)@, listed.take(i as int)).ngrams,
                            ngrams_of(listed[i as int]).take(k),
                        ));
                    }
                    return Err(error);
                },
            }
            i = i + 1;
        }
        assert(listed.take(i as int) =~= listed);
        Ok(())
    }

    /// The ids of the oldest and of the newest entry written in exactly this
    /// container.
    pub fn get_first_and_last_entry_id_in_container(&self, container_id: &str) -> (ids: Result<
        (String, String),
        Error,
    >)
        ensures
            ids is Ok <==> entries_in(self@.entries, container_id@) > 0,
            ids matches Ok(pair) ==> exists|i: int, j: int|
                is_first_in(self@.entries, container_id@, i) && is_last_in(
                    self@.entries,
                    container_id@,
                    j,
                ) && pair.0@ == (#[trigger] self@.entries[i]).entry.entry_id && pair.1@ == (
                #[trigger] self@.entries[j]).entry.entry_id,
            ids matches Err(error) ==> error == Error::DatabaseError(StoreError::NotFound),
    {
        let first = match self.store.get_first_entry_id_in_container(container_id) {
            Ok(id) => id,
            Err(error) => {
                return Err(Error::DatabaseError(error));
            },
        };
        let last = match self.store.get_last_entry_id_in_container(container_id) {
            Ok(id) => id,
            Err(error) => {
                return Err(Error::DatabaseError(error));
            },
        };
        proof {
            let i = choose|i: int|
                is_first_in(self@.entries, container_id@, i) && first@ == (
                #[trigger] self@.entries[i]).entry.entry_id;
            let j = choose|j: int|
                is_last_in(self@.entries, container_id@, j) && last@ == (
                #[trigger] self@.entries[j]).entry.entry_id;
            assert(is_first_in(self@.entries, container_id@, i) && is_last_in(
                self@.entries,
                container_id@,
                j,
            ) && first@ == self@.entries[i].entry.entry_id && last@
                == self@.entries[j].entry.entry_id);
        }
        Ok((first, last))
    }

    /// All containers below `container_id`, level by level.
    pub fn get_child_container_ids(&self, container_id: &str) -> (ids: Vec<String>)
        ensures
            views(ids@) == descendants_of(self@.containers, container_id@),
    {
        let ghost containers = self@.containers;
        let mut found: Vec<String> = Vec::new();
        let mut level: Vec<String> = Vec::new();
        level.push(container_id.to_owned());
        let mut depth: usize = self.store.container_count();
        assert(views(level@) =~= seq![container_id@]);
        assert(views(found@) + levels_below(containers, views(level@), depth as nat)
            =~= descendants_of(containers, container_id@));
        while depth > 0 && level.len() > 0
            invariant
                containers == self@.containers,
                views(found@) + levels_below(containers, views(level@), depth as nat)
                    == descendants_of(containers, container_id@),
            decreases depth,
        {
            let mut below: Vec<String> = Vec::new();
            let mut k: usize = 0;
            assert(views(level@).take(0) =~= Seq::<Seq<char>>::empty());
            assert(views(below@) =~= level_below(containers, views(level@).take(0)));
            while k < level.len()
                invariant
                    k <= level@.len(),
                    containers == self@.containers,
                    views(below@) == level_below(containers, views(level@).take(k as int)),
                decreases level@.len() - k,
            {
                let mut children: Vec<String> = self.store.get_child_container_ids(
                    level[k].as_str(),
                );
                proof {
                    assert(views(level@).take(k as int + 1).drop_last() =~= views(level@).take(
                        k as int,
                    ));
                    assert(views(level@).take(k as int + 1).last() == level@[k as int]@);
                    assert(views(below@ + children@) =~= views(below@) + views(children@));
                }
                below.append(&mut children);
                k = k + 1;
            }
            assert(views(level@).take(k as int) =~= views(level@));
            let mut copy: Vec<String> = clone_texts(&below);
            proof {
                assert(views(found@ + copy@) =~= views(found@) + views(copy@));
                assert(views(found@) + views(below@) + levels_below(
                    containers,
                    views(below@),
                    (depth - 1) as nat,
                ) =~= views(found@) + levels_below(containers, views(level@), depth as nat));
            }
            found.append(&mut copy);
            level = below;
            depth = depth - 1;
        }
        assert(levels_below(containers, views(level@), depth as nat) =~= Seq::<
            Seq<char>,
        >::empty());
        assert(views(found@) + Seq::<Seq<char>>::empty() =~= views(found@));
        found
    }

    /// A scope widened to all that lies below it: the containers of the
    /// list, then the descendants of each.
    pub fn expand_container_ids_with_children(&self, container_ids: &[String]) -> (ids: Vec<String>)
        ensures
            views(ids@) == expanded(self@.containers, views(container_ids@)),
    {
        let ghost containers = self@.containers;
        let ghost listed = views(container_ids@);
        let mut below: Vec<String> = Vec::new();
        let mut i: usize = 0;
        assert(listed.take(0) =~= Seq::<Seq<char>>::empty());
        while i < container_ids.len()
            invariant
                i <= container_ids@.len(),
                containers == self@.containers,
                listed == views(container_ids@),
                views(below@) == descendants_of_all(containers, listed.take(i as int)),
            decreases container_ids@.len() - i,
        {
            let mut more: Vec<String> = self.get_child_container_ids(container_ids[i].as_str());
            proof {
                assert(listed.take(i as int + 1).drop_last() =~= listed.take(i as int));
                assert(listed.take(i as int + 1).last() == container_ids@[i as int]@);
                assert(views(below@ + more@) =~= views(below@) + views(more@));
            }
            below.append(&mut more);
            i = i + 1;
        }
        assert(listed.take(i as int) =~= listed);
        let mut ids: Vec<String> = clone_text_slice(container_ids);
        proof {
            assert(views(ids@ + below@) =~= views(ids@) + views(below@));
        }
        ids.append(&mut below);
        ids
    }

    /// How many n-gram rows belong to the containers below `container_id`.
    /// The rows of the container itself are not counted.
    pub fn get_ngram_count_in_container(&self, container_id: &str) -> (count: Result<i32, Error>)
        ensures
            count is Ok <==> ngram_rows_in_all(
                self@.ngrams,
                descendants_of(self@.containers, container_id@),
            ) <= i32::MAX,
            count matches Ok(n) ==> n == ngram_rows_in_all(
                self@.ngrams,
                descendants_of(self@.containers, container_id@),
            ),
            count matches Err(error) ==> error == Error::DatabaseError(StoreError::CountOutOfRange),
    {
        let ids: Vec<String> = self.get_child_container_ids(container_id);
        let ghost listed = views(ids@);
        let mut total: i32 = 0;
        let mut i: usize = 0;
        assert(listed.take(0) =~= Seq::<Seq<char>>::empty());
        while i < ids.len()
            invariant
                i <= ids@.len(),
                listed == views(ids@),
                listed == descendants_of(self@.containers, container_id@),
                0 <= total,
                total == ngram_rows_in_all(self@.ngrams, listed.take(i as int)),
            decreases ids@.len() - i,
        {
            proof {
                assert(listed.take(i as int + 1).drop_last() =~= listed.take(i as int));
                assert(listed.take(i as int + 1).last() == ids@[i as int]@);
            }
            match self.store.get_ngram_count_in_container(ids[i].as_str()) {
                Ok(n) => {
                    if n > i32::MAX - total {
                        proof {
                            lemma_ngram_rows_in_all_grows(self@.ngrams, listed, i as int + 1);
                        }
                        return Err(Error::DatabaseError(StoreError::CountOutOfRange));
                    }
                    total = total + n;
                },
                Err(error) => {
                    proof {
                        lemma_ngram_rows_in_all_grows(self@.ngrams, listed, i as int + 1);
                    }
                    return Err(Error::DatabaseError(error));
                },
            }
            i = i + 1;
        }
        assert(listed.take(i as int) =~= listed);
        Ok(total)
    }

    /// How many entries were written in the containers below `container_id`.
    /// The entries of the container itself are not counted.
    pub fn get_entries_count_in_container(&self, container_id: &str) -> (count: Result<i32, Error>)
        ensures
            count is Ok <==> entries_in_all(
                self@.entries,
                descendants_of(self@.containers, container_id@),
            ) <= i32::MAX,
            count matches Ok(n) ==> n == entries_in_all(
                self@.entries,
                descendants_of(self@.containers, container_id@),
            ),
            count matches Err(error) ==> error == Error::DatabaseError(StoreError::CountOutOfRange),
    {
        let ids: Vec<String> = self.get_child_container_ids(container_id);
        let ghost listed = views(ids@);
        let mut total: i32 = 0;
        let mut i: usize = 0;
        assert(listed.take(0) =~= Seq::<Seq<char>>::empty());
        while i < ids.len()
            invariant
                i <= ids@.len(),
                listed == views(ids@),
                listed == descendants_of(self@.containers, container_id@),
                0 <= total,
                total == entries_in_all(self@.entries, listed.take(i as int)),
            decreases ids@.len() - i,
        {
            proof {
                assert(listed.take(i as int + 1).drop_last() =~= listed.take(i as int));
                assert(listed.take(i as int + 1).last() == ids@[i as int]@);
            }
            match self.store.get_entries_count_in_container(ids[i].as_str()) {
                Ok(n) => {
                    if n > i32::MAX - total {
                        proof {
                            lemma_entries_in_all_grows(self@.entries, listed, i as int + 1);
                        }
                        return Err(Error::DatabaseError(StoreError::CountOutOfRange));
                    }
                    total = total + n;
                },
                Err(error) => {
                    proof {
                        lemma_entries_in_all_grows(self@.entries, listed, i as int + 1);
                    }
                    return Err(Error::DatabaseError(error));
                },
            }
            i = i + 1;
        }
        assert(listed.take(i as int) =~= listed);
        Ok(total)
    }

    /// The most (or least) frequent n-grams within the given containers and
    /// all that lies below them; within all containers where none is given.
    /// Without a limit the ranking has ten lines, and without an order the
    /// most frequent comes first.
    pub fn get_ngrams_by_count(
        &self,
        sender_id: Option<String>,
        length: Option<u32>,
        limit: Option<u32>,
        container_ids: &[String],
        order: Option<Order>,
    ) -> (ranking: Result<Vec<NgramForByCountCommand>, Error>)
        requires
            self.wf(),
        ensures
            ranking is Ok <==> totals_fit(
                self@.ngrams,
                ranking_filter(
                    self@.containers,
                    option_text(sender_id),
                    option_int(length),
                    option_int(limit),
                    views(container_ids@),
                    order,
                ),
            ),
            ranking matches Ok(lines) ==> is_ranking(
                self@.ngrams,
                ranking_filter(
                    self@.containers,
                    option_text(sender_id),
                    option_int(length),
                    option_int(limit),
                    views(container_ids@),
                    order,
                ),
                views(lines@),
            ),
            ranking matches Err(error) ==> error == Error::DatabaseError(
                StoreError::CountOutOfRange,
            ),
    {
        let expanded_container_ids: Vec<String> = self.expand_container_ids_with_children(
            container_ids,
        );
        let filter = NgramsByCountFilter {
            sender_id: sender_id,
            length: length,
            limit: match limit {
                Some(limit) => limit,
                None => 10,
            },
            order: match order {
                Some(order) => order,
                None => Order::Descending,
            },
            container_ids: expanded_container_ids,
        };
        assert(filter@ == ranking_filter(
            self@.containers,
            option_text(sender_id),
            option_int(length),
            option_int(limit),
            views(container_ids@),
            order,
        ));
        match self.store.get_ngrams_by_count(&filter) {
            Ok(lines) => Ok(lines),
            Err(error) => Err(Error::DatabaseError(error)),
        }
    }

    /// How often one n-gram occurred over time within the given containers
    /// and all that lies below them, with zero points put into the silent
    /// stretches.
    pub fn get_ngram_by_content(
        &self,
        content: &str,
        sender_id: Option<String>,
        container_ids: &[String],
    ) -> (series: Vec<NgramsForByContentCommand>)
        requires
            self.wf(),
        ensures
            exists|read: Seq<SeriesPoint>|
                #[trigger] is_series(
                    self@.ngrams,
                    series_filter(
                        self@.containers,
                        content@,
                        option_text(sender_id),
                        views(container_ids@),
                    ),
                    read,
                ) && views(series@) == filled(read),
    {
        let expanded_container_ids: Vec<String> = self.expand_container_ids_with_children(
            container_ids,
        );
        let filter = NgramsByContentFilter {
            content: content.to_owned(),
            sender_id: sender_id,
            container_ids: expanded_container_ids,
        };
        assert(filter@ == series_filter(
            self@.containers,
            content@,
            option_text(sender_id),
            views(container_ids@),
        ));
        let mut ngrams: Vec<NgramsForByContentCommand> = self.store.get_ngrams_by_content(&filter);
        let ghost read = views(ngrams@);
        fill_gaps(&mut ngrams);
        assert(is_series(self@.ngrams, filter@, read));
        ngrams
    }

    /// Counts the n-grams of the entries that were stored uncounted, and
    /// leaves none uncounted. The sweep reads the newest `ENTRY_LIMIT` of
    /// them, counts their n-grams, sets their flags, and goes on strictly
    /// below the oldest entry that it read. Entries of the very age of that
    /// entry are not below it: where nothing is left below, the sweep starts
    /// again from the newest, until nothing waits at all.
    ///
    /// Each entry is counted once: in the end every key's count has grown by
    /// how often the key stands among the n-grams of the entries that
    /// waited.
    ///
    /// The sweep is given up where a count does not fit its row. Nothing
    /// that was counted or is owed is lost then: no flag is set on an entry
    /// whose n-grams are not counted.
    pub fn cache_ngrams(&mut self) -> (done: Result<(), Error>)
        requires
            old(self).wf(),
        ensures
            final(self).wf(),
            final(self)@.containers == old(self)@.containers,
            flags_raised(old(self)@.entries, final(self)@.entries),
            done is Ok <==> pending_fits(old(self)@),
            done is Ok ==> all_counted(final(self)@.entries) && all_paid(
                old(self)@,
                final(self)@,
            ),
            done matches Err(error) ==> error == Error::DatabaseError(StoreError::CountOutOfRange)
                && is_stuck(final(self)@) && nothing_lost(old(self)@, final(self)@),
    {
        let ghost before = self@;
        let mut cursor: Option<String> = None;
        loop
            invariant
                before == old(self)@,
                self.wf(),
                self@.containers == before.containers,
                flags_raised(before.entries, self@.entries),
                conserved(before, self@),
            ensures
                all_counted(self@.entries),
            decreases
                    waiting_count(self@.entries),
                    if cursor is Some {
                        1int
                    } else {
                        0int
                    },
        {
            let ghost rows = self@.entries;
            let ghost counts = self@.ngrams;
            let ghost start = option_text(cursor);
            let from: Option<String> = match &cursor {
                Some(id) => Some(id.clone()),
                None => None,
            };
            let page: Vec<Entry> = self.store.get_entries_without_cached_ngrams(ENTRY_LIMIT, from);
            let ghost read = views(page@);
            let ghost mut at: Seq<int> = Seq::empty();
            proof {
                at = lemma_page_rows(rows, start, ENTRY_LIMIT as int, read);
            }
            if page.len() == 0 {
                if cursor.is_none() {
                    proof {
                        assert forall|i: int| 0 <= i < rows.len() implies (
                        #[trigger] rows[i]).ngrams_cached by {
                            if !rows[i].ngrams_cached {
                                assert(awaits_counting(rows, start)(rows[i]));
                                assert(read.len() > 0);
                            }
                        }
                    }
                    break ;
                }
                cursor = None;
            } else {
                let next: String = page[page.len() - 1].entry_id.clone();
                let mut entry_ids: Vec<String> = Vec::new();
                let mut k: usize = 0;
                while k < page.len()
                    invariant
                        k <= page@.len(),
                        entry_ids@.len() == k,
                        forall|l: int|
                            0 <= l < k ==> (#[trigger] entry_ids@[l])@ == page@[l]@.entry_id,
                    decreases page@.len() - k,
                {
                    entry_ids.push(page[k].entry_id.clone());
                    k = k + 1;
                }
                assert(views(entry_ids@) =~= ids_of(read));
                let ngrams: Vec<NgramForStore> = Entry::get_ngrams_from_entries_slice(
                    page.as_slice(),
                );
                proof {
                    lemma_flipped_sum(rows, at, unit_weight());
                    lemma_unit_weights(read);
                    lemma_waiting_nonnegative(flipped(rows, at));
                    assert forall|key: NgramKey|
                        occurrences(ngrams_of_all(read), key) + #[trigger] pending_count(
                            flipped(rows, at),
                            key,
                        ) == pending_count(rows, key) by {
                        lemma_flipped_sum(rows, at, key_weight(key));
                        lemma_page_weight(read, key);
                    }
                }
                match self.store.add_ngrams(ngrams.as_slice()) {
                    Ok(()) => {},
                    Err(error) => {
                        proof {
                            let listed = ngrams_of_all(read);
                            let k = choose|k: int|
                                0 <= k < ngrams@.len() && self@.ngrams == with_ngrams(
                                    counts,
                                    #[trigger] views(ngrams@).take(k),
                                ) && count_of(self@.ngrams, ngrams@[k]@) == u32::MAX;
                            let full = listed[k];
                            assert(full == ngrams@[k]@);
                            lemma_occurrences_grow(listed, k + 1, full);
                            lemma_occurrences_grow(listed, k, full);
                            assert(listed.take(k + 1).drop_last() =~= listed.take(k));
                            assert(occurrences(listed, full) >= 1);
                            lemma_pending_nonnegative(flipped(rows, at), full);
                            assert(pending_count(self@.entries, full) > 0);
                            assert forall|key: NgramKey|
                                count_of(self@.ngrams, key) + pending_count(self@.entries, key)
                                    >= count_of(before.ngrams, key) + pending_count(
                                    before.entries,
                                    key,
                                ) by {
                                lemma_with_ngrams_counts(counts, listed.take(k), key);
                                lemma_occurrences_grow(listed, k, key);
                                assert(count_of(counts, key) + pending_count(rows, key)
                                    == count_of(before.ngrams, key) + pending_count(
                                    before.entries,
                                    key,
                                ));
                            }
                            if pending_fits(before) {
                                assert forall|key: NgramKey|
                                    count_of(counts, key) + occurrences(ngrams_of_all(read), key)
                                        <= u32::MAX by {
                                    lemma_pending_nonnegative(flipped(rows, at), key);
                                    assert(count_of(counts, key) + pending_count(rows, key)
                                        == count_of(before.ngrams, key) + pending_count(
                                        before.entries,
                                        key,
                                    ));
                                }
                                assert(counts_fit(counts, ngrams_of_all(read)));
                            }
                        }
                        return Err(Error::DatabaseError(error));
                    },
                }
                self.store.mark_entry_as_ngrams_cached(entry_ids.as_slice());
                proof {
                    lemma_marks_flip(rows, at);
                    assert(self@.entries == flipped(rows, at));
                    assert forall|i: int| 0 <= i < self@.entries.len() implies (
                    #[trigger] self@.entries[i]).entry == before.entries[i].entry && (
                    before.entries[i].ngrams_cached ==> self@.entries[i].ngrams_cached) by {
                        assert(rows[i].entry == before.entries[i].entry);
                    }
                    assert forall|key: NgramKey|
                        count_of(self@.ngrams, key) + pending_count(self@.entries, key)
                            == count_of(before.ngrams, key) + pending_count(
                            before.entries,
                            key,
                        ) by {
                        lemma_with_ngrams_counts(counts, ngrams_of_all(read), key);
                        assert(occurrences(ngrams_of_all(read), key) + pending_count(
                            flipped(rows, at),
                            key,
                        ) == pending_count(rows, key));
                        assert(count_of(counts, key) + pending_count(rows, key) == count_of(
                            before.ngrams,
                            key,
                        ) + pending_count(before.entries, key));
                    }
                }
                cursor = Some(next);
            }
        }
        proof {
            assert forall|key: NgramKey|
                count_of(self@.ngrams, key) == count_of(before.ngrams, key) + pending_count(
                    before.entries,
                    key,
                ) by {
                lemma_nothing_pending(self@.entries, key);
                assert(count_of(self@.ngrams, key) + pending_count(self@.entries, key)
                    == count_of(before.ngrams, key) + pending_count(before.entries, key));
            }
            assert forall|key: NgramKey|
                count_of(before.ngrams, key) + pending_count(before.entries, key)
                    <= u32::MAX by {
                lemma_count_of_bounded(self@.ngrams, key);
            }
        }
        Ok(())
    }
}

/// A copy of a list of texts.
fn clone_texts(list: &Vec<String>) -> (copy: Vec<String>)
    ensures
        views(copy@) == views(list@),
{
    clone_text_slice(list.as_slice())
}

/// A copy of a list of texts.
fn clone_text_slice(list: &[String]) -> (copy: Vec<String>)
    ensures
        views(copy@) == views(list@),
{
    let mut copy: Vec<String> = Vec::new();
    let mut i: usize = 0;
    while i < list.len()
        invariant
            i <= list@.len(),
            copy@.len() == i,
            forall|j: int| 0 <= j < i ==> (#[trigger] copy@[j])@ == list@[j]@,
        decreases list@.len() - i,
    {
        copy.push(list[i].clone());
        i = i + 1;
    }
    assert(views(copy@) =~= views(list@));
    copy
}

} // verus!
