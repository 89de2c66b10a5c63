//! What ingestion makes of the tables: each new entry is stored with its
//! n-grams counted, and an entry that is stored already changes nothing.

use crate::processor::entry::{ngrams_of, ngrams_of_all, EntryView};
use crate::processor::ngram::NgramKey;
use crate::store::tables::{
    count_of, counts_fit, has_entry, ids_of, lemma_occurrences_concat, lemma_with_ngrams_counts,
    occurrences, with_ngrams, EntryRow, Tables,
};
use vstd::prelude::*;

verus! {

/// The tables after one entry was ingested: an entry whose id is stored is
/// passed over and changes nothing; any other is stored with its flag set,
/// and each of its n-grams is counted once.
pub open spec fn ingested(tables: Tables, entry: EntryView) -> Tables {
    if has_entry(tables.entries, entry.entry_id) {
        tables
    } else {
        Tables {
            entries: tables.entries.push(EntryRow { entry: entry, ngrams_cached: true }),
            containers: tables.containers,
            ngrams: with_ngrams(tables.ngrams, ngrams_of(entry)),
        }
    }
}

/// The tables after a list of entries was ingested in order.
pub open spec fn ingested_all(tables: Tables, entries: Seq<EntryView>) -> Tables
    decreases entries.len(),
{
    if entries.len() == 0 {
        tables
    } else {
        ingested(ingested_all(tables, entries.drop_last()), entries.last())
    }
}

/// Whether each count still fits its row while a list of entries is
/// ingested in order.
pub open spec fn ingestion_fits(tables: Tables, entries: Seq<EntryView>) -> bool
    decreases entries.len(),
{
    if entries.len() == 0 {
        true
    } else {
        let before = ingested_all(tables, entries.drop_last());
        &&& ingestion_fits(tables, entries.drop_last())
        &&& has_entry(before.entries, entries.last().entry_id) || counts_fit(
            before.ngrams,
            ngrams_of(entries.last()),
        )
    }
}

/// Whether ingestion stopped within a list of entries: the entries before
/// some entry of the list are ingested, of that entry some of its n-grams
/// are counted and the next did not fit, and the entry is not stored.
pub open spec fn ingestion_stopped(before: Tables, entries: Seq<EntryView>, after: Tables) -> bool {
    exists|i: int, k: int|
        0 <= i < entries.len() && 0 <= k < ngrams_of(entries[i]).len() && after.entries
            == ingested_all(before, entries.take(i)).entries && after.ngrams == with_ngrams(
            ingested_all(before, entries.take(i)).ngrams,
            #[trigger] ngrams_of(entries[i]).take(k),
        )
}

/// After a list of entries was ingested, each of them is stored.
pub proof fn lemma_ingested_entries_are_stored(tables: Tables, entries: Seq<EntryView>, i: int)
    requires
        0 <= i < entries.len(),
    ensures
        has_entry(ingested_all(tables, entries).entries, entries[i].entry_id),
    decreases entries.len(),
{
    let before = ingested_all(tables, entries.drop_last());
    let after = ingested(before, entries.last());
    if i == entries.len() - 1 {
        if !has_entry(before.entries, entries.last().entry_id) {
            assert(after.entries[after.entries.len() - 1].entry.entry_id
                == entries.last().entry_id);
        }
    } else {
        lemma_ingested_entries_are_stored(tables, entries.drop_last(), i);
        assert(entries.drop_last()[i] == entries[i]);
        let at = choose|at: int|
            0 <= at < before.entries.len() && (#[trigger] before.entries[at]).entry.entry_id
                == entries[i].entry_id;
        assert(after.entries[at].entry.entry_id == entries[i].entry_id);
    }
}

/// Entries whose ids are stored are passed over: their ingestion changes
/// neither a table nor a count, and it always fits.
pub proof fn lemma_known_entries_change_nothing(tables: Tables, entries: Seq<EntryView>)
    requires
        forall|i: int|
            0 <= i < entries.len() ==> has_entry(tables.entries, (#[trigger] entries[i]).entry_id),
    ensures
        ingested_all(tables, entries) == tables,
        ingestion_fits(tables, entries),
    decreases entries.len(),
{
    if entries.len() > 0 {
        assert forall|i: int| 0 <= i < entries.drop_last().len() implies has_entry(
            tables.entries,
            (#[trigger] entries.drop_last()[i]).entry_id,
        ) by {
            assert(entries.drop_last()[i] == entries[i]);
        }
        lemma_known_entries_change_nothing(tables, entries.drop_last());
        assert(has_entry(tables.entries, entries[entries.len() - 1].entry_id));
    }
}

/// Ingestion is idempotent: a list of entries that is ingested a second
/// time changes neither a table nor a count.
pub proof fn lemma_ingestion_is_idempotent(tables: Tables, entries: Seq<EntryView>)
    ensures
        ingested_all(ingested_all(tables, entries), entries) == ingested_all(tables, entries),
        ingestion_fits(ingested_all(tables, entries), entries),
{
    let once = ingested_all(tables, entries);
    assert forall|i: int| 0 <= i < entries.len() implies has_entry(
        once.entries,
        (#[trigger] entries[i]).entry_id,
    ) by {
        lemma_ingested_entries_are_stored(tables, entries, i);
    }
    lemma_known_entries_change_nothing(once, entries);
}

/// After ingestion the stored entries are those that were stored before and
/// those of the list.
pub proof fn lemma_ingested_ids(tables: Tables, entries: Seq<EntryView>, id: Seq<char>)
    ensures
        has_entry(ingested_all(tables, entries).entries, id) <==> has_entry(tables.entries, id)
            || ids_of(entries).contains(id),
    decreases entries.len(),
{
    if entries.len() > 0 {
        let init = entries.drop_last();
        let last = entries.last();
        let before = ingested_all(tables, init);
        let after = ingested(before, last);
        lemma_ingested_ids(tables, init, id);
        if has_entry(after.entries, id) {
            let i = choose|i: int|
                0 <= i < after.entries.len() && (#[trigger] after.entries[i]).entry.entry_id == id;
            if i < before.entries.len() {
                assert(before.entries[i].entry.entry_id == id);
                if ids_of(init).contains(id) {
                    let j = choose|j: int| 0 <= j < init.len() && ids_of(init)[j] == id;
                    assert(ids_of(entries)[j] == id);
                }
            } else {
                assert(ids_of(entries)[entries.len() - 1] == id);
            }
        }
        if has_entry(tables.entries, id) || ids_of(entries).contains(id) {
            if has_entry(before.entries, id) {
                let i = choose|i: int|
                    0 <= i < before.entries.len() && (#[trigger] before.entries[i]).entry.entry_id
                        == id;
                assert(after.entries[i].entry.entry_id == id);
            } else {
                let j = choose|j: int| 0 <= j < entries.len() && ids_of(entries)[j] == id;
                if j < init.len() {
                    assert(ids_of(init)[j] == id);
                }
                assert(last.entry_id == id);
                assert(after.entries[after.entries.len() - 1].entry.entry_id == id);
            }
        }
    }
}

/// Where no entry of a list is stored and no two of them share an id, the
/// ingestion of the list raises each key's count by how often the key stands
/// among the n-grams of the list.
pub proof fn lemma_ingestion_counts(tables: Tables, entries: Seq<EntryView>, key: NgramKey)
    requires
        forall|i: int|
            0 <= i < entries.len() ==> !has_entry(tables.entries, (#[trigger] entries[i]).entry_id),
        forall|i: int, j: int|
            0 <= i < j < entries.len() ==> (#[trigger] entries[i]).entry_id != (
            #[trigger] entries[j]).entry_id,
    ensures
        count_of(ingested_all(tables, entries).ngrams, key) == count_of(tables.ngrams, key)
            + occurrences(ngrams_of_all(entries), key),
    decreases entries.len(),
{
    if entries.len() > 0 {
        let init = entries.drop_last();
        let last = entries.last();
        let before = ingested_all(tables, init);
        assert forall|i: int| 0 <= i < init.len() implies !has_entry(
            tables.entries,
            (#[trigger] init[i]).entry_id,
        ) by {
            assert(init[i] == entries[i]);
        }
        assert forall|i: int, j: int| 0 <= i < j < init.len() implies (#[trigger] init[i]).entry_id
            != (#[trigger] init[j]).entry_id by {
            assert(init[i] == entries[i] && init[j] == entries[j]);
        }
        lemma_ingestion_counts(tables, init, key);
        lemma_ingested_ids(tables, init, last.entry_id);
        assert(!has_entry(tables.entries, entries[entries.len() - 1].entry_id));
        assert(!ids_of(init).contains(last.entry_id)) by {
            if ids_of(init).contains(last.entry_id) {
                let j = choose|j: int| 0 <= j < init.len() && ids_of(init)[j] == last.entry_id;
                assert(entries[j].entry_id != entries[entries.len() - 1].entry_id);
            }
        }
        lemma_with_ngrams_counts(before.ngrams, ngrams_of(last), key);
        lemma_occurrences_concat(ngrams_of_all(init), ngrams_of(last), key);
    }
}

/// Where the ingestion of a list fits, that of each of its beginnings does.
pub proof fn lemma_ingestion_fits_prefix(tables: Tables, entries: Seq<EntryView>, i: int)
    requires
        0 <= i <= entries.len(),
        ingestion_fits(tables, entries),
    ensures
        ingestion_fits(tables, entries.take(i)),
    decreases entries.len() - i,
{
    if i == entries.len() {
        assert(entries.take(i) =~= entries);
    } else {
        lemma_ingestion_fits_prefix(tables, entries, i + 1);
        assert(entries.take(i + 1).drop_last() =~= entries.take(i));
    }
}

} // verus!
