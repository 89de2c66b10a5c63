//! The three tables as values: their rows, their uniqueness constraints,
//! and what each writing statement makes of them.

use crate::processor::container::ContainerView;
use crate::processor::entry::EntryView;
use crate::processor::ngram::NgramKey;
use vstd::prelude::*;

verus! {

/// A row of the entries table: the entry, and whether its n-grams have been
/// counted.
pub struct EntryRow {
    pub entry: EntryView,
    pub ngrams_cached: bool,
}

/// A row of the n-grams table: a key and how often it occurred.
pub struct NgramRow {
    pub key: NgramKey,
    pub count: int,
}

/// The three tables, each in the order in which its rows were first written.
pub struct Tables {
    pub entries: Seq<EntryRow>,
    pub containers: Seq<ContainerView>,
    pub ngrams: Seq<NgramRow>,
}

impl Tables {
    /// The uniqueness constraints of the tables: no two entries share an id,
    /// no two containers share an id, no two n-gram rows share a key, and
    /// each n-gram row counts at least one occurrence.
    pub open spec fn wf(self) -> bool {
        &&& forall|i: int, j: int|
            0 <= i < j < self.entries.len() ==> (#[trigger] self.entries[i]).entry.entry_id != (
            #[trigger] self.entries[j]).entry.entry_id
        &&& forall|i: int, j: int|
            0 <= i < j < self.containers.len() ==> (#[trigger] self.containers[i]).container_id != (
            #[trigger] self.containers[j]).container_id
        &&& ngram_rows_wf(self.ngrams)
    }
}

/// Whether an entry with this id is stored.
pub open spec fn has_entry(rows: Seq<EntryRow>, entry_id: Seq<char>) -> bool {
    exists|i: int| 0 <= i < rows.len() && (#[trigger] rows[i]).entry.entry_id == entry_id
}

/// The ids of a list of entries.
pub open spec fn ids_of(entries: Seq<EntryView>) -> Seq<Seq<char>> {
    Seq::new(entries.len(), |k: int| entries[k].entry_id)
}

/// The row of the entry with this id.
pub open spec fn entry_row(rows: Seq<EntryRow>, entry_id: Seq<char>) -> EntryRow {
    rows[choose|i: int| 0 <= i < rows.len() && (#[trigger] rows[i]).entry.entry_id == entry_id]
}

/// The rows of the entries with the listed ids, as far as they are stored,
/// in the order of the list.
pub open spec fn rows_of_entries(rows: Seq<EntryRow>, ids: Seq<Seq<char>>) -> Seq<EntryRow>
    decreases ids.len(),
{
    if ids.len() == 0 {
        Seq::empty()
    } else if has_entry(rows, ids.last()) {
        rows_of_entries(rows, ids.drop_last()).push(entry_row(rows, ids.last()))
    } else {
        rows_of_entries(rows, ids.drop_last())
    }
}

/// Whether a container with this id is stored.
pub open spec fn has_container(rows: Seq<ContainerView>, container_id: Seq<char>) -> bool {
    exists|i: int| 0 <= i < rows.len() && (#[trigger] rows[i]).container_id == container_id
}

/// The entries table after `entries` were offered to it in order: an entry
/// whose id is already stored is passed over, any other is appended with the
/// given flag.
pub open spec fn with_entries(rows: Seq<EntryRow>, entries: Seq<EntryView>, cached: bool) -> Seq<
    EntryRow,
>
    decreases entries.len(),
{
    if entries.len() == 0 {
        rows
    } else {
        let before = with_entries(rows, entries.drop_last(), cached);
        if has_entry(before, entries.last().entry_id) {
            before
        } else {
            before.push(EntryRow { entry: entries.last(), ngrams_cached: cached })
        }
    }
}

/// The containers table after `container` was offered to it.
pub open spec fn with_container(rows: Seq<ContainerView>, container: ContainerView) -> Seq<
    ContainerView,
> {
    if has_container(rows, container.container_id) {
        rows
    } else {
        rows.push(container)
    }
}

/// The entries table with the flag set on each row whose id is in `ids`.
pub open spec fn with_marks(rows: Seq<EntryRow>, ids: Seq<Seq<char>>) -> Seq<EntryRow> {
    Seq::new(
        rows.len(),
        |i: int|
            EntryRow {
                entry: rows[i].entry,
                ngrams_cached: rows[i].ngrams_cached || ids.contains(rows[i].entry.entry_id),
            },
    )
}

/// The ids of the containers whose parent is `parent`, in table order.
pub open spec fn children_of(rows: Seq<ContainerView>, parent: Seq<char>) -> Seq<Seq<char>>
    decreases rows.len(),
{
    if rows.len() == 0 {
        Seq::empty()
    } else if rows.last().container_parent_id == parent {
        children_of(rows.drop_last(), parent).push(rows.last().container_id)
    } else {
        children_of(rows.drop_last(), parent)
    }
}

/// How many entries were written in exactly this container.
pub open spec fn entries_in(rows: Seq<EntryRow>, container_id: Seq<char>) -> nat
    decreases rows.len(),
{
    if rows.len() == 0 {
        0
    } else {
        entries_in(rows.drop_last(), container_id) + if rows.last().entry.container_id
            == container_id {
            1nat
        } else {
            0nat
        }
    }
}

/// How many n-gram rows belong to exactly this container.
pub open spec fn ngram_rows_in(rows: Seq<NgramRow>, container_id: Seq<char>) -> nat
    decreases rows.len(),
{
    if rows.len() == 0 {
        0
    } else {
        ngram_rows_in(rows.drop_last(), container_id) + if rows.last().key.container_id
            == container_id {
            1nat
        } else {
            0nat
        }
    }
}

/// Whether row `i` is the first entry of the container: none of the
/// container's entries is older, and of those of the same age none stands
/// earlier in the table.
pub open spec fn is_first_in(rows: Seq<EntryRow>, container_id: Seq<char>, i: int) -> bool {
    &&& 0 <= i < rows.len()
    &&& rows[i].entry.container_id == container_id
    &&& forall|j: int|
        0 <= j < rows.len() && (#[trigger] rows[j]).entry.container_id == container_id ==> {
            ||| rows[i].entry.unix_timestamp < rows[j].entry.unix_timestamp
            ||| rows[i].entry.unix_timestamp == rows[j].entry.unix_timestamp && i <= j
        }
}

/// Whether row `i` is the last entry of the container: none of the
/// container's entries is newer, and of those of the same age none stands
/// earlier in the table.
pub open spec fn is_last_in(rows: Seq<EntryRow>, container_id: Seq<char>, i: int) -> bool {
    &&& 0 <= i < rows.len()
    &&& rows[i].entry.container_id == container_id
    &&& forall|j: int|
        0 <= j < rows.len() && (#[trigger] rows[j]).entry.container_id == container_id ==> {
            ||| rows[i].entry.unix_timestamp > rows[j].entry.unix_timestamp
            ||| rows[i].entry.unix_timestamp == rows[j].entry.unix_timestamp && i <= j
        }
}

/// How often `key` was counted: the sum of the counts of its rows. Under the
/// uniqueness constraint that is the count of its one row, or 0.
pub open spec fn count_of(rows: Seq<NgramRow>, key: NgramKey) -> int
    decreases rows.len(),
{
    if rows.len() == 0 {
        0
    } else {
        count_of(rows.drop_last(), key) + if rows.last().key == key {
            rows.last().count
        } else {
            0
        }
    }
}

/// How often `key` stands in `keys`.
pub open spec fn occurrences(keys: Seq<NgramKey>, key: NgramKey) -> int
    decreases keys.len(),
{
    if keys.len() == 0 {
        0
    } else {
        occurrences(keys.drop_last(), key) + if keys.last() == key {
            1int
        } else {
            0int
        }
    }
}

/// Whether a row with this key is stored.
pub open spec fn has_key(rows: Seq<NgramRow>, key: NgramKey) -> bool {
    exists|i: int| 0 <= i < rows.len() && (#[trigger] rows[i]).key == key
}

/// The n-grams table after one more occurrence of `key`: its row counts one
/// more, or a new row with count 1 is appended.
pub open spec fn counted(rows: Seq<NgramRow>, key: NgramKey) -> Seq<NgramRow> {
    if has_key(rows, key) {
        let i = choose|i: int| 0 <= i < rows.len() && (#[trigger] rows[i]).key == key;
        rows.update(i, NgramRow { key: key, count: rows[i].count + 1 })
    } else {
        rows.push(NgramRow { key: key, count: 1 })
    }
}

/// The n-grams table after the occurrences `keys` were counted in order.
pub open spec fn with_ngrams(rows: Seq<NgramRow>, keys: Seq<NgramKey>) -> Seq<NgramRow>
    decreases keys.len(),
{
    if keys.len() == 0 {
        rows
    } else {
        counted(with_ngrams(rows, keys.drop_last()), keys.last())
    }
}

/// The counts of the listed keys, as far as they were counted at all, in
/// the order of the list.
pub open spec fn rows_of_keys(rows: Seq<NgramRow>, keys: Seq<NgramKey>) -> Seq<NgramRow>
    decreases keys.len(),
{
    if keys.len() == 0 {
        Seq::empty()
    } else if count_of(rows, keys.last()) > 0 {
        rows_of_keys(rows, keys.drop_last()).push(
            NgramRow { key: keys.last(), count: count_of(rows, keys.last()) },
        )
    } else {
        rows_of_keys(rows, keys.drop_last())
    }
}

/// Whether every count still fits its row after `keys` are counted.
pub open spec fn counts_fit(rows: Seq<NgramRow>, keys: Seq<NgramKey>) -> bool {
    forall|key: NgramKey| count_of(rows, key) + occurrences(keys, key) <= u32::MAX
}

/// Whether no two rows share a key and each row counts between 1 and the
/// most that a row can hold.
pub open spec fn ngram_rows_wf(rows: Seq<NgramRow>) -> bool {
    &&& forall|i: int, j: int|
        0 <= i < j < rows.len() ==> (#[trigger] rows[i]).key != (#[trigger] rows[j]).key
    &&& forall|i: int| 0 <= i < rows.len() ==> 1 <= (#[trigger] rows[i]).count <= u32::MAX
}

/// Where no row has the key, nothing was counted for it.
pub proof fn lemma_count_of_absent(rows: Seq<NgramRow>, key: NgramKey)
    requires
        !has_key(rows, key),
    ensures
        count_of(rows, key) == 0,
    decreases rows.len(),
{
    if rows.len() > 0 {
        assert(rows[rows.len() - 1].key != key);
        assert forall|i: int| 0 <= i < rows.drop_last().len() implies (
        #[trigger] rows.drop_last()[i]).key != key by {
            assert(rows[i].key != key);
        }
        lemma_count_of_absent(rows.drop_last(), key);
    }
}

/// Under the uniqueness constraint a key's count is the count of its row.
pub proof fn lemma_count_of_row(rows: Seq<NgramRow>, i: int)
    requires
        ngram_rows_wf(rows),
        0 <= i < rows.len(),
    ensures
        count_of(rows, rows[i].key) == rows[i].count,
    decreases rows.len(),
{
    let key = rows[i].key;
    let init = rows.drop_last();
    if i == rows.len() - 1 {
        assert forall|j: int| 0 <= j < init.len() implies (#[trigger] init[j]).key != key by {
            assert(rows[j].key != rows[i].key);
        }
        lemma_count_of_absent(init, key);
    } else {
        assert(rows[i].key != rows[rows.len() - 1].key);
        assert(init[i] == rows[i]);
        assert(ngram_rows_wf(init)) by {
            assert forall|a: int, b: int| 0 <= a < b < init.len() implies (#[trigger] init[a]).key
                != (#[trigger] init[b]).key by {
                assert(rows[a].key != rows[b].key);
            }
            assert forall|a: int| 0 <= a < init.len() implies 1 <= (#[trigger] init[a]).count
                <= u32::MAX by {
                assert(1 <= rows[a].count <= u32::MAX);
            }
        }
        lemma_count_of_row(init, i);
    }
}

/// Under the uniqueness constraint no key's count exceeds what a row holds.
pub proof fn lemma_count_of_bounded(rows: Seq<NgramRow>, key: NgramKey)
    requires
        ngram_rows_wf(rows),
    ensures
        0 <= count_of(rows, key) <= u32::MAX,
{
    if has_key(rows, key) {
        let i = choose|i: int| 0 <= i < rows.len() && (#[trigger] rows[i]).key == key;
        lemma_count_of_row(rows, i);
    } else {
        lemma_count_of_absent(rows, key);
    }
}

/// A key that was not counted has no row.
pub proof fn lemma_uncounted_key_has_no_row(rows: Seq<NgramRow>, key: NgramKey)
    requires
        ngram_rows_wf(rows),
        count_of(rows, key) == 0,
    ensures
        !has_key(rows, key),
{
    if has_key(rows, key) {
        let i = choose|i: int| 0 <= i < rows.len() && (#[trigger] rows[i]).key == key;
        lemma_count_of_row(rows, i);
    }
}

/// Replacing the count of one row changes the count of its key by the
/// difference and no other count.
pub proof fn lemma_count_of_update(rows: Seq<NgramRow>, i: int, count: int, key: NgramKey)
    requires
        0 <= i < rows.len(),
    ensures
        count_of(rows.update(i, NgramRow { key: rows[i].key, count: count }), key) == count_of(
            rows,
            key,
        ) + if rows[i].key == key {
            count - rows[i].count
        } else {
            0
        },
    decreases rows.len(),
{
    let changed = rows.update(i, NgramRow { key: rows[i].key, count: count });
    if i == rows.len() - 1 {
        assert(changed.drop_last() =~= rows.drop_last());
    } else {
        assert(changed.drop_last() =~= rows.drop_last().update(
            i,
            NgramRow { key: rows[i].key, count: count },
        ));
        assert(rows.drop_last()[i] == rows[i]);
        lemma_count_of_update(rows.drop_last(), i, count, key);
    }
}

/// Counting one occurrence keeps the constraints, unless the row is full.
pub proof fn lemma_counted_wf(rows: Seq<NgramRow>, key: NgramKey)
    requires
        ngram_rows_wf(rows),
        count_of(rows, key) < u32::MAX,
    ensures
        ngram_rows_wf(counted(rows, key)),
{
    let after = counted(rows, key);
    if has_key(rows, key) {
        let i = choose|i: int| 0 <= i < rows.len() && (#[trigger] rows[i]).key == key;
        lemma_count_of_row(rows, i);
        assert forall|a: int, b: int| 0 <= a < b < after.len() implies (#[trigger] after[a]).key != (
        #[trigger] after[b]).key by {
            assert(after[a].key == rows[a].key);
            assert(after[b].key == rows[b].key);
        }
        assert forall|a: int| 0 <= a < after.len() implies 1 <= (#[trigger] after[a]).count
            <= u32::MAX by {
            assert(1 <= rows[a].count <= u32::MAX);
        }
    } else {
        assert forall|a: int, b: int| 0 <= a < b < after.len() implies (#[trigger] after[a]).key != (
        #[trigger] after[b]).key by {
            assert(after[a] == rows[a]);
            if b < rows.len() {
                assert(after[b] == rows[b]);
            }
        }
        assert forall|a: int| 0 <= a < after.len() implies 1 <= (#[trigger] after[a]).count
            <= u32::MAX by {
            if a < rows.len() {
                assert(after[a] == rows[a]);
            }
        }
    }
}

/// Counting one occurrence of `counted_key` raises its count by one and
/// leaves every other count as it was.
pub proof fn lemma_counted_counts(rows: Seq<NgramRow>, counted_key: NgramKey, key: NgramKey)
    ensures
        count_of(counted(rows, counted_key), key) == count_of(rows, key) + if counted_key == key {
            1int
        } else {
            0int
        },
{
    if has_key(rows, counted_key) {
        let i = choose|i: int| 0 <= i < rows.len() && (#[trigger] rows[i]).key == counted_key;
        lemma_count_of_update(rows, i, rows[i].count + 1, key);
    } else {
        assert(counted(rows, counted_key).drop_last() =~= rows);
    }
}

/// The counts after a list of occurrences was counted: each key's count has
/// grown by how often the key stands in the list.
pub proof fn lemma_with_ngrams_counts(rows: Seq<NgramRow>, keys: Seq<NgramKey>, key: NgramKey)
    ensures
        count_of(with_ngrams(rows, keys), key) == count_of(rows, key) + occurrences(keys, key),
    decreases keys.len(),
{
    if keys.len() > 0 {
        lemma_with_ngrams_counts(rows, keys.drop_last(), key);
        lemma_counted_counts(with_ngrams(rows, keys.drop_last()), keys.last(), key);
    }
}

/// A key stands in two lists put together as often as in both.
pub proof fn lemma_occurrences_concat(a: Seq<NgramKey>, b: Seq<NgramKey>, key: NgramKey)
    ensures
        occurrences(a + b, key) == occurrences(a, key) + occurrences(b, key),
    decreases b.len(),
{
    if b.len() == 0 {
        assert(a + b =~= a);
    } else {
        lemma_occurrences_concat(a, b.drop_last(), key);
        assert((a + b).drop_last() =~= a + b.drop_last());
        assert((a + b).last() == b.last());
    }
}

/// A key stands in a list at least as often as in any of its beginnings.
pub proof fn lemma_occurrences_grow(keys: Seq<NgramKey>, k: int, key: NgramKey)
    requires
        0 <= k <= keys.len(),
    ensures
        0 <= occurrences(keys.take(k), key) <= occurrences(keys, key),
    decreases keys.len() - k,
{
    if k == keys.len() {
        assert(keys.take(k) =~= keys);
        lemma_occurrences_nonnegative(keys, key);
    } else {
        lemma_occurrences_grow(keys, k + 1, key);
        assert(keys.take(k + 1).drop_last() =~= keys.take(k));
        lemma_occurrences_nonnegative(keys.take(k), key);
    }
}

/// No key stands in a list fewer than zero times.
pub proof fn lemma_occurrences_nonnegative(keys: Seq<NgramKey>, key: NgramKey)
    ensures
        occurrences(keys, key) >= 0,
    decreases keys.len(),
{
    if keys.len() > 0 {
        lemma_occurrences_nonnegative(keys.drop_last(), key);
    }
}

/// Where no entry was written in a container, none of the rows is in it.
pub proof fn lemma_entries_in_none(rows: Seq<EntryRow>, container_id: Seq<char>)
    requires
        entries_in(rows, container_id) == 0,
    ensures
        forall|j: int| 0 <= j < rows.len() ==> (#[trigger] rows[j]).entry.container_id != container_id,
    decreases rows.len(),
{
    if rows.len() > 0 {
        lemma_entries_in_none(rows.drop_last(), container_id);
        assert forall|j: int| 0 <= j < rows.len() implies (#[trigger] rows[j]).entry.container_id
            != container_id by {
            if j < rows.len() - 1 {
                assert(rows.drop_last()[j] == rows[j]);
            }
        }
    }
}

} // verus!
