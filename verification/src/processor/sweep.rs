//! What the sweep over the uncounted entries keeps: for each key, the sum of
//! what is counted and what is still owed.

use crate::processor::entry::{ngrams_of, ngrams_of_all, EntryView};
use crate::processor::ngram::NgramKey;
use crate::store::queries::{ages_at, awaits_counting, entries_at, is_page, waiting_rows};
use crate::store::select::{
    as_places, is_selection, lemma_places, lemma_selection_of_all, stands_before,
};
use crate::store::tables::{
    count_of, ids_of, lemma_occurrences_concat, occurrences, with_marks, EntryRow, Tables,
};
use vstd::prelude::*;

verus! {

/// The sum of a weight over the entries whose n-grams are not counted yet.
pub open spec fn pending_sum(rows: Seq<EntryRow>, weight: spec_fn(EntryView) -> int) -> int
    decreases rows.len(),
{
    if rows.len() == 0 {
        0
    } else {
        pending_sum(rows.drop_last(), weight) + if rows.last().ngrams_cached {
            0
        } else {
            weight(rows.last().entry)
        }
    }
}

/// How often `key` stands among the n-grams of an entry.
pub open spec fn key_weight(key: NgramKey) -> spec_fn(EntryView) -> int {
    |entry: EntryView| occurrences(ngrams_of(entry), key)
}

/// The weight that counts entries.
pub open spec fn unit_weight() -> spec_fn(EntryView) -> int {
    |entry: EntryView| 1int
}

/// How often `key` stands among the n-grams of the entries that are not
/// counted yet: what is still owed to the key's count.
pub open spec fn pending_count(rows: Seq<EntryRow>, key: NgramKey) -> int {
    pending_sum(rows, key_weight(key))
}

/// How many entries are not counted yet.
pub open spec fn waiting_count(rows: Seq<EntryRow>) -> int {
    pending_sum(rows, unit_weight())
}

/// The sum of a weight over a list of entries.
pub open spec fn weights_of(entries: Seq<EntryView>, weight: spec_fn(EntryView) -> int) -> int
    decreases entries.len(),
{
    if entries.len() == 0 {
        0
    } else {
        weights_of(entries.drop_last(), weight) + weight(entries.last())
    }
}

/// The entries of the rows at the given places.
pub open spec fn entries_of(rows: Seq<EntryRow>, at: Seq<int>) -> Seq<EntryView> {
    Seq::new(at.len(), |k: int| rows[at[k]].entry)
}

/// The table with the flag set on the rows at the given places.
pub open spec fn flipped(rows: Seq<EntryRow>, at: Seq<int>) -> Seq<EntryRow> {
    Seq::new(
        rows.len(),
        |i: int|
            EntryRow { entry: rows[i].entry, ngrams_cached: rows[i].ngrams_cached || at.contains(i) },
    )
}

/// Whether `now` holds the entries of `before` in the same places, with
/// every flag that was set still set.
pub open spec fn flags_raised(before: Seq<EntryRow>, now: Seq<EntryRow>) -> bool {
    &&& now.len() == before.len()
    &&& forall|i: int|
        0 <= i < now.len() ==> (#[trigger] now[i]).entry == before[i].entry && (
        before[i].ngrams_cached ==> now[i].ngrams_cached)
}

/// Whether no two rows share an entry id.
pub open spec fn ids_unique(rows: Seq<EntryRow>) -> bool {
    forall|i: int, j: int|
        0 <= i < j < rows.len() ==> (#[trigger] rows[i]).entry.entry_id != (
        #[trigger] rows[j]).entry.entry_id
}

/// Whether every entry is counted.
pub open spec fn all_counted(rows: Seq<EntryRow>) -> bool {
    forall|i: int| 0 <= i < rows.len() ==> (#[trigger] rows[i]).ngrams_cached
}

/// Setting the flag of one uncounted row takes its weight from the sum.
pub proof fn lemma_single_flip(rows: Seq<EntryRow>, i: int, weight: spec_fn(EntryView) -> int)
    requires
        0 <= i < rows.len(),
        !rows[i].ngrams_cached,
    ensures
        pending_sum(rows.update(i, EntryRow { entry: rows[i].entry, ngrams_cached: true }), weight)
            == pending_sum(rows, weight) - weight(rows[i].entry),
    decreases rows.len(),
{
    let set = EntryRow { entry: rows[i].entry, ngrams_cached: true };
    let changed = rows.update(i, set);
    if i == rows.len() - 1 {
        assert(changed.drop_last() =~= rows.drop_last());
    } else {
        assert(changed.drop_last() =~= rows.drop_last().update(i, set));
        assert(rows.drop_last()[i] == rows[i]);
        lemma_single_flip(rows.drop_last(), i, weight);
    }
}

/// Setting the flags of some uncounted rows takes their weights from the
/// sum.
pub proof fn lemma_flipped_sum(rows: Seq<EntryRow>, at: Seq<int>, weight: spec_fn(EntryView) -> int)
    requires
        forall|k: int| 0 <= k < at.len() ==> 0 <= (#[trigger] at[k]) < rows.len(),
        forall|k: int| 0 <= k < at.len() ==> !rows[#[trigger] at[k]].ngrams_cached,
        forall|k: int, l: int| 0 <= k < l < at.len() ==> (#[trigger] at[k]) != (#[trigger] at[l]),
    ensures
        pending_sum(flipped(rows, at), weight) == pending_sum(rows, weight) - weights_of(
            entries_of(rows, at),
            weight,
        ),
    decreases at.len(),
{
    if at.len() == 0 {
        assert(flipped(rows, at) =~= rows);
    } else {
        let fewer = at.drop_last();
        let last = at.last();
        lemma_flipped_sum(rows, fewer, weight);
        let before = flipped(rows, fewer);
        assert(!fewer.contains(last)) by {
            if fewer.contains(last) {
                let k = choose|k: int| 0 <= k < fewer.len() && fewer[k] == last;
                assert(at[k] != at[at.len() - 1]);
            }
        }
        assert(!before[last].ngrams_cached);
        lemma_single_flip(before, last, weight);
        assert(flipped(rows, at) =~= before.update(
            last,
            EntryRow { entry: before[last].entry, ngrams_cached: true },
        )) by {
            assert forall|i: int| 0 <= i < rows.len() implies flipped(rows, at)[i]
                == before.update(
                last,
                EntryRow { entry: before[last].entry, ngrams_cached: true },
            )[i] by {
                if at.contains(i) {
                    let k = choose|k: int| 0 <= k < at.len() && at[k] == i;
                    if k < fewer.len() {
                        assert(fewer[k] == i);
                    }
                }
                if fewer.contains(i) {
                    let k = choose|k: int| 0 <= k < fewer.len() && fewer[k] == i;
                    assert(at[k] == i);
                }
                if i == last {
                    assert(at[at.len() - 1] == i);
                }
            }
        }
        assert(entries_of(rows, at).drop_last() =~= entries_of(rows, fewer));
    }
}

/// Where no two rows share an id, marking the ids of some rows sets the
/// flags of just those rows.
pub proof fn lemma_marks_flip(rows: Seq<EntryRow>, at: Seq<int>)
    requires
        ids_unique(rows),
        forall|k: int| 0 <= k < at.len() ==> 0 <= (#[trigger] at[k]) < rows.len(),
    ensures
        with_marks(rows, ids_of(entries_of(rows, at))) == flipped(rows, at),
{
    let ids = ids_of(entries_of(rows, at));
    assert forall|i: int| 0 <= i < rows.len() implies with_marks(rows, ids)[i] == flipped(
        rows,
        at,
    )[i] by {
        if ids.contains(rows[i].entry.entry_id) {
            let k = choose|k: int| 0 <= k < ids.len() && ids[k] == rows[i].entry.entry_id;
            assert(ids[k] == rows[at[k]].entry.entry_id);
            if at[k] < i {
                assert(rows[at[k]].entry.entry_id != rows[i].entry.entry_id);
            } else if i < at[k] {
                assert(rows[i].entry.entry_id != rows[at[k]].entry.entry_id);
            }
            assert(at[k] == i);
        }
        if at.contains(i) {
            let k = choose|k: int| 0 <= k < at.len() && at[k] == i;
            assert(ids[k] == rows[i].entry.entry_id);
        }
    }
    assert(with_marks(rows, ids) =~= flipped(rows, at));
}

/// A key stands among the n-grams of a list of entries as often as among
/// those of each entry, summed.
pub proof fn lemma_page_weight(page: Seq<EntryView>, key: NgramKey)
    ensures
        occurrences(ngrams_of_all(page), key) == weights_of(page, key_weight(key)),
    decreases page.len(),
{
    if page.len() > 0 {
        lemma_page_weight(page.drop_last(), key);
        lemma_occurrences_concat(ngrams_of_all(page.drop_last()), ngrams_of(page.last()), key);
    }
}

/// No number of uncounted entries is below zero.
pub proof fn lemma_waiting_nonnegative(rows: Seq<EntryRow>)
    ensures
        waiting_count(rows) >= 0,
    decreases rows.len(),
{
    if rows.len() > 0 {
        lemma_waiting_nonnegative(rows.drop_last());
    }
}

/// The unit weight of a list of entries is its length.
pub proof fn lemma_unit_weights(page: Seq<EntryView>)
    ensures
        weights_of(page, unit_weight()) == page.len(),
    decreases page.len(),
{
    if page.len() > 0 {
        lemma_unit_weights(page.drop_last());
    }
}

/// No key stands in a list of n-grams fewer than zero times, so no sum of
/// key weights is below zero.
pub proof fn lemma_pending_nonnegative(rows: Seq<EntryRow>, key: NgramKey)
    ensures
        pending_count(rows, key) >= 0,
    decreases rows.len(),
{
    if rows.len() > 0 {
        lemma_pending_nonnegative(rows.drop_last(), key);
        crate::store::tables::lemma_occurrences_nonnegative(ngrams_of(rows.last().entry), key);
    }
}

/// Where every entry is counted, nothing is owed to any key.
pub proof fn lemma_nothing_pending(rows: Seq<EntryRow>, key: NgramKey)
    requires
        all_counted(rows),
    ensures
        pending_count(rows, key) == 0,
    decreases rows.len(),
{
    if rows.len() > 0 {
        assert(rows[rows.len() - 1].ngrams_cached);
        assert forall|i: int| 0 <= i < rows.drop_last().len() implies (
        #[trigger] rows.drop_last()[i]).ngrams_cached by {
            assert(rows[i].ngrams_cached);
        }
        lemma_nothing_pending(rows.drop_last(), key);
    }
}

/// The entries of a table, in the order of its rows.
pub open spec fn entries_in_rows(rows: Seq<EntryRow>) -> Seq<EntryView> {
    Seq::new(rows.len(), |i: int| rows[i].entry)
}

/// Where no entry is counted yet, what is owed to a key is how often the key
/// stands among the n-grams of all entries, extracted in one pass.
pub proof fn lemma_pending_is_one_pass(rows: Seq<EntryRow>, key: NgramKey)
    requires
        forall|i: int| 0 <= i < rows.len() ==> !(#[trigger] rows[i]).ngrams_cached,
    ensures
        pending_count(rows, key) == occurrences(ngrams_of_all(entries_in_rows(rows)), key),
    decreases rows.len(),
{
    if rows.len() > 0 {
        let init = rows.drop_last();
        assert forall|i: int| 0 <= i < init.len() implies !(#[trigger] init[i]).ngrams_cached by {
            assert(!rows[i].ngrams_cached);
        }
        lemma_pending_is_one_pass(init, key);
        assert(!rows[rows.len() - 1].ngrams_cached);
        assert(entries_in_rows(rows).drop_last() =~= entries_in_rows(init));
        assert(entries_in_rows(rows).last() == rows.last().entry);
        lemma_occurrences_concat(
            ngrams_of_all(entries_in_rows(init)),
            ngrams_of(rows.last().entry),
            key,
        );
    }
}

/// The rows that a page was read from: their places, in the order of the
/// page. Each waits below the cursor, none stands twice, and every row that
/// waits below the cursor and is not among them is no newer than any of
/// them. A page is empty only where the limit is 0 or no row waits.
pub proof fn lemma_page_rows(
    rows: Seq<EntryRow>,
    start: Option<Seq<char>>,
    limit: int,
    page: Seq<EntryView>,
) -> (at: Seq<int>)
    requires
        is_page(rows, start, limit, page),
    ensures
        at.len() == page.len(),
        page == entries_of(rows, at),
        forall|k: int|
            0 <= k < at.len() ==> 0 <= (#[trigger] at[k]) < rows.len() && awaits_counting(
                rows,
                start,
            )(rows[at[k]]),
        forall|k: int, l: int| 0 <= k < l < at.len() ==> (#[trigger] at[k]) != (#[trigger] at[l]),
        forall|i: int, k: int|
            0 <= i < rows.len() && awaits_counting(rows, start)(#[trigger] rows[i]) && !at.contains(
                i,
            ) && 0 <= k < at.len() ==> rows[#[trigger] at[k]].entry.unix_timestamp
                >= rows[i].entry.unix_timestamp,
        forall|i: int|
            0 <= i < rows.len() && awaits_counting(rows, start)(#[trigger] rows[i]) && limit > 0
                ==> page.len() > 0,
        forall|i: int|
            0 <= i < rows.len() && awaits_counting(rows, start)(#[trigger] rows[i]) && limit
                >= waiting_rows(rows, start).len() ==> at.contains(i),
{
    let keep = awaits_counting(rows, start);
    let waiting = waiting_rows(rows, start);
    let ages = ages_at(rows, waiting);
    let picked = choose|picked: Seq<usize>|
        #[trigger] is_selection(ages, limit, true, picked) && page == entries_at(
            rows,
            waiting,
            picked,
        );
    lemma_places(rows, keep);
    let at = Seq::new(picked.len(), |k: int| waiting[picked[k] as int]);
    assert(page =~= entries_of(rows, at));
    assert forall|k: int, l: int| 0 <= k < l < at.len() implies (#[trigger] at[k]) != (
    #[trigger] at[l]) by {
        assert(stands_before(ages, true, picked[k] as int, picked[l] as int));
        let a = picked[k] as int;
        let b = picked[l] as int;
        assert(a != b);
        if a < b {
            assert(waiting[a] < waiting[b]);
        } else {
            assert(waiting[b] < waiting[a]);
        }
    }
    assert forall|i: int, k: int|
        0 <= i < rows.len() && awaits_counting(rows, start)(#[trigger] rows[i]) && !at.contains(i)
            && 0 <= k < at.len() implies rows[#[trigger] at[k]].entry.unix_timestamp
        >= rows[i].entry.unix_timestamp by {
        assert(waiting.contains(i));
        let m = choose|m: int| 0 <= m < waiting.len() && waiting[m] == i;
        assert(!as_places(picked).contains(m)) by {
            if as_places(picked).contains(m) {
                let p = choose|p: int| 0 <= p < picked.len() && as_places(picked)[p] == m;
                assert(at[p] == i);
            }
        }
        assert(stands_before(ages, true, picked[k] as int, m));
    }
    assert forall|i: int|
        0 <= i < rows.len() && awaits_counting(rows, start)(#[trigger] rows[i]) && limit
            > 0 implies page.len() > 0 by {
        assert(waiting.contains(i));
    }
    assert forall|i: int|
        0 <= i < rows.len() && awaits_counting(rows, start)(#[trigger] rows[i]) && limit
            >= waiting.len() implies at.contains(i) by {
        assert(waiting.contains(i));
        let m = choose|m: int| 0 <= m < waiting.len() && waiting[m] == i;
        lemma_selection_of_all(ages, limit, true, picked);
        assert(as_places(picked).contains(m));
        let p = choose|p: int| 0 <= p < picked.len() && as_places(picked)[p] == m;
        assert(at[p] == i);
    }
    at
}

/// Whether every count still fits its row once all that is owed to it is
/// counted.
pub open spec fn pending_fits(tables: Tables) -> bool {
    forall|key: NgramKey|
        count_of(tables.ngrams, key) + pending_count(tables.entries, key) <= u32::MAX
}

/// Whether each key's count and what is still owed to it add up to the same
/// in both states: whatever was counted in between was owed, and is owed no
/// longer.
pub open spec fn conserved(before: Tables, now: Tables) -> bool {
    forall|key: NgramKey|
        count_of(now.ngrams, key) + pending_count(now.entries, key) == count_of(
            before.ngrams,
            key,
        ) + pending_count(before.entries, key)
}

/// Whether nothing that was counted or is owed was lost between two states:
/// no key's count and what is still owed to it add up to less than before.
/// So no entry had its flag set without its n-grams being counted.
pub open spec fn nothing_lost(before: Tables, now: Tables) -> bool {
    forall|key: NgramKey|
        count_of(now.ngrams, key) + pending_count(now.entries, key) >= count_of(
            before.ngrams,
            key,
        ) + pending_count(before.entries, key)
}

/// Whether the sweep cannot go on: a key's row is full, and an entry that
/// is not counted yet holds the key.
pub open spec fn is_stuck(tables: Tables) -> bool {
    exists|key: NgramKey|
        count_of(tables.ngrams, key) == u32::MAX && #[trigger] pending_count(tables.entries, key)
            > 0
}

/// Whether each key's count has grown by all that was owed to it.
pub open spec fn all_paid(before: Tables, now: Tables) -> bool {
    forall|key: NgramKey|
        count_of(now.ngrams, key) == count_of(before.ngrams, key) + pending_count(
            before.entries,
            key,
        )
}

} // verus!
