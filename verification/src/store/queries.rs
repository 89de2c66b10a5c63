//! What the reading statements give: the page of the sweep, the time
//! series of an n-gram and the ranking of the n-grams.

use crate::processor::entry::EntryView;
use crate::processor::ngram::{RankedNgram, SeriesPoint};
use crate::store::filters::{ByContentFilterView, ByCountFilterView, Order};
use crate::store::select::{is_selection, lemma_places, places, stands_before};
use crate::store::tables::{ngram_rows_wf, EntryRow, NgramRow};
use vstd::prelude::*;

verus! {

/// Which rows wait to be counted below the cursor: those whose flag is not
/// set and, where a cursor is given, that are older than the entry that the
/// cursor names. A cursor that names no stored entry lets no row through.
pub open spec fn awaits_counting(rows: Seq<EntryRow>, start: Option<Seq<char>>) -> spec_fn(
    EntryRow,
) -> bool {
    |row: EntryRow|
        !row.ngrams_cached && match start {
            None => true,
            Some(id) => exists|c: int|
                0 <= c < rows.len() && (#[trigger] rows[c]).entry.entry_id == id
                    && row.entry.unix_timestamp < rows[c].entry.unix_timestamp,
        }
}

/// The places of the rows that wait to be counted below the cursor.
pub open spec fn waiting_rows(rows: Seq<EntryRow>, start: Option<Seq<char>>) -> Seq<int> {
    places(rows, awaits_counting(rows, start))
}

/// The timestamps of the rows at the given places.
pub open spec fn ages_at(rows: Seq<EntryRow>, at: Seq<int>) -> Seq<int> {
    Seq::new(at.len(), |k: int| rows[at[k]].entry.unix_timestamp)
}

/// The entries of the rows at the picked ones of the given places.
pub open spec fn entries_at(rows: Seq<EntryRow>, at: Seq<int>, picked: Seq<usize>) -> Seq<
    EntryView,
> {
    Seq::new(picked.len(), |k: int| rows[at[picked[k] as int]].entry)
}

/// Whether `page` holds the `limit` newest of the rows that wait to be
/// counted below the cursor, newest first, and of those of the same age the
/// one that stands earlier in the table first.
pub open spec fn is_page(
    rows: Seq<EntryRow>,
    start: Option<Seq<char>>,
    limit: int,
    page: Seq<EntryView>,
) -> bool {
    exists|picked: Seq<usize>|
        {
            &&& #[trigger] is_selection(
                ages_at(rows, waiting_rows(rows, start)),
                limit,
                true,
                picked,
            )
            &&& page == entries_at(rows, waiting_rows(rows, start), picked)
        }
}

/// Whether a container is within a scope: an empty scope holds every
/// container, any other the containers that it lists.
pub open spec fn in_scope(container_ids: Seq<Seq<char>>, container_id: Seq<char>) -> bool {
    container_ids.len() == 0 || container_ids.contains(container_id)
}

/// Whether a sender is the one asked for, where one is asked for.
pub open spec fn is_sender(wanted: Option<Seq<char>>, sender_id: Seq<char>) -> bool {
    match wanted {
        None => true,
        Some(id) => id == sender_id,
    }
}

/// Which rows a time series reads: those of the n-gram, within the scope
/// and of the sender.
pub open spec fn in_series(filter: ByContentFilterView) -> spec_fn(NgramRow) -> bool {
    |row: NgramRow|
        row.key.content == filter.content && in_scope(filter.container_ids, row.key.container_id)
            && is_sender(filter.sender_id, row.key.sender_id)
}

/// The places of the rows that a time series reads.
pub open spec fn series_rows(rows: Seq<NgramRow>, filter: ByContentFilterView) -> Seq<int> {
    places(rows, in_series(filter))
}

/// The buckets of the rows at the given places.
pub open spec fn times_at(rows: Seq<NgramRow>, at: Seq<int>) -> Seq<int> {
    Seq::new(at.len(), |k: int| rows[at[k]].key.time)
}

/// The points that the rows at the picked ones of the given places make.
pub open spec fn points_at(rows: Seq<NgramRow>, at: Seq<int>, picked: Seq<usize>) -> Seq<
    SeriesPoint,
> {
    Seq::new(
        picked.len(),
        |k: int|
            SeriesPoint {
                count: rows[at[picked[k] as int]].count,
                time: rows[at[picked[k] as int]].key.time,
            },
    )
}

/// Whether `series` holds one point for each row that the filter lets
/// through, by ascending bucket, and of those of the same bucket the one
/// that stands earlier in the table first.
pub open spec fn is_series(
    rows: Seq<NgramRow>,
    filter: ByContentFilterView,
    series: Seq<SeriesPoint>,
) -> bool {
    exists|picked: Seq<usize>|
        {
            &&& #[trigger] is_selection(
                times_at(rows, series_rows(rows, filter)),
                series_rows(rows, filter).len() as int,
                false,
                picked,
            )
            &&& series == points_at(rows, series_rows(rows, filter), picked)
        }
}

/// Whether a ranking counts a row: within the scope, of the sender and of
/// the length.
pub open spec fn is_ranked(filter: ByCountFilterView, row: NgramRow) -> bool {
    &&& in_scope(filter.container_ids, row.key.container_id)
    &&& is_sender(filter.sender_id, row.key.sender_id)
    &&& match filter.length {
        None => true,
        Some(length) => row.key.length == length,
    }
}

/// The texts of the rows that a ranking counts, each once, in the order in
/// which they first stand in the table.
pub open spec fn ranked_contents(rows: Seq<NgramRow>, filter: ByCountFilterView) -> Seq<Seq<char>>
    decreases rows.len(),
{
    if rows.len() == 0 {
        Seq::empty()
    } else {
        let before = ranked_contents(rows.drop_last(), filter);
        if is_ranked(filter, rows.last()) && !before.contains(rows.last().key.content) {
            before.push(rows.last().key.content)
        } else {
            before
        }
    }
}

/// The sum of the counts of the rows with this text that a ranking counts.
pub open spec fn total_of(rows: Seq<NgramRow>, filter: ByCountFilterView, content: Seq<char>) -> int
    decreases rows.len(),
{
    if rows.len() == 0 {
        0
    } else {
        total_of(rows.drop_last(), filter, content) + if is_ranked(filter, rows.last())
            && rows.last().key.content == content {
            rows.last().count
        } else {
            0
        }
    }
}

/// The totals of a list of texts.
pub open spec fn totals_of(
    rows: Seq<NgramRow>,
    filter: ByCountFilterView,
    contents: Seq<Seq<char>>,
) -> Seq<int> {
    Seq::new(contents.len(), |g: int| total_of(rows, filter, contents[g]))
}

/// The lines that the picked ones of the texts make.
pub open spec fn lines_at(
    rows: Seq<NgramRow>,
    filter: ByCountFilterView,
    contents: Seq<Seq<char>>,
    picked: Seq<usize>,
) -> Seq<RankedNgram> {
    Seq::new(
        picked.len(),
        |k: int|
            RankedNgram {
                content: contents[picked[k] as int],
                count: total_of(rows, filter, contents[picked[k] as int]),
            },
    )
}

/// Whether `ranking` holds the `limit` foremost texts by total, in the
/// filter's direction, each with its total, and of those of the same total
/// the one that stands earlier in the table first.
pub open spec fn is_ranking(
    rows: Seq<NgramRow>,
    filter: ByCountFilterView,
    ranking: Seq<RankedNgram>,
) -> bool {
    exists|picked: Seq<usize>|
        {
            &&& #[trigger] is_selection(
                totals_of(rows, filter, ranked_contents(rows, filter)),
                filter.limit,
                descends(filter.order),
                picked,
            )
            &&& ranking == lines_at(rows, filter, ranked_contents(rows, filter), picked)
        }
}

/// Whether the order puts the greatest first.
pub open spec fn descends(order: Order) -> bool {
    order == Order::Descending
}

/// Whether the total of every text fits a line of a ranking.
pub open spec fn totals_fit(rows: Seq<NgramRow>, filter: ByCountFilterView) -> bool {
    forall|content: Seq<char>| total_of(rows, filter, content) <= u32::MAX
}

/// No text stands twice among the texts that a ranking counts, and each of
/// them is the text of a row.
pub proof fn lemma_ranked_contents_differ(rows: Seq<NgramRow>, filter: ByCountFilterView)
    ensures
        forall|g: int, h: int|
            0 <= g < h < ranked_contents(rows, filter).len() ==> (#[trigger] ranked_contents(
                rows,
                filter,
            )[g]) != (#[trigger] ranked_contents(rows, filter)[h]),
    decreases rows.len(),
{
    if rows.len() > 0 {
        lemma_ranked_contents_differ(rows.drop_last(), filter);
        let before = ranked_contents(rows.drop_last(), filter);
        let now = ranked_contents(rows, filter);
        assert forall|g: int, h: int| 0 <= g < h < now.len() implies (#[trigger] now[g]) != (
        #[trigger] now[h]) by {
            assert(now[g] == before[g]);
            if h < before.len() {
                assert(now[h] == before[h]);
            } else {
                assert(!before.contains(rows.last().key.content));
                assert(before.contains(before[g]));
            }
        }
    }
}

/// A ranking has at most `limit` lines, each names another text and gives
/// the total of its text, and the lines are ordered by their totals in the
/// filter's direction.
pub proof fn lemma_ranking_is_ordered(
    rows: Seq<NgramRow>,
    filter: ByCountFilterView,
    ranking: Seq<RankedNgram>,
)
    requires
        is_ranking(rows, filter, ranking),
    ensures
        ranking.len() <= ranked_contents(rows, filter).len(),
        filter.limit >= 0 ==> ranking.len() <= filter.limit,
        forall|i: int|
            0 <= i < ranking.len() ==> (#[trigger] ranking[i]).count == total_of(
                rows,
                filter,
                ranking[i].content,
            ),
        forall|i: int, j: int|
            0 <= i < j < ranking.len() ==> (#[trigger] ranking[i]).content != (
            #[trigger] ranking[j]).content && if descends(filter.order) {
                ranking[i].count >= ranking[j].count
            } else {
                ranking[i].count <= ranking[j].count
            },
{
    let contents = ranked_contents(rows, filter);
    let totals = totals_of(rows, filter, contents);
    let picked = choose|picked: Seq<usize>|
        #[trigger] is_selection(totals, filter.limit, descends(filter.order), picked) && ranking
            == lines_at(rows, filter, contents, picked);
    lemma_ranked_contents_differ(rows, filter);
    assert forall|i: int, j: int| 0 <= i < j < ranking.len() implies (#[trigger] ranking[i]).content
        != (#[trigger] ranking[j]).content && if descends(filter.order) {
        ranking[i].count >= ranking[j].count
    } else {
        ranking[i].count <= ranking[j].count
    } by {
        let g = picked[i] as int;
        let h = picked[j] as int;
        assert(stands_before(totals, descends(filter.order), g, h));
        assert(g != h);
        if g < h {
            assert(contents[g] != contents[h]);
        } else {
            assert(contents[h] != contents[g]);
        }
    }
}

/// A time series has one point for each row that its filter lets through,
/// by ascending bucket.
pub proof fn lemma_series_is_ordered(
    rows: Seq<NgramRow>,
    filter: ByContentFilterView,
    series: Seq<SeriesPoint>,
)
    requires
        is_series(rows, filter, series),
    ensures
        series.len() == series_rows(rows, filter).len(),
        forall|i: int, j: int|
            0 <= i < j < series.len() ==> (#[trigger] series[i]).time <= (#[trigger] series[j]).time,
{
    let read = series_rows(rows, filter);
    let times = times_at(rows, read);
    let picked = choose|picked: Seq<usize>|
        #[trigger] is_selection(times, read.len() as int, false, picked) && series == points_at(
            rows,
            read,
            picked,
        );
    assert forall|i: int, j: int| 0 <= i < j < series.len() implies (#[trigger] series[i]).time <= (
    #[trigger] series[j]).time by {
        assert(stands_before(times, false, picked[i] as int, picked[j] as int));
    }
}

/// Whether an entry is that of a row that waits to be counted below the
/// cursor.
pub open spec fn is_waiting(rows: Seq<EntryRow>, start: Option<Seq<char>>, entry: EntryView) -> bool {
    exists|i: int|
        0 <= i < rows.len() && awaits_counting(rows, start)(#[trigger] rows[i]) && rows[i].entry
            == entry
}

/// A page has at most `limit` entries, all of them wait to be counted below
/// the cursor, and the newest comes first.
pub proof fn lemma_page_is_ordered(
    rows: Seq<EntryRow>,
    start: Option<Seq<char>>,
    limit: int,
    page: Seq<EntryView>,
)
    requires
        is_page(rows, start, limit, page),
    ensures
        page.len() <= waiting_rows(rows, start).len(),
        limit >= 0 ==> page.len() <= limit,
        forall|k: int| 0 <= k < page.len() ==> is_waiting(rows, start, #[trigger] page[k]),
        forall|k: int, l: int|
            0 <= k < l < page.len() ==> (#[trigger] page[k]).unix_timestamp >= (
            #[trigger] page[l]).unix_timestamp,
{
    let waiting = waiting_rows(rows, start);
    let ages = ages_at(rows, waiting);
    let picked = choose|picked: Seq<usize>|
        #[trigger] is_selection(ages, limit, true, picked) && page == entries_at(
            rows,
            waiting,
            picked,
        );
    lemma_places(rows, awaits_counting(rows, start));
    assert forall|k: int| 0 <= k < page.len() implies is_waiting(
        rows,
        start,
        #[trigger] page[k],
    ) by {
        let i = waiting[picked[k] as int];
        assert(awaits_counting(rows, start)(rows[i]));
        assert(rows[i].entry == page[k]);
    }
    assert forall|k: int, l: int| 0 <= k < l < page.len() implies (#[trigger] page[k]).unix_timestamp
        >= (#[trigger] page[l]).unix_timestamp by {
        assert(stands_before(ages, true, picked[k] as int, picked[l] as int));
    }
}

/// One more item extends the places by its own place, if it is kept.
pub proof fn lemma_places_step<T>(items: Seq<T>, keep: spec_fn(T) -> bool, i: int)
    requires
        0 <= i < items.len(),
    ensures
        places(items.take(i + 1), keep) == if keep(items[i]) {
            places(items.take(i), keep).push(i)
        } else {
            places(items.take(i), keep)
        },
{
    assert(items.take(i + 1).drop_last() =~= items.take(i));
    assert(items.take(i + 1).last() == items[i]);
}

/// A text's total over the first rows of a table is at most its total over
/// all of them.
pub proof fn lemma_total_grows(
    rows: Seq<NgramRow>,
    filter: ByCountFilterView,
    content: Seq<char>,
    i: int,
)
    requires
        ngram_rows_wf(rows),
        0 <= i <= rows.len(),
    ensures
        0 <= total_of(rows.take(i), filter, content) <= total_of(rows, filter, content),
    decreases rows.len() - i,
{
    if i == rows.len() {
        assert(rows.take(i) =~= rows);
        lemma_total_nonnegative(rows, filter, content);
    } else {
        lemma_total_grows(rows, filter, content, i + 1);
        assert(rows.take(i + 1).drop_last() =~= rows.take(i));
        assert(rows.take(i + 1).last() == rows[i]);
        assert(1 <= rows[i].count);
        assert(ngram_rows_wf(rows.take(i))) by {
            assert forall|a: int, b: int| 0 <= a < b < rows.take(i).len() implies (
            #[trigger] rows.take(i)[a]).key != (#[trigger] rows.take(i)[b]).key by {
                assert(rows[a].key != rows[b].key);
            }
            assert forall|a: int| 0 <= a < rows.take(i).len() implies 1 <= (
            #[trigger] rows.take(i)[a]).count <= u32::MAX by {
                assert(1 <= rows[a].count <= u32::MAX);
            }
        }
        lemma_total_nonnegative(rows.take(i), filter, content);
    }
}

/// No total is below zero.
pub proof fn lemma_total_nonnegative(
    rows: Seq<NgramRow>,
    filter: ByCountFilterView,
    content: Seq<char>,
)
    requires
        ngram_rows_wf(rows),
    ensures
        0 <= total_of(rows, filter, content),
    decreases rows.len(),
{
    if rows.len() > 0 {
        let init = rows.drop_last();
        assert(ngram_rows_wf(init)) by {
            assert forall|a: int, b: int| 0 <= a < b < init.len() implies (#[trigger] init[a]).key
                != (#[trigger] init[b]).key by {
                assert(rows[a].key != rows[b].key);
            }
            assert forall|a: int| 0 <= a < init.len() implies 1 <= (#[trigger] init[a]).count
                <= u32::MAX by {
                assert(1 <= rows[a].count <= u32::MAX);
            }
        }
        lemma_total_nonnegative(init, filter, content);
        assert(1 <= rows[rows.len() - 1].count);
    }
}

} // verus!
