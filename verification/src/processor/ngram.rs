//! N-gram windows over a word list, week buckets and gap filling.

use vstd::prelude::*;

verus! {

/// Seconds in one week: the width of a time bucket.
pub const SECONDS_IN_WEEK: i64 = 604800;

/// The longest n-gram that is extracted, in words.
pub const MAX_NGRAM_LENGTH: u8 = 5;

/// One occurrence of an n-gram, as it is handed to the store.
#[derive(Debug)]
pub struct NgramForStore {
    pub content: String,
    pub length: u32,
    pub time: i64,
    pub container_id: String,
    pub sender_id: String,
}

/// The five-part key under which an n-gram's occurrences are counted.
pub struct NgramKey {
    pub content: Seq<char>,
    pub length: int,
    pub time: int,
    pub container_id: Seq<char>,
    pub sender_id: Seq<char>,
}

impl View for NgramForStore {
    type V = NgramKey;

    open spec fn view(&self) -> NgramKey {
        NgramKey {
            content: self.content@,
            length: self.length as int,
            time: self.time as int,
            container_id: self.container_id@,
            sender_id: self.sender_id@,
        }
    }
}

impl Clone for NgramForStore {
    fn clone(&self) -> (copy: Self)
        ensures
            copy@ == self@,
    {
        NgramForStore {
            content: self.content.clone(),
            length: self.length,
            time: self.time,
            container_id: self.container_id.clone(),
            sender_id: self.sender_id.clone(),
        }
    }
}

/// One line of a ranking: an n-gram's text and how often it occurred.
#[derive(Debug)]
pub struct NgramForByCountCommand {
    pub content: String,
    pub count: u32,
}

/// What a ranking line says: the text and the count.
pub struct RankedNgram {
    pub content: Seq<char>,
    pub count: int,
}

impl View for NgramForByCountCommand {
    type V = RankedNgram;

    open spec fn view(&self) -> RankedNgram {
        RankedNgram { content: self.content@, count: self.count as int }
    }
}

/// One point of a time series: how often an n-gram occurred in one bucket.
#[derive(Debug, Clone, Copy)]
pub struct NgramsForByContentCommand {
    pub count: u32,
    pub time: i64,
}

/// A point of a time series over the integers.
pub struct SeriesPoint {
    pub count: int,
    pub time: int,
}

impl View for NgramsForByContentCommand {
    type V = SeriesPoint;

    open spec fn view(&self) -> SeriesPoint {
        SeriesPoint { count: self.count as int, time: self.time as int }
    }
}

/// The views of the items of a sequence, in order.
pub open spec fn views<T: View>(items: Seq<T>) -> Seq<T::V> {
    Seq::new(items.len(), |i: int| items[i]@)
}

/// The start of the week that holds `time`: the greatest multiple of the
/// bucket width that is not above `time`.
pub open spec fn week_floor(time: int) -> int {
    time - time % 604800
}

/// The bucket of `time` as an `i64` can hold it. `i64::MIN` is no multiple of
/// the bucket width, so the timestamps of the incomplete week at the very
/// bottom of the range share the bucket `i64::MIN`.
pub open spec fn time_bucket(time: int) -> int {
    if week_floor(time) < i64::MIN {
        i64::MIN as int
    } else {
        week_floor(time)
    }
}

/// Buckets a Unix timestamp by week.
pub fn get_ngram_time(time: i64) -> (bucket: i64)
    ensures
        bucket == time_bucket(time as int),
        0 <= time - bucket < SECONDS_IN_WEEK,
        week_floor(time as int) >= i64::MIN ==> bucket % SECONDS_IN_WEEK == 0,
{
    let r: i64 = time % SECONDS_IN_WEEK;
    let offset: i64 = if r < 0 { r + SECONDS_IN_WEEK } else { r };
    if time < i64::MIN + offset {
        i64::MIN
    } else {
        time - offset
    }
}

/// How many windows start at word `start` of `n` words: one for each length
/// from 1 up to `max` that still fits.
pub open spec fn window_count(n: int, max: int, start: int) -> nat {
    if max <= n - start {
        max as nat
    } else {
        (n - start) as nat
    }
}

/// The windows `(start, length)` that start before word `end`, ordered by
/// start and then by length.
pub open spec fn windows_before(n: int, max: int, end: int) -> Seq<(int, int)>
    decreases end,
{
    if end <= 0 {
        Seq::empty()
    } else {
        windows_before(n, max, end - 1) + Seq::new(
            window_count(n, max, end - 1),
            |l: int| (end - 1, l + 1),
        )
    }
}

/// All windows of at most `max` words over `n` words.
pub open spec fn windows(n: int, max: int) -> Seq<(int, int)> {
    windows_before(n, max, n)
}

/// Every window covers between 1 and `max` consecutive words of the list,
/// and the windows are ordered by where they start and then by their
/// length: none stands twice, and none before an earlier or shorter one.
pub proof fn lemma_windows_ordered(n: int, max: int, end: int)
    requires
        0 <= end <= n,
        0 <= max,
    ensures
        forall|k: int|
            0 <= k < windows_before(n, max, end).len() ==> {
                let w = #[trigger] windows_before(n, max, end)[k];
                0 <= w.0 < end && 1 <= w.1 <= max && w.0 + w.1 <= n
            },
        forall|k: int, l: int|
            0 <= k < l < windows_before(n, max, end).len() ==> {
                let a = #[trigger] windows_before(n, max, end)[k];
                let b = #[trigger] windows_before(n, max, end)[l];
                a.0 < b.0 || (a.0 == b.0 && a.1 < b.1)
            },
    decreases end,
{
    if end > 0 {
        lemma_windows_ordered(n, max, end - 1);
        let before = windows_before(n, max, end - 1);
        let here = Seq::new(window_count(n, max, end - 1), |l: int| (end - 1, l + 1));
        let all = windows_before(n, max, end);
        assert(all == before + here);
        assert forall|k: int| 0 <= k < all.len() implies {
            let w = #[trigger] all[k];
            0 <= w.0 < end && 1 <= w.1 <= max && w.0 + w.1 <= n
        } by {
            if k < before.len() {
                assert(all[k] == before[k]);
            } else {
                assert(all[k] == here[k - before.len()]);
            }
        }
        assert forall|k: int, l: int| 0 <= k < l < all.len() implies {
            let a = #[trigger] all[k];
            let b = #[trigger] all[l];
            a.0 < b.0 || (a.0 == b.0 && a.1 < b.1)
        } by {
            if l < before.len() {
                assert(all[k] == before[k] && all[l] == before[l]);
            } else if k < before.len() {
                assert(all[k] == before[k]);
                assert(all[l] == here[l - before.len()]);
            } else {
                assert(all[k] == here[k - before.len()]);
                assert(all[l] == here[l - before.len()]);
            }
        }
    }
}

/// The words that each window covers.
pub open spec fn window_slices<T>(words: Seq<T>, windows: Seq<(int, int)>) -> Seq<Seq<T>> {
    Seq::new(windows.len(), |k: int| words.subrange(windows[k].0, windows[k].0 + windows[k].1))
}

/// What each slice of a list holds.
pub open spec fn slice_views<T>(slices: Seq<&[T]>) -> Seq<Seq<T>> {
    Seq::new(slices.len(), |k: int| slices[k]@)
}

/// The `ngram_length` words from `start_index` on, if the list has that many.
pub fn get_ngram(words: &[String], ngram_length: u8, start_index: usize) -> (ngram: Option<
    &[String],
>)
    ensures
        ngram is Some <==> start_index + ngram_length <= words@.len(),
        ngram matches Some(slice) ==> slice@ == words@.subrange(
            start_index as int,
            start_index + ngram_length,
        ),
{
    let length: usize = ngram_length as usize;
    if start_index > words.len() || length > words.len() - start_index {
        return None;
    }
    Some(vstd::slice::slice_subrange(words, start_index, start_index + length))
}

/// Every run of 1 to `max_ngram_length` consecutive words, ordered by where
/// the run starts and then by its length.
pub fn get_ngrams_in_word_list(words: &[String], max_ngram_length: u8) -> (ngrams: Vec<&[String]>)
    ensures
        slice_views(ngrams@) == window_slices(
            words@,
            windows(words@.len() as int, max_ngram_length as int),
        ),
{
    let n: usize = words.len();
    let mut ngrams: Vec<&[String]> = Vec::new();
    let mut index: usize = 0;
    while index < n
        invariant
            n == words@.len(),
            index <= n,
            slice_views(ngrams@) == window_slices(
                words@,
                windows_before(n as int, max_ngram_length as int, index as int),
            ),
        decreases n - index,
    {
        let ghost before = windows_before(n as int, max_ngram_length as int, index as int);
        let ghost here = Seq::new(
            window_count(n as int, max_ngram_length as int, index as int),
            |l: int| (index as int, l + 1),
        );
        let mut taken: u8 = 0;
        while taken < max_ngram_length
            invariant
                n == words@.len(),
                index < n,
                taken <= max_ngram_length,
                taken <= window_count(n as int, max_ngram_length as int, index as int),
                here == Seq::new(
                    window_count(n as int, max_ngram_length as int, index as int),
                    |l: int| (index as int, l + 1),
                ),
                slice_views(ngrams@) == window_slices(words@, before + here.take(taken as int)),
            ensures
                taken == window_count(n as int, max_ngram_length as int, index as int),
                slice_views(ngrams@) == window_slices(words@, before + here.take(taken as int)),
            decreases max_ngram_length - taken,
        {
            match get_ngram(words, taken + 1, index) {
                Some(ngram) => {
                    proof {
                        let so_far = before + here.take(taken as int);
                        let grown = before + here.take(taken as int + 1);
                        assert(grown =~= so_far.push(here[taken as int]));
                        let shown = slice_views(ngrams@.push(ngram));
                        let wanted = window_slices(words@, grown);
                        assert(slice_views(ngrams@).len() == ngrams@.len());
                        assert(window_slices(words@, so_far).len() == so_far.len());
                        assert(shown.len() == wanted.len());
                        assert forall|k: int| 0 <= k < shown.len() implies shown[k] == wanted[k] by {
                            if k < so_far.len() {
                                assert(shown[k] == slice_views(ngrams@)[k]);
                                assert(wanted[k] == window_slices(words@, so_far)[k]);
                            }
                        }
                        assert(shown =~= wanted);
                    }
                    ngrams.push(ngram);
                    taken = taken + 1;
                },
                None => {
                    break ;
                },
            }
        }
        proof {
            assert(here.take(taken as int) =~= here);
            assert(windows_before(n as int, max_ngram_length as int, index as int + 1) == before
                + here);
        }
        index = index + 1;
    }
    ngrams
}

/// The zero points that stand between two neighbours of a series: none when
/// they are at most a week apart, one a week after the first when they are at
/// most two weeks apart, and otherwise one a week after the first and one a
/// week before the second.
pub open spec fn gap_fillers(prev: SeriesPoint, next: SeriesPoint) -> Seq<SeriesPoint> {
    let gap = next.time - prev.time;
    if gap > 2 * 604800 {
        seq![
            SeriesPoint { count: 0, time: prev.time + 604800 },
            SeriesPoint { count: 0, time: next.time - 604800 },
        ]
    } else if gap > 604800 {
        seq![SeriesPoint { count: 0, time: prev.time + 604800 }]
    } else {
        Seq::empty()
    }
}

/// A series with the fillers of each pair of neighbours put between them.
pub open spec fn filled(points: Seq<SeriesPoint>) -> Seq<SeriesPoint>
    decreases points.len(),
{
    if points.len() < 2 {
        points
    } else {
        filled(points.drop_last()) + gap_fillers(
            points[points.len() - 2],
            points[points.len() - 1],
        ) + seq![points.last()]
    }
}

/// Whether no two neighbours of a series are more than a week apart.
pub open spec fn is_dense(points: Seq<SeriesPoint>) -> bool {
    forall|i: int| 0 < i < points.len() ==> (#[trigger] points[i]).time - points[i - 1].time <= 604800
}

/// A series whose neighbours are at most a week apart is filled already.
pub proof fn lemma_dense_series_is_filled(points: Seq<SeriesPoint>)
    requires
        is_dense(points),
    ensures
        filled(points) == points,
    decreases points.len(),
{
    if points.len() >= 2 {
        let init = points.drop_last();
        assert forall|i: int| 0 < i < init.len() implies (#[trigger] init[i]).time - init[i
            - 1].time <= 604800 by {
            assert(points[i].time - points[i - 1].time <= 604800);
        }
        lemma_dense_series_is_filled(init);
        let last = points.len() - 1;
        assert(points[last].time - points[last - 1].time <= 604800);
        assert(filled(points) =~= points);
    }
}

/// Whether the points of a series stand by ascending time.
pub open spec fn is_ascending(points: Seq<SeriesPoint>) -> bool {
    forall|i: int, j: int|
        0 <= i < j < points.len() ==> (#[trigger] points[i]).time <= (#[trigger] points[j]).time
}

/// Filling keeps a series in the order of time.
pub proof fn lemma_filled_is_ascending(points: Seq<SeriesPoint>)
    requires
        is_ascending(points),
    ensures
        is_ascending(filled(points)),
    decreases points.len(),
{
    if points.len() >= 2 {
        let init = points.drop_last();
        let last = points.len() - 1;
        assert forall|i: int, j: int| 0 <= i < j < init.len() implies (#[trigger] init[i]).time <= (
        #[trigger] init[j]).time by {
            assert(points[i].time <= points[j].time);
        }
        lemma_filled_is_ascending(init);
        lemma_filled_ends(init);
        let before = filled(init);
        let between = gap_fillers(points[last - 1], points[last]);
        let all = filled(points);
        assert(all == before + between + seq![points[last]]);
        assert(before.last() == points[last - 1]);
        assert(points[last - 1].time <= points[last].time);
        assert forall|i: int, j: int| 0 <= i < j < all.len() implies (#[trigger] all[i]).time <= (
        #[trigger] all[j]).time by {
            let n = before.len() as int;
            let m = between.len() as int;
            if i < n {
                assert(all[i] == before[i]);
                assert(before[i].time <= before[n - 1].time);
            } else if i < n + m {
                assert(all[i] == between[i - n]);
            }
            if j < n {
                assert(all[j] == before[j]);
            } else if j < n + m {
                assert(all[j] == between[j - n]);
            } else {
                assert(all[j] == points[last]);
            }
        }
    }
}

/// A filled series is at least as long as the series, and it starts and
/// ends with the points that the series starts and ends with.
pub proof fn lemma_filled_ends(points: Seq<SeriesPoint>)
    ensures
        filled(points).len() >= points.len(),
        points.len() > 0 ==> filled(points).last() == points.last(),
        points.len() > 0 ==> filled(points)[0] == points[0],
    decreases points.len(),
{
    if points.len() >= 2 {
        lemma_filled_ends(points.drop_last());
        assert(points.drop_last()[0] == points[0]);
    }
}

/// Puts zero points into the silent stretches of a time series, so that a
/// line drawn through it falls to zero where nothing was said.
pub fn fill_gaps(ngrams: &mut Vec<NgramsForByContentCommand>)
    ensures
        views(final(ngrams)@) == filled(views(old(ngrams)@)),
{
    let n: usize = ngrams.len();
    if n < 2 {
        return ;
    }
    let ghost points = views(ngrams@);
    let mut out: Vec<NgramsForByContentCommand> = Vec::new();
    out.push(ngrams[0]);
    assert(views(out@) =~= filled(points.take(1)));
    let mut i: usize = 1;
    while i < n
        invariant
            1 <= i <= n,
            n == ngrams@.len(),
            points == views(ngrams@),
            views(out@) == filled(points.take(i as int)),
        decreases n - i,
    {
        let prev = ngrams[i - 1];
        let next = ngrams[i];
        let ghost shown = views(out@);
        let gap: i128 = next.time as i128 - prev.time as i128;
        if gap > 2 * (SECONDS_IN_WEEK as i128) {
            out.push(NgramsForByContentCommand { count: 0, time: prev.time + SECONDS_IN_WEEK });
            out.push(NgramsForByContentCommand { count: 0, time: next.time - SECONDS_IN_WEEK });
        } else if gap > SECONDS_IN_WEEK as i128 {
            out.push(NgramsForByContentCommand { count: 0, time: prev.time + SECONDS_IN_WEEK });
        }
        out.push(next);
        proof {
            let grown = points.take(i as int + 1);
            assert(grown.drop_last() =~= points.take(i as int));
            assert(views(out@) =~= shown + gap_fillers(points[i - 1], points[i as int])
                + seq![points[i as int]]);
        }
        i = i + 1;
    }
    assert(points.take(n as int) =~= points);
    *ngrams = out;
}

} // verus!
