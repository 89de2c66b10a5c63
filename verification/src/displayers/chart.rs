//! The axes of the chart of a time series.

use crate::processor::ngram::{views, NgramsForByContentCommand, SeriesPoint};
use vstd::prelude::*;

verus! {

/// What the axes of a chart span: the time from the first point to the last,
/// and the counts from zero to the greatest.
#[derive(Debug, Clone, Copy, PartialEq, Eq, Structural)]
pub struct ChartAxes {
    pub first_time: i64,
    pub last_time: i64,
    pub max_count: u32,
}

/// Whether `max` is the greatest count of a series.
pub open spec fn is_max_count(series: Seq<SeriesPoint>, max: int) -> bool {
    &&& forall|i: int| 0 <= i < series.len() ==> (#[trigger] series[i]).count <= max
    &&& exists|i: int| 0 <= i < series.len() && (#[trigger] series[i]).count == max
}

/// The axes of the chart of a series. A series without points has no chart.
pub fn chart_axes(ngrams: &[NgramsForByContentCommand]) -> (axes: Option<ChartAxes>)
    ensures
        axes is Some <==> ngrams@.len() > 0,
        axes matches Some(span) ==> span.first_time == ngrams@[0].time && span.last_time
            == ngrams@.last().time && is_max_count(views(ngrams@), span.max_count as int),
{
    if ngrams.len() == 0 {
        return None;
    }
    let mut max_count: u32 = ngrams[0].count;
    let mut i: usize = 1;
    assert(views(ngrams@)[0].count == max_count);
    while i < ngrams.len()
        invariant
            1 <= i <= ngrams@.len(),
            forall|j: int| 0 <= j < i ==> (#[trigger] views(ngrams@)[j]).count <= max_count,
            exists|j: int| 0 <= j < i && (#[trigger] views(ngrams@)[j]).count == max_count,
        decreases ngrams@.len() - i,
    {
        if ngrams[i].count > max_count {
            max_count = ngrams[i].count;
            assert(views(ngrams@)[i as int].count == max_count);
        }
        i = i + 1;
    }
    Some(
        ChartAxes {
            first_time: ngrams[0].time,
            last_time: ngrams[ngrams.len() - 1].time,
            max_count: max_count,
        },
    )
}

} // verus!
