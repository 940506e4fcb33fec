//! What a series keeps of its points, and what a query gives back of them.
use crate::codec::Point;
use crate::resample::{
    concatenated, latest_before, lemma_last_in_none, ordered, row_count, row_end, row_start,
    rows,
};
use crate::series::{
    bucket, chunk_valid, lemma_chunk_span, lemma_unexpired_suffix, series_points_ordered,
    unexpired, SeriesModel,
};
use vstd::prelude::*;

verus! {

/// Whether some chunk of a list holds a point.
pub open spec fn held(chunks: Seq<Seq<Point>>, point: Point) -> bool {
    exists|k: int| 0 <= k < chunks.len() && (#[trigger] chunks[k]).contains(point)
}

/// The points of a list of chunks are the points of each of them.
pub proof fn lemma_concatenated_holds(chunks: Seq<Seq<Point>>, point: Point)
    ensures
        concatenated(chunks).contains(point) <==> held(chunks, point),
    decreases chunks.len(),
{
    if chunks.len() > 0 {
        let before = chunks.drop_last();
        let all = concatenated(chunks);
        let a = concatenated(before);
        lemma_concatenated_holds(before, point);
        if held(chunks, point) {
            let k = choose|k: int| 0 <= k < chunks.len() && (#[trigger] chunks[k]).contains(point);
            if k < before.len() {
                assert(before[k].contains(point));
                let i = a.index_of(point);
                assert(all[i] == point);
            } else {
                let i = chunks.last().index_of(point);
                assert(all[a.len() + i] == point);
            }
        }
        if all.contains(point) {
            let i = all.index_of(point);
            if i < a.len() {
                assert(a[i] == point);
                assert(a.contains(point));
                let k = choose|k: int|
                    0 <= k < before.len() && (#[trigger] before[k]).contains(point);
                assert(chunks[k].contains(point));
            } else {
                assert(chunks.last()[i - a.len()] == point);
                assert(chunks[chunks.len() - 1].contains(point));
            }
        }
    }
}

/// The points of a series are those of its sealed chunks and of its head.
pub proof fn lemma_points_hold(series: SeriesModel, point: Point)
    ensures
        series.points().contains(point) <==> held(series.sealed, point) || series.head.contains(
            point,
        ),
{
    lemma_concatenated_holds(series.sealed, point);
    let a = concatenated(series.sealed);
    let all = series.points();
    if a.contains(point) {
        assert(all[a.index_of(point)] == point);
    }
    if series.head.contains(point) {
        assert(all[a.len() + series.head.index_of(point)] == point);
    }
    if all.contains(point) {
        let i = all.index_of(point);
        if i < a.len() {
            assert(a[i] == point);
        } else {
            assert(series.head[i - a.len()] == point);
        }
    }
}

/// Dropping old chunks drops old points only.
proof fn lemma_unexpired_holds(
    chunks: Seq<Seq<Point>>,
    cutoff: i64,
    point: Point,
    window: i64,
)
    requires
        forall|i: int| 0 <= i < chunks.len() ==> chunk_valid(#[trigger] chunks[i], window),
    ensures
        held(unexpired(chunks, cutoff), point) ==> held(chunks, point),
        held(chunks, point) && point.0 >= cutoff ==> held(unexpired(chunks, cutoff), point),
{
    let count = lemma_unexpired_suffix(chunks, cutoff);
    let rest = unexpired(chunks, cutoff);
    if held(rest, point) {
        let k = choose|k: int| 0 <= k < rest.len() && (#[trigger] rest[k]).contains(point);
        assert(chunks[count + k] == rest[k]);
    }
    if held(chunks, point) && point.0 >= cutoff {
        let k = choose|k: int| 0 <= k < chunks.len() && (#[trigger] chunks[k]).contains(point);
        if k < count {
            lemma_chunk_span(chunks[k], window);
            let i = chunks[k].index_of(point);
            assert(chunks[k][i].0 <= chunks[k].last().0);
        } else {
            assert(rest[k - count] == chunks[k]);
        }
    }
}

/// The sealed chunks and the head of a valid series are valid chunks.
proof fn lemma_chunks_of(series: SeriesModel, window: i64)
    requires
        series.valid(window),
    ensures
        forall|i: int|
            0 <= i < series.sealed.len() ==> chunk_valid(#[trigger] series.sealed[i], window),
        series.head.len() > 0 ==> chunk_valid(series.head, window),
        series.head.len() == 0 ==> series.sealed.len() == 0,
{
    let chunks = series.sealed.push(series.head);
    if series.head.len() > 0 {
        assert(chunks[chunks.len() - 1] == series.head);
        assert forall|i: int| 0 <= i < series.sealed.len() implies chunk_valid(
            #[trigger] series.sealed[i],
            window,
        ) by {
            assert(chunks[i] == series.sealed[i]);
        }
    }
}

/// A point that is taken becomes the last point of the series.
pub proof fn taken_point_is_last(series: SeriesModel, point: Point, cutoff: i64, window: i64)
    requires
        series.takes(point.0, window),
    ensures
        series.offered(point, cutoff, window).points().len() > 0,
        series.offered(point, cutoff, window).points().last() == point,
{
}

/// A point that is refused leaves the series as it was.
pub proof fn refused_point_changes_nothing(
    series: SeriesModel,
    point: Point,
    cutoff: i64,
    window: i64,
)
    requires
        !series.takes(point.0, window),
    ensures
        series.offered(point, cutoff, window) == series,
{
}

/// A timestamp that does not follow the last one is refused.
pub proof fn time_does_not_run_back(series: SeriesModel, timestamp: i64, window: i64)
    requires
        series.points().len() > 0,
        series.valid(window),
        timestamp <= series.points().last().0,
    ensures
        !series.takes(timestamp, window),
{
    assert(series.points().last() == series.head.last());
}

/// Offering a point keeps every point within the retention, and adds no other
/// than the one that is offered.
pub proof fn offering_keeps_recent_points(
    series: SeriesModel,
    point: Point,
    cutoff: i64,
    window: i64,
    p: Point,
)
    requires
        series.valid(window),
    ensures
        series.points().contains(p) && p.0 >= cutoff ==> series.offered(
            point,
            cutoff,
            window,
        ).points().contains(p),
        series.offered(point, cutoff, window).points().contains(p) ==> series.points().contains(p)
            || (p == point && series.takes(point.0, window)),
{
    let next = series.offered(point, cutoff, window);
    lemma_points_hold(series, p);
    lemma_points_hold(next, p);
    lemma_chunks_of(series, window);
    if series.takes(point.0, window) {
        if series.opens_window(point.0, window) {
            let chunks = series.sealed.push(series.head);
            lemma_unexpired_holds(chunks, cutoff, p, window);
            if held(chunks, p) {
                let k = choose|k: int| 0 <= k < chunks.len() && (#[trigger] chunks[k]).contains(p);
                if k < series.sealed.len() {
                    assert(series.sealed[k].contains(p));
                }
            }
            if held(series.sealed, p) {
                let k = choose|k: int|
                    0 <= k < series.sealed.len() && (#[trigger] series.sealed[k]).contains(p);
                assert(chunks[k].contains(p));
            }
            if series.head.contains(p) {
                assert(chunks[chunks.len() - 1].contains(p));
            }
        } else {
            if series.head.contains(p) {
                assert(next.head[series.head.index_of(p)] == p);
            }
            if next.head.contains(p) && p != point {
                assert(series.head[next.head.index_of(p)] == p);
            }
        }
    }
}

/// Expiry keeps every point within the retention, and adds none.
pub proof fn expiry_keeps_recent_points(series: SeriesModel, cutoff: i64, window: i64, p: Point)
    requires
        series.valid(window),
    ensures
        series.points().contains(p) && p.0 >= cutoff ==> series.expired(
            cutoff,
        ).points().contains(p),
        series.expired(cutoff).points().contains(p) ==> series.points().contains(p),
{
    let next = series.expired(cutoff);
    lemma_points_hold(series, p);
    lemma_points_hold(next, p);
    lemma_chunks_of(series, window);
    lemma_unexpired_holds(series.sealed, cutoff, p, window);
    if series.head.contains(p) && p.0 >= cutoff {
        lemma_chunk_span(series.head, window);
        let i = series.head.index_of(p);
        assert(series.head[i].0 <= series.head.last().0);
    }
}

/// What is left after expiry is younger than the retention and one window.
pub proof fn expiry_bounds_age(series: SeriesModel, cutoff: i64, window: i64, p: Point)
    requires
        series.valid(window),
        window > 0,
        series.expired(cutoff).points().contains(p),
    ensures
        p.0 > cutoff - window,
{
    let next = series.expired(cutoff);
    lemma_points_hold(next, p);
    lemma_chunks_of(series, window);
    let chunks = series.sealed.push(series.head);
    let count = lemma_unexpired_suffix(series.sealed, cutoff);
    let chunk = if next.head.contains(p) {
        next.head
    } else {
        let k = choose|k: int|
            0 <= k < next.sealed.len() && (#[trigger] next.sealed[k]).contains(p);
        assert(next.sealed[k] == series.sealed[count + k]);
        let chunk = next.sealed[k];
        if k > 0 {
            assert(chunks[count].last().0 < chunks[count + k][0].0);
            assert(chunks[count] == series.sealed[count]);
            assert(chunks[count + k] == chunk);
            lemma_chunk_span(chunk, window);
        }
        chunk
    };
    assert(chunk_valid(chunk, window));
    assert(chunk.last().0 >= cutoff);
    let i = chunk.index_of(p);
    let last = chunk.len() - 1;
    assert(bucket(chunk[i].0, window) == bucket(chunk[0].0, window));
    assert(bucket(chunk[last].0, window) == bucket(chunk[0].0, window));
    let w = window as int;
    let a = p.0 as int;
    let b = chunk.last().0 as int;
    vstd::arithmetic::div_mod::lemma_fundamental_div_mod(a, w);
    vstd::arithmetic::div_mod::lemma_fundamental_div_mod(b, w);
    vstd::arithmetic::div_mod::lemma_mod_bound(a, w);
    vstd::arithmetic::div_mod::lemma_mod_bound(b, w);
}

/// Once expired, nothing more expires.
pub proof fn expiry_is_idempotent(series: SeriesModel, cutoff: i64)
    ensures
        series.expired(cutoff).expired(cutoff) == series.expired(cutoff),
{
    let next = series.expired(cutoff);
    let count = lemma_unexpired_suffix(series.sealed, cutoff);
    assert(unexpired(next.sealed, cutoff) =~= next.sealed);
}

/// The latest point before a time, if the time lies between two points.
pub proof fn lemma_latest_at(points: Seq<Point>, i: int, time: int)
    requires
        ordered(points),
        0 <= i < points.len(),
        points[i].0 < time,
        i + 1 < points.len() ==> points[i + 1].0 >= time,
    ensures
        latest_before(points, time) == Some(points[i].1),
    decreases points.len() - i,
{
    let low = i64::MIN as int;
    let head = points.take(i + 1);
    let tail = points.skip(i + 1);
    assert(points =~= head + tail);
    crate::resample::lemma_last_in_concat(head, tail, low, time);
    assert forall|k: int| 0 <= k < tail.len() implies !(low <= #[trigger] tail[k].0 < time) by {
        assert(tail[k] == points[i + 1 + k]);
        if k > 0 {
            assert(points[i + 1].0 < points[i + 1 + k].0);
        }
    }
    lemma_last_in_none(tail, low, time);
    assert(head.last() == points[i]);
}

/// Each point that a series holds is read back by a query for its own
/// millisecond.
pub proof fn held_point_is_read_back(series: SeriesModel, window: i64, point: Point)
    requires
        series.valid(window),
        series.points().contains(point),
        point.0 < i64::MAX,
    ensures
        series.answer(point.0, (point.0 + 1) as i64, 1) == seq![(point.0, Some(point.1))],
{
    let points = series.points();
    series_points_ordered(series, window);
    let i = points.index_of(point);
    let from = point.0 as int;
    assert(row_count(from, from + 1, 1) == 1);
    assert(row_start(from, 1, 0) == from);
    assert(row_end(from, from + 1, 1, 0) == from + 1);
    if i + 1 < points.len() {
        assert(points[i].0 < points[i + 1].0);
    }
    lemma_latest_at(points, i, from + 1);
    assert(rows(points, from, from + 1, 1) =~= seq![(point.0, Some(point.1))]);
}

/// The last row of an answer that reaches beyond the last point has the value
/// of that point.
pub proof fn last_row_has_last_value(
    series: SeriesModel,
    window: i64,
    from: i64,
    to: i64,
    step: i64,
)
    requires
        series.valid(window),
        series.points().len() > 0,
        series.points().last().0 < to,
        series.answer(from, to, step).len() > 0,
    ensures
        series.answer(from, to, step).last().1 == Some(series.points().last().1),
{
    let points = series.points();
    series_points_ordered(series, window);
    let f = from as int;
    let t = to as int;
    let s = step as int;
    let n = row_count(f, t, s);
    crate::resample::lemma_rows_cover(f, t, s, n - 1);
    crate::resample::lemma_row_of(t - f - 1, s, n - 1);
    assert(row_start(f, s, n) >= t);
    lemma_latest_at(points, points.len() - 1, t);
}

} // verus!
