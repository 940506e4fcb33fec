//! What holds of series, rows and the store, in terms of points, times and
//! names.
use crate::catalog::{
    byte_total, can_hold, catalog_valid, countable, cutoff_at, finite_bits, ingested,
    ingested_all, lemma_totals_insert, point_total, slot_of, storable,
    storable_points_name_series, stored, stored_count, swept, with_hold, with_release, Catalog,
    InputPoint, Slot,
};
use crate::codec::{chunk_size, Point};
use crate::resample::{
    concatenated, latest_before, lemma_last_in_none, lemma_row_of, lemma_rows_cover, ordered,
    row_count, row_end, rows_seeded,
};
use crate::retention::{expiry_bounds_age, lemma_latest_at, lemma_points_hold};
use crate::series::{
    chunk_valid, lemma_chunk_span, lemma_unexpired_suffix, overlapping, series_points_ordered,
    unexpired, value_before, SeriesModel,
};
use vstd::prelude::*;

verus! {

// Rows.

/// The number of steps that it takes to get from `from` to `to`, rounded up.
proof fn lemma_row_count_rounds_up(from: int, to: int, step: int)
    requires
        step > 0,
        from < to,
    ensures
        row_count(from, to, step) == (to - from + step - 1) / step,
{
    let a = to - from - 1;
    vstd::arithmetic::div_mod::lemma_div_plus_one(a, step);
    assert(a + step == to - from + step - 1);
}

/// There is one row for each step of the range, the last one cut short where
/// it has to be, and each row has the time at which it begins.
pub proof fn rows_have_their_times(
    points: Seq<Point>,
    seed: Option<u64>,
    from: i64,
    to: i64,
    step: i64,
)
    requires
        step > 0,
        from < to,
    ensures
        ({
            let rows = rows_seeded(points, seed, from as int, to as int, step as int);
            &&& rows.len() == (to - from + step - 1) / step as int
            &&& forall|i: int| 0 <= i < rows.len() ==> (#[trigger] rows[i]).0 == from + i * step
        }),
{
    let f = from as int;
    let t = to as int;
    let s = step as int;
    let rows = rows_seeded(points, seed, f, t, s);
    lemma_row_count_rounds_up(f, t, s);
    lemma_row_of(t - f - 1, s, row_count(f, t, s) - 1);
    vstd::arithmetic::div_mod::lemma_div_pos_is_pos(t - f - 1, s);
    assert forall|i: int| 0 <= i < rows.len() implies (#[trigger] rows[i]).0 == from + i
        * step by {
        lemma_rows_cover(f, t, s, i);
    }
}

/// Some point before a time means that there is a latest one.
proof fn lemma_latest_exists(points: Seq<Point>, time: int, k: int)
    requires
        0 <= k < points.len(),
        points[k].0 < time,
    ensures
        latest_before(points, time) is Some,
    decreases points.len(),
{
    if points.last().0 < time {
    } else {
        assert(points.drop_last()[k] == points[k]);
        lemma_latest_exists(points.drop_last(), time, k);
    }
}

/// A row has the value of the latest point before its end, however long ago
/// that was: of point `k`, where the next point lies beyond the end. It has
/// the value that the rows start from where no point lies before its end.
pub proof fn rows_have_the_latest_value(
    points: Seq<Point>,
    seed: Option<u64>,
    from: i64,
    to: i64,
    step: i64,
    i: int,
    k: int,
)
    requires
        step > 0,
        from < to,
        0 <= i < (to - from + step - 1) / step as int,
        forall|a: int, b: int| 0 <= a < b < points.len() ==> points[a].0 < points[b].0,
    ensures
        ({
            let row = rows_seeded(points, seed, from as int, to as int, step as int)[i];
            let end = if from + (i + 1) * step < to {
                from + (i + 1) * step
            } else {
                to as int
            };
            &&& 0 <= k < points.len() && points[k].0 < end && (k + 1 < points.len()
                ==> points[k + 1].0 >= end) ==> row.1 == Some(points[k].1)
            &&& (forall|j: int| 0 <= j < points.len() ==> (#[trigger] points[j]).0 >= end)
                ==> row.1 == seed
            &&& row.1 is None ==> seed is None && forall|j: int|
                0 <= j < points.len() ==> (#[trigger] points[j]).0 >= end
        }),
{
    let f = from as int;
    let t = to as int;
    let s = step as int;
    lemma_row_count_rounds_up(f, t, s);
    let end = row_end(f, t, s, i);
    let row = rows_seeded(points, seed, f, t, s)[i];
    assert(ordered(points));
    if 0 <= k < points.len() && points[k].0 < end && (k + 1 < points.len() ==> points[k + 1].0
        >= end) {
        lemma_latest_at(points, k, end);
    }
    if forall|j: int| 0 <= j < points.len() ==> (#[trigger] points[j]).0 >= end {
        lemma_last_in_none(points, i64::MIN as int, end);
    }
    if row.1 is None {
        assert forall|j: int| 0 <= j < points.len() implies (#[trigger] points[j]).0 >= end by {
            if points[j].0 < end {
                lemma_latest_exists(points, end, j);
            }
        }
    }
}

/// A query over a range that makes sense has one row for each of its steps,
/// and is never answered with fewer. It has none over one that makes no sense
/// or whose rows cannot be counted.
pub proof fn queries_have_one_row_per_step(series: SeriesModel, from: i64, to: i64, step: i64)
    ensures
        step <= 0 || to <= from || to - from > i64::MAX ==> series.answer(from, to, step).len()
            == 0,
        step > 0 && from < to && to - from <= i64::MAX ==> ({
            let count = (to - from + step - 1) / step as int;
            let answer = series.answer(from, to, step);
            &&& answer.len() == if count <= usize::MAX {
                count
            } else {
                0
            }
            &&& forall|i: int| 0 <= i < answer.len() ==> (#[trigger] answer[i]).0 == from + i * step
        }),
{
    if step > 0 && from < to && to - from <= i64::MAX {
        rows_have_their_times(series.points(), None, from, to, step);
        lemma_row_count_rounds_up(from as int, to as int, step as int);
    }
}

/// A row of an answer has the value of the latest point that the series holds
/// before the end of the row, and none if there is no such point.
pub proof fn queries_have_the_latest_value(
    series: SeriesModel,
    window: i64,
    from: i64,
    to: i64,
    step: i64,
    i: int,
    k: int,
)
    requires
        series.valid(window),
        0 <= i < series.answer(from, to, step).len(),
    ensures
        ({
            let row = series.answer(from, to, step)[i];
            let points = series.points();
            let end = if from + (i + 1) * step < to {
                from + (i + 1) * step
            } else {
                to as int
            };
            &&& 0 <= k < points.len() && points[k].0 < end && (k + 1 < points.len()
                ==> points[k + 1].0 >= end) ==> row.1 == Some(points[k].1)
            &&& row.1 is None <==> forall|j: int|
                0 <= j < points.len() ==> (#[trigger] points[j]).0 >= end
        }),
{
    queries_have_one_row_per_step(series, from, to, step);
    series_points_ordered(series, window);
    rows_have_the_latest_value(series.points(), None, from, to, step, i, k);
}

// One series.

/// All points of chunks are those of the chunks one after the other.
pub proof fn chunks_line_up(chunks: Seq<Seq<Point>>, more: Seq<Seq<Point>>, chunk: Seq<Point>)
    ensures
        concatenated(seq![chunk]) == chunk,
        concatenated(chunks + more) == concatenated(chunks) + concatenated(more),
    decreases more.len(),
{
    assert(seq![chunk].drop_last() =~= Seq::<Seq<Point>>::empty());
    assert(concatenated(Seq::<Seq<Point>>::empty()) =~= Seq::<Point>::empty());
    assert(concatenated(seq![chunk]) =~= chunk);
    if more.len() == 0 {
        assert(chunks + more =~= chunks);
        assert(concatenated(chunks) + concatenated(more) =~= concatenated(chunks));
    } else {
        chunks_line_up(chunks, more.drop_last(), chunk);
        assert((chunks + more).drop_last() =~= chunks + more.drop_last());
        assert(concatenated(chunks + more) =~= concatenated(chunks) + concatenated(more));
    }
}

/// A series takes a point if its head is empty, or if the point is later than
/// the last one and either lies in another time window or has a change of
/// delta that fits 32 bits. Nothing else matters: not how many points there
/// are, nor how old they are.
pub proof fn series_take_later_points(series: SeriesModel, timestamp: i64, window: i64)
    ensures
        series.takes(timestamp, window) <==> {
            let head = series.head;
            let last = head.len() - 1;
            let delta = timestamp - head[last].0;
            let before = if head.len() < 2 {
                0
            } else {
                head[last].0 - head[last - 1].0
            };
            ||| head.len() == 0
            ||| delta > 0 && timestamp as int / window as int != head[0].0 as int / window as int
            ||| 0 < delta <= 0x7fff_ffff_ffff_ffff && -0x8000_0000 <= delta - before
                <= 0x7fff_ffff
        },
{
}

/// What becomes of old chunks: some at the front are dropped, all of them
/// with old points only.
proof fn lemma_unexpired_points(chunks: Seq<Seq<Point>>, cutoff: i64, window: i64) -> (dropped: int)
    requires
        forall|i: int| 0 <= i < chunks.len() ==> chunk_valid(#[trigger] chunks[i], window),
    ensures
        0 <= dropped <= concatenated(chunks).len(),
        concatenated(unexpired(chunks, cutoff)) == concatenated(chunks).skip(dropped),
        forall|i: int| 0 <= i < dropped ==> (#[trigger] concatenated(chunks)[i]).0 < cutoff,
{
    let count = lemma_unexpired_suffix(chunks, cutoff);
    let first = chunks.take(count);
    let rest = chunks.skip(count);
    assert(chunks =~= first + rest);
    chunks_line_up(first, rest, Seq::empty());
    let a = concatenated(first);
    let dropped = a.len() as int;
    assert(concatenated(chunks).skip(dropped) =~= concatenated(rest));
    assert forall|i: int| 0 <= i < dropped implies (#[trigger] concatenated(chunks)[i]).0
        < cutoff by {
        assert(a[i] == concatenated(chunks)[i]);
        assert(a.contains(a[i]));
        crate::retention::lemma_concatenated_holds(first, a[i]);
        let k = choose|k: int| 0 <= k < first.len() && (#[trigger] first[k]).contains(a[i]);
        assert(first[k] == chunks[k]);
        lemma_chunk_span(chunks[k], window);
        let j = chunks[k].index_of(a[i]);
        assert(chunks[k][j].0 <= chunks[k].last().0);
    }
    dropped
}

/// The chunks of a valid series are valid.
proof fn lemma_all_chunks(series: SeriesModel, window: i64)
    requires
        series.valid(window),
    ensures
        series.head.len() == 0 ==> series.points().len() == 0 && series.sealed.len() == 0,
        series.head.len() > 0 ==> series.points() == concatenated(series.sealed.push(series.head)),
        series.head.len() > 0 ==> forall|i: int|
            0 <= i < series.sealed.len() + 1 ==> chunk_valid(
                #[trigger] series.sealed.push(series.head)[i],
                window,
            ),
        forall|i: int|
            0 <= i < series.sealed.len() ==> chunk_valid(#[trigger] series.sealed[i], window),
{
    let chunks = series.sealed.push(series.head);
    assert(chunks.drop_last() =~= series.sealed);
    if series.head.len() > 0 {
        assert forall|i: int| 0 <= i < series.sealed.len() implies chunk_valid(
            #[trigger] series.sealed[i],
            window,
        ) by {
            assert(chunks[i] == series.sealed[i]);
        }
    }
}

/// A chunk holds the points of one time window: a point in the window of the
/// head goes into the head, and a point in another one seals the head and
/// begins a new one. Only then are old chunks dropped from the front, up to
/// the first that does not end before the cutoff.
pub proof fn chunks_follow_time_windows(
    series: SeriesModel,
    point: Point,
    cutoff: i64,
    window: i64,
) -> (dropped: int)
    requires
        series.takes(point.0, window),
    ensures
        series.points() == concatenated(series.sealed) + series.head,
        ({
            let next = series.offered(point, cutoff, window);
            let chunks = series.sealed.push(series.head);
            if series.head.len() == 0 || point.0 as int / window as int == series.head[0].0 as int
                / window as int {
                next.head == series.head.push(point) && next.sealed == series.sealed
            } else {
                &&& next.head == seq![point]
                &&& 0 <= dropped <= chunks.len()
                &&& next.sealed == chunks.skip(dropped)
                &&& forall|i: int| 0 <= i < dropped ==> (#[trigger] chunks[i]).last().0 < cutoff
                &&& dropped < chunks.len() ==> chunks[dropped].last().0 >= cutoff
            }
        }),
{
    lemma_unexpired_suffix(series.sealed.push(series.head), cutoff)
}

/// Expiry drops whole chunks from the front, up to the first that does not
/// end before the cutoff, and the head if that ends before it.
pub proof fn expiry_drops_whole_chunks(series: SeriesModel, cutoff: i64) -> (dropped: int)
    ensures
        ({
            let next = series.expired(cutoff);
            let chunks = series.sealed;
            &&& 0 <= dropped <= chunks.len()
            &&& next.sealed == chunks.skip(dropped)
            &&& forall|i: int| 0 <= i < dropped ==> (#[trigger] chunks[i]).last().0 < cutoff
            &&& dropped < chunks.len() ==> chunks[dropped].last().0 >= cutoff
            &&& next.head == series.head || (next.head.len() == 0 && series.head.last().0 < cutoff)
            &&& series.head.len() > 0 && series.head.last().0 < cutoff ==> next.head.len() == 0
        }),
{
    lemma_unexpired_suffix(series.sealed, cutoff)
}

/// A point that is taken comes behind all others. What is dropped for it lies
/// at the front and before the cutoff.
pub proof fn taken_point_comes_last(
    series: SeriesModel,
    point: Point,
    cutoff: i64,
    window: i64,
) -> (dropped: int)
    requires
        series.valid(window),
        series.takes(point.0, window),
    ensures
        0 <= dropped <= series.points().len(),
        series.offered(point, cutoff, window).points() == series.points().skip(dropped).push(point),
        forall|i: int| 0 <= i < dropped ==> (#[trigger] series.points()[i]).0 < cutoff,
{
    let next = series.offered(point, cutoff, window);
    lemma_all_chunks(series, window);
    if series.opens_window(point.0, window) {
        let chunks = series.sealed.push(series.head);
        let dropped = lemma_unexpired_points(chunks, cutoff, window);
        assert(next.points() =~= series.points().skip(dropped).push(point));
        dropped
    } else {
        assert(next.points() =~= series.points().skip(0).push(point));
        0
    }
}

/// Expiry drops points at the front only, all of them before the cutoff.
pub proof fn expiry_drops_old_points(series: SeriesModel, cutoff: i64, window: i64) -> (dropped:
    int)
    requires
        series.valid(window),
    ensures
        0 <= dropped <= series.points().len(),
        series.expired(cutoff).points() == series.points().skip(dropped),
        forall|i: int| 0 <= i < dropped ==> (#[trigger] series.points()[i]).0 < cutoff,
{
    let next = series.expired(cutoff);
    lemma_all_chunks(series, window);
    let points = series.points();
    let a = concatenated(series.sealed);
    let dropped = lemma_unexpired_points(series.sealed, cutoff, window);
    if series.head.len() > 0 && series.head.last().0 < cutoff {
        series_points_ordered(series, window);
        assert(points[points.len() - 1] == series.head.last());
        assert forall|i: int| 0 <= i < points.len() implies (#[trigger] points[i]).0 < cutoff by {
            if i < points.len() - 1 {
                assert(points[i].0 < points[points.len() - 1].0);
            }
        }
        crate::series::expiry_keeps_order(series, cutoff, window);
        assert(next.sealed =~= Seq::empty());
        assert(next.points() =~= points.skip(points.len() as int));
        points.len() as int
    } else {
        assert forall|i: int| 0 <= i < dropped implies (#[trigger] points[i]).0 < cutoff by {
            assert(points[i] == a[i]);
        }
        assert(next.points() =~= points.skip(dropped));
        dropped
    }
}

/// A series is empty after expiry if and only if its last point lies before
/// the cutoff.
pub proof fn expiry_empties_old_series(series: SeriesModel, cutoff: i64, window: i64)
    requires
        series.valid(window),
    ensures
        series.is_empty() <==> series.points().len() == 0,
        series.expired(cutoff).is_empty() <==> series.points().len() == 0
            || series.points().last().0 < cutoff,
{
    lemma_all_chunks(series, window);
    crate::series::expiry_keeps_order(series, cutoff, window);
    let next = series.expired(cutoff);
    if series.head.len() > 0 {
        assert(series.points().last() == series.head.last());
    }
}

/// A point that opens a time window drops every chunk that ended before the
/// cutoff: what was there before and is still there is younger than the
/// cutoff and one window.
pub proof fn new_windows_drop_old_points(
    series: SeriesModel,
    point: Point,
    cutoff: i64,
    window: i64,
    p: Point,
)
    requires
        series.valid(window),
        window > 0,
        series.head.len() > 0,
        point.0 > series.head.last().0,
        point.0 as int / window as int != series.head[0].0 as int / window as int,
        series.offered(point, cutoff, window).points().contains(p),
    ensures
        p == point || p.0 > cutoff - window,
{
    let next = series.offered(point, cutoff, window);
    lemma_all_chunks(series, window);
    lemma_points_hold(next, p);
    if p != point {
        if next.head.contains(p) {
            assert(next.head[next.head.index_of(p)] == point);
        }
        let chunks = series.sealed.push(series.head);
        let count = lemma_unexpired_suffix(chunks, cutoff);
        let k = choose|k: int|
            0 <= k < next.sealed.len() && (#[trigger] next.sealed[k]).contains(p);
        let chunk = chunks[count + k];
        assert(next.sealed[k] == chunk);
        lemma_chunk_span(chunk, window);
        if k > 0 {
            assert(chunks[count].last().0 < chunks[count + k][0].0);
        }
        assert(chunk.last().0 >= cutoff);
        let i = chunk.index_of(p);
        let last = chunk.len() - 1;
        assert(crate::series::bucket(chunk[i].0, window) == crate::series::bucket(
            chunk[0].0,
            window,
        ));
        assert(crate::series::bucket(chunk[last].0, window) == crate::series::bucket(
            chunk[0].0,
            window,
        ));
        let w = window as int;
        let a = p.0 as int;
        let b = chunk.last().0 as int;
        vstd::arithmetic::div_mod::lemma_fundamental_div_mod(a, w);
        vstd::arithmetic::div_mod::lemma_fundamental_div_mod(b, w);
        vstd::arithmetic::div_mod::lemma_mod_bound(a, w);
        vstd::arithmetic::div_mod::lemma_mod_bound(b, w);
    }
}

/// A query reads the chunks that have a point from its beginning on and one
/// before its end, in order, and starts from the last value of the last chunk
/// that ends before its beginning.
pub proof fn queries_read_what_overlaps(
    sealed: Seq<Seq<Point>>,
    chunk: Seq<Point>,
    head: Seq<Point>,
    from: i64,
    to: i64,
)
    ensures
        overlapping(Seq::empty(), from, to) == Seq::<Seq<Point>>::empty(),
        overlapping(sealed.push(chunk), from, to) == if chunk.last().0 >= from && chunk[0].0 < to {
            overlapping(sealed, from, to).push(chunk)
        } else {
            overlapping(sealed, from, to)
        },
        value_before(Seq::empty(), from) is None,
        value_before(sealed.push(chunk), from) == if chunk.last().0 < from {
            Some(chunk.last().1)
        } else {
            value_before(sealed, from)
        },
        (SeriesModel { sealed, head }).read_chunks(from, to) == if head.len() > 0 && head[0].0
            < to {
            overlapping(sealed, from, to).push(head)
        } else {
            overlapping(sealed, from, to)
        },
        (SeriesModel { sealed, head }).read_seed(from) == if head.len() > 0 && head.last().0
            < from {
            Some(head.last().1)
        } else {
            value_before(sealed, from)
        },
{
    assert(sealed.push(chunk).drop_last() =~= sealed);
}

/// The size of a series is that of its chunks, each counted once.
pub proof fn series_size_adds_up(sealed: Seq<Seq<Point>>, chunk: Seq<Point>, head: Seq<Point>)
    ensures
        (SeriesModel { sealed: Seq::empty(), head }).size() == chunk_size(head),
        (SeriesModel { sealed: sealed.push(chunk), head }).size() == (SeriesModel {
            sealed,
            head,
        }).size() + chunk_size(chunk),
{
    assert(sealed.push(chunk).drop_last() =~= sealed);
}

// The store.

/// Bits are those of a finite number if they are below those of infinity,
/// whatever the sign.
pub proof fn finite_numbers_lie_below_infinity(bits: u64)
    ensures
        finite_bits(bits) <==> bits % 0x8000_0000_0000_0000 < 0x7ff0_0000_0000_0000,
{
    assert(bits / 0x10_0000_0000_0000 % 0x800 != 0x7ff <==> bits % 0x8000_0000_0000_0000
        < 0x7ff0_0000_0000_0000) by (bit_vector);
}

/// The cutoff lies one retention before now, or as early as can be told: a
/// timestamp is old if and only if it is older than the retention.
pub proof fn cutoff_lies_one_retention_back(now: i64, retention: i64, timestamp: i64)
    requires
        retention > 0,
    ensures
        now - retention >= i64::MIN ==> cutoff_at(now, retention) + retention == now,
        now - retention < i64::MIN ==> cutoff_at(now, retention) == i64::MIN,
        timestamp >= cutoff_at(now, retention) <==> timestamp >= now - retention,
{
}

/// A point is stored if and only if its value is finite, it is not older than
/// the retention, and its series is new, or has nothing left, or ends before
/// it in another time window or with a change of delta that fits 32 bits.
pub proof fn recent_finite_points_are_stored(
    catalog: Catalog,
    input: InputPoint,
    now: i64,
    retention: i64,
    window: i64,
)
    requires
        retention > 0,
    ensures
        stored(catalog, input, cutoff_at(now, retention), window) <==> {
            let head = catalog[input.name@].series.head;
            let last = head.len() - 1;
            let delta = input.timestamp - head[last].0;
            let before = if head.len() < 2 {
                0
            } else {
                head[last].0 - head[last - 1].0
            };
            &&& input.value % 0x8000_0000_0000_0000 < 0x7ff0_0000_0000_0000
            &&& input.timestamp >= now - retention
            &&& {
                ||| !catalog.contains_key(input.name@)
                ||| head.len() == 0
                ||| delta > 0 && input.timestamp as int / window as int != head[0].0 as int
                    / window as int
                ||| 0 < delta <= 0x7fff_ffff_ffff_ffff && -0x8000_0000 <= delta - before
                    <= 0x7fff_ffff
            }
        },
{
    finite_numbers_lie_below_infinity(input.value);
    cutoff_lies_one_retention_back(now, retention, input.timestamp);
    series_take_later_points(slot_of(catalog, input.name@).series, input.timestamp, window);
}

/// A finite point for a new name is stored at any time within the retention,
/// and is then all that its series holds.
pub proof fn new_names_are_stored(
    catalog: Catalog,
    input: InputPoint,
    now: i64,
    retention: i64,
    window: i64,
)
    requires
        retention > 0,
        !catalog.contains_key(input.name@),
        input.value % 0x8000_0000_0000_0000 < 0x7ff0_0000_0000_0000,
        input.timestamp >= now - retention,
    ensures
        stored(catalog, input, cutoff_at(now, retention), window),
        ingested(catalog, input, cutoff_at(now, retention), window).contains_key(input.name@),
        ingested(catalog, input, cutoff_at(now, retention), window)[input.name@].series.points()
            == seq![(input.timestamp, input.value)],
        ingested(catalog, input, cutoff_at(now, retention), window)[input.name@].holds == 0,
        stored_count(catalog, seq![input], cutoff_at(now, retention), window) == 1,
{
    let cutoff = cutoff_at(now, retention);
    recent_finite_points_are_stored(catalog, input, now, retention, window);
    let series = slot_of(catalog, input.name@).series;
    let after = ingested(catalog, input, cutoff, window)[input.name@].series;
    assert(after.points() =~= seq![(input.timestamp, input.value)]);
    batch_goes_point_by_point(catalog, Seq::empty(), input, cutoff, window);
    assert(Seq::<InputPoint>::empty().push(input) =~= seq![input]);
}

/// A point that is stored comes behind all others of its series, in which
/// only points before the cutoff make room for it. A point that is not stored
/// leaves everything as it was. No other series changes either way.
pub proof fn storing_changes_one_series(
    catalog: Catalog,
    input: InputPoint,
    cutoff: i64,
    window: i64,
) -> (dropped: int)
    requires
        catalog_valid(catalog, window),
    ensures
        !stored(catalog, input, cutoff, window) ==> ingested(catalog, input, cutoff, window)
            == catalog,
        stored(catalog, input, cutoff, window) ==> ({
            let after = ingested(catalog, input, cutoff, window);
            let old_points = if catalog.contains_key(input.name@) {
                catalog[input.name@].series.points()
            } else {
                Seq::empty()
            };
            &&& after.dom() == catalog.dom().insert(input.name@)
            &&& 0 <= dropped <= old_points.len()
            &&& after[input.name@].series.points() == old_points.skip(dropped).push(
                (input.timestamp, input.value),
            )
            &&& forall|i: int| 0 <= i < dropped ==> (#[trigger] old_points[i]).0 < cutoff
            &&& catalog.contains_key(input.name@) ==> after[input.name@].holds
                == catalog[input.name@].holds
            &&& forall|name: Seq<char>|
                name != input.name@ && #[trigger] catalog.contains_key(name) ==> after[name]
                    == catalog[name]
        }),
{
    let after = ingested(catalog, input, cutoff, window);
    let slot = slot_of(catalog, input.name@);
    if stored(catalog, input, cutoff, window) {
        let point = (input.timestamp, input.value);
        if !catalog.contains_key(input.name@) {
            assert(slot.series.points() =~= Seq::<Point>::empty());
        }
        let dropped = taken_point_comes_last(slot.series, point, cutoff, window);
        assert(after.dom() =~= catalog.dom().insert(input.name@));
        dropped
    } else {
        assert(after =~= catalog);
        0
    }
}

/// A batch is stored point by point, in its order, and each point that is
/// stored counts once.
pub proof fn batch_goes_point_by_point(
    catalog: Catalog,
    batch: Seq<InputPoint>,
    input: InputPoint,
    cutoff: i64,
    window: i64,
)
    ensures
        ingested_all(catalog, Seq::empty(), cutoff, window) == catalog,
        ingested_all(catalog, batch.push(input), cutoff, window) == ingested(
            ingested_all(catalog, batch, cutoff, window),
            input,
            cutoff,
            window,
        ),
        stored_count(catalog, Seq::empty(), cutoff, window) == 0,
        stored_count(catalog, batch.push(input), cutoff, window) == stored_count(
            catalog,
            batch,
            cutoff,
            window,
        ) + if stored(
            ingested_all(catalog, batch, cutoff, window),
            input,
            cutoff,
            window,
        ) {
            1int
        } else {
            0int
        },
{
    assert(batch.push(input).drop_last() =~= batch);
}

/// A name is known after a batch if and only if it was known before or some
/// point of the batch has it, with a finite value and a time within the
/// retention.
pub proof fn recent_points_name_series(
    catalog: Catalog,
    batch: Seq<InputPoint>,
    now: i64,
    retention: i64,
    window: i64,
    name: Seq<char>,
)
    requires
        retention > 0,
    ensures
        ingested_all(catalog, batch, cutoff_at(now, retention), window).contains_key(name) <==> {
            ||| catalog.contains_key(name)
            ||| exists|i: int|
                0 <= i < batch.len() && (#[trigger] batch[i]).name@ == name && batch[i].value
                    % 0x8000_0000_0000_0000 < 0x7ff0_0000_0000_0000 && batch[i].timestamp >= now
                    - retention
        },
{
    let cutoff = cutoff_at(now, retention);
    storable_points_name_series(catalog, batch, cutoff, window, name);
    assert forall|i: int| 0 <= i < batch.len() implies (storable(#[trigger] batch[i], cutoff)
        <==> batch[i].value % 0x8000_0000_0000_0000 < 0x7ff0_0000_0000_0000 && batch[i].timestamp
        >= now - retention) by {
        finite_numbers_lie_below_infinity(batch[i].value);
        cutoff_lies_one_retention_back(now, retention, batch[i].timestamp);
    }
}

/// A sweep at `now` keeps a series if and only if it is held or its last
/// point is not older than the retention.
pub proof fn sweeps_keep_recent_series(
    catalog: Catalog,
    now: i64,
    retention: i64,
    window: i64,
    name: Seq<char>,
)
    requires
        catalog_valid(catalog, window),
        retention > 0,
    ensures
        swept(catalog, cutoff_at(now, retention)).contains_key(name) <==> {
            &&& catalog.contains_key(name)
            &&& {
                ||| catalog[name].holds > 0
                ||| catalog[name].series.points().len() > 0
                    && catalog[name].series.points().last().0 >= now - retention
            }
        },
{
    if catalog.contains_key(name) {
        let points = catalog[name].series.points();
        cutoff_lies_one_retention_back(now, retention, points.last().0);
        expiry_empties_old_series(catalog[name].series, cutoff_at(now, retention), window);
    }
}

/// A sweep at `now` keeps every point that is not older than the retention,
/// and none that is older than the retention and one time window. It drops
/// points at the front of a series only, and lets go of no hold.
pub proof fn sweeps_drop_old_points(
    catalog: Catalog,
    now: i64,
    retention: i64,
    window: i64,
    name: Seq<char>,
) -> (dropped: int)
    requires
        catalog_valid(catalog, window),
        retention > 0,
        window > 0,
        swept(catalog, cutoff_at(now, retention)).contains_key(name),
    ensures
        ({
            let points = catalog[name].series.points();
            let after = swept(catalog, cutoff_at(now, retention))[name];
            &&& 0 <= dropped <= points.len()
            &&& after.series.points() == points.skip(dropped)
            &&& forall|i: int|
                0 <= i < dropped ==> (#[trigger] points[i]).0 < now - retention
            &&& forall|i: int|
                dropped <= i < points.len() ==> (#[trigger] points[i]).0 > now - retention - window
            &&& after.holds == catalog[name].holds
        }),
{
    let cutoff = cutoff_at(now, retention);
    cutoff_lies_one_retention_back(now, retention, now);
    let series = catalog[name].series;
    let points = series.points();
    let dropped = expiry_drops_old_points(series, cutoff, window);
    let left = series.expired(cutoff).points();
    assert forall|i: int| 0 <= i < dropped implies (#[trigger] points[i]).0 < now - retention by {
        assert(points[i].0 < cutoff);
    }
    assert forall|i: int| dropped <= i < points.len() implies (#[trigger] points[i]).0 > now
        - retention - window by {
        assert(left[i - dropped] == points[i]);
        assert(left.contains(points[i]));
        expiry_bounds_age(series, cutoff, window, points[i]);
    }
    dropped
}

/// A series that is known can be held as often as can be counted. A hold
/// counts one up, a release one down, and neither changes anything else.
pub proof fn holds_are_counted(catalog: Catalog, name: Seq<char>)
    ensures
        can_hold(catalog, name) <==> catalog.contains_key(name) && catalog[name].holds
            + 1 <= usize::MAX,
        with_hold(catalog, name).dom() == catalog.dom(),
        with_release(catalog, name).dom() == catalog.dom(),
        forall|n: Seq<char>| #[trigger]
            catalog.contains_key(n) ==> {
                let held = with_hold(catalog, name)[n];
                let released = with_release(catalog, name)[n];
                &&& held.series == catalog[n].series
                &&& released.series == catalog[n].series
                &&& held.holds == if n == name && catalog[n].holds + 1 <= usize::MAX {
                    catalog[n].holds + 1
                } else {
                    catalog[n].holds
                }
                &&& released.holds == if n == name && catalog[n].holds > 0 {
                    catalog[n].holds - 1
                } else {
                    catalog[n].holds as int
                }
            },
{
    assert(with_hold(catalog, name).dom() =~= catalog.dom());
    assert(with_release(catalog, name).dom() =~= catalog.dom());
}

/// The totals of a store are zero for an empty one, and grow with each series
/// by the number of its points and of its bytes. They can be told if and only
/// if the numbers fit.
pub proof fn totals_add_up(catalog: Catalog, name: Seq<char>, slot: Slot)
    requires
        catalog.dom().finite(),
        !catalog.contains_key(name),
    ensures
        point_total(Map::empty()) == 0,
        byte_total(Map::empty()) == 0,
        point_total(catalog.insert(name, slot)) == point_total(catalog)
            + slot.series.points().len(),
        byte_total(catalog.insert(name, slot)) == byte_total(catalog) + slot.series.size(),
        countable(catalog) <==> catalog.dom().len() <= usize::MAX && point_total(catalog)
            <= usize::MAX && byte_total(catalog) <= usize::MAX,
{
    lemma_totals_insert(catalog, name, slot);
    crate::catalog::lemma_totals_empty();
}

} // verus!
