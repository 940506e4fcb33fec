//! One series: its sealed chunks, oldest first, and the head chunk that takes
//! new points. A chunk holds the points of one time window.
use crate::bits::{bits_of, padded};
use crate::codec::{
    accepts, chunk_bits, chunk_points, chunk_size, chunk_timestamps_increase, encodable, Point,
};
use crate::gorilla::ChunkEncoder;
use crate::resample::{
    concatenated, latest_before, lemma_last_in_concat, lemma_last_in_none, lemma_rows_cover,
    or_else, ordered, resample, row_count, row_end, rows, snapshot_chunks_of, ChunkSnapshot,
};
use std::collections::VecDeque;
use vstd::prelude::*;
use vstd::slice::slice_to_vec;

verus! {

/// The points of a series, as they are divided into chunks.
#[verifier::ext_equal]
pub struct SeriesModel {
    pub sealed: Seq<Seq<Point>>,
    pub head: Seq<Point>,
}

/// The number of the time window in which a timestamp lies.
pub open spec fn bucket(timestamp: i64, window: i64) -> int {
    timestamp as int / window as int
}

/// Whether a chunk is not empty, can be encoded, and stays within one window.
pub open spec fn chunk_valid(chunk: Seq<Point>, window: i64) -> bool {
    &&& chunk.len() > 0
    &&& encodable(chunk)
    &&& forall|i: int|
        0 <= i < chunk.len() ==> bucket(#[trigger] chunk[i].0, window) == bucket(
            chunk[0].0,
            window,
        )
}

/// Whether chunks are valid and each comes after the one before it.
pub open spec fn chunks_valid(chunks: Seq<Seq<Point>>, window: i64) -> bool {
    &&& forall|i: int| 0 <= i < chunks.len() ==> chunk_valid(#[trigger] chunks[i], window)
    &&& forall|i: int, j: int|
        0 <= i < j < chunks.len() ==> (#[trigger] chunks[i]).last().0 < (#[trigger] chunks[j])[0].0
}

/// What is left of a list of chunks when those at its front that end before
/// `cutoff` are dropped.
pub open spec fn unexpired(chunks: Seq<Seq<Point>>, cutoff: i64) -> Seq<Seq<Point>>
    decreases chunks.len(),
{
    if chunks.len() > 0 && chunks[0].last().0 < cutoff {
        unexpired(chunks.drop_first(), cutoff)
    } else {
        chunks
    }
}

/// The chunks that have a point from `from` on and begin before `to`.
pub open spec fn overlapping(chunks: Seq<Seq<Point>>, from: i64, to: i64) -> Seq<Seq<Point>>
    decreases chunks.len(),
{
    if chunks.len() == 0 {
        Seq::empty()
    } else {
        let before = overlapping(chunks.drop_last(), from, to);
        let last = chunks.last();
        if last.last().0 >= from && last[0].0 < to {
            before.push(last)
        } else {
            before
        }
    }
}

/// The last value of the last chunk that ends before `from`.
pub open spec fn value_before(chunks: Seq<Seq<Point>>, from: i64) -> Option<u64>
    decreases chunks.len(),
{
    if chunks.len() == 0 {
        None
    } else if chunks.last().last().0 < from {
        Some(chunks.last().last().1)
    } else {
        value_before(chunks.drop_last(), from)
    }
}

/// The number of bytes that a list of chunks takes.
pub open spec fn total_size(chunks: Seq<Seq<Point>>) -> nat
    decreases chunks.len(),
{
    if chunks.len() == 0 {
        0
    } else {
        total_size(chunks.drop_last()) + chunk_size(chunks.last())
    }
}

impl SeriesModel {
    pub open spec fn empty() -> SeriesModel {
        SeriesModel { sealed: Seq::empty(), head: Seq::empty() }
    }

    pub open spec fn is_empty(self) -> bool {
        self.sealed.len() == 0 && self.head.len() == 0
    }

    /// All points, oldest first.
    pub open spec fn points(self) -> Seq<Point> {
        concatenated(self.sealed) + self.head
    }

    /// The number of bytes that all chunks take.
    pub open spec fn size(self) -> nat {
        total_size(self.sealed) + chunk_size(self.head)
    }

    /// Chunks are in order and each stays within one window. There is nothing
    /// sealed without a head.
    pub open spec fn valid(self, window: i64) -> bool {
        if self.head.len() == 0 {
            self.sealed.len() == 0
        } else {
            chunks_valid(self.sealed.push(self.head), window)
        }
    }

    /// Whether a point is taken: its timestamp follows the last one, and it
    /// either opens a new window or lies close enough for the head chunk.
    pub open spec fn takes(self, timestamp: i64, window: i64) -> bool {
        ||| self.head.len() == 0
        ||| self.opens_window(timestamp, window)
        ||| accepts(self.head, timestamp)
    }

    /// Whether a timestamp follows the last one in a later window.
    pub open spec fn opens_window(self, timestamp: i64, window: i64) -> bool {
        &&& self.head.len() > 0
        &&& timestamp > self.head.last().0
        &&& bucket(timestamp, window) != bucket(self.head[0].0, window)
    }

    /// The series after a point was offered. A point in a later window seals
    /// the head, and drops the chunks that end before `cutoff`.
    pub open spec fn offered(self, point: Point, cutoff: i64, window: i64) -> SeriesModel {
        if !self.takes(point.0, window) {
            self
        } else if self.opens_window(point.0, window) {
            SeriesModel {
                sealed: unexpired(self.sealed.push(self.head), cutoff),
                head: seq![point],
            }
        } else {
            SeriesModel { sealed: self.sealed, head: self.head.push(point) }
        }
    }

    /// The series without the chunks that end before `cutoff`.
    pub open spec fn expired(self, cutoff: i64) -> SeriesModel {
        SeriesModel {
            sealed: unexpired(self.sealed, cutoff),
            head: if self.head.len() > 0 && self.head.last().0 < cutoff {
                Seq::empty()
            } else {
                self.head
            },
        }
    }

    /// What a query answers: nothing for a range or step that makes no sense
    /// or no rows that can be counted, else one row per step.
    pub open spec fn answer(self, from: i64, to: i64, step: i64) -> Seq<(i64, Option<u64>)> {
        if step <= 0 || to <= from || to - from > i64::MAX || row_count(
            from as int,
            to as int,
            step as int,
        ) > usize::MAX {
            Seq::empty()
        } else {
            rows(self.points(), from as int, to as int, step as int)
        }
    }
}

// What holds of chunks.

pub proof fn lemma_unexpired_suffix(chunks: Seq<Seq<Point>>, cutoff: i64) -> (count: int)
    ensures
        0 <= count <= chunks.len(),
        unexpired(chunks, cutoff) == chunks.skip(count),
        forall|i: int| 0 <= i < count ==> (#[trigger] chunks[i]).last().0 < cutoff,
        count < chunks.len() ==> chunks[count].last().0 >= cutoff,
    decreases chunks.len(),
{
    if chunks.len() > 0 && chunks[0].last().0 < cutoff {
        let rest = chunks.drop_first();
        let more = lemma_unexpired_suffix(rest, cutoff);
        assert(rest.skip(more) =~= chunks.skip(more + 1));
        assert forall|i: int| 0 <= i < more + 1 implies (#[trigger] chunks[i]).last().0
            < cutoff by {
            if i > 0 {
                assert(rest[i - 1] == chunks[i]);
            }
        }
        more + 1
    } else {
        assert(chunks.skip(0) =~= chunks);
        0
    }
}

/// A chunk ends no earlier than it begins.
pub proof fn lemma_chunk_span(chunk: Seq<Point>, window: i64)
    requires
        chunk_valid(chunk, window),
    ensures
        chunk[0].0 <= chunk.last().0,
        ordered(chunk),
{
    chunk_timestamps_increase(chunk);
}

proof fn lemma_single_point_valid(point: Point, window: i64)
    ensures
        chunk_valid(seq![point], window),
{
    assert(seq![point].drop_last() =~= Seq::<Point>::empty());
    assert(encodable(Seq::<Point>::empty()));
}

/// Points that increase strictly within one window are no more than the
/// window has milliseconds.
proof fn lemma_window_bounds_len(points: Seq<Point>, window: i64)
    requires
        window > 0,
        points.len() > 0,
        ordered(points),
        bucket(points.last().0, window) == bucket(points[0].0, window),
    ensures
        points.len() <= window,
{
    lemma_ordered_span(points);
    let w = window as int;
    let a = points[0].0 as int;
    let b = points.last().0 as int;
    vstd::arithmetic::div_mod::lemma_fundamental_div_mod(a, w);
    vstd::arithmetic::div_mod::lemma_fundamental_div_mod(b, w);
    vstd::arithmetic::div_mod::lemma_mod_bound(a, w);
    vstd::arithmetic::div_mod::lemma_mod_bound(b, w);
}

proof fn lemma_ordered_span(points: Seq<Point>)
    requires
        points.len() > 0,
        ordered(points),
    ensures
        points.last().0 - points[0].0 >= points.len() - 1,
    decreases points.len(),
{
    if points.len() > 1 {
        lemma_ordered_span(points.drop_last());
        assert(points[points.len() - 2].0 < points[points.len() - 1].0);
    }
}

/// Offering a point keeps a series valid.
pub proof fn offering_keeps_order(
    series: SeriesModel,
    point: Point,
    cutoff: i64,
    window: i64,
)
    requires
        series.valid(window),
        window > 0,
    ensures
        series.offered(point, cutoff, window).valid(window),
{
    let next = series.offered(point, cutoff, window);
    let chunks = series.sealed.push(series.head);
    if series.takes(point.0, window) {
        lemma_single_point_valid(point, window);
        if series.opens_window(point.0, window) {
            let count = lemma_unexpired_suffix(chunks, cutoff);
            let all = next.sealed.push(next.head);
            assert forall|i: int| 0 <= i < all.len() implies chunk_valid(
                #[trigger] all[i],
                window,
            ) by {
                if i < all.len() - 1 {
                    assert(all[i] == chunks[count + i]);
                }
            }
            assert forall|i: int, j: int| 0 <= i < j < all.len() implies (
            #[trigger] all[i]).last().0 < (#[trigger] all[j])[0].0 by {
                assert(all[i] == chunks[count + i]);
                if j < all.len() - 1 {
                    assert(all[j] == chunks[count + j]);
                } else {
                    let last = chunks[chunks.len() - 1];
                    if count + i < chunks.len() - 1 {
                        lemma_chunk_span(last, window);
                        assert(chunks[count + i].last().0 < last[0].0);
                    }
                }
            }
        } else if series.head.len() == 0 {
            let all = next.sealed.push(next.head);
            assert(series.head =~= Seq::<Point>::empty());
            assert(next.head =~= seq![point]);
        } else {
            let all = next.sealed.push(next.head);
            assert(next.head.drop_last() =~= series.head);
            assert(chunk_valid(chunks[chunks.len() - 1], window));
            assert forall|i: int| 0 <= i < next.head.len() implies bucket(
                #[trigger] next.head[i].0,
                window,
            ) == bucket(next.head[0].0, window) by {
                if i < series.head.len() {
                    assert(next.head[i] == series.head[i]);
                }
            }
            assert(chunk_valid(next.head, window));
            assert forall|i: int| 0 <= i < all.len() implies chunk_valid(
                #[trigger] all[i],
                window,
            ) by {
                if i < all.len() - 1 {
                    assert(all[i] == chunks[i]);
                }
            }
            assert forall|i: int, j: int| 0 <= i < j < all.len() implies (
            #[trigger] all[i]).last().0 < (#[trigger] all[j])[0].0 by {
                assert(all[i] == chunks[i]);
                assert(all[j][0] == chunks[j][0]);
            }
        }
    }
}

/// Expiry keeps a series valid.
pub proof fn expiry_keeps_order(series: SeriesModel, cutoff: i64, window: i64)
    requires
        series.valid(window),
    ensures
        series.expired(cutoff).valid(window),
{
    let next = series.expired(cutoff);
    let chunks = series.sealed.push(series.head);
    let count = lemma_unexpired_suffix(series.sealed, cutoff);
    if series.head.len() > 0 {
        let head = chunks[chunks.len() - 1];
        lemma_chunk_span(head, window);
        if head.last().0 < cutoff {
            if count < series.sealed.len() {
                assert(chunks[count].last().0 < head[0].0);
            }
        } else {
            let all = next.sealed.push(next.head);
            assert(all =~= chunks.skip(count));
        }
    }
}

/// Valid chunks stay valid without the last one.
proof fn lemma_chunks_valid_init(chunks: Seq<Seq<Point>>, window: i64)
    requires
        chunks.len() > 0,
        chunks_valid(chunks, window),
    ensures
        chunks_valid(chunks.drop_last(), window),
{
    let before = chunks.drop_last();
    assert forall|i: int| 0 <= i < before.len() implies chunk_valid(
        #[trigger] before[i],
        window,
    ) by {
        assert(before[i] == chunks[i]);
    }
    assert forall|i: int, j: int| 0 <= i < j < before.len() implies (
    #[trigger] before[i]).last().0 < (#[trigger] before[j])[0].0 by {
        assert(before[i] == chunks[i] && before[j] == chunks[j]);
    }
}

/// The points of valid chunks, taken together, are in order.
proof fn lemma_concatenated_ordered(chunks: Seq<Seq<Point>>, window: i64)
    requires
        chunks_valid(chunks, window),
    ensures
        ordered(concatenated(chunks)),
        chunks.len() > 0 ==> forall|i: int|
            0 <= i < concatenated(chunks).len() ==> #[trigger] concatenated(chunks)[i].0
                <= chunks.last().last().0,
    decreases chunks.len(),
{
    if chunks.len() > 0 {
        let before = chunks.drop_last();
        let last = chunks.last();
        lemma_chunks_valid_init(chunks, window);
        lemma_concatenated_ordered(before, window);
        assert(last == chunks[chunks.len() - 1]);
        lemma_chunk_span(last, window);
        let a = concatenated(before);
        let all = concatenated(chunks);
        if before.len() > 0 {
            assert(before.last() == chunks[before.len() - 1]);
            assert(before.last().last().0 < last[0].0);
        }
        assert forall|i: int, j: int| 0 <= i < j < all.len() implies all[i].0 < all[j].0 by {
            if j < a.len() {
                assert(a[i].0 < a[j].0);
            } else {
                assert(all[j] == last[j - a.len()]);
                if i < a.len() {
                    assert(all[i] == a[i]);
                    assert(last[0].0 <= last[j - a.len()].0);
                } else {
                    assert(all[i] == last[i - a.len()]);
                }
            }
        }
        assert forall|i: int| 0 <= i < all.len() implies #[trigger] all[i].0
            <= last.last().0 by {
            if i < a.len() {
                assert(all[i] == a[i]);
            } else {
                assert(all[i] == last[i - a.len()]);
            }
        }
    }
}

/// The points of a valid series are in order.
pub proof fn series_points_ordered(series: SeriesModel, window: i64)
    requires
        series.valid(window),
    ensures
        ordered(series.points()),
{
    if series.head.len() == 0 {
        assert(series.points() =~= Seq::<Point>::empty());
    } else {
        let chunks = series.sealed.push(series.head);
        lemma_concatenated_ordered(chunks, window);
        assert(chunks.drop_last() =~= series.sealed);
    }
}

/// The chunks that overlap a range are some of the chunks, in order.
proof fn lemma_overlapping_valid(chunks: Seq<Seq<Point>>, from: i64, to: i64, window: i64)
    requires
        chunks_valid(chunks, window),
    ensures
        chunks_valid(overlapping(chunks, from, to), window),
        forall|i: int|
            0 <= i < overlapping(chunks, from, to).len() ==> chunks.contains(
                #[trigger] overlapping(chunks, from, to)[i],
            ) && overlapping(chunks, from, to)[i].last().0 >= from,
    decreases chunks.len(),
{
    if chunks.len() > 0 {
        let before = chunks.drop_last();
        let last = chunks.last();
        assert(chunks[chunks.len() - 1] == last);
        lemma_chunks_valid_init(chunks, window);
        lemma_overlapping_valid(before, from, to, window);
        let some = overlapping(before, from, to);
        let all = overlapping(chunks, from, to);
        assert forall|i: int| 0 <= i < all.len() implies chunks.contains(#[trigger] all[i])
            && all[i].last().0 >= from by {
            if i < some.len() {
                assert(all[i] == some[i]);
                let k = choose|k: int| 0 <= k < before.len() && before[k] == some[i];
                assert(chunks[k] == some[i]);
            }
        }
        assert forall|i: int| 0 <= i < all.len() implies chunk_valid(#[trigger] all[i], window) by {
            if i < some.len() {
                assert(all[i] == some[i]);
            }
        }
        assert forall|i: int, j: int| 0 <= i < j < all.len() implies (
        #[trigger] all[i]).last().0 < (#[trigger] all[j])[0].0 by {
            assert(all[i] == some[i]);
            if j < some.len() {
                assert(all[j] == some[j]);
            } else {
                let k = choose|k: int| 0 <= k < before.len() && before[k] == some[i];
                assert(chunks[k] == some[i]);
                assert(chunks[k].last().0 < chunks[chunks.len() - 1][0].0);
            }
        }
    }
}

/// Before any time within a range, the latest value of all chunks is that of
/// the chunks that overlap the range, or else that of the last chunk before
/// it.
proof fn lemma_overlapping_suffices(
    chunks: Seq<Seq<Point>>,
    from: i64,
    to: i64,
    time: int,
    window: i64,
)
    requires
        chunks_valid(chunks, window),
        from <= time <= to,
    ensures
        latest_before(concatenated(chunks), time) == or_else(
            latest_before(concatenated(overlapping(chunks, from, to)), time),
            value_before(chunks, from),
        ),
    decreases chunks.len(),
{
    if chunks.len() > 0 {
        let before = chunks.drop_last();
        let last = chunks.last();
        let low = i64::MIN as int;
        assert(chunks[chunks.len() - 1] == last);
        lemma_chunks_valid_init(chunks, window);
        lemma_overlapping_suffices(before, from, to, time, window);
        lemma_chunk_span(last, window);
        lemma_last_in_concat(concatenated(before), last, low, time);
        let some = overlapping(before, from, to);
        let all = overlapping(chunks, from, to);
        if last.last().0 < from {
            lemma_overlapping_valid(before, from, to, window);
            if some.len() > 0 {
                let k = choose|k: int| 0 <= k < before.len() && before[k] == some[0];
                assert(chunks[k] == some[0]);
                assert(chunks[k].last().0 < chunks[chunks.len() - 1][0].0);
                assert(false);
            }
            assert(concatenated(some) =~= Seq::<Point>::empty());
        } else if last[0].0 < to {
            assert(all.drop_last() =~= some);
            lemma_last_in_concat(concatenated(some), last, low, time);
        } else {
            assert forall|i: int| 0 <= i < last.len() implies !(low <= #[trigger] last[i].0
                < time) by {
                assert(last[0].0 <= last[i].0);
            }
            lemma_last_in_none(last, low, time);
        }
    }
}

impl SeriesModel {
    /// The chunks that a query over a range reads.
    pub open spec fn read_chunks(self, from: i64, to: i64) -> Seq<Seq<Point>> {
        let sealed = overlapping(self.sealed, from, to);
        if self.head.len() > 0 && self.head[0].0 < to {
            sealed.push(self.head)
        } else {
            sealed
        }
    }

    /// The value that a query starts from.
    pub open spec fn read_seed(self, from: i64) -> Option<u64> {
        if self.head.len() > 0 && self.head.last().0 < from {
            Some(self.head.last().1)
        } else {
            value_before(self.sealed, from)
        }
    }
}

/// The chunks that a query reads, and the value that it starts from, are
/// enough to answer it.
proof fn lemma_reading_suffices(series: SeriesModel, from: i64, to: i64, time: int, window: i64)
    requires
        series.valid(window),
        from <= time <= to,
        from < to,
    ensures
        latest_before(series.points(), time) == or_else(
            latest_before(concatenated(series.read_chunks(from, to)), time),
            series.read_seed(from),
        ),
        ordered(concatenated(series.read_chunks(from, to))),
{
    let low = i64::MIN as int;
    let head = series.head;
    let chunks = series.sealed.push(head);
    let some = overlapping(series.sealed, from, to);
    let read = series.read_chunks(from, to);
    if head.len() == 0 {
        assert(series.points() =~= Seq::<Point>::empty());
        assert(concatenated(read) =~= Seq::<Point>::empty());
    } else {
        assert(chunks[chunks.len() - 1] == head);
        lemma_chunks_valid_init(chunks, window);
        assert(chunks.drop_last() =~= series.sealed);
        lemma_chunk_span(head, window);
        lemma_overlapping_valid(series.sealed, from, to, window);
        lemma_overlapping_suffices(series.sealed, from, to, time, window);
        lemma_last_in_concat(concatenated(series.sealed), head, low, time);
        if head[0].0 < to {
            assert(read.drop_last() =~= some);
            lemma_last_in_concat(concatenated(some), head, low, time);
            assert forall|i: int| 0 <= i < read.len() implies chunk_valid(
                #[trigger] read[i],
                window,
            ) by {
                if i < some.len() {
                    assert(read[i] == some[i]);
                }
            }
            assert forall|i: int, j: int| 0 <= i < j < read.len() implies (
            #[trigger] read[i]).last().0 < (#[trigger] read[j])[0].0 by {
                assert(read[i] == some[i]);
                if j < some.len() {
                    assert(read[j] == some[j]);
                } else {
                    let k = choose|k: int|
                        0 <= k < series.sealed.len() && series.sealed[k] == some[i];
                    assert(chunks[k] == some[i]);
                    assert(chunks[k].last().0 < chunks[chunks.len() - 1][0].0);
                }
            }
        } else {
            assert forall|i: int| 0 <= i < head.len() implies !(low <= #[trigger] head[i].0
                < time) by {
                assert(head[0].0 <= head[i].0);
            }
            lemma_last_in_none(head, low, time);
        }
        lemma_concatenated_ordered(read, window);
    }
}

/// A chunk that takes no more points.
pub struct SealedChunk {
    start_ts: i64,
    end_ts: i64,
    last_value: u64,
    bytes: Vec<u8>,
    num_points: usize,
}

impl View for SealedChunk {
    type V = Seq<Point>;

    closed spec fn view(&self) -> Seq<Point> {
        chunk_points(bits_of(self.bytes@), self.num_points as nat)
    }
}

impl SealedChunk {
    /// The bytes are the encoding of the points, and the other fields
    /// describe the ends of the chunk.
    pub closed spec fn wf(&self) -> bool {
        &&& self@.len() > 0
        &&& self@.len() == self.num_points
        &&& bits_of(self.bytes@) == padded(chunk_bits(self@))
        &&& self.start_ts == self@[0].0
        &&& self.end_ts == self@.last().0
        &&& self.last_value == self@.last().1
    }
}

/// The chunk that takes new points.
pub struct HeadChunk {
    /// The number of the time window of its points.
    bucket: i64,
    encoder: ChunkEncoder,
}

impl HeadChunk {
    pub closed spec fn wf(&self, window: i64) -> bool {
        &&& self.encoder.wf()
        &&& self.encoder@.len() > 0 ==> self.bucket == bucket(self.encoder@[0].0, window)
    }

    fn empty() -> (head: Self)
        ensures
            head.encoder.wf(),
            head.encoder@ == Seq::<Point>::empty(),
    {
        HeadChunk { bucket: 0, encoder: ChunkEncoder::new() }
    }

    fn new(bucket: i64) -> (head: Self)
        ensures
            head.encoder.wf(),
            head.encoder@ == Seq::<Point>::empty(),
            head.bucket == bucket,
    {
        HeadChunk { bucket, encoder: ChunkEncoder::new() }
    }
}

/// The points of each chunk in a list.
spec fn chunk_list(chunks: Seq<SealedChunk>) -> Seq<Seq<Point>> {
    Seq::new(chunks.len(), |i: int| chunks[i]@)
}

/// A series of points in compressed chunks.
pub struct Series {
    head: HeadChunk,
    sealed: VecDeque<SealedChunk>,
}

impl View for Series {
    type V = SeriesModel;

    closed spec fn view(&self) -> SeriesModel {
        SeriesModel { sealed: chunk_list(self.sealed@), head: self.head.encoder@ }
    }
}

impl Series {
    /// All chunks are well formed, and in order for the window.
    pub closed spec fn wf(&self, window: i64) -> bool {
        &&& self.head.wf(window)
        &&& forall|i: int| 0 <= i < self.sealed@.len() ==> (#[trigger] self.sealed@[i]).wf()
        &&& self@.valid(window)
    }

    pub proof fn lemma_valid(&self, window: i64)
        requires
            self.wf(window),
        ensures
            self@.valid(window),
    {
    }

    pub fn new() -> (series: Self)
        ensures
            forall|window: i64| series.wf(window),
            series@ == SeriesModel::empty(),
    {
        let series = Series { head: HeadChunk::empty(), sealed: VecDeque::new() };
        assert(series@ =~= SeriesModel::empty());
        series
    }

    /// Offers a point to the series. Returns whether it was taken.
    pub fn append(&mut self, timestamp: i64, value: u64, cutoff: i64, window: i64) -> (taken: bool)
        requires
            old(self).wf(window),
            0 < window <= usize::MAX,
        ensures
            final(self).wf(window),
            taken == old(self)@.takes(timestamp, window),
            final(self)@ == old(self)@.offered((timestamp, value), cutoff, window),
    {
        let ghost before = self@;
        let ghost point = (timestamp, value);
        proof {
            offering_keeps_order(before, point, cutoff, window);
            lemma_bucket_fits(timestamp, window);
        }
        let number: i64 = match timestamp.checked_div_euclid(window) {
            Some(number) => number,
            None => 0,
        };
        assert(number == bucket(timestamp, window));
        if let Some(last_ts) = self.head.encoder.last_ts() {
            if timestamp <= last_ts {
                return false;
            }
        }
        if self.head.encoder.num_points() == 0 {
            self.head.bucket = number;
        } else if number != self.head.bucket {
            self.seal(number);
            self.drop_expired(cutoff);
        }
        let ghost head = self.head.encoder@;
        proof {
            if head.len() > 0 {
                let chunks = before.sealed.push(before.head);
                assert(chunks[chunks.len() - 1] == before.head);
                lemma_chunk_span(before.head, window);
                let longer = head.push(point);
                lemma_window_bounds_len(longer, window);
            }
        }
        let taken: bool = self.head.encoder.append(timestamp, value).is_ok();
        assert(self@ =~= before.offered(point, cutoff, window));
        taken
    }

    /// Seals the head and begins an empty one for window `number`.
    fn seal(&mut self, number: i64)
        requires
            old(self).head.encoder.wf(),
            old(self).head.encoder@.len() > 0,
            forall|i: int|
                0 <= i < old(self).sealed@.len() ==> (#[trigger] old(self).sealed@[i]).wf(),
        ensures
            final(self).head.encoder.wf(),
            final(self).head.bucket == number,
            forall|i: int|
                0 <= i < final(self).sealed@.len() ==> (#[trigger] final(self).sealed@[i]).wf(),
            final(self)@ == (SeriesModel {
                sealed: old(self)@.sealed.push(old(self)@.head),
                head: Seq::empty(),
            }),
    {
        let mut full = HeadChunk::new(number);
        std::mem::swap(&mut full, &mut self.head);
        let ghost points = full.encoder@;
        let start_ts: i64 = match full.encoder.first_ts() {
            Some(timestamp) => timestamp,
            None => 0,
        };
        let end_ts: i64 = match full.encoder.last_ts() {
            Some(timestamp) => timestamp,
            None => 0,
        };
        let last_value: u64 = match full.encoder.last_value() {
            Some(value) => value,
            None => 0,
        };
        let num_points: usize = full.encoder.num_points();
        let bytes: Vec<u8> = full.encoder.into_bytes();
        let chunk = SealedChunk { start_ts, end_ts, last_value, bytes, num_points };
        assert(chunk@ == points);
        self.sealed.push_back(chunk);
        assert(self@ =~= (SeriesModel {
            sealed: old(self)@.sealed.push(old(self)@.head),
            head: Seq::empty(),
        }));
    }

    /// Drops the sealed chunks at the front that end before `cutoff`.
    fn drop_expired(&mut self, cutoff: i64)
        requires
            forall|i: int|
                0 <= i < old(self).sealed@.len() ==> (#[trigger] old(self).sealed@[i]).wf(),
        ensures
            final(self).head == old(self).head,
            forall|i: int|
                0 <= i < final(self).sealed@.len() ==> (#[trigger] final(self).sealed@[i]).wf(),
            final(self)@.sealed == unexpired(old(self)@.sealed, cutoff),
    {
        while self.sealed.len() > 0 && self.sealed[0].end_ts < cutoff
            invariant
                self.head == old(self).head,
                forall|i: int|
                    0 <= i < self.sealed@.len() ==> (#[trigger] self.sealed@[i]).wf(),
                unexpired(self@.sealed, cutoff) == unexpired(old(self)@.sealed, cutoff),
            decreases self.sealed@.len(),
        {
            let ghost list = self.sealed@;
            assert(list[0].wf());
            let _ = self.sealed.pop_front();
            assert forall|i: int| 0 <= i < self.sealed@.len() implies (
            #[trigger] self.sealed@[i]).wf() by {
                assert(self.sealed@[i] == list[i + 1]);
            }
            assert(chunk_list(self.sealed@) =~= chunk_list(list).drop_first());
        }
        proof {
            if self.sealed@.len() > 0 {
                assert(self.sealed@[0].wf());
            }
        }
    }

    /// The number of sealed chunks.
    pub fn sealed_len(&self) -> (count: usize)
        ensures
            count == self@.sealed.len(),
    {
        self.sealed.len()
    }

    /// Drops what ends before `cutoff`. Returns whether nothing is left.
    pub fn expire_and_is_empty(&mut self, cutoff: i64) -> (empty: bool)
        requires
            exists|window: i64| old(self).wf(window),
        ensures
            forall|window: i64| old(self).wf(window) ==> #[trigger] final(self).wf(window),
            final(self)@ == old(self)@.expired(cutoff),
            empty == final(self)@.is_empty(),
    {
        self.drop_expired(cutoff);
        if let Some(last_ts) = self.head.encoder.last_ts() {
            if last_ts < cutoff {
                self.head = HeadChunk::empty();
            }
        }
        assert(self@ =~= old(self)@.expired(cutoff));
        assert forall|window: i64| old(self).wf(window) implies #[trigger] self.wf(window) by {
            expiry_keeps_order(old(self)@, cutoff, window);
        }
        self.head.encoder.num_points() == 0 && self.sealed.len() == 0
    }

    /// Copies out what a query over a range needs: the value before the range,
    /// where it comes from a chunk that ends before the range, and the chunks
    /// that hold the rest.
    pub fn snapshot_chunks(&self, from: i64, to: i64) -> (snapshot: (
        Option<u64>,
        Vec<ChunkSnapshot>,
    ))
        requires
            exists|window: i64| self.wf(window),
        ensures
            snapshot.0 == self@.read_seed(from),
            snapshot_chunks_of(snapshot.1@) == self@.read_chunks(from, to),
    {
        let ghost list = chunk_list(self.sealed@);
        let mut seed: Option<u64> = None;
        let mut chunks: Vec<ChunkSnapshot> = Vec::new();
        let mut i: usize = 0;
        assert(list.take(0) =~= Seq::<Seq<Point>>::empty());
        assert(snapshot_chunks_of(chunks@) =~= Seq::<Seq<Point>>::empty());
        while i < self.sealed.len()
            invariant
                i <= self.sealed@.len(),
                list == chunk_list(self.sealed@),
                forall|k: int|
                    0 <= k < self.sealed@.len() ==> (#[trigger] self.sealed@[k]).wf(),
                seed == value_before(list.take(i as int), from),
                snapshot_chunks_of(chunks@) == overlapping(list.take(i as int), from, to),
            decreases self.sealed@.len() - i,
        {
            let chunk = &self.sealed[i];
            assert(self.sealed@[i as int].wf());
            assert(list.take(i + 1).drop_last() =~= list.take(i as int));
            assert(list.take(i + 1).last() == chunk@);
            if chunk.end_ts < from {
                seed = Some(chunk.last_value);
            }
            if chunk.end_ts >= from && chunk.start_ts < to {
                let ghost before = chunks@;
                let snapshot = ChunkSnapshot {
                    bytes: slice_to_vec(chunk.bytes.as_slice()),
                    num_points: chunk.num_points,
                };
                assert(snapshot@ == chunk@);
                chunks.push(snapshot);
                assert(snapshot_chunks_of(chunks@) =~= snapshot_chunks_of(before).push(chunk@));
            }
            i = i + 1;
        }
        assert(list.take(i as int) =~= list);
        if let Some(last_ts) = self.head.encoder.last_ts() {
            if last_ts < from {
                seed = self.head.encoder.last_value();
            }
        }
        if let Some(first_ts) = self.head.encoder.first_ts() {
            if first_ts < to {
                let ghost before = chunks@;
                let snapshot = ChunkSnapshot {
                    bytes: self.head.encoder.bytes(),
                    num_points: self.head.encoder.num_points(),
                };
                chunks.push(snapshot);
                assert(snapshot_chunks_of(chunks@) =~= snapshot_chunks_of(before).push(
                    self@.head,
                ));
            }
        }
        (seed, chunks)
    }

    /// Answers a query: for each step of the range the latest value before
    /// its end.
    pub fn query(&self, from: i64, to: i64, step: i64) -> (result: Vec<(i64, Option<u64>)>)
        requires
            exists|window: i64| self.wf(window),
        ensures
            result@ == self@.answer(from, to, step),
            step > 0 && from < to && to - from <= i64::MAX && (to - from - 1) / (step as int)
                < usize::MAX ==> result@.len() == (to - from - 1) / (step as int) + 1,
    {
        if step <= 0 || to <= from {
            return Vec::new();
        }
        let span: i64 = match to.checked_sub(from) {
            Some(span) => span,
            None => return Vec::new(),
        };
        let steps: u64 = (span - 1) as u64 / step as u64;
        assert(steps + 1 == row_count(from as int, to as int, step as int));
        if steps >= usize::MAX as u64 {
            return Vec::new();
        }
        let (seed, chunks) = self.snapshot_chunks(from, to);
        let ghost window = choose|window: i64| self.wf(window);
        let ghost read = concatenated(self@.read_chunks(from, to));
        proof {
            lemma_reading_suffices(self@, from, to, from as int, window);
        }
        let result = resample(seed, &chunks, from, to, step);
        proof {
            let f = from as int;
            let t = to as int;
            let s = step as int;
            assert forall|i: int| 0 <= i < row_count(f, t, s) implies or_else(
                latest_before(read, #[trigger] row_end(f, t, s, i)),
                seed,
            ) == latest_before(self@.points(), row_end(f, t, s, i)) by {
                lemma_rows_cover(f, t, s, i);
                assert((i + 1) * s == i * s + s) by (nonlinear_arith);
                lemma_reading_suffices(self@, from, to, row_end(f, t, s, i), window);
            }
            assert(result@ =~= rows(self@.points(), f, t, s));
        }
        result
    }

    /// Adds the number of points and the bytes of this series to two sums,
    /// if the sums can be represented.
    pub fn add_stats(&self, points: usize, bytes: usize) -> (sums: Option<(usize, usize)>)
        requires
            exists|window: i64| self.wf(window),
        ensures
            sums is Some <==> points + self@.points().len() <= usize::MAX && bytes + self@.size()
                <= usize::MAX,
            sums matches Some((p, b)) ==> p == points + self@.points().len() && b == bytes
                + self@.size(),
    {
        let ghost list = chunk_list(self.sealed@);
        let mut point_sum: usize = points;
        let mut byte_sum: usize = bytes;
        let mut i: usize = 0;
        assert(list.take(0) =~= Seq::<Seq<Point>>::empty());
        while i < self.sealed.len()
            invariant
                i <= self.sealed@.len(),
                list == chunk_list(self.sealed@),
                list == self@.sealed,
                forall|k: int|
                    0 <= k < self.sealed@.len() ==> (#[trigger] self.sealed@[k]).wf(),
                point_sum == points + concatenated(list.take(i as int)).len(),
                byte_sum == bytes + total_size(list.take(i as int)),
            decreases self.sealed@.len() - i,
        {
            let chunk = &self.sealed[i];
            proof {
                assert(self.sealed@[i as int].wf());
                assert(list.take(i + 1).drop_last() =~= list.take(i as int));
                assert(list.take(i + 1).last() == chunk@);
                assert(bits_of(chunk.bytes@).len() == padded(chunk_bits(chunk@)).len());
                lemma_sums_grow(list, i + 1);
            }
            match point_sum.checked_add(chunk.num_points) {
                Some(sum) => {
                    point_sum = sum;
                },
                None => return None,
            }
            match byte_sum.checked_add(chunk.bytes.len()) {
                Some(sum) => {
                    byte_sum = sum;
                },
                None => return None,
            }
            i = i + 1;
        }
        assert(list.take(i as int) =~= list);
        match point_sum.checked_add(self.head.encoder.num_points()) {
            Some(sum) => {
                point_sum = sum;
            },
            None => return None,
        }
        match byte_sum.checked_add(self.head.encoder.byte_size()) {
            Some(sum) => {
                byte_sum = sum;
            },
            None => return None,
        }
        Some((point_sum, byte_sum))
    }
}

/// A list of chunks has at least the points and the bytes of its first ones.
proof fn lemma_sums_grow(chunks: Seq<Seq<Point>>, count: int)
    requires
        0 <= count <= chunks.len(),
    ensures
        concatenated(chunks.take(count)).len() <= concatenated(chunks).len(),
        total_size(chunks.take(count)) <= total_size(chunks),
    decreases chunks.len(),
{
    if count == chunks.len() {
        assert(chunks.take(count) =~= chunks);
    } else {
        lemma_sums_grow(chunks.drop_last(), count);
        assert(chunks.drop_last().take(count) =~= chunks.take(count));
    }
}

/// The number of a window fits the type of its timestamps.
proof fn lemma_bucket_fits(timestamp: i64, window: i64)
    requires
        window > 0,
    ensures
        i64::MIN <= timestamp as int / window as int <= i64::MAX,
{
    let t = timestamp as int;
    let w = window as int;
    assert(i64::MIN <= t / w <= i64::MAX) by (nonlinear_arith)
        requires
            i64::MIN <= t <= i64::MAX,
            w >= 1,
    ;
}

} // verus!
