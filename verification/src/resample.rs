//! Turning points into a row of evenly spaced values.
use crate::bits::bits_of;
use crate::codec::{chunk_points, Point};
use crate::gorilla::ChunkDecoder;
use vstd::arithmetic::div_mod::lemma_div_is_ordered;
use vstd::arithmetic::div_mod::{lemma_fundamental_div_mod, lemma_mod_bound};
use vstd::prelude::*;

verus! {

/// Whether timestamps increase strictly.
pub open spec fn ordered(points: Seq<Point>) -> bool {
    forall|i: int, j: int| 0 <= i < j < points.len() ==> points[i].0 < points[j].0
}

/// `a`, or `b` where there is no `a`.
pub open spec fn or_else(a: Option<u64>, b: Option<u64>) -> Option<u64> {
    if a is Some {
        a
    } else {
        b
    }
}

/// The value of the last point whose timestamp lies from `low` up to, but not
/// including, `high`.
pub open spec fn last_in(points: Seq<Point>, low: int, high: int) -> Option<u64>
    decreases points.len(),
{
    if points.len() == 0 {
        None
    } else if low <= points.last().0 < high {
        Some(points.last().1)
    } else {
        last_in(points.drop_last(), low, high)
    }
}

/// The value of the last point before `time`.
pub open spec fn latest_before(points: Seq<Point>, time: int) -> Option<u64> {
    last_in(points, i64::MIN as int, time)
}

/// How many steps it takes to get from `from` to `to` or past it.
pub open spec fn row_count(from: int, to: int, step: int) -> int {
    (to - from - 1) / step + 1
}

/// Where row `i` begins.
pub open spec fn row_start(from: int, step: int, i: int) -> int {
    from + i * step
}

/// Where row `i` ends: one step on, or at the end of the range.
pub open spec fn row_end(from: int, to: int, step: int, i: int) -> int {
    if row_start(from, step, i + 1) < to {
        row_start(from, step, i + 1)
    } else {
        to
    }
}

/// One row per step from `from` to `to`. Each row has the time at which it
/// begins and the value of the latest point before its end.
pub open spec fn rows(points: Seq<Point>, from: int, to: int, step: int) -> Seq<
    (i64, Option<u64>),
> {
    rows_seeded(points, None, from, to, step)
}

/// The same, with a value that holds before the first of the points.
pub open spec fn rows_seeded(
    points: Seq<Point>,
    seed: Option<u64>,
    from: int,
    to: int,
    step: int,
) -> Seq<(i64, Option<u64>)> {
    Seq::new(
        row_count(from, to, step) as nat,
        |i: int|
            (
                row_start(from, step, i) as i64,
                or_else(latest_before(points, row_end(from, to, step, i)), seed),
            ),
    )
}

/// All points of a list of chunks.
pub open spec fn concatenated(chunks: Seq<Seq<Point>>) -> Seq<Point>
    decreases chunks.len(),
{
    if chunks.len() == 0 {
        Seq::empty()
    } else {
        concatenated(chunks.drop_last()) + chunks.last()
    }
}

pub proof fn lemma_last_in_push(points: Seq<Point>, point: Point, low: int, high: int)
    ensures
        last_in(points.push(point), low, high) == if low <= point.0 < high {
            Some(point.1)
        } else {
            last_in(points, low, high)
        },
{
    assert(points.push(point).drop_last() =~= points);
}

pub proof fn lemma_last_in_concat(a: Seq<Point>, b: Seq<Point>, low: int, high: int)
    ensures
        last_in(a + b, low, high) == or_else(last_in(b, low, high), last_in(a, low, high)),
    decreases b.len(),
{
    if b.len() == 0 {
        assert(a + b =~= a);
    } else {
        assert((a + b).drop_last() =~= a + b.drop_last());
        lemma_last_in_concat(a, b.drop_last(), low, high);
    }
}

/// Points outside a range have no last one in it.
pub proof fn lemma_last_in_none(points: Seq<Point>, low: int, high: int)
    requires
        forall|i: int| 0 <= i < points.len() ==> !(low <= #[trigger] points[i].0 < high),
    ensures
        last_in(points, low, high) is None,
    decreases points.len(),
{
    if points.len() > 0 {
        assert(!(low <= points[points.len() - 1].0 < high));
        assert forall|i: int| 0 <= i < points.drop_last().len() implies !(low
            <= #[trigger] points.drop_last()[i].0 < high) by {
            assert(points.drop_last()[i] == points[i]);
        }
        lemma_last_in_none(points.drop_last(), low, high);
    }
}

/// The last point of a range is the last one of its later part, or else the
/// last one of its earlier part.
pub proof fn lemma_last_in_split(points: Seq<Point>, low: int, middle: int, high: int)
    requires
        ordered(points),
        low <= middle <= high,
    ensures
        last_in(points, low, high) == or_else(
            last_in(points, middle, high),
            last_in(points, low, middle),
        ),
    decreases points.len(),
{
    if points.len() > 0 {
        let last = points.last();
        let before = points.drop_last();
        lemma_last_in_split(before, low, middle, high);
        if low <= last.0 < middle {
            assert forall|i: int| 0 <= i < points.len() implies !(middle <= #[trigger] points[i].0
                < high) by {
                if i < points.len() - 1 {
                    assert(points[i].0 < points[points.len() - 1].0);
                }
            }
            lemma_last_in_none(points, middle, high);
        }
    }
}

/// The row in which a time lies.
pub proof fn lemma_row_of(offset: int, step: int, i: int)
    requires
        step > 0,
    ensures
        i * step <= offset < (i + 1) * step <==> i == offset / step,
{
    let q = offset / step;
    lemma_fundamental_div_mod(offset, step);
    lemma_mod_bound(offset, step);
    assert(step * q == q * step) by (nonlinear_arith);
    assert((q + 1) * step == q * step + step) by (nonlinear_arith);
    assert((i + 1) * step == i * step + step) by (nonlinear_arith);
    if i * step <= offset < (i + 1) * step {
        if i < q {
            assert((i + 1) * step <= q * step) by (nonlinear_arith)
                requires
                    i + 1 <= q,
                    step > 0,
            ;
        }
        if i > q {
            assert((q + 1) * step <= i * step) by (nonlinear_arith)
                requires
                    q + 1 <= i,
                    step > 0,
            ;
        }
    }
}

/// Rows begin within the range, and the last one ends with it.
pub proof fn lemma_rows_cover(from: int, to: int, step: int, i: int)
    requires
        step > 0,
        from < to,
        0 <= i < row_count(from, to, step),
    ensures
        from <= row_start(from, step, i) < to,
        i + 1 < row_count(from, to, step) ==> row_start(from, step, i + 1) < to,
        row_count(from, to, step) >= 1,
{
    let n = row_count(from, to, step);
    let last = to - from - 1;
    lemma_row_of(last, step, n - 1);
    assert(i * step <= (n - 1) * step) by (nonlinear_arith)
        requires
            i <= n - 1,
            step > 0,
    ;
    assert(0 <= i * step) by (nonlinear_arith)
        requires
            0 <= i,
            step > 0,
    ;
    if i + 1 < n {
        assert((i + 1) * step <= (n - 1) * step) by (nonlinear_arith)
            requires
                i + 1 <= n - 1,
                step > 0,
        ;
    }
}

/// Each row has the last value of its own step, or else what the row before it
/// has; the first one falls back on the last value before the range.
pub proof fn rows_carry_forward(points: Seq<Point>, from: int, to: int, step: int, i: int)
    requires
        ordered(points),
        step > 0,
        from < to,
        i64::MIN <= from,
        0 <= i < row_count(from, to, step),
    ensures
        rows(points, from, to, step)[i].1 == or_else(
            last_in(points, row_start(from, step, i), row_end(from, to, step, i)),
            if i == 0 {
                latest_before(points, from)
            } else {
                rows(points, from, to, step)[i - 1].1
            },
        ),
{
    lemma_rows_cover(from, to, step, i);
    let start = row_start(from, step, i);
    let end = row_end(from, to, step, i);
    assert((i + 1) * step == i * step + step) by (nonlinear_arith);
    assert(0 * step == 0) by (nonlinear_arith);
    lemma_last_in_split(points, i64::MIN as int, start, end);
}

/// The rows of an answer begin at the start of the range, one step apart, and
/// end within it.
pub proof fn rows_are_evenly_spaced(points: Seq<Point>, from: i64, to: i64, step: i64, i: int)
    requires
        step > 0,
        from < to,
        0 <= i < row_count(from as int, to as int, step as int),
    ensures
        rows(points, from as int, to as int, step as int)[i].0 == from + i * step,
        from <= rows(points, from as int, to as int, step as int)[i].0 < to,
        rows(points, from as int, to as int, step as int).len() == row_count(
            from as int,
            to as int,
            step as int,
        ),
{
    lemma_rows_cover(from as int, to as int, step as int, i);
}

/// The compressed bytes of a chunk, copied out of a series.
#[derive(Clone, Debug)]
pub struct ChunkSnapshot {
    pub bytes: Vec<u8>,
    pub num_points: usize,
}

impl View for ChunkSnapshot {
    type V = Seq<Point>;

    open spec fn view(&self) -> Seq<Point> {
        chunk_points(bits_of(self.bytes@), self.num_points as nat)
    }
}

/// The points of each snapshot in a list.
pub open spec fn snapshot_chunks_of(chunks: Seq<ChunkSnapshot>) -> Seq<Seq<Point>> {
    Seq::new(chunks.len(), |i: int| chunks[i]@)
}

/// The state of resampling after the points `seen`.
spec fn collected(
    values: Seq<Option<u64>>,
    before: Option<u64>,
    seen: Seq<Point>,
    seed: Option<u64>,
    from: int,
    to: int,
    step: int,
) -> bool {
    &&& values.len() == row_count(from, to, step)
    &&& before == or_else(latest_before(seen, from), seed)
    &&& forall|i: int|
        0 <= i < values.len() ==> #[trigger] values[i] == last_in(
            seen,
            row_start(from, step, i),
            row_end(from, to, step, i),
        )
}

/// Each time of a range lies in one row, and in no other.
pub proof fn rows_cover_the_range(timestamp: int, from: int, to: int, step: int, i: int)
    requires
        step > 0,
        from <= timestamp < to,
    ensures
        0 <= (timestamp - from) / step < row_count(from, to, step),
        row_start(from, step, i) <= timestamp < row_end(from, to, step, i) <==> i == (timestamp
            - from) / step,
{
    lemma_row_of(timestamp - from, step, i);
    lemma_div_is_ordered(timestamp - from, to - from - 1, step);
    vstd::arithmetic::div_mod::lemma_div_pos_is_pos(timestamp - from, step);
}

/// Sorts a point into its row.
fn collect_point(
    values: &mut Vec<Option<u64>>,
    before: &mut Option<u64>,
    point: Point,
    from: i64,
    to: i64,
    step: i64,
    Ghost(seen): Ghost<Seq<Point>>,
    Ghost(seed): Ghost<Option<u64>>,
)
    requires
        step > 0,
        from < to,
        to - from <= i64::MAX,
        collected(old(values)@, *old(before), seen, seed, from as int, to as int, step as int),
    ensures
        collected(
            final(values)@,
            *final(before),
            seen.push(point),
            seed,
            from as int,
            to as int,
            step as int,
        ),
{
    let (timestamp, value) = point;
    proof {
        lemma_last_in_push(seen, point, i64::MIN as int, from as int);
        assert forall|i: int| 0 <= i < values@.len() implies last_in(
            seen.push(point),
            row_start(from as int, step as int, i),
            row_end(from as int, to as int, step as int, i),
        ) == if row_start(from as int, step as int, i) <= timestamp < row_end(
            from as int,
            to as int,
            step as int,
            i,
        ) {
            Some(value)
        } else {
            #[trigger] values@[i]
        } by {
            lemma_last_in_push(
                seen,
                point,
                row_start(from as int, step as int, i),
                row_end(from as int, to as int, step as int, i),
            );
            lemma_rows_cover(from as int, to as int, step as int, i);
        }
    }
    if timestamp < from {
        *before = Some(value);
        assert forall|i: int| 0 <= i < values@.len() implies !(#[trigger] row_start(
            from as int,
            step as int,
            i,
        ) <= timestamp) by {
            lemma_rows_cover(from as int, to as int, step as int, i);
        }
    } else if timestamp < to {
        let index: usize = ((timestamp - from) as u64 / step as u64) as usize;
        proof {
            rows_cover_the_range(timestamp as int, from as int, to as int, step as int, 0);
            assert(values@.len() == values.len());
            assert(index == (timestamp - from) / step as int);
            assert forall|i: int| 0 <= i < values@.len() implies (#[trigger] row_start(
                from as int,
                step as int,
                i,
            ) <= timestamp < row_end(from as int, to as int, step as int, i) <==> i == index) by {
                rows_cover_the_range(timestamp as int, from as int, to as int, step as int, i);
            }
        }
        values.set(index, Some(value));
    }
}

/// Reads the points of `chunks` and spreads them over rows of one step each:
/// each row gets the value of the latest point before its end, or `seed`
/// where no point comes before it.
pub fn resample(
    seed: Option<u64>,
    chunks: &Vec<ChunkSnapshot>,
    from: i64,
    to: i64,
    step: i64,
) -> (result: Vec<(i64, Option<u64>)>)
    requires
        step > 0,
        from < to,
        to - from <= i64::MAX,
        row_count(from as int, to as int, step as int) <= usize::MAX,
        ordered(concatenated(snapshot_chunks_of(chunks@))),
    ensures
        result@ == rows_seeded(
            concatenated(snapshot_chunks_of(chunks@)),
            seed,
            from as int,
            to as int,
            step as int,
        ),
{
    let ghost all = snapshot_chunks_of(chunks@);
    let ghost f = from as int;
    let ghost t = to as int;
    let ghost s = step as int;
    let count: usize = ((to - from - 1) as u64 / step as u64) as usize + 1;
    let mut values: Vec<Option<u64>> = Vec::with_capacity(count);
    while values.len() < count
        invariant
            values@.len() <= count,
            forall|i: int| 0 <= i < values@.len() ==> values@[i] is None,
        decreases count - values@.len(),
    {
        values.push(None);
    }
    let mut before: Option<u64> = seed;
    let mut c: usize = 0;
    assert(all.take(0) =~= Seq::<Seq<Point>>::empty());
    while c < chunks.len()
        invariant
            c <= chunks@.len(),
            step > 0,
            from < to,
            to - from <= i64::MAX,
            f == from,
            t == to,
            s == step,
            all == snapshot_chunks_of(chunks@),
            collected(values@, before, concatenated(all.take(c as int)), seed, f, t, s),
        decreases chunks@.len() - c,
    {
        let ghost done = concatenated(all.take(c as int));
        let ghost here = all[c as int];
        let ghost mut k: int = 0;
        let mut decoder = ChunkDecoder::new(chunks[c].bytes.as_slice(), chunks[c].num_points);
        assert(decoder@ == here);
        assert(here.skip(0) =~= here);
        assert(done + here.take(0) =~= done);
        loop
            invariant
                decoder.wf(),
                0 <= k <= here.len(),
                decoder@ == here.skip(k),
                step > 0,
                from < to,
                to - from <= i64::MAX,
                f == from,
                t == to,
                s == step,
                collected(values@, before, done + here.take(k), seed, f, t, s),
            ensures
                collected(values@, before, done + here, seed, f, t, s),
            decreases decoder.announced(),
        {
            match decoder.next() {
                Some(point) => {
                    collect_point(
                        &mut values,
                        &mut before,
                        point,
                        from,
                        to,
                        step,
                        Ghost(done + here.take(k)),
                        Ghost(seed),
                    );
                    proof {
                        assert((done + here.take(k)).push(point) =~= done + here.take(k + 1));
                        assert(here.skip(k).drop_first() =~= here.skip(k + 1));
                        k = k + 1;
                    }
                },
                None => {
                    assert(here.take(k) =~= here);
                    break ;
                },
            }
        }
        proof {
            assert(all.take(c + 1).drop_last() =~= all.take(c as int));
            assert(all.take(c + 1).last() == here);
        }
        c = c + 1;
    }
    let ghost points = concatenated(all);
    assert(all.take(c as int) =~= all);
    let mut result: Vec<(i64, Option<u64>)> = Vec::with_capacity(count);
    let mut i: usize = 0;
    let mut time: i64 = from;
    let mut latest: Option<u64> = before;
    assert(0 * s == 0) by (nonlinear_arith);
    while i < count
        invariant
            step > 0,
            from < to,
            to - from <= i64::MAX,
            f == from,
            t == to,
            s == step,
            i <= count,
            count == row_count(f, t, s),
            ordered(points),
            collected(values@, before, points, seed, f, t, s),
            result@.len() == i,
            latest == or_else(
                latest_before(
                    points,
                    if i < count {
                        row_start(f, s, i as int)
                    } else {
                        t
                    },
                ),
                seed,
            ),
            i < count ==> time == row_start(f, s, i as int),
            forall|j: int|
                0 <= j < i ==> #[trigger] result@[j] == rows_seeded(points, seed, f, t, s)[j],
        decreases count - i,
    {
        proof {
            lemma_rows_cover(f, t, s, i as int);
            assert((i + 1) * s == i * s + s) by (nonlinear_arith);
            lemma_last_in_split(
                points,
                i64::MIN as int,
                row_start(f, s, i as int),
                row_end(f, t, s, i as int),
            );
            if i + 1 == count {
                lemma_row_of(t - f - 1, s, i as int);
            }
        }
        if let Some(value) = values[i] {
            latest = Some(value);
        }
        result.push((time, latest));
        i = i + 1;
        if i < count {
            time = time + step;
        }
    }
    assert(result@ =~= rows_seeded(points, seed, f, t, s));
    result
}

} // verus!
