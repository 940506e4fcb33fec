//! The store: named series, spread over shards by a hash of their names.
use crate::catalog::{
    byte_total, can_hold, catalog_valid, countable, cutoff_at, finite_bits, ingested_all,
    lemma_totals_empty, lemma_totals_union, point_total, slot_of, stored_count,
    sweeping_keeps_recent_points, swept, with_hold, with_release, Catalog, InputPoint, Slot,
};
use crate::clock::{clamped_millis, clock_millis, current_time_ms, duration_millis};
use crate::codec::Point;
use crate::glob::{has_star, name_matches, plain_pattern_matches_itself};
use crate::names::{merge, pieces, segments, sorted, split_dots, texts};
use crate::series::Series;
use crate::shard::Shard;
use std::hash::{DefaultHasher, Hash, Hasher};
use vstd::prelude::*;
use vstd::std_specs::hash::DefaultHasherAdditionalSpecFns;

verus! {

broadcast use vstd::string::group_string_axioms;

/// The number of shards.
pub const NUM_SHARDS: usize = 16;

/// How many points of a batch were stored, and how many were not.
#[derive(Clone, Copy, Debug, Eq, PartialEq, Structural)]
pub struct IngestResult {
    pub accepted: usize,
    pub rejected: usize,
}

/// What a store holds, in numbers.
#[derive(Clone, Copy, Debug, Eq, PartialEq, Structural)]
pub struct StoreStats {
    pub series: usize,
    pub points: usize,
    pub bytes: usize,
}

/// What hashing a name writes to a hasher, write by write.
pub uninterp spec fn name_hash_writes(name: Seq<char>) -> Seq<Seq<u8>>;

/// Feeds a name to a hasher with `str::hash`. The claim is that this appends to
/// what the hasher was given, and that what it appends depends on the name
/// alone. Which bytes these are, and in how many writes, is left open.
#[verifier::external_body]
fn hash_name(name: &str, hasher: &mut DefaultHasher)
    ensures
        final(hasher)@ == old(hasher)@ + name_hash_writes(name@),
{
    name.hash(hasher)
}

/// The shard of a name.
pub open spec fn shard_of(name: Seq<char>) -> int {
    (DefaultHasher::spec_finish(name_hash_writes(name)) as usize) as int % NUM_SHARDS as int
}

/// The shard of a name.
pub fn shard_index(name: &str) -> (index: usize)
    ensures
        index == shard_of(name@),
        index < NUM_SHARDS,
{
    let mut hasher = DefaultHasher::new();
    hash_name(name, &mut hasher);
    assert(hasher@ =~= name_hash_writes(name@));
    hasher.finish() as usize % NUM_SHARDS
}

/// Whether the bits are those of a finite number.
pub fn is_finite(bits: u64) -> (finite: bool)
    ensures
        finite == finite_bits(bits),
{
    bits / 0x10_0000_0000_0000 % 0x800 != 0x7ff
}

/// The time before which points are too old.
fn cutoff(now_ms: i64, retention_ms: i64) -> (cutoff: i64)
    requires
        retention_ms > 0,
    ensures
        cutoff == cutoff_at(now_ms, retention_ms),
{
    match now_ms.checked_sub(retention_ms) {
        Some(cutoff) => cutoff,
        None => i64::MIN,
    }
}

/// A store of time series.
pub struct Store {
    shards: Vec<Shard>,
    retention_ms: i64,
    chunk_window_ms: i64,
}

/// The series in the first `count` shards.
spec fn first_shards(shards: Seq<Shard>, count: int) -> Catalog {
    Map::new(
        |name: Seq<char>| shard_of(name) < count && shards[shard_of(name)]@.contains_key(name),
        |name: Seq<char>| shards[shard_of(name)]@[name],
    )
}

/// Each shard is well formed and holds its own names only.
spec fn shards_wf(shards: Seq<Shard>, window: i64) -> bool {
    &&& shards.len() == NUM_SHARDS
    &&& forall|i: int| 0 <= i < shards.len() ==> (#[trigger] shards[i]).wf(window)
    &&& forall|i: int, name: Seq<char>|
        0 <= i < shards.len() && (#[trigger] shards[i])@.contains_key(name) ==> #[trigger] shard_of(
            name,
        ) == i
}

impl View for Store {
    type V = Catalog;

    closed spec fn view(&self) -> Catalog {
        first_shards(self.shards@, NUM_SHARDS as int)
    }
}

impl Store {
    /// Each series is in its shard, and well formed.
    pub closed spec fn wf(&self) -> bool {
        &&& self.retention_ms > 0
        &&& 0 < self.chunk_window_ms <= usize::MAX
        &&& shards_wf(self.shards@, self.chunk_window_ms)
    }

    /// How long points are kept, in milliseconds.
    pub closed spec fn retention(&self) -> i64 {
        self.retention_ms
    }

    /// The length of the time windows of chunks, in milliseconds.
    pub closed spec fn window(&self) -> i64 {
        self.chunk_window_ms
    }

    /// Makes an empty store. Both durations are given in milliseconds.
    pub fn new(retention: u128, chunk_window: u128) -> (store: Self)
        requires
            retention > 0,
            chunk_window > 0,
            clamped_millis(chunk_window) <= usize::MAX,
        ensures
            store.wf(),
            store@ == Map::<Seq<char>, Slot>::empty(),
            store.retention() == clamped_millis(retention),
            store.window() == clamped_millis(chunk_window),
    {
        let retention_ms: i64 = duration_millis(retention);
        let chunk_window_ms: i64 = duration_millis(chunk_window);
        let mut shards: Vec<Shard> = Vec::new();
        for i in 0..NUM_SHARDS
            invariant
                shards@.len() == i,
                forall|k: int| 0 <= k < i ==> (#[trigger] shards@[k]).wf(chunk_window_ms),
                forall|k: int|
                    0 <= k < i ==> (#[trigger] shards@[k])@ == Map::<Seq<char>, Slot>::empty(),
        {
            shards.push(Shard::new());
        }
        let store = Store { shards, retention_ms, chunk_window_ms };
        proof {
            assert forall|name: Seq<char>| 0 <= #[trigger] shard_of(name) < NUM_SHARDS by {}
            assert(store@ =~= Map::empty());
        }
        store
    }

    /// Stores the points of a batch in turn, at the time on a clock.
    pub fn ingest(&mut self, batch: Vec<InputPoint>, clock: Result<u128, u128>) -> (result:
        IngestResult)
        requires
            old(self).wf(),
        ensures
            final(self).wf(),
            final(self).retention() == old(self).retention(),
            final(self).window() == old(self).window(),
            final(self)@ == ingested_all(
                old(self)@,
                batch@,
                cutoff_at(clock_millis(clock), old(self).retention()),
                old(self).window(),
            ),
            result.accepted == stored_count(
                old(self)@,
                batch@,
                cutoff_at(clock_millis(clock), old(self).retention()),
                old(self).window(),
            ),
            result.accepted + result.rejected == batch@.len(),
    {
        self.ingest_at(batch, current_time_ms(clock))
    }

    /// Stores the points of a batch in turn. A point is rejected if its value
    /// is not finite, if it is older than the retention, or if its series does
    /// not take it.
    pub fn ingest_at(&mut self, batch: Vec<InputPoint>, now_ms: i64) -> (result: IngestResult)
        requires
            old(self).wf(),
        ensures
            final(self).wf(),
            final(self).retention() == old(self).retention(),
            final(self).window() == old(self).window(),
            final(self)@ == ingested_all(
                old(self)@,
                batch@,
                cutoff_at(now_ms, old(self).retention()),
                old(self).window(),
            ),
            result.accepted == stored_count(
                old(self)@,
                batch@,
                cutoff_at(now_ms, old(self).retention()),
                old(self).window(),
            ),
            result.accepted + result.rejected == batch@.len(),
    {
        let cutoff: i64 = cutoff(now_ms, self.retention_ms);
        let window: i64 = self.chunk_window_ms;
        let mut accepted: usize = 0;
        let mut rejected: usize = 0;
        let count: usize = batch.len();
        let mut i: usize = 0;
        assert(batch@.take(0) =~= Seq::<InputPoint>::empty());
        while i < count
            invariant
                i <= count == batch@.len(),
                self.wf(),
                self.retention_ms == old(self).retention_ms,
                self.chunk_window_ms == old(self).chunk_window_ms,
                window == self.chunk_window_ms,
                self@ == ingested_all(old(self)@, batch@.take(i as int), cutoff, window),
                accepted == stored_count(old(self)@, batch@.take(i as int), cutoff, window),
                accepted + rejected == i,
            decreases count - i,
        {
            let input = &batch[i];
            proof {
                let now = batch@.take(i + 1);
                assert(now.drop_last() =~= batch@.take(i as int));
                assert(now.last() == input);
            }
            if !is_finite(input.value) || input.timestamp < cutoff {
                rejected = rejected + 1;
            } else if self.append(input.name.as_str(), input.timestamp, input.value, cutoff) {
                accepted = accepted + 1;
            } else {
                rejected = rejected + 1;
            }
            i = i + 1;
        }
        assert(batch@.take(count as int) =~= batch@);
        IngestResult { accepted, rejected }
    }

    /// Offers a point to the series of a name, which is made if it is new.
    fn append(&mut self, name: &str, timestamp: i64, value: u64, cutoff: i64) -> (taken: bool)
        requires
            old(self).wf(),
        ensures
            final(self).wf(),
            final(self).retention_ms == old(self).retention_ms,
            final(self).chunk_window_ms == old(self).chunk_window_ms,
            taken == slot_of(old(self)@, name@).series.takes(timestamp, old(self).chunk_window_ms),
            final(self)@ == old(self)@.insert(
                name@,
                (Slot {
                    series: slot_of(old(self)@, name@).series.offered(
                        (timestamp, value),
                        cutoff,
                        old(self).chunk_window_ms,
                    ),
                    holds: slot_of(old(self)@, name@).holds,
                }),
            ),
    {
        let index: usize = shard_index(name);
        let ghost before = self.shards@;
        let window: i64 = self.chunk_window_ms;
        let taken: bool = self.shards[index].offer(name, timestamp, value, cutoff, window);
        proof {
            lemma_shard_changed(before, self.shards@, index as int, name@, window);
        }
        taken
    }

    /// The series of a name.
    pub fn find_series(&self, name: &str) -> (series: Option<&Series>)
        requires
            self.wf(),
        ensures
            match series {
                Some(series) => {
                    &&& self@.contains_key(name@)
                    &&& series@ == self@[name@].series
                    &&& series.wf(self.window())
                },
                None => !self@.contains_key(name@),
            },
    {
        let index: usize = shard_index(name);
        assert(self.shards@[index as int].wf(self.chunk_window_ms));
        let series = self.shards[index].find_series(name);
        series
    }

    /// Notes that an operation holds the series of a name, so that no sweep
    /// removes it. Returns whether it does: there has to be one, and it may
    /// not be held too often already.
    pub fn hold_series(&mut self, name: &str) -> (held: bool)
        requires
            old(self).wf(),
        ensures
            final(self).wf(),
            final(self).retention() == old(self).retention(),
            final(self).window() == old(self).window(),
            held == can_hold(old(self)@, name@),
            final(self)@ == with_hold(old(self)@, name@),
    {
        let index: usize = shard_index(name);
        let ghost before = self.shards@;
        let ghost window = self.chunk_window_ms;
        assert(before[index as int].wf(window));
        let held: bool = self.shards[index].hold_series(name);
        proof {
            assert(self.shards@[index as int].wf(window));
            if held {
                lemma_shard_changed(before, self.shards@, index as int, name@, window);
            } else {
                lemma_shard_unchanged(before, self.shards@, index as int, window);
            }
        }
        held
    }

    /// Notes that an operation no longer holds the series of a name.
    pub fn release_series(&mut self, name: &str)
        requires
            old(self).wf(),
        ensures
            final(self).wf(),
            final(self).retention() == old(self).retention(),
            final(self).window() == old(self).window(),
            final(self)@ == with_release(old(self)@, name@),
    {
        let index: usize = shard_index(name);
        let ghost before = self.shards@;
        let ghost window = self.chunk_window_ms;
        assert(before[index as int].wf(window));
        self.shards[index].release_series(name);
        proof {
            assert(self.shards@[index as int].wf(window));
            if self@.contains_key(name@) && before[index as int]@[name@].holds > 0 {
                lemma_shard_changed(before, self.shards@, index as int, name@, window);
            } else {
                lemma_shard_unchanged(before, self.shards@, index as int, window);
            }
        }
    }

    /// The names of all series, in order.
    pub fn series_names(&self) -> (names: Vec<String>)
        requires
            self.wf(),
        ensures
            sorted(texts(names@)),
            forall|n: Seq<char>| texts(names@).contains(n) <==> self@.contains_key(n),
    {
        let mut names: Vec<String> = Vec::new();
        for i in 0..self.shards.len()
            invariant
                self.wf(),
                sorted(texts(names@)),
                forall|n: Seq<char>|
                    texts(names@).contains(n) <==> first_shards(
                        self.shards@,
                        i as int,
                    ).contains_key(n),
        {
            assert(self.shards@[i as int].wf(self.chunk_window_ms));
            let more = self.shards[i].series_names();
            let ghost before = texts(names@);
            names = merge(names, more);
            assert forall|n: Seq<char>|
                texts(names@).contains(n) <==> first_shards(self.shards@, i + 1).contains_key(
                    n,
                ) by {
                assert(before.contains(n) <==> first_shards(self.shards@, i as int).contains_key(
                    n,
                ));
            }
        }
        names
    }

    /// The names that match a pattern, in order.
    pub fn expand(&self, pattern: &str) -> (names: Vec<String>)
        requires
            self.wf(),
        ensures
            sorted(texts(names@)),
            forall|n: Seq<char>|
                #[trigger] texts(names@).contains(n) <==> self@.contains_key(n) && name_matches(
                    pattern@,
                    n,
                ),
    {
        let mut names: Vec<String> = Vec::new();
        if !has_star(pattern) {
            if self.find_series(pattern).is_some() {
                names.push(pattern.to_owned());
            }
            assert forall|n: Seq<char>|
                #[trigger] texts(names@).contains(n) <==> self@.contains_key(n) && name_matches(
                    pattern@,
                    n,
                ) by {
                plain_pattern_matches_itself(pattern@, n);
                if self@.contains_key(pattern@) {
                    assert(texts(names@)[0] == pattern@);
                }
            }
            return names;
        }
        let pattern_segments = split_dots(pattern);
        for i in 0..self.shards.len()
            invariant
                self.wf(),
                pieces(pattern_segments@) == segments(pattern@),
                sorted(texts(names@)),
                forall|n: Seq<char>|
                    #[trigger] texts(names@).contains(n) <==> first_shards(
                        self.shards@,
                        i as int,
                    ).contains_key(n) && name_matches(pattern@, n),
        {
            assert(self.shards@[i as int].wf(self.chunk_window_ms));
            let more = self.shards[i].expand(pattern_segments.as_slice());
            let ghost before = texts(names@);
            names = merge(names, more);
            assert forall|n: Seq<char>|
                #[trigger] texts(names@).contains(n) <==> first_shards(
                    self.shards@,
                    i + 1,
                ).contains_key(n) && name_matches(pattern@, n) by {
                assert(before.contains(n) <==> first_shards(self.shards@, i as int).contains_key(n)
                    && name_matches(pattern@, n));
            }
        }
        names
    }

    /// For each step of a time range the latest value of a series before the
    /// end of the step. There is no answer for a name that is not known.
    pub fn query(&self, name: &str, from_ms: i64, to_ms: i64, step_ms: i64) -> (answer: Option<
        Vec<(i64, Option<u64>)>,
    >)
        requires
            self.wf(),
        ensures
            answer is Some <==> self@.contains_key(name@),
            answer matches Some(rows) ==> rows@ == self@[name@].series.answer(
                from_ms,
                to_ms,
                step_ms,
            ),
            answer matches Some(rows) ==> (step_ms > 0 && from_ms < to_ms && to_ms - from_ms
                <= i64::MAX && (to_ms - from_ms - 1) / (step_ms as int) < usize::MAX ==> rows@.len()
                == (to_ms - from_ms - 1) / (step_ms as int) + 1),
    {
        match self.find_series(name) {
            Some(series) => Some(series.query(from_ms, to_ms, step_ms)),
            None => None,
        }
    }

    /// Drops the chunks that are older than the retention, and the series of
    /// which nothing is left and which nobody holds.
    pub fn sweep(&mut self, now_ms: i64)
        requires
            old(self).wf(),
        ensures
            final(self).wf(),
            final(self).retention() == old(self).retention(),
            final(self).window() == old(self).window(),
            final(self)@ == swept(old(self)@, cutoff_at(now_ms, old(self).retention())),
            forall|name: Seq<char>, point: Point|
                old(self)@.contains_key(name) && point.0 >= now_ms - old(self).retention()
                    && #[trigger] old(self)@[name].series.points().contains(point) ==> {
                    &&& final(self)@.contains_key(name)
                    &&& final(self)@[name].series.points().contains(point)
                },
    {
        let cutoff: i64 = cutoff(now_ms, self.retention_ms);
        let ghost before = self.shards@;
        let ghost window = self.chunk_window_ms;
        for i in 0..NUM_SHARDS
            invariant
                self.retention_ms == old(self).retention_ms,
                self.chunk_window_ms == old(self).chunk_window_ms,
                shards_wf(before, window),
                self.shards@.len() == NUM_SHARDS,
                forall|k: int| 0 <= k < NUM_SHARDS ==> (#[trigger] self.shards@[k]).wf(window),
                forall|k: int|
                    0 <= k < i ==> (#[trigger] self.shards@[k])@ == swept(before[k]@, cutoff),
                forall|k: int| i <= k < NUM_SHARDS ==> #[trigger] self.shards@[k] == before[k],
        {
            assert(self.shards@[i as int].wf(window));
            let ghost list = self.shards@;
            self.shards[i].sweep(cutoff);
            assert(self.shards@[i as int].wf(window));
        }
        proof {
            assert forall|n: Seq<char>| 0 <= #[trigger] shard_of(n) < NUM_SHARDS by {}
            let after = self.shards@;
            assert forall|i: int, n: Seq<char>|
                0 <= i < after.len() && (#[trigger] after[i])@.contains_key(
                    n,
                ) implies #[trigger] shard_of(n) == i by {
                assert(before[i]@.contains_key(n));
            }
            assert(self@ =~= swept(old(self)@, cutoff));
            old(self).store_is_valid();
            assert forall|name: Seq<char>, point: Point|
                old(self)@.contains_key(name) && point.0 >= now_ms - old(self).retention()
                    && #[trigger] old(self)@[name].series.points().contains(
                    point,
                ) implies self@.contains_key(name) && self@[name].series.points().contains(
                point,
            ) by {
                sweeping_keeps_recent_points(old(self)@, cutoff, window, name, point);
            }
        }
    }

    /// The number of series, of points and of bytes, if they can be
    /// represented.
    pub fn checked_stats(&self) -> (stats: Option<StoreStats>)
        requires
            self.wf(),
        ensures
            stats is Some <==> countable(self@),
            stats matches Some(stats) ==> {
                &&& stats.series == self@.dom().len()
                &&& stats.points == point_total(self@)
                &&& stats.bytes == byte_total(self@)
            },
    {
        let mut stats = StoreStats { series: 0, points: 0, bytes: 0 };
        let ghost list = self.shards@;
        proof {
            assert(first_shards(list, 0) =~= Map::empty()) by {
                assert forall|n: Seq<char>| 0 <= #[trigger] shard_of(n) by {}
            }
            lemma_totals_empty();
            lemma_shard_totals(list, 0, self.chunk_window_ms);
        }
        for i in 0..self.shards.len()
            invariant
                list == self.shards@,
                self.wf(),
                first_shards(list, i as int).dom().finite(),
                stats.series == first_shards(list, i as int).dom().len(),
                stats.points == point_total(first_shards(list, i as int)),
                stats.bytes == byte_total(first_shards(list, i as int)),
        {
            proof {
                assert(list[i as int].wf(self.chunk_window_ms));
                lemma_shard_step(list, i as int, self.chunk_window_ms);
                lemma_shard_totals(list, i + 1, self.chunk_window_ms);
            }
            match self.shards[i].add_stats(stats.series, stats.points, stats.bytes) {
                Some((series, points, bytes)) => {
                    stats = StoreStats { series, points, bytes };
                },
                None => return None,
            }
        }
        Some(stats)
    }

    /// The number of series, of points and of bytes.
    pub fn stats(&self) -> (stats: StoreStats)
        requires
            self.wf(),
            countable(self@),
        ensures
            stats.series == self@.dom().len(),
            stats.points == point_total(self@),
            stats.bytes == byte_total(self@),
    {
        match self.checked_stats() {
            Some(stats) => stats,
            None => StoreStats { series: 0, points: 0, bytes: 0 },
        }
    }

    /// There are finitely many series, and each is valid.
    pub proof fn store_is_valid(&self)
        requires
            self.wf(),
        ensures
            catalog_valid(self@, self.window()),
    {
        let list = self.shards@;
        assert forall|n: Seq<char>| 0 <= #[trigger] shard_of(n) < NUM_SHARDS by {}
        assert(first_shards(list, 0) =~= Map::empty());
        lemma_shard_totals(list, 0, self.chunk_window_ms);
        assert forall|n: Seq<char>| #[trigger] self@.contains_key(
            n,
        ) implies self@[n].series.valid(self.window()) by {
            let i = shard_of(n);
            assert(list[i].wf(self.chunk_window_ms));
            list[i].lemma_valid(self.chunk_window_ms);
            assert(list[i]@.contains_key(n));
        }
    }
}

/// One shard more, with its share of the totals.
proof fn lemma_shard_step(list: Seq<Shard>, i: int, window: i64)
    requires
        shards_wf(list, window),
        0 <= i < NUM_SHARDS,
        first_shards(list, i).dom().finite(),
    ensures
        first_shards(list, i + 1).dom().finite(),
        first_shards(list, i + 1).dom().len() == first_shards(list, i).dom().len()
            + list[i]@.dom().len(),
        point_total(first_shards(list, i + 1)) == point_total(first_shards(list, i)) + point_total(
            list[i]@,
        ),
        byte_total(first_shards(list, i + 1)) == byte_total(first_shards(list, i)) + byte_total(
            list[i]@,
        ),
{
    let before = first_shards(list, i);
    let shard = list[i]@;
    assert(list[i].wf(window));
    list[i].lemma_valid(window);
    assert forall|n: Seq<char>| before.dom().contains(n) implies !shard.dom().contains(n) by {
        if shard.contains_key(n) {
            assert(list[i]@.contains_key(n));
            assert(shard_of(n) == i);
        }
    }
    lemma_totals_union(before, shard);
    assert forall|n: Seq<char>| #[trigger] shard.contains_key(n) implies shard_of(n) == i by {
        assert(list[i]@.contains_key(n));
    }
    assert(first_shards(list, i + 1) =~= before.union_prefer_right(shard));
}

/// The first shards have no more than all of them.
proof fn lemma_shard_totals(list: Seq<Shard>, i: int, window: i64)
    requires
        shards_wf(list, window),
        0 <= i <= NUM_SHARDS,
        first_shards(list, i).dom().finite(),
    ensures
        ({
            let all = first_shards(list, NUM_SHARDS as int);
            &&& all.dom().finite()
            &&& first_shards(list, i).dom().len() <= all.dom().len()
            &&& point_total(first_shards(list, i)) <= point_total(all)
            &&& byte_total(first_shards(list, i)) <= byte_total(all)
        }),
    decreases NUM_SHARDS - i,
{
    if i < NUM_SHARDS {
        lemma_shard_step(list, i, window);
        lemma_shard_totals(list, i + 1, window);
    }
}

/// A shard that holds the same series leaves the store as it was.
proof fn lemma_shard_unchanged(before: Seq<Shard>, after: Seq<Shard>, index: int, window: i64)
    requires
        shards_wf(before, window),
        0 <= index < NUM_SHARDS,
        after == before.update(index, after[index]),
        after[index].wf(window),
        after[index]@ == before[index]@,
    ensures
        shards_wf(after, window),
        first_shards(after, NUM_SHARDS as int) == first_shards(before, NUM_SHARDS as int),
{
    assert forall|n: Seq<char>| 0 <= #[trigger] shard_of(n) < NUM_SHARDS by {}
    assert forall|i: int, n: Seq<char>|
        0 <= i < after.len() && (#[trigger] after[i])@.contains_key(n) implies #[trigger] shard_of(
        n,
    ) == i by {
        assert(before[i]@.contains_key(n));
    }
    assert(first_shards(after, NUM_SHARDS as int) =~= first_shards(before, NUM_SHARDS as int));
}

/// A change of one name in its shard is that change in the store.
proof fn lemma_shard_changed(
    before: Seq<Shard>,
    after: Seq<Shard>,
    index: int,
    name: Seq<char>,
    window: i64,
)
    requires
        shards_wf(before, window),
        0 <= index < NUM_SHARDS,
        shard_of(name) == index,
        after == before.update(index, after[index]),
        after[index].wf(window),
        after[index]@ == before[index]@.insert(name, after[index]@[name]),
    ensures
        shards_wf(after, window),
        first_shards(after, NUM_SHARDS as int) == first_shards(before, NUM_SHARDS as int).insert(
            name,
            after[index]@[name],
        ),
{
    assert forall|n: Seq<char>| 0 <= #[trigger] shard_of(n) < NUM_SHARDS by {}
    assert forall|i: int, n: Seq<char>|
        0 <= i < after.len() && (#[trigger] after[i])@.contains_key(n) implies #[trigger] shard_of(
        n,
    ) == i by {
        if i == index {
            if n != name {
                assert(before[i]@.contains_key(n));
            }
        } else {
            assert(after[i] == before[i]);
        }
    }
    assert(first_shards(after, NUM_SHARDS as int) =~= first_shards(
        before,
        NUM_SHARDS as int,
    ).insert(name, after[index]@[name]));
}

} // verus!
