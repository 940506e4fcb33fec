//! What a store holds, as a map from names to series, and what its operations
//! do to that map.
use crate::codec::Point;
use crate::retention::{
    expiry_bounds_age, expiry_is_idempotent, expiry_keeps_recent_points,
    held_point_is_read_back, lemma_points_hold, offering_keeps_recent_points,
    taken_point_is_last,
};
use crate::series::{chunk_valid, expiry_keeps_order, offering_keeps_order, unexpired, SeriesModel};
use vstd::prelude::*;

verus! {

/// A series, and how many operations hold it.
#[verifier::ext_equal]
pub struct Slot {
    pub series: SeriesModel,
    pub holds: nat,
}

/// The series of a store by name.
pub type Catalog = Map<Seq<char>, Slot>;

/// A point to be stored. The value is given by the bits of a 64-bit floating
/// point number.
#[derive(Debug)]
pub struct InputPoint {
    pub name: String,
    pub value: u64,
    pub timestamp: i64,
}

/// Whether the bits are those of a number that is neither infinite nor NaN:
/// the eleven exponent bits are not all ones.
pub open spec fn finite_bits(bits: u64) -> bool {
    bits / 0x10_0000_0000_0000 % 0x800 != 0x7ff
}

/// `now - retention`, or the earliest time that can be told.
pub open spec fn cutoff_at(now: i64, retention: i64) -> i64 {
    if now - retention < i64::MIN {
        i64::MIN
    } else {
        (now - retention) as i64
    }
}

/// The slot of a name; an empty one if the name is new.
pub open spec fn slot_of(catalog: Catalog, name: Seq<char>) -> Slot {
    if catalog.contains_key(name) {
        catalog[name]
    } else {
        Slot { series: SeriesModel::empty(), holds: 0 }
    }
}

/// Whether a point is fit to be stored at all: its value is finite and its
/// timestamp is within the retention.
pub open spec fn storable(input: InputPoint, cutoff: i64) -> bool {
    finite_bits(input.value) && input.timestamp >= cutoff
}

/// Whether a point is stored.
pub open spec fn stored(catalog: Catalog, input: InputPoint, cutoff: i64, window: i64) -> bool {
    storable(input, cutoff) && slot_of(catalog, input.name@).series.takes(input.timestamp, window)
}

/// The catalog after a point was offered. A storable point brings its series
/// into being.
pub open spec fn ingested(
    catalog: Catalog,
    input: InputPoint,
    cutoff: i64,
    window: i64,
) -> Catalog {
    if !storable(input, cutoff) {
        catalog
    } else {
        let slot = slot_of(catalog, input.name@);
        catalog.insert(
            input.name@,
            Slot {
                series: slot.series.offered((input.timestamp, input.value), cutoff, window),
                holds: slot.holds,
            },
        )
    }
}

/// The catalog after all points of a batch were offered in turn.
pub open spec fn ingested_all(
    catalog: Catalog,
    batch: Seq<InputPoint>,
    cutoff: i64,
    window: i64,
) -> Catalog
    decreases batch.len(),
{
    if batch.len() == 0 {
        catalog
    } else {
        ingested(
            ingested_all(catalog, batch.drop_last(), cutoff, window),
            batch.last(),
            cutoff,
            window,
        )
    }
}

/// How many points of a batch are stored.
pub open spec fn stored_count(
    catalog: Catalog,
    batch: Seq<InputPoint>,
    cutoff: i64,
    window: i64,
) -> nat
    decreases batch.len(),
{
    if batch.len() == 0 {
        0
    } else {
        let before = ingested_all(catalog, batch.drop_last(), cutoff, window);
        stored_count(catalog, batch.drop_last(), cutoff, window) + if stored(
            before,
            batch.last(),
            cutoff,
            window,
        ) {
            1nat
        } else {
            0nat
        }
    }
}

/// Whether a series outlives a sweep: something is left of it, or it is held.
pub open spec fn outlives(slot: Slot, cutoff: i64) -> bool {
    !slot.series.expired(cutoff).is_empty() || slot.holds > 0
}

/// The catalog after a sweep.
pub open spec fn swept(catalog: Catalog, cutoff: i64) -> Catalog {
    Map::new(
        |name: Seq<char>| catalog.contains_key(name) && outlives(catalog[name], cutoff),
        |name: Seq<char>|
            Slot { series: catalog[name].series.expired(cutoff), holds: catalog[name].holds },
    )
}

/// The catalog after an operation took hold of a series, if there is one and
/// it can be held once more.
pub open spec fn with_hold(catalog: Catalog, name: Seq<char>) -> Catalog {
    if can_hold(catalog, name) {
        catalog.insert(
            name,
            Slot { series: catalog[name].series, holds: catalog[name].holds + 1 },
        )
    } else {
        catalog
    }
}

/// Whether there is a series of a name that can be held once more.
pub open spec fn can_hold(catalog: Catalog, name: Seq<char>) -> bool {
    catalog.contains_key(name) && catalog[name].holds < usize::MAX
}

/// The catalog after an operation let go of a series, if it was held.
pub open spec fn with_release(catalog: Catalog, name: Seq<char>) -> Catalog {
    if catalog.contains_key(name) && catalog[name].holds > 0 {
        catalog.insert(
            name,
            Slot { series: catalog[name].series, holds: (catalog[name].holds - 1) as nat },
        )
    } else {
        catalog
    }
}

/// The number of points in all series.
pub open spec fn point_total(catalog: Catalog) -> nat
    decreases catalog.dom().len(),
    when catalog.dom().finite()
{
    if catalog.dom().len() == 0 {
        0
    } else {
        let name = catalog.dom().choose();
        point_total(catalog.remove(name)) + catalog[name].series.points().len()
    }
}

/// The number of bytes of all chunks.
pub open spec fn byte_total(catalog: Catalog) -> nat
    decreases catalog.dom().len(),
    when catalog.dom().finite()
{
    if catalog.dom().len() == 0 {
        0
    } else {
        let name = catalog.dom().choose();
        byte_total(catalog.remove(name)) + catalog[name].series.size()
    }
}

/// Whether the totals can be represented.
pub open spec fn countable(catalog: Catalog) -> bool {
    &&& catalog.dom().len() <= usize::MAX
    &&& point_total(catalog) <= usize::MAX
    &&& byte_total(catalog) <= usize::MAX
}

/// Whether every series is valid for the window.
pub open spec fn catalog_valid(catalog: Catalog, window: i64) -> bool {
    &&& catalog.dom().finite()
    &&& forall|name: Seq<char>| #[trigger]
        catalog.contains_key(name) ==> catalog[name].series.valid(window)
}

/// A name that is taken out lowers the totals by its share.
proof fn lemma_totals_remove(catalog: Catalog, name: Seq<char>)
    requires
        catalog.dom().finite(),
        catalog.contains_key(name),
    ensures
        point_total(catalog) == point_total(catalog.remove(name))
            + catalog[name].series.points().len(),
        byte_total(catalog) == byte_total(catalog.remove(name)) + catalog[name].series.size(),
    decreases catalog.dom().len(),
{
    let first = catalog.dom().choose();
    assert(catalog.dom().contains(first));
    if first != name {
        let without = catalog.remove(first);
        lemma_totals_remove(without, name);
        lemma_totals_remove(catalog.remove(name), first);
        assert(without.remove(name) =~= catalog.remove(name).remove(first));
    }
}

/// A new name raises the totals by its share.
pub proof fn lemma_totals_insert(catalog: Catalog, name: Seq<char>, slot: Slot)
    requires
        catalog.dom().finite(),
        !catalog.contains_key(name),
    ensures
        point_total(catalog.insert(name, slot)) == point_total(catalog)
            + slot.series.points().len(),
        byte_total(catalog.insert(name, slot)) == byte_total(catalog) + slot.series.size(),
        catalog.insert(name, slot).dom().len() == catalog.dom().len() + 1,
        catalog.insert(name, slot).dom().finite(),
{
    let longer = catalog.insert(name, slot);
    lemma_totals_remove(longer, name);
    assert(longer.remove(name) =~= catalog);
}

pub proof fn lemma_totals_empty()
    ensures
        point_total(Map::empty()) == 0,
        byte_total(Map::empty()) == 0,
        Map::<Seq<char>, Slot>::empty().dom().len() == 0,
        Map::<Seq<char>, Slot>::empty().dom().finite(),
{
}

/// Two catalogs without a common name add up.
pub proof fn lemma_totals_union(a: Catalog, b: Catalog)
    requires
        a.dom().finite(),
        b.dom().finite(),
        a.dom().disjoint(b.dom()),
    ensures
        a.union_prefer_right(b).dom().finite(),
        a.union_prefer_right(b).dom().len() == a.dom().len() + b.dom().len(),
        point_total(a.union_prefer_right(b)) == point_total(a) + point_total(b),
        byte_total(a.union_prefer_right(b)) == byte_total(a) + byte_total(b),
    decreases b.dom().len(),
{
    let all = a.union_prefer_right(b);
    if b.dom().len() == 0 {
        assert(b.dom() =~= Set::empty());
        assert(all =~= a);
    } else {
        let name = b.dom().choose();
        assert(b.dom().contains(name));
        let less = b.remove(name);
        lemma_totals_union(a, less);
        let before = a.union_prefer_right(less);
        assert(all =~= before.insert(name, b[name]));
        lemma_totals_insert(before, name, b[name]);
    }
}

/// Storing points keeps every series valid.
pub proof fn ingesting_keeps_catalog_valid(
    catalog: Catalog,
    batch: Seq<InputPoint>,
    cutoff: i64,
    window: i64,
)
    requires
        catalog_valid(catalog, window),
        window > 0,
    ensures
        catalog_valid(ingested_all(catalog, batch, cutoff, window), window),
    decreases batch.len(),
{
    if batch.len() > 0 {
        let before = ingested_all(catalog, batch.drop_last(), cutoff, window);
        let input = batch.last();
        ingesting_keeps_catalog_valid(catalog, batch.drop_last(), cutoff, window);
        offering_keeps_order(
            slot_of(before, input.name@).series,
            (input.timestamp, input.value),
            cutoff,
            window,
        );
    }
}

/// A sweep keeps every series valid.
pub proof fn sweeping_keeps_catalog_valid(catalog: Catalog, cutoff: i64, window: i64)
    requires
        catalog_valid(catalog, window),
    ensures
        catalog_valid(swept(catalog, cutoff), window),
{
    let after = swept(catalog, cutoff);
    assert(after.dom().subset_of(catalog.dom()));
    vstd::set_lib::lemma_set_subset_finite(catalog.dom(), after.dom());
    assert forall|name: Seq<char>| #[trigger] after.contains_key(
        name,
    ) implies after[name].series.valid(window) by {
        assert(catalog.contains_key(name));
        expiry_keeps_order(catalog[name].series, cutoff, window);
    }
}

/// A point touches no series but its own.
pub proof fn ingesting_touches_one_series(
    catalog: Catalog,
    input: InputPoint,
    cutoff: i64,
    window: i64,
    name: Seq<char>,
)
    requires
        name != input.name@,
    ensures
        ingested(catalog, input, cutoff, window).contains_key(name) <==> catalog.contains_key(name),
        slot_of(ingested(catalog, input, cutoff, window), name) == slot_of(catalog, name),
{
}

/// A point that is not stored leaves the points of every series as they were.
pub proof fn rejected_point_changes_no_series(
    catalog: Catalog,
    input: InputPoint,
    cutoff: i64,
    window: i64,
    name: Seq<char>,
)
    requires
        !stored(catalog, input, cutoff, window),
    ensures
        slot_of(ingested(catalog, input, cutoff, window), name) == slot_of(catalog, name),
{
}

/// A point that is stored is read back by a query for its own millisecond.
pub proof fn stored_point_is_read_back(
    catalog: Catalog,
    input: InputPoint,
    cutoff: i64,
    window: i64,
)
    requires
        catalog_valid(catalog, window),
        window > 0,
        stored(catalog, input, cutoff, window),
        input.timestamp < i64::MAX,
    ensures
        ingested(catalog, input, cutoff, window).contains_key(input.name@),
        ingested(catalog, input, cutoff, window)[input.name@].series.answer(
            input.timestamp,
            (input.timestamp + 1) as i64,
            1,
        ) == seq![(input.timestamp, Some(input.value))],
{
    let series = slot_of(catalog, input.name@).series;
    let point = (input.timestamp, input.value);
    let next = series.offered(point, cutoff, window);
    offering_keeps_order(series, point, cutoff, window);
    taken_point_is_last(series, point, cutoff, window);
    assert(next.points()[next.points().len() - 1] == point);
    held_point_is_read_back(next, window, point);
}

/// A point within the retention stays, whatever else is stored.
pub proof fn ingesting_keeps_recent_points(
    catalog: Catalog,
    batch: Seq<InputPoint>,
    cutoff: i64,
    window: i64,
    name: Seq<char>,
    point: Point,
)
    requires
        catalog_valid(catalog, window),
        window > 0,
        slot_of(catalog, name).series.points().contains(point),
        point.0 >= cutoff,
    ensures
        slot_of(ingested_all(catalog, batch, cutoff, window), name).series.points().contains(point),
    decreases batch.len(),
{
    if batch.len() > 0 {
        let before = ingested_all(catalog, batch.drop_last(), cutoff, window);
        let input = batch.last();
        ingesting_keeps_recent_points(catalog, batch.drop_last(), cutoff, window, name, point);
        ingesting_keeps_catalog_valid(catalog, batch.drop_last(), cutoff, window);
        offering_keeps_recent_points(
            slot_of(before, name).series,
            (input.timestamp, input.value),
            cutoff,
            window,
            point,
        );
    }
}

/// A sweep keeps every point within the retention.
pub proof fn sweeping_keeps_recent_points(
    catalog: Catalog,
    cutoff: i64,
    window: i64,
    name: Seq<char>,
    point: Point,
)
    requires
        catalog_valid(catalog, window),
        catalog.contains_key(name),
        catalog[name].series.points().contains(point),
        point.0 >= cutoff,
    ensures
        swept(catalog, cutoff).contains_key(name),
        swept(catalog, cutoff)[name].series.points().contains(point),
{
    expiry_keeps_recent_points(catalog[name].series, cutoff, window, point);
    let left = catalog[name].series.expired(cutoff);
    if left.is_empty() {
        assert(left.points() =~= Seq::<Point>::empty());
    }
}

/// After a sweep no point is older than the retention and one window.
pub proof fn sweeping_bounds_age(
    catalog: Catalog,
    cutoff: i64,
    window: i64,
    name: Seq<char>,
    point: Point,
)
    requires
        catalog_valid(catalog, window),
        window > 0,
        swept(catalog, cutoff).contains_key(name),
        swept(catalog, cutoff)[name].series.points().contains(point),
    ensures
        point.0 > cutoff - window,
{
    expiry_bounds_age(catalog[name].series, cutoff, window, point);
}

/// Letting go of a series undoes taking hold of it.
pub proof fn release_undoes_hold(catalog: Catalog, name: Seq<char>)
    requires
        can_hold(catalog, name),
    ensures
        with_release(with_hold(catalog, name), name) == catalog,
{
    assert(with_release(with_hold(catalog, name), name) =~= catalog);
}

/// A series that is held outlives every sweep.
pub proof fn sweeping_keeps_held_series(catalog: Catalog, cutoff: i64, name: Seq<char>)
    requires
        catalog.contains_key(name),
        catalog[name].holds > 0,
    ensures
        swept(catalog, cutoff).contains_key(name),
{
}

/// A series that nobody holds is gone after a sweep if all its points are
/// older than the retention.
pub proof fn sweeping_removes_old_series(
    catalog: Catalog,
    cutoff: i64,
    window: i64,
    name: Seq<char>,
)
    requires
        catalog_valid(catalog, window),
        catalog.contains_key(name) ==> catalog[name].holds == 0,
        forall|point: Point|
            catalog.contains_key(name) && #[trigger] catalog[name].series.points().contains(point)
                ==> point.0 < cutoff,
    ensures
        !swept(catalog, cutoff).contains_key(name),
{
    if catalog.contains_key(name) {
        lemma_old_series_expires(catalog[name].series, cutoff, window);
    }
}

proof fn lemma_old_series_expires(series: SeriesModel, cutoff: i64, window: i64)
    requires
        series.valid(window),
        forall|point: Point| #[trigger] series.points().contains(point) ==> point.0 < cutoff,
    ensures
        series.expired(cutoff).is_empty(),
{
    if series.head.len() > 0 {
        let last = series.head.last();
        assert(series.points()[series.points().len() - 1] == last);
        assert(series.points().contains(last));
        expiry_keeps_order(series, cutoff, window);
    }
}

/// A second sweep at the same time finds nothing to do.
pub proof fn sweeping_is_idempotent(catalog: Catalog, cutoff: i64)
    ensures
        swept(swept(catalog, cutoff), cutoff) == swept(catalog, cutoff),
{
    let once = swept(catalog, cutoff);
    let twice = swept(once, cutoff);
    assert forall|name: Seq<char>| #[trigger] once.contains_key(name) implies twice.contains_key(
        name,
    ) && twice[name] == once[name] by {
        expiry_is_idempotent(catalog[name].series, cutoff);
    }
    assert(twice =~= once);
}

/// Two batches one after the other are one batch.
pub proof fn batches_add_up(
    catalog: Catalog,
    first: Seq<InputPoint>,
    second: Seq<InputPoint>,
    cutoff: i64,
    window: i64,
)
    ensures
        ingested_all(catalog, first + second, cutoff, window) == ingested_all(
            ingested_all(catalog, first, cutoff, window),
            second,
            cutoff,
            window,
        ),
        stored_count(catalog, first + second, cutoff, window) == stored_count(
            catalog,
            first,
            cutoff,
            window,
        ) + stored_count(ingested_all(catalog, first, cutoff, window), second, cutoff, window),
    decreases second.len(),
{
    let all = first + second;
    if second.len() == 0 {
        assert(all =~= first);
    } else {
        assert(all.drop_last() =~= first + second.drop_last());
        assert(all.last() == second.last());
        batches_add_up(catalog, first, second.drop_last(), cutoff, window);
    }
}

/// A name is known after a batch if it was known before, or if a point of the
/// batch with this name is storable.
pub proof fn storable_points_name_series(
    catalog: Catalog,
    batch: Seq<InputPoint>,
    cutoff: i64,
    window: i64,
    name: Seq<char>,
)
    ensures
        ingested_all(catalog, batch, cutoff, window).contains_key(name) <==> {
            ||| catalog.contains_key(name)
            ||| exists|i: int|
                0 <= i < batch.len() && (#[trigger] batch[i]).name@ == name && storable(
                    batch[i],
                    cutoff,
                )
        },
    decreases batch.len(),
{
    if batch.len() > 0 {
        let less = batch.drop_last();
        storable_points_name_series(catalog, less, cutoff, window, name);
        if exists|i: int|
            0 <= i < less.len() && (#[trigger] less[i]).name@ == name && storable(less[i], cutoff) {
            let i = choose|i: int|
                0 <= i < less.len() && (#[trigger] less[i]).name@ == name && storable(
                    less[i],
                    cutoff,
                );
            assert(batch[i] == less[i]);
        }
        if exists|i: int|
            0 <= i < batch.len() && (#[trigger] batch[i]).name@ == name && storable(
                batch[i],
                cutoff,
            ) {
            let i = choose|i: int|
                0 <= i < batch.len() && (#[trigger] batch[i]).name@ == name && storable(
                    batch[i],
                    cutoff,
                );
            if i < less.len() {
                assert(less[i] == batch[i]);
            }
        }
    }
}

/// Whether no point of any series is older than the retention.
pub open spec fn all_recent(catalog: Catalog, cutoff: i64) -> bool {
    forall|name: Seq<char>, point: Point|
        catalog.contains_key(name) && #[trigger] catalog[name].series.points().contains(point)
            ==> point.0 >= cutoff
}

/// Every point that is stored is counted once: where nothing is old enough to
/// be dropped, the points of a store grow by the number of points accepted.
pub proof fn stored_points_are_counted(
    catalog: Catalog,
    batch: Seq<InputPoint>,
    cutoff: i64,
    window: i64,
)
    requires
        catalog_valid(catalog, window),
        window > 0,
        all_recent(catalog, cutoff),
    ensures
        all_recent(ingested_all(catalog, batch, cutoff, window), cutoff),
        point_total(ingested_all(catalog, batch, cutoff, window)) == point_total(catalog)
            + stored_count(catalog, batch, cutoff, window),
    decreases batch.len(),
{
    if batch.len() > 0 {
        let less = batch.drop_last();
        stored_points_are_counted(catalog, less, cutoff, window);
        ingesting_keeps_catalog_valid(catalog, less, cutoff, window);
        lemma_stored_point_counts(
            ingested_all(catalog, less, cutoff, window),
            batch.last(),
            cutoff,
            window,
        );
    }
}

proof fn lemma_stored_point_counts(
    catalog: Catalog,
    input: InputPoint,
    cutoff: i64,
    window: i64,
)
    requires
        catalog_valid(catalog, window),
        window > 0,
        all_recent(catalog, cutoff),
    ensures
        all_recent(ingested(catalog, input, cutoff, window), cutoff),
        point_total(ingested(catalog, input, cutoff, window)) == point_total(catalog) + if stored(
            catalog,
            input,
            cutoff,
            window,
        ) {
            1nat
        } else {
            0nat
        },
{
    let name = input.name@;
    let after = ingested(catalog, input, cutoff, window);
    let point = (input.timestamp, input.value);
    let series = slot_of(catalog, name).series;
    let next = series.offered(point, cutoff, window);
    if !catalog.contains_key(name) {
        assert(series.points() =~= Seq::<Point>::empty());
    }
    if storable(input, cutoff) {
        assert forall|p: Point| #[trigger] series.points().contains(p) implies p.0 >= cutoff by {
            if catalog.contains_key(name) {
                assert(catalog[name].series.points().contains(p));
            }
        }
        lemma_offered_count(series, point, cutoff, window);
        let without = catalog.remove(name);
        assert(after =~= without.insert(name, after[name]));
        lemma_totals_insert(without, name, after[name]);
        if catalog.contains_key(name) {
            lemma_totals_remove(catalog, name);
        } else {
            assert(without =~= catalog);
        }
        assert forall|n: Seq<char>, p: Point|
            after.contains_key(n) && #[trigger] after[n].series.points().contains(p) implies p.0
            >= cutoff by {
            if n == name {
                offering_keeps_recent_points(series, point, cutoff, window, p);
            } else {
                assert(catalog[n].series.points().contains(p));
            }
        }
    }
}

/// A point that is taken makes a series longer by one where nothing is old
/// enough to be dropped.
proof fn lemma_offered_count(series: SeriesModel, point: Point, cutoff: i64, window: i64)
    requires
        series.valid(window),
        forall|p: Point| #[trigger] series.points().contains(p) ==> p.0 >= cutoff,
    ensures
        series.offered(point, cutoff, window).points().len() == series.points().len()
            + if series.takes(point.0, window) {
            1nat
        } else {
            0nat
        },
{
    if series.takes(point.0, window) && series.opens_window(point.0, window) {
        let chunks = series.sealed.push(series.head);
        let first = chunks[0];
        assert(chunk_valid(first, window));
        assert(first.contains(first[first.len() - 1]));
        if series.sealed.len() > 0 {
            assert(series.sealed[0] == first);
        }
        lemma_points_hold(series, first.last());
        assert(first.last().0 >= cutoff);
        assert(unexpired(chunks, cutoff) == chunks);
        assert(chunks.drop_last() =~= series.sealed);
    }
}

} // verus!
