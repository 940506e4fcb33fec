//! One shard of a store: named series in the order of their names.
use crate::catalog::{
    byte_total, can_hold, catalog_valid, lemma_totals_empty, lemma_totals_insert, outlives,
    point_total, slot_of, swept, with_hold, with_release, Catalog, Slot,
};
use crate::glob::{metric_matches, segments_match};
use crate::names::{
    fits_at, lemma_sorted_insert, lemma_sorted_unique, lemma_texts_push, name_lt, name_texts,
    pieces, place, segments, sorted, texts, Named,
};
use crate::series::Series;
use vstd::prelude::*;

verus! {

broadcast use vstd::string::group_string_axioms;

/// A named series.
struct Entry {
    name: String,
    series: Series,
    holds: usize,
}

impl Named for Entry {
    closed spec fn name_text(&self) -> Seq<char> {
        self.name@
    }

    fn name_str(&self) -> (name: &str) {
        self.name.as_str()
    }
}

spec fn slot(entry: Entry) -> Slot {
    Slot { series: entry.series@, holds: entry.holds as nat }
}

/// Whether each series is well formed for the window.
spec fn all_wf(entries: Seq<Entry>, window: i64) -> bool {
    forall|i: int| 0 <= i < entries.len() ==> (#[trigger] entries[i]).series.wf(window)
}

/// The catalog that entries make up.
spec fn catalog_of(entries: Seq<Entry>) -> Catalog {
    Map::new(
        |name: Seq<char>| name_texts(entries).contains(name),
        |name: Seq<char>| slot(entries[name_texts(entries).index_of(name)]),
    )
}

/// Each entry is found under its name.
proof fn lemma_lookup(entries: Seq<Entry>, i: int)
    requires
        sorted(name_texts(entries)),
        0 <= i < entries.len(),
    ensures
        catalog_of(entries).contains_key(entries[i].name@),
        catalog_of(entries)[entries[i].name@] == slot(entries[i]),
{
    let names = name_texts(entries);
    let name = names[i];
    assert(names.contains(name));
    lemma_sorted_unique(names, names.index_of(name), i);
}

/// What is in the catalog is the slot of an entry.
proof fn lemma_entry_of(entries: Seq<Entry>, name: Seq<char>) -> (i: int)
    requires
        sorted(name_texts(entries)),
        catalog_of(entries).contains_key(name),
    ensures
        0 <= i < entries.len(),
        entries[i].name@ == name,
        catalog_of(entries)[name] == slot(entries[i]),
{
    name_texts(entries).index_of(name)
}

/// Two lists of entries with the same names differ at most where their
/// entries do.
proof fn lemma_update(entries: Seq<Entry>, i: int, entry: Entry)
    requires
        sorted(name_texts(entries)),
        0 <= i < entries.len(),
        entry.name@ == entries[i].name@,
    ensures
        name_texts(entries.update(i, entry)) == name_texts(entries),
        catalog_of(entries.update(i, entry)) == catalog_of(entries).insert(
            entry.name@,
            slot(entry),
        ),
{
    let next = entries.update(i, entry);
    assert(name_texts(next) =~= name_texts(entries));
    let names = name_texts(entries);
    lemma_lookup(entries, i);
    lemma_lookup(next, i);
    assert forall|name: Seq<char>| #[trigger] catalog_of(next).contains_key(name) && name
        != entry.name@ implies catalog_of(next)[name] == catalog_of(entries)[name] by {
        let k = lemma_entry_of(next, name);
        lemma_lookup(entries, k);
    }
    assert(catalog_of(next) =~= catalog_of(entries).insert(entry.name@, slot(entry)));
}

/// An entry with a new name, put in its place.
proof fn lemma_insert(entries: Seq<Entry>, i: int, entry: Entry)
    requires
        sorted(name_texts(entries)),
        fits_at(name_texts(entries), i, entry.name@),
    ensures
        sorted(name_texts(entries.insert(i, entry))),
        !catalog_of(entries).contains_key(entry.name@),
        catalog_of(entries.insert(i, entry)) == catalog_of(entries).insert(
            entry.name@,
            slot(entry),
        ),
{
    let next = entries.insert(i, entry);
    assert(name_texts(next) =~= name_texts(entries).insert(i, entry.name@));
    lemma_sorted_insert(name_texts(entries), i, entry.name@);
    assert(next[i] == entry);
    lemma_lookup(next, i);
    assert forall|name: Seq<char>| #[trigger] catalog_of(next).contains_key(name) && name
        != entry.name@ implies catalog_of(next)[name] == catalog_of(entries)[name] by {
        let k = lemma_entry_of(next, name);
        let k0 = if k < i {
            k
        } else {
            k - 1
        };
        assert(next[k] == entries[k0]);
        lemma_lookup(entries, k0);
    }
    assert(catalog_of(next) =~= catalog_of(entries).insert(entry.name@, slot(entry)));
}

/// An entry that comes after all others.
proof fn lemma_push(entries: Seq<Entry>, entry: Entry)
    requires
        sorted(name_texts(entries.push(entry))),
    ensures
        sorted(name_texts(entries)),
        !catalog_of(entries).contains_key(entry.name@),
        catalog_of(entries.push(entry)) == catalog_of(entries).insert(entry.name@, slot(entry)),
{
    let next = entries.push(entry);
    assert forall|a: int, b: int| 0 <= a < b < entries.len() implies name_lt(
        name_texts(entries)[a],
        name_texts(entries)[b],
    ) by {
        assert(name_lt(name_texts(next)[a], name_texts(next)[b]));
    }
    assert forall|k: int| 0 <= k < entries.len() implies name_lt(
        #[trigger] name_texts(entries)[k],
        entry.name@,
    ) by {
        assert(name_lt(name_texts(next)[k], name_texts(next)[entries.len() as int]));
    }
    assert(next =~= entries.insert(entries.len() as int, entry));
    lemma_insert(entries, entries.len() as int, entry);
}

/// A part of a store: some of its series by name.
pub struct Shard {
    entries: Vec<Entry>,
}

impl View for Shard {
    type V = Catalog;

    closed spec fn view(&self) -> Catalog {
        catalog_of(self.entries@)
    }
}

impl Shard {
    /// Names are in order, and each series is well formed for the window.
    pub closed spec fn wf(&self, window: i64) -> bool {
        &&& sorted(name_texts(self.entries@))
        &&& all_wf(self.entries@, window)
    }

    pub fn new() -> (shard: Self)
        ensures
            forall|window: i64| shard.wf(window),
            shard@ == Map::<Seq<char>, Slot>::empty(),
    {
        let shard = Shard { entries: Vec::new() };
        assert(shard@ =~= Map::empty());
        shard
    }

    /// There are finitely many names, and each series is valid.
    pub proof fn lemma_valid(&self, window: i64)
        requires
            self.wf(window),
        ensures
            catalog_valid(self@, window),
    {
        let list = self.entries@;
        assert(catalog_of(list.take(0)) =~= Map::empty());
        lemma_prefix_totals(list, 0);
        assert forall|name: Seq<char>| #[trigger] self@.contains_key(
            name,
        ) implies self@[name].series.valid(window) by {
            let i = lemma_entry_of(list, name);
            list[i].series.lemma_valid(window);
        }
    }

    /// The place of a name, which is added with an empty series if it is new.
    fn get_or_create_series(&mut self, name: &str) -> (place: usize)
        requires
            exists|window: i64| old(self).wf(window),
        ensures
            place < final(self).entries@.len(),
            final(self).entries@[place as int].name@ == name@,
            final(self)@ == old(self)@.insert(name@, slot_of(old(self)@, name@)),
            forall|window: i64| old(self).wf(window) ==> #[trigger] final(self).wf(window),
    {
        match place(self.entries.as_slice(), name) {
            Ok(place) => {
                proof {
                    lemma_lookup(self.entries@, place as int);
                    assert(self@ =~= old(self)@.insert(name@, slot_of(old(self)@, name@)));
                }
                place
            },
            Err(place) => {
                let entry = Entry { name: name.to_owned(), series: Series::new(), holds: 0 };
                proof {
                    lemma_insert(self.entries@, place as int, entry);
                }
                let ghost before = self.entries@;
                self.entries.insert(place, entry);
                assert forall|window: i64| old(self).wf(window) implies #[trigger] self.wf(
                    window,
                ) by {
                    assert forall|i: int| 0 <= i < self.entries@.len() implies (
                    #[trigger] self.entries@[i]).series.wf(window) by {
                        if i < place {
                            assert(self.entries@[i] == before[i]);
                        } else if i > place {
                            assert(self.entries@[i] == before[i - 1]);
                        }
                    }
                }
                place
            },
        }
    }

    /// Offers a point to the series of a name. Returns whether it was taken.
    pub fn offer(
        &mut self,
        name: &str,
        timestamp: i64,
        value: u64,
        cutoff: i64,
        window: i64,
    ) -> (taken: bool)
        requires
            old(self).wf(window),
            0 < window <= usize::MAX,
        ensures
            final(self).wf(window),
            taken == slot_of(old(self)@, name@).series.takes(timestamp, window),
            final(self)@ == old(self)@.insert(
                name@,
                (Slot {
                    series: slot_of(old(self)@, name@).series.offered(
                        (timestamp, value),
                        cutoff,
                        window,
                    ),
                    holds: slot_of(old(self)@, name@).holds,
                }),
            ),
    {
        let place: usize = self.get_or_create_series(name);
        assert(self.wf(window));
        let ghost before = self.entries@;
        proof {
            lemma_lookup(before, place as int);
        }
        let taken: bool = self.entries[place].series.append(timestamp, value, cutoff, window);
        proof {
            let entry = self.entries@[place as int];
            assert(self.entries@ =~= before.update(place as int, entry));
            lemma_update(before, place as int, entry);
            assert(self@ =~= old(self)@.insert(name@, slot(entry)));
        }
        taken
    }

    /// The series of a name.
    pub fn find_series(&self, name: &str) -> (series: Option<&Series>)
        requires
            exists|window: i64| self.wf(window),
        ensures
            match series {
                Some(series) => {
                    &&& self@.contains_key(name@)
                    &&& series@ == self@[name@].series
                    &&& forall|window: i64| self.wf(window) ==> #[trigger] series.wf(window)
                },
                None => !self@.contains_key(name@),
            },
    {
        match place(self.entries.as_slice(), name) {
            Ok(place) => {
                proof {
                    lemma_lookup(self.entries@, place as int);
                }
                Some(&self.entries[place].series)
            },
            Err(_) => None,
        }
    }

    /// Notes that an operation holds the series of a name. Returns whether it
    /// does: there has to be one, and it may not be held too often already.
    pub fn hold_series(&mut self, name: &str) -> (held: bool)
        requires
            exists|window: i64| old(self).wf(window),
        ensures
            forall|window: i64| old(self).wf(window) ==> #[trigger] final(self).wf(window),
            held == can_hold(old(self)@, name@),
            final(self)@ == with_hold(old(self)@, name@),
    {
        match place(self.entries.as_slice(), name) {
            Ok(place) => {
                proof {
                    lemma_lookup(self.entries@, place as int);
                }
                if self.entries[place].holds == usize::MAX {
                    return false;
                }
                let ghost before = self.entries@;
                self.entries[place].holds = self.entries[place].holds + 1;
                proof {
                    lemma_kept(before, self.entries@, place as int);
                }
                true
            },
            Err(_) => false,
        }
    }

    /// Notes that an operation no longer holds the series of a name.
    pub fn release_series(&mut self, name: &str)
        requires
            exists|window: i64| old(self).wf(window),
        ensures
            forall|window: i64| old(self).wf(window) ==> #[trigger] final(self).wf(window),
            final(self)@ == with_release(old(self)@, name@),
    {
        if let Ok(place) = place(self.entries.as_slice(), name) {
            proof {
                lemma_lookup(self.entries@, place as int);
            }
            if self.entries[place].holds > 0 {
                let ghost before = self.entries@;
                self.entries[place].holds = self.entries[place].holds - 1;
                proof {
                    lemma_kept(before, self.entries@, place as int);
                }
            }
        }
    }

    /// The names, in order.
    pub fn series_names(&self) -> (names: Vec<String>)
        requires
            exists|window: i64| self.wf(window),
        ensures
            sorted(texts(names@)),
            forall|n: Seq<char>| texts(names@).contains(n) <==> self@.contains_key(n),
    {
        let mut names: Vec<String> = Vec::new();
        for i in 0..self.entries.len()
            invariant
                texts(names@) =~= name_texts(self.entries@).take(i as int),
        {
            let ghost before = texts(names@);
            let name = self.entries[i].name.clone();
            assert(name@ == name_texts(self.entries@)[i as int]);
            names.push(name);
            assert(texts(names@) =~= before.push(name@));
        }
        assert(texts(names@) =~= name_texts(self.entries@));
        names
    }

    /// The names that match a pattern, in order.
    pub fn expand(&self, pattern_segments: &[&str]) -> (names: Vec<String>)
        requires
            exists|window: i64| self.wf(window),
        ensures
            sorted(texts(names@)),
            forall|n: Seq<char>|
                texts(names@).contains(n) <==> self@.contains_key(n) && segments_match(
                    pieces(pattern_segments@),
                    segments(n),
                ),
    {
        let mut names: Vec<String> = Vec::new();
        let ghost all = name_texts(self.entries@);
        let ghost patterns = pieces(pattern_segments@);
        for i in 0..self.entries.len()
            invariant
                all == name_texts(self.entries@),
                patterns == pieces(pattern_segments@),
                sorted(all),
                sorted(texts(names@)),
                forall|k: int|
                    #![trigger texts(names@)[k]]
                    0 <= k < names@.len() ==> all.take(i as int).contains(texts(names@)[k]),
                forall|n: Seq<char>|
                    texts(names@).contains(n) <==> all.take(i as int).contains(n)
                        && segments_match(patterns, segments(n)),
        {
            let name = &self.entries[i].name;
            let ghost before = names@;
            let ghost next = all.take(i + 1);
            assert(next =~= all.take(i as int).push(name@));
            assert forall|n: Seq<char>|
                next.contains(n) <==> all.take(i as int).contains(n) || n == name@ by {
                if all.take(i as int).contains(n) {
                    let k = all.take(i as int).index_of(n);
                    assert(next[k] == n);
                }
                assert(next[i as int] == name@);
            }
            let matched: bool = metric_matches(pattern_segments, name.as_str());
            if matched {
                let copy = name.clone();
                assert(copy@ == name@);
                names.push(copy);
                assert forall|n: Seq<char>|
                    texts(names@).contains(n) <==> texts(before).contains(n) || n == name@ by {
                    lemma_texts_push(before, copy, n);
                }
                assert forall|a: int, b: int| 0 <= a < b < names@.len() implies name_lt(
                    texts(names@)[a],
                    texts(names@)[b],
                ) by {
                    if b < before.len() {
                        assert(texts(before)[a] == texts(names@)[a]);
                        assert(texts(before)[b] == texts(names@)[b]);
                    } else {
                        assert(texts(before)[a] == texts(names@)[a]);
                        let k = all.take(i as int).index_of(texts(names@)[a]);
                        assert(all[k] == texts(names@)[a]);
                        assert(name_lt(all[k], all[i as int]));
                    }
                }
                assert forall|k: int|
                    #![trigger texts(names@)[k]]
                    0 <= k < names@.len() implies next.contains(texts(names@)[k]) by {
                    if k < before.len() {
                        assert(texts(before)[k] == texts(names@)[k]);
                    }
                }
            }
            assert forall|n: Seq<char>|
                texts(names@).contains(n) <==> next.contains(n) && segments_match(
                    patterns,
                    segments(n),
                ) by {
                assert(texts(before).contains(n) <==> all.take(i as int).contains(n)
                    && segments_match(patterns, segments(n)));
            }
        }
        assert(all.take(all.len() as int) =~= all);
        names
    }

    /// Drops what ends before `cutoff`, and the series of which nothing is
    /// left and which nobody holds.
    pub fn sweep(&mut self, cutoff: i64)
        requires
            exists|window: i64| old(self).wf(window),
        ensures
            forall|window: i64| old(self).wf(window) ==> #[trigger] final(self).wf(window),
            final(self)@ == swept(old(self)@, cutoff),
    {
        let ghost list = self.entries@;
        let mut entries: Vec<Entry> = Vec::new();
        std::mem::swap(&mut entries, &mut self.entries);
        assert(catalog_of(self.entries@) =~= swept(catalog_of(list.take(0)), cutoff));
        for entry in it: entries
            invariant
                it.seq() == list,
                sorted(name_texts(list)),
                exists|window: i64| all_wf(list, window),
                sorted(name_texts(self.entries@)),
                forall|k: int|
                    0 <= k < self.entries@.len() ==> name_texts(list.take(it.index())).contains(
                        #[trigger] self.entries@[k].name@,
                    ),
                forall|window: i64| all_wf(list, window) ==> all_wf(self.entries@, window),
                catalog_of(self.entries@) == swept(catalog_of(list.take(it.index())), cutoff),
        {
            let ghost i = it.index();
            let ghost done = self.entries@;
            let mut kept = entry;
            proof {
                assert(entry == list[i]);
                let window = choose|window: i64| all_wf(list, window);
                assert(list[i].series.wf(window));
            }
            let empty: bool = kept.series.expire_and_is_empty(cutoff);
            proof {
                lemma_sweep_step(list, i, done, kept, cutoff);
            }
            if !empty || kept.holds > 0 {
                self.entries.push(kept);
            }
            assert forall|k: int| 0 <= k < self.entries@.len() implies name_texts(
                list.take(i + 1),
            ).contains(#[trigger] self.entries@[k].name@) by {
                assert(done.push(kept)[k] == self.entries@[k]);
            }
            assert forall|window: i64| all_wf(list, window) implies all_wf(
                self.entries@,
                window,
            ) by {
                assert(all_wf(done, window));
                assert(list[i].series.wf(window));
                assert(kept.series.wf(window));
            }
        }
        assert(list.take(list.len() as int) =~= list);
    }

    /// Adds the number of series, of points and of bytes to three sums, if
    /// the sums can be represented.
    pub fn add_stats(&self, series: usize, points: usize, bytes: usize) -> (sums: Option<
        (usize, usize, usize),
    >)
        requires
            exists|window: i64| self.wf(window),
        ensures
            self@.dom().finite(),
            sums is Some <==> {
                &&& series + self@.dom().len() <= usize::MAX
                &&& points + point_total(self@) <= usize::MAX
                &&& bytes + byte_total(self@) <= usize::MAX
            },
            sums matches Some((s, p, b)) ==> {
                &&& s == series + self@.dom().len()
                &&& p == points + point_total(self@)
                &&& b == bytes + byte_total(self@)
            },
    {
        let ghost list = self.entries@;
        let mut point_sum: usize = points;
        let mut byte_sum: usize = bytes;
        proof {
            assert(catalog_of(list.take(0)) =~= Map::empty());
            lemma_totals_empty();
            lemma_prefix_totals(list, 0);
        }
        for i in 0..self.entries.len()
            invariant
                list == self.entries@,
                exists|window: i64| all_wf(list, window),
                sorted(name_texts(list)),
                catalog_of(list).dom().finite(),
                catalog_of(list.take(i as int)).dom().finite(),
                catalog_of(list.take(i as int)).dom().len() == i,
                point_sum == points + point_total(catalog_of(list.take(i as int))),
                byte_sum == bytes + byte_total(catalog_of(list.take(i as int))),
        {
            proof {
                let window = choose|window: i64| all_wf(list, window);
                assert(list[i as int].series.wf(window));
                lemma_prefix_step(list, i as int);
                lemma_prefix_totals(list, i + 1);
            }
            match self.entries[i].series.add_stats(point_sum, byte_sum) {
                Some((p, b)) => {
                    point_sum = p;
                    byte_sum = b;
                },
                None => return None,
            }
        }
        assert(list.take(list.len() as int) =~= list);
        match series.checked_add(self.entries.len()) {
            Some(sum) => Some((sum, point_sum, byte_sum)),
            None => None,
        }
    }
}

/// One entry more, with its share of the totals.
proof fn lemma_prefix_step(list: Seq<Entry>, i: int)
    requires
        0 <= i < list.len(),
        sorted(name_texts(list)),
        catalog_of(list.take(i)).dom().finite(),
    ensures
        catalog_of(list.take(i + 1)).dom().finite(),
        catalog_of(list.take(i + 1)).dom().len() == catalog_of(list.take(i)).dom().len() + 1,
        point_total(catalog_of(list.take(i + 1))) == point_total(catalog_of(list.take(i)))
            + list[i].series@.points().len(),
        byte_total(catalog_of(list.take(i + 1))) == byte_total(catalog_of(list.take(i)))
            + list[i].series@.size(),
{
    let now = list.take(i + 1);
    assert(now =~= list.take(i).push(list[i]));
    assert forall|a: int, b: int| 0 <= a < b < now.len() implies name_lt(
        name_texts(now)[a],
        name_texts(now)[b],
    ) by {
        assert(name_lt(name_texts(list)[a], name_texts(list)[b]));
    }
    lemma_push(list.take(i), list[i]);
    lemma_totals_insert(catalog_of(list.take(i)), list[i].name@, slot(list[i]));
}

/// The first entries have no more than all of them.
proof fn lemma_prefix_totals(list: Seq<Entry>, i: int)
    requires
        0 <= i <= list.len(),
        sorted(name_texts(list)),
        catalog_of(list.take(i)).dom().finite(),
    ensures
        catalog_of(list).dom().finite(),
        catalog_of(list.take(i)).dom().len() <= catalog_of(list).dom().len(),
        point_total(catalog_of(list.take(i))) <= point_total(catalog_of(list)),
        byte_total(catalog_of(list.take(i))) <= byte_total(catalog_of(list)),
    decreases list.len() - i,
{
    if i == list.len() {
        assert(list.take(i) =~= list);
    } else {
        lemma_prefix_step(list, i);
        lemma_prefix_totals(list, i + 1);
    }
}

/// One entry more is swept.
proof fn lemma_sweep_step(list: Seq<Entry>, i: int, done: Seq<Entry>, kept: Entry, cutoff: i64)
    requires
        0 <= i < list.len(),
        sorted(name_texts(list)),
        sorted(name_texts(done)),
        forall|k: int|
            0 <= k < done.len() ==> name_texts(list.take(i)).contains(#[trigger] done[k].name@),
        catalog_of(done) == swept(catalog_of(list.take(i)), cutoff),
        kept.name == list[i].name,
        kept.holds == list[i].holds,
        kept.series@ == list[i].series@.expired(cutoff),
    ensures
        !outlives(slot(list[i]), cutoff) ==> catalog_of(done) == swept(
            catalog_of(list.take(i + 1)),
            cutoff,
        ),
        outlives(slot(list[i]), cutoff) ==> {
            &&& sorted(name_texts(done.push(kept)))
            &&& catalog_of(done.push(kept)) == swept(catalog_of(list.take(i + 1)), cutoff)
        },
        forall|k: int|
            0 <= k < done.push(kept).len() ==> name_texts(list.take(i + 1)).contains(
                #[trigger] done.push(kept)[k].name@,
            ),
{
    let before = list.take(i);
    let now = list.take(i + 1);
    let name = kept.name@;
    assert(now =~= before.push(list[i]));
    assert forall|a: int, b: int| 0 <= a < b < now.len() implies name_lt(
        name_texts(now)[a],
        name_texts(now)[b],
    ) by {
        assert(name_lt(name_texts(list)[a], name_texts(list)[b]));
    }
    lemma_push(before, list[i]);
    assert forall|k: int| 0 <= k < done.push(kept).len() implies name_texts(now).contains(
        #[trigger] done.push(kept)[k].name@,
    ) by {
        if k < done.len() {
            assert(done.push(kept)[k] == done[k]);
            let b = name_texts(before).index_of(done[k].name@);
            assert(name_texts(now)[b] == done[k].name@);
        } else {
            assert(name_texts(now)[i] == name);
        }
    }
    if outlives(slot(list[i]), cutoff) {
        let next = done.push(kept);
        assert forall|a: int, b: int| 0 <= a < b < next.len() implies name_lt(
            name_texts(next)[a],
            name_texts(next)[b],
        ) by {
            if b < done.len() {
                assert(name_lt(name_texts(done)[a], name_texts(done)[b]));
            } else {
                let k = name_texts(before).index_of(done[a].name@);
                assert(name_texts(list)[k] == done[a].name@);
                assert(name_lt(name_texts(list)[k], name_texts(list)[i]));
            }
        }
        lemma_push(done, kept);
        assert(catalog_of(next) =~= swept(catalog_of(now), cutoff));
    } else {
        assert(catalog_of(done) =~= swept(catalog_of(now), cutoff));
    }
}

/// A changed count of holds changes nothing else.
proof fn lemma_kept(before: Seq<Entry>, after: Seq<Entry>, i: int)
    requires
        sorted(name_texts(before)),
        0 <= i < before.len(),
        after == before.update(i, after[i]),
        after[i].name == before[i].name,
        after[i].series == before[i].series,
    ensures
        sorted(name_texts(after)),
        catalog_of(after) == catalog_of(before).insert(before[i].name@, slot(after[i])),
        forall|k: int|
            0 <= k < after.len() ==> (#[trigger] after[k]).series == before[k].series,
{
    lemma_update(before, i, after[i]);
}

} // verus!
