//! What holds of bit strings and chunks, in terms of the numbers, points and
//! timestamps that go into them.
use crate::bits::{
    bits_of, bits_value, field_bits, field_roundtrip, lemma_bits_value_bound,
    lemma_field_bits_len, padded,
};
use crate::codec::{
    accepts, chunk_bits, chunk_points, chunk_size, delta_bits, delta_in_range, encodable,
    last_window, lemma_tightest, lemma_window_keeps, next_window, no_progress, read_delta,
    read_field, read_point, read_points, read_value, read_window, read_xor, value_bits, Point,
    Progress, ValueWindow,
};
use vstd::arithmetic::div_mod::lemma_small_mod;
use vstd::arithmetic::power2::{lemma2_to64, lemma2_to64_rest, pow2};
use vstd::bits::{lemma_u64_shr_is_div, lemma_u8_shr_is_div};
use vstd::prelude::*;
use vstd::std_specs::bits::{u64_leading_zeros, u64_trailing_zeros};

verus! {

// Bits.

/// A byte string has eight bits per byte, the most significant one first.
pub proof fn bytes_spell_their_bits(bytes: Seq<u8>, i: int)
    requires
        0 <= i < 8 * bytes.len(),
    ensures
        bits_of(bytes).len() == 8 * bytes.len(),
        bits_of(bytes)[i] <==> bytes[i / 8] as nat / pow2((7 - i % 8) as nat) % 2 == 1,
{
    let byte = bytes[i / 8];
    let shift = (7 - i % 8) as u8;
    lemma_u8_shr_is_div(byte, shift);
    let upper = byte >> shift;
    assert(upper & 1 == upper % 2) by (bit_vector);
}

/// Padding adds fewer than eight bits, all of them zero, and fills the last
/// byte.
pub proof fn padding_fills_the_last_byte(bits: Seq<bool>, i: int)
    requires
        0 <= i < padded(bits).len(),
    ensures
        padded(bits).len() % 8 == 0,
        bits.len() <= padded(bits).len() < bits.len() + 8,
        padded(bits)[i] == (i < bits.len() && bits[i]),
{
}

/// A bit string that is longer by one bit spells twice the number and the bit.
pub proof fn bits_spell_numbers(bits: Seq<bool>, bit: bool)
    ensures
        bits_value(Seq::empty()) == 0,
        bits_value(bits.push(bit)) == 2 * bits_value(bits) + if bit {
            1int
        } else {
            0int
        },
{
    assert(bits.push(bit).drop_last() =~= bits);
}

/// A field is as wide as it was asked for and spells its number.
pub proof fn fields_spell_numbers(value: nat, count: nat)
    requires
        value < pow2(count),
    ensures
        field_bits(value, count).len() == count,
        bits_value(field_bits(value, count)) == value,
{
    lemma_field_bits_len(value, count);
    field_roundtrip(value, count);
    lemma_small_mod(value, pow2(count));
}

// Which points a chunk takes.

/// A chunk takes every timestamp that is later than its last one and whose
/// change of delta fits 32 bits, and no other. An empty chunk takes every
/// timestamp. How many points there are does not matter.
pub proof fn chunk_takes_later_timestamps(points: Seq<Point>, timestamp: i64)
    ensures
        points.len() == 0 ==> accepts(points, timestamp),
        points.len() == 1 ==> (accepts(points, timestamp) <==> 0 < timestamp - points[0].0
            <= 0x7fff_ffff),
        points.len() >= 2 ==> ({
            let delta = timestamp - points[points.len() - 1].0;
            let before = points[points.len() - 1].0 - points[points.len() - 2].0;
            accepts(points, timestamp) <==> 0 < delta <= 0x7fff_ffff_ffff_ffff && -0x8000_0000
                <= delta - before <= 0x7fff_ffff
        }),
{
}

/// A later timestamp is refused only because its delta, or the change of the
/// delta, does not fit.
pub proof fn later_timestamps_are_refused_for_their_delta(points: Seq<Point>, timestamp: i64)
    requires
        points.len() > 0,
        timestamp > points.last().0,
    ensures
        points.len() == 1 ==> (delta_in_range(points, timestamp) <==> timestamp - points[0].0
            <= 0x7fff_ffff),
        points.len() >= 2 ==> ({
            let delta = timestamp - points[points.len() - 1].0;
            let before = points[points.len() - 1].0 - points[points.len() - 2].0;
            delta_in_range(points, timestamp) <==> delta <= 0x7fff_ffff_ffff_ffff && -0x8000_0000
                <= delta - before <= 0x7fff_ffff
        }),
{
}

/// Whether point `i` is later than the one before it, by a delta whose change
/// fits 32 bits. Before the second point the delta counts as zero.
pub open spec fn follows(points: Seq<Point>, i: int) -> bool {
    let delta = points[i].0 - points[i - 1].0;
    let before = if i < 2 {
        0
    } else {
        points[i - 1].0 - points[i - 2].0
    };
    0 < delta <= 0x7fff_ffff_ffff_ffff && -0x8000_0000 <= delta - before <= 0x7fff_ffff
}

/// Points can stand in one chunk if and only if each of them follows the one
/// before it.
pub proof fn chunks_hold_increasing_points(points: Seq<Point>)
    ensures
        encodable(points) <==> forall|i: int| 1 <= i < points.len() ==> #[trigger] follows(
            points,
            i,
        ),
    decreases points.len(),
{
    if points.len() > 0 {
        let less = points.drop_last();
        let last = points.len() - 1;
        chunks_hold_increasing_points(less);
        chunk_takes_later_timestamps(less, points.last().0);
        assert forall|i: int| 1 <= i < less.len() implies #[trigger] follows(less, i) == follows(
            points,
            i,
        ) by {}
        if encodable(points) {
            assert forall|i: int| 1 <= i < points.len() implies #[trigger] follows(points, i) by {
                if i < last {
                    assert(follows(less, i));
                }
            }
        }
        if forall|i: int| 1 <= i < points.len() ==> #[trigger] follows(points, i) {
            assert forall|i: int| 1 <= i < less.len() implies #[trigger] follows(less, i) by {
                assert(follows(points, i));
            }
            if last >= 1 {
                assert(follows(points, last));
            }
        }
    }
}

// What a chunk looks like.

/// The first point of a chunk stands in full: 64 bits of its timestamp, as an
/// unsigned number, and 64 bits of its value.
pub proof fn first_point_stands_in_full(point: Point)
    ensures
        chunk_bits(seq![point]).len() == 128,
        bits_value(chunk_bits(seq![point]).take(64)) == if point.0 >= 0 {
            point.0 as int
        } else {
            point.0 + 0x1_0000_0000_0000_0000
        },
        bits_value(chunk_bits(seq![point]).skip(64)) == point.1,
{
    lemma2_to64_rest();
    let points = seq![point];
    assert(points.drop_last() =~= Seq::<Point>::empty());
    let timestamp = point.0;
    let raw = timestamp as u64;
    assert(raw as int == if timestamp >= 0 {
        timestamp as int
    } else {
        timestamp + 0x1_0000_0000_0000_0000
    }) by (bit_vector)
        requires
            raw == timestamp as u64,
    ;
    fields_spell_numbers(raw as nat, 64);
    fields_spell_numbers(point.1 as nat, 64);
    let a = field_bits(raw as nat, 64);
    let b = field_bits(point.1 as nat, 64);
    assert(chunk_bits(Seq::<Point>::empty()) =~= Seq::<bool>::empty());
    assert(chunk_bits(points) =~= a + b);
    assert((a + b).take(64) =~= a);
    assert((a + b).skip(64) =~= b);
}

/// Each later point adds the entry for its change of delta and the entry for
/// its value, and leaves what was written before it.
pub proof fn later_points_add_two_entries(points: Seq<Point>, point: Point)
    requires
        points.len() > 0,
    ensures
        chunk_bits(points.push(point)) == chunk_bits(points) + delta_bits(
            point.0 - points.last().0 - if points.len() == 1 {
                0
            } else {
                points.last().0 - points[points.len() - 2].0
            },
        ) + value_bits(points.last().1, point.1, last_window(points)),
        last_window(points.push(point)) == next_window(
            points.last().1,
            point.1,
            last_window(points),
        ),
        chunk_bits(Seq::empty()) == Seq::<bool>::empty(),
        last_window(seq![point]) is None,
{
    let more = points.push(point);
    assert(more.drop_last() =~= points);
    assert(chunk_bits(more) =~= chunk_bits(points) + delta_bits(
        point.0 - points.last().0 - if points.len() == 1 {
            0
        } else {
            points.last().0 - points[points.len() - 2].0
        },
    ) + value_bits(points.last().1, point.1, last_window(points)));
}

/// An unchanged delta takes one bit. A change takes a prefix that tells its
/// width, and its distance from the smallest change of that width; the widest
/// one is a number of 32 bits, modulo 2^32.
pub proof fn delta_entries_tell_the_change(change: int)
    requires
        -0x8000_0000 <= change <= 0x7fff_ffff,
    ensures
        ({
            let bits = delta_bits(change);
            if change == 0 {
                bits == seq![false]
            } else if -63 <= change <= 64 {
                &&& bits.len() == 9
                &&& bits.take(2) == seq![true, false]
                &&& bits_value(bits.skip(2)) == change + 63
            } else if -255 <= change <= 256 {
                &&& bits.len() == 12
                &&& bits.take(3) == seq![true, true, false]
                &&& bits_value(bits.skip(3)) == change + 255
            } else if -2047 <= change <= 2048 {
                &&& bits.len() == 16
                &&& bits.take(4) == seq![true, true, true, false]
                &&& bits_value(bits.skip(4)) == change + 2047
            } else {
                &&& bits.len() == 36
                &&& bits.take(4) == seq![true, true, true, true]
                &&& bits_value(bits.skip(4)) == change % 0x1_0000_0000
            }
        }),
{
    lemma2_to64();
    let bits = delta_bits(change);
    if change == 0 {
    } else if -63 <= change <= 64 {
        fields_spell_numbers((change + 63) as nat, 7);
        assert(bits.skip(2) =~= field_bits((change + 63) as nat, 7));
    } else if -255 <= change <= 256 {
        fields_spell_numbers((change + 255) as nat, 9);
        assert(bits.skip(3) =~= field_bits((change + 255) as nat, 9));
    } else if -2047 <= change <= 2048 {
        fields_spell_numbers((change + 2047) as nat, 12);
        assert(bits.skip(4) =~= field_bits((change + 2047) as nat, 12));
    } else {
        let raw = (change % 0x1_0000_0000) as nat;
        fields_spell_numbers(raw, 32);
        assert(bits.skip(4) =~= field_bits(raw, 32));
    }
}

/// An unchanged value takes one bit. Where the bits that changed lie within
/// the window in force, they are written as they stand in it. Otherwise a new
/// window is written before them, as tight as 31 leading zeros allow.
pub proof fn value_entries_tell_the_changed_bits(
    previous: u64,
    value: u64,
    window: Option<ValueWindow>,
)
    requires
        window matches Some(w) ==> w.leading <= 31 && 1 <= w.meaningful && w.leading
            + w.meaningful <= 64,
    ensures
        ({
            let xor = value ^ previous;
            let low = u64_trailing_zeros(xor) as int;
            let high = u64_leading_zeros(xor) as int;
            let bits = value_bits(previous, value, window);
            let next = next_window(previous, value, window);
            if value == previous {
                bits == seq![false] && next == window
            } else if window is Some && high >= window->0.leading && low >= 64 - window->0.leading
                - window->0.meaningful {
                let skipped = (64 - window->0.leading - window->0.meaningful) as nat;
                &&& bits.len() == 2 + window->0.meaningful
                &&& bits.take(2) == seq![true, false]
                &&& bits_value(bits.skip(2)) == xor as nat / pow2(skipped)
                &&& next == window
            } else {
                let leading = if high < 31 {
                    high
                } else {
                    31
                };
                let meaningful = 64 - leading - low;
                &&& bits.len() == 13 + meaningful
                &&& bits.take(2) == seq![true, true]
                &&& bits_value(bits.subrange(2, 7)) == leading
                &&& bits_value(bits.subrange(7, 13)) == meaningful % 64
                &&& bits_value(bits.skip(13)) == xor as nat / pow2(low as nat)
                &&& next is Some && next->0.leading == leading && next->0.meaningful == meaningful
            }
        }),
{
    let xor = value ^ previous;
    let bits = value_bits(previous, value, window);
    assert(value == previous <==> xor == 0) by (bit_vector)
        requires
            xor == value ^ previous,
    ;
    if xor == 0 {
    } else if window is Some && window->0.covers(xor) {
        let w = window->0;
        let t = w.trailing() as u64;
        lemma_window_keeps(xor, w);
        lemma_u64_shr_is_div(xor, t);
        fields_spell_numbers((xor >> t) as nat, w.meaningful as nat);
        assert(bits.skip(2) =~= field_bits((xor >> t) as nat, w.meaningful as nat));
    } else {
        lemma_tightest(xor);
        lemma2_to64();
        let w = ValueWindow::tightest(xor);
        let t = w.trailing() as u64;
        lemma_window_keeps(xor, w);
        lemma_u64_shr_is_div(xor, t);
        let a = field_bits(w.leading as nat, 5);
        let b = field_bits((w.meaningful % 64) as nat, 6);
        let c = field_bits((xor >> t) as nat, w.meaningful as nat);
        fields_spell_numbers(w.leading as nat, 5);
        fields_spell_numbers((w.meaningful % 64) as nat, 6);
        fields_spell_numbers((xor >> t) as nat, w.meaningful as nat);
        assert(bits.subrange(2, 7) =~= a);
        assert(bits.subrange(7, 13) =~= b);
        assert(bits.skip(13) =~= c);
    }
}

/// The size of a chunk is the number of bytes that its bits fill.
pub proof fn chunk_size_is_in_bytes(points: Seq<Point>, bytes: Seq<u8>)
    requires
        bits_of(bytes) == padded(chunk_bits(points)),
    ensures
        chunk_size(points) == bytes.len(),
        8 * bytes.len() - 8 < chunk_bits(points).len() <= 8 * bytes.len(),
{
    assert(bits_of(bytes).len() == 8 * bytes.len());
}

// Reading.

/// The first point is read from 128 bits: its timestamp, modulo 2^64, and its
/// value. Of fewer bits nothing is read.
pub proof fn first_point_is_read_in_full(bits: Seq<bool>, count: nat)
    requires
        count > 0,
    ensures
        bits.len() < 128 ==> chunk_points(bits, count).len() == 0,
        bits.len() >= 128 ==> ({
            let points = chunk_points(bits, count);
            let raw = bits_value(bits.subrange(0, 64)) as int;
            &&& points.len() >= 1
            &&& points[0].0 == if raw < 0x8000_0000_0000_0000 {
                raw
            } else {
                raw - 0x1_0000_0000_0000_0000
            }
            &&& points[0].1 == bits_value(bits.subrange(64, 128))
        }),
        chunk_points(bits, 0).len() == 0,
{
    reveal(read_point);
    lemma2_to64_rest();
    if bits.len() >= 128 {
        let a = bits.take(64);
        let b = bits.skip(64).take(64);
        assert(a =~= bits.subrange(0, 64));
        assert(b =~= bits.subrange(64, 128));
        lemma_bits_value_bound(a);
        lemma_bits_value_bound(b);
        let raw = bits_value(a) as u64;
        assert((raw as i64) as int == if raw < 0x8000_0000_0000_0000 {
            raw as int
        } else {
            raw - 0x1_0000_0000_0000_0000
        }) by (bit_vector);
        let after = read_point(no_progress(), bits)->0;
        assert(chunk_points(bits, count) == seq![after.0] + read_points(
            after.1,
            after.2,
            (count - 1) as nat,
        ));
    } else {
        assert(read_point(no_progress(), bits) is None);
    }
}

/// Each later point is read from the entry for its change of delta and the
/// entry for its value; reading goes on from there. It ends where an entry
/// cannot be read or the time does not fit.
pub proof fn later_points_are_read_from_two_entries(
    last: Point,
    delta: int,
    window: Option<ValueWindow>,
    bits: Seq<bool>,
    count: nat,
)
    requires
        count > 0,
    ensures
        ({
            let start = Progress { last: Some(last), delta, window };
            let points = read_points(start, bits, count);
            match read_delta(bits) {
                None => points.len() == 0,
                Some((change, after)) => {
                    let time = last.0 + delta + change;
                    match read_value(after, last.1, window) {
                        None => points.len() == 0,
                        Some((value, next, rest)) => if i64::MIN <= delta + change <= i64::MAX
                            && i64::MIN <= time <= i64::MAX {
                            let point = (time as i64, value);
                            points == seq![point] + read_points(
                                Progress { last: Some(point), delta: delta + change, window: next },
                                rest,
                                (count - 1) as nat,
                            )
                        } else {
                            points.len() == 0
                        },
                    }
                },
            }
        }),
{
    reveal(read_point);
}

/// A change of delta is read from a prefix that tells its width and a number
/// of that width.
pub proof fn delta_entries_are_read(bits: Seq<bool>)
    requires
        bits.len() >= 36,
    ensures
        ({
            let result = read_delta(bits);
            let wide = bits_value(bits.subrange(4, 36)) as int;
            &&& result is Some
            &&& !bits[0] ==> result == Some((0int, bits.skip(1)))
            &&& bits[0] && !bits[1] ==> result == Some(
                (bits_value(bits.subrange(2, 9)) - 63, bits.skip(9)),
            )
            &&& bits[0] && bits[1] && !bits[2] ==> result == Some(
                (bits_value(bits.subrange(3, 12)) - 255, bits.skip(12)),
            )
            &&& bits[0] && bits[1] && bits[2] && !bits[3] ==> result == Some(
                (bits_value(bits.subrange(4, 16)) - 2047, bits.skip(16)),
            )
            &&& bits[0] && bits[1] && bits[2] && bits[3] ==> result == Some(
                (
                    if wide < 0x8000_0000 {
                        wide
                    } else {
                        wide - 0x1_0000_0000
                    },
                    bits.skip(36),
                ),
            )
        }),
{
    assert(bits.skip(2).take(7) =~= bits.subrange(2, 9));
    assert(bits.skip(2).skip(7) =~= bits.skip(9));
    assert(bits.skip(3).take(9) =~= bits.subrange(3, 12));
    assert(bits.skip(3).skip(9) =~= bits.skip(12));
    assert(bits.skip(4).take(12) =~= bits.subrange(4, 16));
    assert(bits.skip(4).skip(12) =~= bits.skip(16));
    assert(bits.skip(4).take(32) =~= bits.subrange(4, 36));
    assert(bits.skip(4).skip(32) =~= bits.skip(36));
}

/// A value is read as unchanged, or as changed within the window in force, or
/// within a window that is read first. A window that does not fit 64 bits
/// cannot be read, nor can a change without any window.
pub proof fn value_entries_are_read(bits: Seq<bool>, previous: u64, window: Option<ValueWindow>)
    requires
        bits.len() >= 77,
        window matches Some(w) ==> w.leading + w.meaningful <= 64,
    ensures
        ({
            let result = read_value(bits, previous, window);
            let leading = bits_value(bits.subrange(2, 7)) as int;
            let length = bits_value(bits.subrange(7, 13)) as int;
            let meaningful = if length == 0 {
                64
            } else {
                length
            };
            &&& !bits[0] ==> result == Some((previous, window, bits.skip(1)))
            &&& bits[0] && !bits[1] && window is None ==> result is None
            &&& bits[0] && !bits[1] && window is Some ==> ({
                let width = window->0.meaningful as int;
                let low = (64 - window->0.leading - window->0.meaningful) as u64;
                let part = bits_value(bits.subrange(2, 2 + width)) as u64;
                result == Some((previous ^ (part << low), window, bits.skip(2 + width)))
            })
            &&& bits[0] && bits[1] && leading + meaningful > 64 ==> result is None
            &&& bits[0] && bits[1] && leading + meaningful <= 64 ==> ({
                let low = (64 - leading - meaningful) as u64;
                let part = bits_value(bits.subrange(13, 13 + meaningful)) as u64;
                let fresh = ValueWindow {
                    leading: leading as u32,
                    meaningful: meaningful as u32,
                };
                result == Some(
                    (previous ^ (part << low), Some(fresh), bits.skip(13 + meaningful)),
                )
            })
        }),
{
    lemma2_to64();
    let start = bits.skip(2);
    let a = start.take(5);
    let b = start.skip(5).take(6);
    assert(a =~= bits.subrange(2, 7));
    assert(b =~= bits.subrange(7, 13));
    lemma_bits_value_bound(a);
    lemma_bits_value_bound(b);
    let length = bits_value(b) as int;
    let meaningful = if length == 0 {
        64
    } else {
        length
    };
    let after = start.skip(5).skip(6);
    assert(after =~= bits.skip(13));
    assert(after.take(meaningful) =~= bits.subrange(13, 13 + meaningful));
    assert(after.skip(meaningful) =~= bits.skip(13 + meaningful));
    if let Some(w) = window {
        let width = w.meaningful as int;
        assert(start.take(width) =~= bits.subrange(2, 2 + width));
        assert(start.skip(width) =~= bits.skip(2 + width));
    }
}

/// What is read of a field does not depend on what follows it.
proof fn lemma_read_field_more(bits: Seq<bool>, more: Seq<bool>, width: nat)
    requires
        read_field(bits, width) is Some,
    ensures
        read_field(bits + more, width) == Some(
            ((read_field(bits, width)->0).0, (read_field(bits, width)->0).1 + more),
        ),
{
    assert((bits + more).take(width as int) =~= bits.take(width as int));
    assert((bits + more).skip(width as int) =~= bits.skip(width as int) + more);
}

proof fn lemma_read_delta_more(bits: Seq<bool>, more: Seq<bool>)
    requires
        read_delta(bits) is Some,
    ensures
        read_delta(bits + more) == Some(((read_delta(bits)->0).0, (read_delta(bits)->0).1 + more)),
{
    let all = bits + more;
    if !bits[0] {
        assert(all.skip(1) =~= bits.skip(1) + more);
    } else if !bits[1] {
        assert(all.skip(2) =~= bits.skip(2) + more);
        lemma_read_field_more(bits.skip(2), more, 7);
    } else if !bits[2] {
        assert(all.skip(3) =~= bits.skip(3) + more);
        lemma_read_field_more(bits.skip(3), more, 9);
    } else if !bits[3] {
        assert(all.skip(4) =~= bits.skip(4) + more);
        lemma_read_field_more(bits.skip(4), more, 12);
    } else {
        assert(all.skip(4) =~= bits.skip(4) + more);
        lemma_read_field_more(bits.skip(4), more, 32);
    }
}

proof fn lemma_read_value_more(
    bits: Seq<bool>,
    more: Seq<bool>,
    previous: u64,
    window: Option<ValueWindow>,
)
    requires
        read_value(bits, previous, window) is Some,
    ensures
        read_value(bits + more, previous, window) == Some(
            (
                (read_value(bits, previous, window)->0).0,
                (read_value(bits, previous, window)->0).1,
                (read_value(bits, previous, window)->0).2 + more,
            ),
        ),
{
    let all = bits + more;
    if !bits[0] {
        assert(all.skip(1) =~= bits.skip(1) + more);
    } else if !bits[1] {
        assert(all.skip(2) =~= bits.skip(2) + more);
        lemma_read_field_more(bits.skip(2), more, window->0.meaningful as nat);
    } else {
        let start = bits.skip(2);
        assert(all.skip(2) =~= start + more);
        lemma_read_field_more(start, more, 5);
        let after = (read_field(start, 5)->0).1;
        lemma_read_field_more(after, more, 6);
        let (fresh, rest) = read_window(start)->0;
        lemma_read_field_more(rest, more, fresh.meaningful as nat);
        assert(read_xor(rest + more, fresh) is Some);
    }
}

proof fn lemma_read_point_more(progress: Progress, bits: Seq<bool>, more: Seq<bool>)
    requires
        read_point(progress, bits) is Some,
    ensures
        read_point(progress, bits + more) == Some(
            (
                (read_point(progress, bits)->0).0,
                (read_point(progress, bits)->0).1,
                (read_point(progress, bits)->0).2 + more,
            ),
        ),
{
    reveal(read_point);
    match progress.last {
        None => {
            lemma_read_field_more(bits, more, 64);
            lemma_read_field_more((read_field(bits, 64)->0).1, more, 64);
        },
        Some(last) => {
            lemma_read_delta_more(bits, more);
            lemma_read_value_more((read_delta(bits)->0).1, more, last.1, progress.window);
        },
    }
}

/// Bits that are added behind a chunk never change the points before them: of
/// a chunk that is cut off anywhere, the first points are still read.
pub proof fn more_bits_add_points(bits: Seq<bool>, more: Seq<bool>, count: nat)
    ensures
        chunk_points(bits, count).is_prefix_of(chunk_points(bits + more, count)),
        chunk_points(bits, count).len() <= count,
{
    lemma_read_points_more(no_progress(), bits, more, count);
}

proof fn lemma_read_points_more(
    progress: Progress,
    bits: Seq<bool>,
    more: Seq<bool>,
    count: nat,
)
    ensures
        read_points(progress, bits, count).is_prefix_of(
            read_points(progress, bits + more, count),
        ),
        read_points(progress, bits, count).len() <= count,
    decreases count,
{
    if count > 0 {
        if let Some((point, next, rest)) = read_point(progress, bits) {
            lemma_read_point_more(progress, bits, more);
            lemma_read_points_more(next, rest, more, (count - 1) as nat);
        }
    }
}

} // verus!
