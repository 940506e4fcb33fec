//! The chunk format: a run of points as a bit string.
//!
//! The first point stands in full, 64 bits of timestamp and 64 bits of value.
//! Each later point is the change of the timestamp delta, in one of five
//! widths, and the XOR of its value bits with the previous ones, of which
//! only the meaningful middle part is kept.
use crate::bits::{bits_of, bits_value, field_bits, field_roundtrip, lemma_field_bits_len, padded};
use vstd::arithmetic::div_mod::lemma_small_mod;
use vstd::arithmetic::power2::{lemma2_to64, lemma2_to64_rest, lemma_pow2_pos, pow2};
use vstd::bits::lemma_u64_shr_is_div;
use vstd::prelude::*;
use vstd::std_specs::bits::{
    axiom_u64_leading_zeros, axiom_u64_trailing_zeros, u64_leading_zeros, u64_trailing_zeros,
};

verus! {

/// A timestamp in milliseconds and the bits of a 64-bit floating point value.
pub type Point = (i64, u64);

/// The part of an XOR that a value entry spells out: it lies between
/// `leading` skipped high bits and `64 - leading - meaningful` skipped low
/// bits.
#[derive(Clone, Copy, Debug)]
pub struct ValueWindow {
    pub leading: u32,
    pub meaningful: u32,
}

impl ValueWindow {
    /// The window has at least one bit and lies within 64 bits; the skipped
    /// high bits fit the five bits that count them.
    pub open spec fn wf(self) -> bool {
        self.leading <= 31 && 1 <= self.meaningful && self.leading + self.meaningful <= 64
    }

    /// The number of skipped low bits.
    pub open spec fn trailing(self) -> int {
        64 - self.leading - self.meaningful
    }

    /// Whether every set bit of `xor` lies within the window.
    pub open spec fn covers(self, xor: u64) -> bool {
        u64_leading_zeros(xor) >= self.leading && u64_trailing_zeros(xor) >= self.trailing()
    }

    /// The smallest window that covers `xor`, with at most 31 skipped high
    /// bits.
    pub open spec fn tightest(xor: u64) -> ValueWindow {
        let leading = if u64_leading_zeros(xor) < 31 {
            u64_leading_zeros(xor)
        } else {
            31
        };
        ValueWindow {
            leading: leading as u32,
            meaningful: (64 - leading - u64_trailing_zeros(xor)) as u32,
        }
    }
}

// The format, as it is written.

/// The entry for a change of the timestamp delta.
pub open spec fn delta_bits(change: int) -> Seq<bool> {
    if change == 0 {
        seq![false]
    } else if -63 <= change <= 64 {
        seq![true, false] + field_bits((change + 63) as nat, 7)
    } else if -255 <= change <= 256 {
        seq![true, true, false] + field_bits((change + 255) as nat, 9)
    } else if -2047 <= change <= 2048 {
        seq![true, true, true, false] + field_bits((change + 2047) as nat, 12)
    } else {
        seq![true, true, true, true] + field_bits(
            (if change < 0 {
                change + 0x1_0000_0000
            } else {
                change
            }) as nat,
            32,
        )
    }
}

/// Whether the entry for `value` after `previous` can use the window that is
/// in force.
pub open spec fn keeps_window(previous: u64, value: u64, window: Option<ValueWindow>) -> bool {
    window is Some && window->0.covers(value ^ previous)
}

/// The entry for a value.
pub open spec fn value_bits(previous: u64, value: u64, window: Option<ValueWindow>) -> Seq<bool> {
    let xor = value ^ previous;
    if xor == 0 {
        seq![false]
    } else if keeps_window(previous, value, window) {
        seq![true, false] + window_bits(xor, window->0)
    } else {
        let fresh = ValueWindow::tightest(xor);
        seq![true, true] + field_bits(fresh.leading as nat, 5) + field_bits(
            (fresh.meaningful % 64) as nat,
            6,
        ) + window_bits(xor, fresh)
    }
}

/// The bits of `xor` within a window.
pub open spec fn window_bits(xor: u64, window: ValueWindow) -> Seq<bool> {
    field_bits((xor >> (window.trailing() as u64)) as nat, window.meaningful as nat)
}

/// The window in force after the entry for `value`.
pub open spec fn next_window(previous: u64, value: u64, window: Option<ValueWindow>) -> Option<
    ValueWindow,
> {
    if value ^ previous == 0 || keeps_window(previous, value, window) {
        window
    } else {
        Some(ValueWindow::tightest(value ^ previous))
    }
}

/// The distance of the last two timestamps, zero before there are two.
pub open spec fn last_delta(points: Seq<Point>) -> int {
    if points.len() < 2 {
        0
    } else {
        points[points.len() - 1].0 - points[points.len() - 2].0
    }
}

/// The window in force after the last point.
pub open spec fn last_window(points: Seq<Point>) -> Option<ValueWindow>
    decreases points.len(),
{
    if points.len() < 2 {
        None
    } else {
        next_window(
            points[points.len() - 2].1,
            points[points.len() - 1].1,
            last_window(points.drop_last()),
        )
    }
}

/// The entry for the last of `points`.
pub open spec fn point_bits(points: Seq<Point>) -> Seq<bool>
    recommends
        points.len() > 0,
{
    let last = points.last();
    if points.len() == 1 {
        field_bits((last.0 as u64) as nat, 64) + field_bits(last.1 as nat, 64)
    } else {
        delta_bits(last_delta(points) - last_delta(points.drop_last())) + value_bits(
            points[points.len() - 2].1,
            last.1,
            last_window(points.drop_last()),
        )
    }
}

/// A chunk: the entries of all points, in order.
pub open spec fn chunk_bits(points: Seq<Point>) -> Seq<bool>
    decreases points.len(),
{
    if points.len() == 0 {
        Seq::empty()
    } else {
        chunk_bits(points.drop_last()) + point_bits(points)
    }
}

/// The number of bytes that a chunk of `points` takes.
pub open spec fn chunk_size(points: Seq<Point>) -> nat {
    (chunk_bits(points).len() + 7) / 8
}

/// Whether the delta to `timestamp`, and its change, are in the range of the
/// format.
pub open spec fn delta_in_range(points: Seq<Point>, timestamp: i64) -> bool {
    let delta = timestamp - points.last().0;
    delta <= i64::MAX && i32::MIN <= delta - last_delta(points) <= i32::MAX
}

/// Whether a chunk of `points` can take another point at `timestamp`.
pub open spec fn accepts(points: Seq<Point>, timestamp: i64) -> bool {
    points.len() == 0 || (timestamp > points.last().0 && delta_in_range(points, timestamp))
}

/// Whether `points` can stand in one chunk.
pub open spec fn encodable(points: Seq<Point>) -> bool
    decreases points.len(),
{
    points.len() == 0 || (encodable(points.drop_last()) && accepts(
        points.drop_last(),
        points.last().0,
    ))
}

// The format, as it is read.

/// A field of `width` bits at the front of `bits`, and what follows it.
pub open spec fn read_field(bits: Seq<bool>, width: nat) -> Option<(nat, Seq<bool>)> {
    if bits.len() < width {
        None
    } else {
        Some((bits_value(bits.take(width as int)), bits.skip(width as int)))
    }
}

/// A field from which `bias` is taken away.
pub open spec fn read_biased(bits: Seq<bool>, width: nat, bias: int) -> Option<(int, Seq<bool>)> {
    match read_field(bits, width) {
        None => None,
        Some((value, rest)) => Some((value - bias, rest)),
    }
}

/// The change of the timestamp delta at the front of `bits`.
pub open spec fn read_delta(bits: Seq<bool>) -> Option<(int, Seq<bool>)> {
    if bits.len() < 1 {
        None
    } else if !bits[0] {
        Some((0, bits.skip(1)))
    } else if bits.len() < 2 {
        None
    } else if !bits[1] {
        read_biased(bits.skip(2), 7, 63)
    } else if bits.len() < 3 {
        None
    } else if !bits[2] {
        read_biased(bits.skip(3), 9, 255)
    } else if bits.len() < 4 {
        None
    } else if !bits[3] {
        read_biased(bits.skip(4), 12, 2047)
    } else {
        match read_field(bits.skip(4), 32) {
            None => None,
            Some((value, rest)) => if value < 0x8000_0000 {
                Some((value as int, rest))
            } else {
                Some((value - 0x1_0000_0000, rest))
            },
        }
    }
}

/// The XOR whose bits within `window` stand at the front of `bits`.
pub open spec fn read_xor(bits: Seq<bool>, window: ValueWindow) -> Option<(u64, Seq<bool>)> {
    match read_field(bits, window.meaningful as nat) {
        None => None,
        Some((value, rest)) => Some(((value as u64) << (window.trailing() as u64), rest)),
    }
}

/// The window that is spelled out at the front of `bits`.
pub open spec fn read_window(bits: Seq<bool>) -> Option<(ValueWindow, Seq<bool>)> {
    match read_field(bits, 5) {
        None => None,
        Some((leading, after)) => match read_field(after, 6) {
            None => None,
            Some((length, rest)) => {
                let meaningful = if length == 0 {
                    64
                } else {
                    length
                };
                if leading + meaningful > 64 {
                    None
                } else {
                    Some(
                        (
                            ValueWindow { leading: leading as u32, meaningful: meaningful as u32 },
                            rest,
                        ),
                    )
                }
            },
        },
    }
}

/// The value at the front of `bits`, the window in force after it, and what
/// follows it.
pub open spec fn read_value(
    bits: Seq<bool>,
    previous: u64,
    window: Option<ValueWindow>,
) -> Option<(u64, Option<ValueWindow>, Seq<bool>)> {
    if bits.len() < 1 {
        None
    } else if !bits[0] {
        Some((previous, window, bits.skip(1)))
    } else if bits.len() < 2 {
        None
    } else if !bits[1] {
        match window {
            None => None,
            Some(current) => match read_xor(bits.skip(2), current) {
                None => None,
                Some((xor, rest)) => Some((previous ^ xor, window, rest)),
            },
        }
    } else {
        match read_window(bits.skip(2)) {
            None => None,
            Some((fresh, after)) => match read_xor(after, fresh) {
                None => None,
                Some((xor, rest)) => Some((previous ^ xor, Some(fresh), rest)),
            },
        }
    }
}

/// What the reading of the next entry depends on.
pub struct Progress {
    pub last: Option<Point>,
    pub delta: int,
    pub window: Option<ValueWindow>,
}

/// Before the first entry.
pub open spec fn no_progress() -> Progress {
    Progress { last: None, delta: 0, window: None }
}

/// After the entries of `points`.
pub open spec fn progress_of(points: Seq<Point>) -> Progress {
    Progress {
        last: if points.len() == 0 {
            None
        } else {
            Some(points.last())
        },
        delta: last_delta(points),
        window: last_window(points),
    }
}

/// The point at the front of `bits`, the progress after it, and what follows
/// it.
#[verifier::opaque]
pub open spec fn read_point(progress: Progress, bits: Seq<bool>) -> Option<
    (Point, Progress, Seq<bool>),
> {
    match progress.last {
        None => match read_field(bits, 64) {
            None => None,
            Some((timestamp, after)) => match read_field(after, 64) {
                None => None,
                Some((value, rest)) => {
                    let point = ((timestamp as u64) as i64, value as u64);
                    Some((point, Progress { last: Some(point), ..progress }, rest))
                },
            },
        },
        Some(last) => match read_delta(bits) {
            None => None,
            Some((change, after)) => {
                let delta = progress.delta + change;
                let timestamp = last.0 + delta;
                if !(i64::MIN <= delta <= i64::MAX) || !(i64::MIN <= timestamp <= i64::MAX) {
                    None
                } else {
                    match read_value(after, last.1, progress.window) {
                        None => None,
                        Some((value, window, rest)) => {
                            let point = (timestamp as i64, value);
                            Some((point, Progress { last: Some(point), delta, window }, rest))
                        },
                    }
                }
            },
        },
    }
}

/// At most `count` points from the front of `bits`: reading stops at the
/// first entry that is not sound.
pub open spec fn read_points(progress: Progress, bits: Seq<bool>, count: nat) -> Seq<Point>
    decreases count,
{
    if count == 0 {
        Seq::empty()
    } else {
        match read_point(progress, bits) {
            None => Seq::empty(),
            Some((point, next, rest)) => seq![point] + read_points(next, rest, (count - 1) as nat),
        }
    }
}

/// The points of a chunk that is said to hold `count` of them.
pub open spec fn chunk_points(bits: Seq<bool>, count: nat) -> Seq<Point> {
    read_points(no_progress(), bits, count)
}

// Reading undoes writing.

proof fn lemma_read_field(value: nat, width: nat, rest: Seq<bool>)
    requires
        value < pow2(width),
    ensures
        read_field(field_bits(value, width) + rest, width) == Some((value, rest)),
{
    let bits = field_bits(value, width);
    lemma_field_bits_len(value, width);
    field_roundtrip(value, width);
    lemma_small_mod(value, pow2(width));
    assert((bits + rest).take(width as int) =~= bits);
    assert((bits + rest).skip(width as int) =~= rest);
}

/// Reading the entry for a delta change gives the change back.
pub proof fn delta_roundtrip(change: int, rest: Seq<bool>)
    requires
        i32::MIN <= change <= i32::MAX,
    ensures
        read_delta(delta_bits(change) + rest) == Some((change, rest)),
{
    lemma2_to64();
    let bits = delta_bits(change) + rest;
    if change == 0 {
        assert(bits.skip(1) =~= rest);
    } else if -63 <= change <= 64 {
        let field = field_bits((change + 63) as nat, 7);
        assert(bits.skip(2) =~= field + rest);
        lemma_read_field((change + 63) as nat, 7, rest);
    } else if -255 <= change <= 256 {
        let field = field_bits((change + 255) as nat, 9);
        assert(bits.skip(3) =~= field + rest);
        lemma_read_field((change + 255) as nat, 9, rest);
    } else if -2047 <= change <= 2048 {
        let field = field_bits((change + 2047) as nat, 12);
        assert(bits.skip(4) =~= field + rest);
        lemma_read_field((change + 2047) as nat, 12, rest);
    } else {
        let raw = (if change < 0 {
            change + 0x1_0000_0000
        } else {
            change
        }) as nat;
        assert(bits.skip(4) =~= field_bits(raw, 32) + rest);
        lemma_read_field(raw, 32, rest);
    }
}

/// A window that covers `xor` loses none of its bits.
pub proof fn lemma_window_keeps(xor: u64, window: ValueWindow)
    requires
        window.wf(),
        window.covers(xor),
    ensures
        (xor >> (window.trailing() as u64)) < pow2(window.meaningful as nat),
        (xor >> (window.trailing() as u64)) << (window.trailing() as u64) == xor,
{
    axiom_u64_leading_zeros(xor);
    axiom_u64_trailing_zeros(xor);
    let t = window.trailing() as u64;
    let m = window.meaningful as u64;
    let l = window.leading as u64;
    let tz = u64_trailing_zeros(xor) as u64;
    let lz = u64_leading_zeros(xor) as u64;
    let tz_rest = (64 - tz) as u64;
    let lz_rest = (64 - lz) as u64;
    let middle = xor >> t;
    assert(middle << t == xor) by (bit_vector)
        requires
            t <= tz <= 64,
            t < 64,
            tz + tz_rest == 64,
            xor << tz_rest == 0,
            middle == xor >> t,
    ;
    if m < 64 {
        assert(middle >> m == 0) by (bit_vector)
            requires
                l <= lz <= 64,
                l + m + t == 64,
                m < 64,
                lz + lz_rest == 64,
                xor >> lz_rest == 0,
                middle == xor >> t,
        ;
        lemma_u64_shr_is_div(middle, m);
        lemma_pow2_pos(m as nat);
        vstd::arithmetic::div_mod::lemma_fundamental_div_mod(middle as int, pow2(m as nat) as int);
        vstd::arithmetic::div_mod::lemma_mod_bound(middle as int, pow2(m as nat) as int);
        assert(pow2(m as nat) * 0 == 0);
    } else {
        lemma2_to64_rest();
    }
}

pub proof fn lemma_tightest(xor: u64)
    requires
        xor != 0,
    ensures
        ValueWindow::tightest(xor).wf(),
        ValueWindow::tightest(xor).covers(xor),
{
    axiom_u64_leading_zeros(xor);
    axiom_u64_trailing_zeros(xor);
    let tz = u64_trailing_zeros(xor) as u64;
    let lz = u64_leading_zeros(xor) as u64;
    let lz_rest = (64 - lz) as u64;
    assert(lz + tz < 64) by (bit_vector)
        requires
            lz < 64,
            tz < 64,
            (xor >> tz) & 1 == 1,
            lz + lz_rest == 64,
            xor >> lz_rest == 0,
    ;
}

proof fn lemma_read_xor(xor: u64, window: ValueWindow, rest: Seq<bool>)
    requires
        window.wf(),
        window.covers(xor),
    ensures
        read_xor(window_bits(xor, window) + rest, window) == Some((xor, rest)),
{
    lemma_window_keeps(xor, window);
    lemma_read_field(
        (xor >> (window.trailing() as u64)) as nat,
        window.meaningful as nat,
        rest,
    );
}

/// Reading the entry for a value gives the value back, and brings the same
/// window in force as writing it did.
pub proof fn value_roundtrip(
    previous: u64,
    value: u64,
    window: Option<ValueWindow>,
    rest: Seq<bool>,
)
    requires
        window matches Some(current) ==> current.wf(),
    ensures
        read_value(value_bits(previous, value, window) + rest, previous, window) == Some(
            (value, next_window(previous, value, window), rest),
        ),
        next_window(previous, value, window) matches Some(next) ==> next.wf(),
{
    let xor = value ^ previous;
    let bits = value_bits(previous, value, window) + rest;
    assert(previous ^ xor == value) by (bit_vector)
        requires
            xor == value ^ previous,
    ;
    if xor == 0 {
        assert(previous == value) by (bit_vector)
            requires
                value ^ previous == 0,
        ;
        assert(bits.skip(1) =~= rest);
    } else if keeps_window(previous, value, window) {
        assert(bits.skip(2) =~= window_bits(xor, window->0) + rest);
        lemma_read_xor(xor, window->0, rest);
    } else {
        lemma_tightest(xor);
        let fresh = ValueWindow::tightest(xor);
        let payload = window_bits(xor, fresh) + rest;
        let length = field_bits((fresh.meaningful % 64) as nat, 6);
        assert(bits.skip(2) =~= field_bits(fresh.leading as nat, 5) + (length + payload));
        lemma2_to64();
        lemma_read_field(fresh.leading as nat, 5, length + payload);
        lemma_read_field((fresh.meaningful % 64) as nat, 6, payload);
        assert(read_window(bits.skip(2)) == Some((fresh, payload)));
        lemma_read_xor(xor, fresh, rest);
    }
}

/// Reading the entry of a point gives the point back.
proof fn lemma_read_point(points: Seq<Point>, rest: Seq<bool>)
    requires
        points.len() > 0,
        encodable(points),
    ensures
        read_point(progress_of(points.drop_last()), point_bits(points) + rest) == Some(
            (points.last(), progress_of(points), rest),
        ),
        last_window(points) matches Some(window) ==> window.wf(),
    decreases points.len(),
{
    reveal(read_point);
    let before = points.drop_last();
    let last = points.last();
    if points.len() == 1 {
        lemma2_to64_rest();
        let timestamp = last.0;
        let raw = timestamp as u64;
        let value_field = field_bits(last.1 as nat, 64);
        assert(raw as i64 == timestamp) by (bit_vector)
            requires
                raw == timestamp as u64,
        ;
        assert(point_bits(points) + rest =~= field_bits(raw as nat, 64) + (value_field + rest));
        lemma_read_field(raw as nat, 64, value_field + rest);
        lemma_read_field(last.1 as nat, 64, rest);
    } else {
        lemma_read_point(before, Seq::empty());
        let previous = points[points.len() - 2];
        let change = last_delta(points) - last_delta(before);
        let window = last_window(before);
        let entry = value_bits(previous.1, last.1, window);
        assert(before.last() == previous);
        assert(point_bits(points) + rest =~= delta_bits(change) + (entry + rest));
        delta_roundtrip(change, entry + rest);
        value_roundtrip(previous.1, last.1, window, rest);
    }
}

/// The entries of all points from index `from` on.
spec fn tail_bits(points: Seq<Point>, from: int) -> Seq<bool>
    decreases points.len() - from,
{
    if from < 0 || from >= points.len() {
        Seq::empty()
    } else {
        point_bits(points.take(from + 1)) + tail_bits(points, from + 1)
    }
}

proof fn lemma_tail_bits(points: Seq<Point>, from: int)
    requires
        0 <= from <= points.len(),
    ensures
        chunk_bits(points) == chunk_bits(points.take(from)) + tail_bits(points, from),
    decreases points.len() - from,
{
    if from == points.len() {
        assert(points.take(from) =~= points);
        assert(chunk_bits(points) =~= chunk_bits(points) + tail_bits(points, from));
    } else {
        lemma_tail_bits(points, from + 1);
        assert(points.take(from + 1).drop_last() =~= points.take(from));
        assert(chunk_bits(points.take(from + 1)) + tail_bits(points, from + 1) =~= chunk_bits(
            points.take(from),
        ) + tail_bits(points, from));
    }
}

proof fn lemma_encodable_prefix(points: Seq<Point>, count: int)
    requires
        encodable(points),
        0 <= count <= points.len(),
    ensures
        encodable(points.take(count)),
    decreases points.len(),
{
    if count == points.len() {
        assert(points.take(count) =~= points);
    } else {
        lemma_encodable_prefix(points.drop_last(), count);
        assert(points.drop_last().take(count) =~= points.take(count));
    }
}

/// Unfolds the reading of the first point.
proof fn lemma_read_points_step(
    progress: Progress,
    bits: Seq<bool>,
    count: nat,
    point: Point,
    next: Progress,
    rest: Seq<bool>,
)
    requires
        count > 0,
        read_point(progress, bits) == Some((point, next, rest)),
    ensures
        read_points(progress, bits, count) == seq![point] + read_points(
            next,
            rest,
            (count - 1) as nat,
        ),
{
}

proof fn lemma_tail_bits_step(points: Seq<Point>, from: int, rest: Seq<bool>)
    requires
        0 <= from < points.len(),
    ensures
        tail_bits(points, from) + rest == point_bits(points.take(from + 1)) + (tail_bits(
            points,
            from + 1,
        ) + rest),
{
    assert(tail_bits(points, from) + rest =~= point_bits(points.take(from + 1)) + (tail_bits(
        points,
        from + 1,
    ) + rest));
}

proof fn lemma_read_tail(points: Seq<Point>, from: int, rest: Seq<bool>)
    requires
        encodable(points),
        0 <= from <= points.len(),
    ensures
        read_points(
            progress_of(points.take(from)),
            tail_bits(points, from) + rest,
            (points.len() - from) as nat,
        ) == points.skip(from),
    decreases points.len() - from,
{
    if from == points.len() {
        assert(points.skip(from) =~= Seq::<Point>::empty());
    } else {
        let through = points.take(from + 1);
        let after = tail_bits(points, from + 1) + rest;
        lemma_encodable_prefix(points, from + 1);
        assert(through.drop_last() =~= points.take(from));
        lemma_tail_bits_step(points, from, rest);
        lemma_read_point(through, after);
        lemma_read_points_step(
            progress_of(points.take(from)),
            tail_bits(points, from) + rest,
            (points.len() - from) as nat,
            points[from],
            progress_of(through),
            after,
        );
        lemma_read_tail(points, from + 1, rest);
        assert(points.skip(from) =~= seq![points[from]] + points.skip(from + 1));
    }
}

/// Decoding a chunk gives back exactly the points that were encoded, whatever
/// bits follow the chunk.
pub proof fn chunk_roundtrip(points: Seq<Point>, rest: Seq<bool>)
    requires
        encodable(points),
    ensures
        chunk_points(chunk_bits(points) + rest, points.len()) == points,
{
    lemma_tail_bits(points, 0);
    assert(points.take(0) =~= Seq::<Point>::empty());
    assert(chunk_bits(points) =~= tail_bits(points, 0));
    assert(progress_of(points.take(0)) == no_progress());
    lemma_read_tail(points, 0, rest);
    assert(points.skip(0) =~= points);
}

/// The bytes of a chunk decode to the points that were encoded.
pub proof fn packed_chunk_roundtrip(points: Seq<Point>, bytes: Seq<u8>)
    requires
        encodable(points),
        bits_of(bytes) == padded(chunk_bits(points)),
    ensures
        chunk_points(bits_of(bytes), points.len()) == points,
{
    let rest = bits_of(bytes).skip(chunk_bits(points).len() as int);
    assert(bits_of(bytes) =~= chunk_bits(points) + rest);
    chunk_roundtrip(points, rest);
}

/// A point that repeats the last value after an unchanged delta takes two
/// bits.
pub proof fn steady_point_takes_two_bits(points: Seq<Point>)
    requires
        points.len() >= 2,
        last_delta(points) == last_delta(points.drop_last()),
        points[points.len() - 1].1 == points[points.len() - 2].1,
    ensures
        point_bits(points) == seq![false, false],
        chunk_bits(points).len() == chunk_bits(points.drop_last()).len() + 2,
{
    let value = points.last().1;
    assert(value ^ value == 0) by (bit_vector);
    assert(point_bits(points) =~= seq![false, false]);
}

/// A smaller announced count gives a prefix of the points.
pub proof fn chunk_points_prefix(bits: Seq<bool>, fewer: nat, count: nat)
    requires
        fewer <= count,
    ensures
        chunk_points(bits, fewer).is_prefix_of(chunk_points(bits, count)),
{
    lemma_read_points_prefix(no_progress(), bits, fewer, count);
}

proof fn lemma_read_points_prefix(progress: Progress, bits: Seq<bool>, fewer: nat, count: nat)
    requires
        fewer <= count,
    ensures
        read_points(progress, bits, fewer).is_prefix_of(read_points(progress, bits, count)),
    decreases count,
{
    if fewer > 0 {
        if let Some((point, next, rest)) = read_point(progress, bits) {
            lemma_read_points_prefix(next, rest, (fewer - 1) as nat, (count - 1) as nat);
        }
    }
}

/// The timestamps within a chunk increase strictly.
pub proof fn chunk_timestamps_increase(points: Seq<Point>)
    requires
        encodable(points),
    ensures
        forall|i: int, j: int| 0 <= i < j < points.len() ==> points[i].0 < points[j].0,
    decreases points.len(),
{
    if points.len() > 0 {
        let before = points.drop_last();
        chunk_timestamps_increase(before);
        assert forall|i: int, j: int| 0 <= i < j < points.len() implies points[i].0
            < points[j].0 by {
            assert(points[i] == before[i]);
            if j < before.len() {
                assert(points[j] == before[j]);
            } else if i < before.len() - 1 {
                assert(before[i].0 < before[before.len() - 1].0);
            }
        }
    }
}

} // verus!
