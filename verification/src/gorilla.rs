//! Compressed chunks of points: an encoder that grows a chunk point by point,
//! and a decoder that reads one back.
use crate::bits::{bits_of, field_bits, lemma_bits_value_bound, padded, BitReader, BitWriter};
use crate::codec::{
    accepts, chunk_bits, chunk_points, chunk_roundtrip, chunk_size, delta_bits, delta_in_range,
    encodable, last_delta, last_window, next_window, packed_chunk_roundtrip, read_biased,
    read_delta, read_point, read_points, read_value, read_window, value_bits, Point, Progress,
    ValueWindow,
};
use vstd::arithmetic::power2::{lemma2_to64, lemma_pow2_strictly_increases};
use vstd::prelude::*;
use vstd::slice::slice_to_vec;

verus! {

/// Why a chunk does not take a point.
#[derive(Clone, Copy, Debug, Eq, PartialEq, Structural)]
pub enum EncodeError {
    TimestampNotIncreasing,
    TimestampDeltaOutOfRange,
}

/// A chunk that is being written.
#[derive(Clone, Debug)]
pub struct ChunkEncoder {
    writer: BitWriter,
    num_points: usize,
    first_ts: Option<i64>,
    last_ts: Option<i64>,
    last_delta: i64,
    last_value_bits: u64,
    value_window: Option<ValueWindow>,
}

/// The points of the chunk: what its bits decode to.
impl View for ChunkEncoder {
    type V = Seq<Point>;

    closed spec fn view(&self) -> Seq<Point> {
        chunk_points(self.writer@, self.num_points as nat)
    }
}

impl Default for ChunkEncoder {
    fn default() -> (encoder: Self)
        ensures
            encoder.wf(),
            encoder@ == Seq::<Point>::empty(),
    {
        ChunkEncoder::new()
    }
}

impl ChunkEncoder {
    /// The bits are the encoding of the points, and the other fields describe
    /// the end of the chunk.
    pub closed spec fn wf(&self) -> bool {
        &&& self.writer.wf()
        &&& encodable(self@)
        &&& self.writer@ == chunk_bits(self@)
        &&& self@.len() == self.num_points
        &&& self.first_ts == if self@.len() == 0 {
            None
        } else {
            Some(self@.first().0)
        }
        &&& self.last_ts == if self@.len() == 0 {
            None
        } else {
            Some(self@.last().0)
        }
        &&& self.last_delta == last_delta(self@)
        &&& self@.len() > 0 ==> self.last_value_bits == self@.last().1
        &&& self.value_window == last_window(self@)
        &&& self.value_window matches Some(window) ==> window.wf()
    }

    pub fn new() -> (encoder: Self)
        ensures
            encoder.wf(),
            encoder@ == Seq::<Point>::empty(),
    {
        let encoder = ChunkEncoder {
            writer: BitWriter::new(),
            num_points: 0,
            first_ts: None,
            last_ts: None,
            last_delta: 0,
            last_value_bits: 0,
            value_window: None,
        };
        encoder
    }

    /// Appends a point, unless its timestamp does not follow the last one or
    /// lies too far from it for the format.
    pub fn append(&mut self, timestamp: i64, value_bits: u64) -> (result: Result<(), EncodeError>)
        requires
            old(self).wf(),
            old(self)@.len() < usize::MAX,
        ensures
            final(self).wf(),
            match result {
                Ok(()) => accepts(old(self)@, timestamp) && final(self)@ == old(self)@.push(
                    (timestamp, value_bits),
                ),
                Err(EncodeError::TimestampNotIncreasing) => {
                    &&& old(self)@.len() > 0
                    &&& timestamp <= old(self)@.last().0
                    &&& *final(self) == *old(self)
                },
                Err(EncodeError::TimestampDeltaOutOfRange) => {
                    &&& old(self)@.len() > 0
                    &&& timestamp > old(self)@.last().0
                    &&& !delta_in_range(old(self)@, timestamp)
                    &&& *final(self) == *old(self)
                },
            },
            old(self)@.len() == 0 ==> result is Ok,
            old(self)@.len() > 0 ==> (result is Ok <==> {
                let points = old(self)@;
                let last = points.len() - 1;
                let delta = timestamp - points[last].0;
                let before = if last == 0 {
                    0
                } else {
                    points[last].0 - points[last - 1].0
                };
                0 < delta <= i64::MAX && i32::MIN <= delta - before <= i32::MAX
            }),
    {
        let ghost before = self@;
        let ghost after = before.push((timestamp, value_bits));
        assert(after.drop_last() =~= before);
        let previous_ts: i64 = match self.last_ts {
            Some(previous_ts) => previous_ts,
            None => {
                self.writer.write_bits(timestamp as u64, 64);
                self.writer.write_bits(value_bits, 64);
                self.num_points = 1;
                self.first_ts = Some(timestamp);
                self.last_ts = Some(timestamp);
                self.last_value_bits = value_bits;
                proof {
                    assert(before =~= Seq::<Point>::empty());
                    assert(self.writer@ =~= chunk_bits(after));
                    self.lemma_holds(after);
                }
                return Ok(());
            },
        };

        if timestamp <= previous_ts {
            return Err(EncodeError::TimestampNotIncreasing);
        }
        let delta: i64 = match timestamp.checked_sub(previous_ts) {
            Some(delta) => delta,
            None => return Err(EncodeError::TimestampDeltaOutOfRange),
        };
        let change: i64 = match delta.checked_sub(self.last_delta) {
            Some(change) => change,
            None => return Err(EncodeError::TimestampDeltaOutOfRange),
        };
        if change < i32::MIN as i64 || change > i32::MAX as i64 {
            return Err(EncodeError::TimestampDeltaOutOfRange);
        }

        self.write_timestamp_delta(change);
        self.write_value(value_bits);
        self.num_points = self.num_points + 1;
        self.last_ts = Some(timestamp);
        self.last_delta = delta;
        self.last_value_bits = value_bits;
        proof {
            assert(self.writer@ =~= chunk_bits(after));
            self.lemma_holds(after);
        }
        Ok(())
    }

    /// An encoder whose bits are those of `points` holds these points.
    proof fn lemma_holds(&self, points: Seq<Point>)
        requires
            encodable(points),
            self.writer@ == chunk_bits(points),
            self.num_points == points.len(),
        ensures
            self@ == points,
    {
        chunk_roundtrip(points, Seq::empty());
        assert(chunk_bits(points) + Seq::<bool>::empty() =~= chunk_bits(points));
    }

    /// Writes the entry for a change of the timestamp delta.
    fn write_timestamp_delta(&mut self, delta: i64)
        requires
            old(self).writer.wf(),
            i32::MIN <= delta <= i32::MAX,
        ensures
            final(self).writer.wf(),
            final(self).writer@ == old(self).writer@ + delta_bits(delta as int),
            *final(self) == (ChunkEncoder { writer: final(self).writer, ..*old(self) }),
    {
        let ghost before = self.writer@;
        proof {
            reveal_with_fuel(field_bits, 5);
        }
        if delta == 0 {
            self.writer.write_bit(false);
        } else if -63 <= delta && delta <= 64 {
            self.writer.write_bits(0b10, 2);
            self.writer.write_bits((delta + 63) as u64, 7);
        } else if -255 <= delta && delta <= 256 {
            self.writer.write_bits(0b110, 3);
            self.writer.write_bits((delta + 255) as u64, 9);
        } else if -2047 <= delta && delta <= 2048 {
            self.writer.write_bits(0b1110, 4);
            self.writer.write_bits((delta + 2047) as u64, 12);
        } else {
            self.writer.write_bits(0b1111, 4);
            assert((delta as u32) as int == if delta < 0 {
                delta + 0x1_0000_0000
            } else {
                delta as int
            }) by (bit_vector)
                requires
                    -0x8000_0000 <= delta <= 0x7fff_ffff,
            ;
            self.writer.write_bits((delta as u32) as u64, 32);
        }
        assert(self.writer@ =~= before + delta_bits(delta as int));
    }

    /// Writes the entry for a value.
    fn write_value(&mut self, value: u64)
        requires
            old(self).writer.wf(),
            old(self).value_window matches Some(window) ==> window.wf(),
        ensures
            final(self).writer.wf(),
            final(self).writer@ == old(self).writer@ + value_bits(
                old(self).last_value_bits,
                value,
                old(self).value_window,
            ),
            final(self).value_window == next_window(
                old(self).last_value_bits,
                value,
                old(self).value_window,
            ),
            final(self).value_window matches Some(window) ==> window.wf(),
            *final(self) == (ChunkEncoder {
                writer: final(self).writer,
                value_window: final(self).value_window,
                ..*old(self)
            }),
    {
        let ghost before = self.writer@;
        let xor: u64 = value ^ self.last_value_bits;
        if xor == 0 {
            self.writer.write_bit(false);
            return ;
        }
        self.writer.write_bit(true);
        // The five-bit field caps the leading zeros at 31; the zeros beyond
        // that become part of the payload.
        let zeros: u32 = xor.leading_zeros();
        let leading: u32 = if zeros < 31 {
            zeros
        } else {
            31
        };
        let trailing: u32 = xor.trailing_zeros();
        proof {
            crate::codec::lemma_tightest(xor);
        }
        if let Some(window) = self.value_window {
            let window_trailing: u32 = 64 - window.leading - window.meaningful;
            if leading >= window.leading && trailing >= window_trailing {
                self.writer.write_bit(false);
                self.writer.write_bits(xor >> window_trailing, window.meaningful as usize);
                assert(self.writer@ =~= before + value_bits(
                    old(self).last_value_bits,
                    value,
                    old(self).value_window,
                ));
                return ;
            }
        }
        let meaningful: u32 = 64 - leading - trailing;
        self.writer.write_bit(true);
        self.writer.write_bits(leading as u64, 5);
        // A length of 64 is written as zero.
        self.writer.write_bits((meaningful % 64) as u64, 6);
        self.writer.write_bits(xor >> trailing, meaningful as usize);
        self.value_window = Some(ValueWindow { leading, meaningful });
        assert(self.writer@ =~= before + value_bits(
            old(self).last_value_bits,
            value,
            old(self).value_window,
        ));
    }

    pub fn num_points(&self) -> (count: usize)
        requires
            self.wf(),
        ensures
            count == self@.len(),
    {
        self.num_points
    }

    pub fn first_ts(&self) -> (timestamp: Option<i64>)
        requires
            self.wf(),
        ensures
            timestamp == if self@.len() == 0 {
                None
            } else {
                Some(self@.first().0)
            },
    {
        self.first_ts
    }

    pub fn last_ts(&self) -> (timestamp: Option<i64>)
        requires
            self.wf(),
        ensures
            timestamp == if self@.len() == 0 {
                None
            } else {
                Some(self@.last().0)
            },
    {
        self.last_ts
    }

    /// The bits of the last value.
    pub fn last_value(&self) -> (value: Option<u64>)
        requires
            self.wf(),
        ensures
            value == if self@.len() == 0 {
                None
            } else {
                Some(self@.last().1)
            },
    {
        if self.num_points != 0 {
            Some(self.last_value_bits)
        } else {
            None
        }
    }

    pub fn byte_size(&self) -> (size: usize)
        requires
            self.wf(),
        ensures
            size == chunk_size(self@),
    {
        let bytes = self.writer.as_bytes();
        assert(bits_of(bytes@).len() == padded(chunk_bits(self@)).len());
        bytes.len()
    }

    pub fn as_bytes(&self) -> (bytes: &[u8])
        requires
            self.wf(),
        ensures
            bits_of(bytes@) == padded(chunk_bits(self@)),
            chunk_points(bits_of(bytes@), self@.len()) == self@,
    {
        let bytes = self.writer.as_bytes();
        proof {
            packed_chunk_roundtrip(self@, bytes@);
        }
        bytes
    }

    pub fn bytes(&self) -> (bytes: Vec<u8>)
        requires
            self.wf(),
        ensures
            bits_of(bytes@) == padded(chunk_bits(self@)),
            chunk_points(bits_of(bytes@), self@.len()) == self@,
    {
        let bytes = slice_to_vec(self.writer.as_bytes());
        proof {
            packed_chunk_roundtrip(self@, bytes@);
        }
        bytes
    }

    pub fn into_bytes(self) -> (bytes: Vec<u8>)
        requires
            self.wf(),
        ensures
            bits_of(bytes@) == padded(chunk_bits(self@)),
            chunk_points(bits_of(bytes@), self@.len()) == self@,
    {
        let ghost points = self@;
        let bytes = self.writer.into_bytes();
        proof {
            packed_chunk_roundtrip(points, bytes@);
        }
        bytes
    }
}

/// Reads the points of a chunk, one by one.
#[derive(Clone, Debug)]
pub struct ChunkDecoder<'a> {
    reader: BitReader<'a>,
    remaining: usize,
    initialized: bool,
    last_ts: i64,
    last_delta: i64,
    last_value_bits: u64,
    value_window: Option<ValueWindow>,
}

/// The points that are still to come.
impl<'a> View for ChunkDecoder<'a> {
    type V = Seq<Point>;

    closed spec fn view(&self) -> Seq<Point> {
        read_points(self.progress(), self.reader@, self.remaining as nat)
    }
}

impl<'a> ChunkDecoder<'a> {
    spec fn progress(&self) -> Progress {
        Progress {
            last: if self.initialized {
                Some((self.last_ts, self.last_value_bits))
            } else {
                None
            },
            delta: self.last_delta as int,
            window: self.value_window,
        }
    }

    pub closed spec fn wf(&self) -> bool {
        &&& self.reader.wf()
        &&& self.value_window matches Some(window) ==> window.wf()
    }

    /// How many points the chunk is said to hold beyond those already read.
    pub closed spec fn announced(&self) -> nat {
        self.remaining as nat
    }

    pub fn new(bytes: &'a [u8], num_points: usize) -> (decoder: Self)
        ensures
            decoder.wf(),
            decoder@ == chunk_points(bits_of(bytes@), num_points as nat),
            decoder.announced() == num_points,
    {
        ChunkDecoder {
            reader: BitReader::new(bytes),
            remaining: num_points,
            initialized: false,
            last_ts: 0,
            last_delta: 0,
            last_value_bits: 0,
            value_window: None,
        }
    }

    /// Reads the change of the timestamp delta.
    fn decode_timestamp_delta(&mut self) -> (change: Option<i64>)
        requires
            old(self).reader.wf(),
        ensures
            final(self).reader.wf(),
            *final(self) == (ChunkDecoder { reader: final(self).reader, ..*old(self) }),
            match read_delta(old(self).reader@) {
                None => change is None,
                Some((value, rest)) => change is Some && change->0 == value && final(self).reader@
                    == rest,
            },
    {
        let ghost bits = self.reader@;
        proof {
            lemma2_to64();
        }
        match self.reader.read_bit() {
            None => return None,
            Some(bit) => if !bit {
                assert(self.reader@ =~= bits.skip(1));
                return Some(0);
            },
        }
        match self.reader.read_bit() {
            None => return None,
            Some(bit) => if !bit {
                assert(self.reader@ =~= bits.skip(2));
                return self.decode_biased(7, 63);
            },
        }
        match self.reader.read_bit() {
            None => return None,
            Some(bit) => if !bit {
                assert(self.reader@ =~= bits.skip(3));
                return self.decode_biased(9, 255);
            },
        }
        match self.reader.read_bit() {
            None => return None,
            Some(bit) => if !bit {
                assert(self.reader@ =~= bits.skip(4));
                return self.decode_biased(12, 2047);
            },
        }
        assert(self.reader@ =~= bits.skip(4));
        match self.reader.read_bits(32) {
            None => None,
            Some(raw) => {
                proof {
                    lemma_bits_value_bound(bits.skip(4).take(32));
                    assert(((raw as u32) as i32) as i64 == if raw < 0x8000_0000 {
                        raw as int
                    } else {
                        raw - 0x1_0000_0000
                    }) by (bit_vector)
                        requires
                            raw < 0x1_0000_0000,
                    ;
                }
                Some(((raw as u32) as i32) as i64)
            },
        }
    }

    /// Reads a field from which `bias` is taken away.
    fn decode_biased(&mut self, width: usize, bias: i64) -> (change: Option<i64>)
        requires
            old(self).reader.wf(),
            width <= 12,
            0 <= bias <= 2047,
        ensures
            final(self).reader.wf(),
            *final(self) == (ChunkDecoder { reader: final(self).reader, ..*old(self) }),
            match read_biased(old(self).reader@, width as nat, bias as int) {
                None => change is None,
                Some((value, rest)) => change is Some && change->0 == value && final(self).reader@
                    == rest,
            },
    {
        let ghost bits = self.reader@;
        match self.reader.read_bits(width) {
            None => None,
            Some(raw) => {
                proof {
                    lemma2_to64();
                    lemma_bits_value_bound(bits.take(width as int));
                    lemma_pow2_strictly_increases(width as nat, 13);
                }
                Some(raw as i64 - bias)
            },
        }
    }

    /// Reads a value, and brings the window of a fresh entry in force.
    fn decode_value(&mut self) -> (value: Option<u64>)
        requires
            old(self).wf(),
        ensures
            final(self).wf(),
            *final(self) == (ChunkDecoder {
                reader: final(self).reader,
                value_window: final(self).value_window,
                ..*old(self)
            }),
            match read_value(
                old(self).reader@,
                old(self).last_value_bits,
                old(self).value_window,
            ) {
                None => value is None,
                Some((bits, window, rest)) => {
                    &&& value == Some(bits)
                    &&& final(self).value_window == window
                    &&& final(self).reader@ == rest
                },
            },
    {
        let ghost bits = self.reader@;
        match self.reader.read_bit() {
            None => return None,
            Some(bit) => if !bit {
                assert(self.reader@ =~= bits.skip(1));
                return Some(self.last_value_bits);
            },
        }
        let fresh: bool = match self.reader.read_bit() {
            None => return None,
            Some(bit) => bit,
        };
        assert(self.reader@ =~= bits.skip(2));
        let window: ValueWindow = if !fresh {
            match self.value_window {
                None => return None,
                Some(window) => window,
            }
        } else {
            match self.decode_window() {
                None => return None,
                Some(window) => window,
            }
        };
        let trailing: u32 = 64 - window.leading - window.meaningful;
        let ghost payload = self.reader@;
        match self.reader.read_bits(window.meaningful as usize) {
            None => None,
            Some(raw) => {
                assert((raw as nat) as u64 == raw);
                let xor: u64 = raw << trailing;
                self.value_window = Some(window);
                Some(self.last_value_bits ^ xor)
            },
        }
    }

    /// Reads the place and the length of a fresh window.
    fn decode_window(&mut self) -> (window: Option<ValueWindow>)
        requires
            old(self).reader.wf(),
        ensures
            final(self).reader.wf(),
            *final(self) == (ChunkDecoder { reader: final(self).reader, ..*old(self) }),
            match read_window(old(self).reader@) {
                None => window is None,
                Some((fresh, rest)) => {
                    &&& window == Some(fresh)
                    &&& fresh.wf()
                    &&& final(self).reader@ == rest
                },
            },
    {
        let ghost bits = self.reader@;
        proof {
            lemma2_to64();
            lemma_bits_value_bound(bits.take(5));
            lemma_bits_value_bound(bits.skip(5).take(6));
        }
        let leading: u32 = match self.reader.read_bits(5) {
            None => return None,
            Some(raw) => raw as u32,
        };
        let length: u32 = match self.reader.read_bits(6) {
            None => return None,
            Some(raw) => raw as u32,
        };
        let meaningful: u32 = if length == 0 {
            64
        } else {
            length
        };
        if leading + meaningful > 64 {
            return None;
        }
        Some(ValueWindow { leading, meaningful })
    }

    /// Gives up on the rest of the chunk.
    fn fail(&mut self) -> (point: Option<Point>)
        ensures
            point is None,
            *final(self) == (ChunkDecoder { remaining: 0, ..*old(self) }),
    {
        self.remaining = 0;
        None
    }

    /// The next point. The end of the chunk, or of its sound part, is final.
    pub fn next(&mut self) -> (point: Option<Point>)
        requires
            old(self).wf(),
        ensures
            final(self).wf(),
            match point {
                Some(next) => {
                    &&& old(self)@.len() > 0
                    &&& next == old(self)@[0]
                    &&& final(self)@ == old(self)@.drop_first()
                    &&& final(self).announced() == old(self).announced() - 1
                },
                None => {
                    &&& old(self)@.len() == 0
                    &&& final(self)@.len() == 0
                    &&& final(self).announced() == 0
                },
            },
    {
        if self.remaining == 0 {
            return None;
        }
        let ghost start = *self;
        proof {
            reveal(read_point);
        }
        if !self.initialized {
            let timestamp: i64 = match self.reader.read_bits(64) {
                Some(bits) => bits as i64,
                None => return self.fail(),
            };
            let value_bits: u64 = match self.reader.read_bits(64) {
                Some(bits) => bits,
                None => return self.fail(),
            };
            self.initialized = true;
            self.last_ts = timestamp;
            self.last_value_bits = value_bits;
            self.remaining = self.remaining - 1;
            assert(start@.drop_first() =~= self@);
            return Some((timestamp, value_bits));
        }
        let change: i64 = match self.decode_timestamp_delta() {
            Some(change) => change,
            None => return self.fail(),
        };
        let delta: i64 = match self.last_delta.checked_add(change) {
            Some(delta) => delta,
            None => return self.fail(),
        };
        let timestamp: i64 = match self.last_ts.checked_add(delta) {
            Some(timestamp) => timestamp,
            None => return self.fail(),
        };
        let value_bits: u64 = match self.decode_value() {
            Some(bits) => bits,
            None => return self.fail(),
        };
        self.last_delta = delta;
        self.last_ts = timestamp;
        self.last_value_bits = value_bits;
        self.remaining = self.remaining - 1;
        assert(start@.drop_first() =~= self@);
        Some((timestamp, value_bits))
    }

    /// All points that are still to come.
    pub fn collect(self) -> (points: Vec<Point>)
        requires
            self.wf(),
        ensures
            points@ == self@,
    {
        let mut decoder = self;
        let mut points: Vec<Point> = Vec::new();
        loop
            invariant
                decoder.wf(),
                points@ + decoder@ == self@,
            ensures
                points@ == self@,
            decreases decoder.announced(),
        {
            let ghost before = decoder@;
            match decoder.next() {
                Some(point) => {
                    points.push(point);
                    assert(points@ + decoder@ =~= points@.drop_last() + before);
                },
                None => {
                    assert(points@ + before =~= points@);
                    break ;
                },
            }
        }
        points
    }

    /// The number of points that the chunk is said to hold beyond those
    /// already read, as both bounds.
    pub fn size_hint(&self) -> (bounds: (usize, Option<usize>))
        ensures
            bounds.0 == self.announced(),
            bounds.1 == Some(bounds.0),
    {
        (self.remaining, Some(self.remaining))
    }
}

} // verus!
