//! Bit strings, and a writer and a reader that keep them packed in bytes,
//! most significant bit first.
use vstd::arithmetic::div_mod::{lemma_div_denominator, lemma_div_pos_is_pos, lemma_mod_breakdown};
use vstd::arithmetic::power2::{
    lemma2_to64, lemma2_to64_rest, lemma_pow2_pos, lemma_pow2_strictly_increases,
    lemma_pow2_unfold, pow2,
};
use vstd::bits::lemma_u64_shr_is_div;
use vstd::prelude::*;

verus! {

/// Bit `i` of a byte string, counted from the most significant bit of byte 0.
pub open spec fn bit_at(bytes: Seq<u8>, i: int) -> bool {
    (bytes[i / 8] >> ((7 - i % 8) as u8)) & 1 == 1
}

/// All bits of a byte string, in order.
pub open spec fn bits_of(bytes: Seq<u8>) -> Seq<bool> {
    Seq::new(8 * bytes.len(), |i: int| bit_at(bytes, i))
}

/// A bit string extended with zero bits to a whole number of bytes.
pub open spec fn padded(bits: Seq<bool>) -> Seq<bool> {
    bits + Seq::new(((8 - bits.len() % 8) % 8) as nat, |i: int| false)
}

/// The `count` low bits of `value`, most significant first.
pub open spec fn field_bits(value: nat, count: nat) -> Seq<bool>
    decreases count,
{
    if count == 0 {
        Seq::empty()
    } else {
        field_bits(value / 2, (count - 1) as nat).push(value % 2 == 1)
    }
}

/// The number that a bit string spells, most significant bit first.
pub open spec fn bits_value(bits: Seq<bool>) -> nat
    decreases bits.len(),
{
    if bits.len() == 0 {
        0
    } else {
        2 * bits_value(bits.drop_last()) + if bits.last() {
            1nat
        } else {
            0nat
        }
    }
}

pub proof fn lemma_field_bits_len(value: nat, count: nat)
    ensures
        field_bits(value, count).len() == count,
    decreases count,
{
    if count > 0 {
        lemma_field_bits_len(value / 2, (count - 1) as nat);
    }
}

/// A bit string of `n` bits spells a number below `2^n`.
pub proof fn lemma_bits_value_bound(bits: Seq<bool>)
    ensures
        bits_value(bits) < pow2(bits.len()),
    decreases bits.len(),
{
    lemma2_to64();
    if bits.len() > 0 {
        lemma_bits_value_bound(bits.drop_last());
        lemma_pow2_unfold(bits.len());
    }
}

/// Reading back a field gives the value that was written, cut to the width of
/// the field.
pub proof fn field_roundtrip(value: nat, count: nat)
    ensures
        bits_value(field_bits(value, count)) == value % pow2(count),
    decreases count,
{
    lemma2_to64();
    if count > 0 {
        let bits = field_bits(value, count);
        let upper = field_bits(value / 2, (count - 1) as nat);
        assert(bits.drop_last() =~= upper);
        field_roundtrip(value / 2, (count - 1) as nat);
        lemma_pow2_unfold(count);
        let p = pow2((count - 1) as nat);
        lemma_pow2_pos((count - 1) as nat);
        lemma_mod_breakdown(value as int, 2, p as int);
        assert(value % (2 * p) == 2 * ((value / 2) % p) + value % 2);
    }
}

/// Appends bits to a byte vector.
#[derive(Clone, Debug)]
pub struct BitWriter {
    bytes: Vec<u8>,
    /// How many low bits of the last byte are still free.
    free: u8,
}

impl View for BitWriter {
    type V = Seq<bool>;

    closed spec fn view(&self) -> Seq<bool> {
        bits_of(self.bytes@).take(8 * self.bytes@.len() - self.free)
    }
}

impl Default for BitWriter {
    fn default() -> (writer: Self)
        ensures
            writer.wf(),
            writer@ == Seq::<bool>::empty(),
    {
        BitWriter::new()
    }
}

impl BitWriter {
    /// The free bits lie in the last byte and are zero.
    pub closed spec fn wf(&self) -> bool {
        &&& self.free < 8
        &&& self.bytes@.len() == 0 ==> self.free == 0
        &&& forall|i: int|
            8 * self.bytes@.len() - self.free <= i < 8 * self.bytes@.len() ==> !bit_at(
                self.bytes@,
                i,
            )
    }

    pub fn new() -> (writer: Self)
        ensures
            writer.wf(),
            writer@ == Seq::<bool>::empty(),
    {
        let writer = BitWriter { bytes: Vec::new(), free: 0 };
        assert(writer@ =~= Seq::<bool>::empty());
        writer
    }

    pub fn write_bit(&mut self, bit: bool)
        requires
            old(self).wf(),
        ensures
            final(self).wf(),
            final(self)@ == old(self)@.push(bit),
    {
        let ghost before = self.bytes@;
        let ghost used = 8 * before.len() - self.free;
        if self.free == 0 {
            self.bytes.push(0);
            self.free = 8;
        }
        let ghost middle = self.bytes@;
        let last: usize = self.bytes.len() - 1;
        let shift: u8 = self.free - 1;
        assert(forall|j: u8| j < 8 ==> (#[trigger] (0u8 >> j)) & 1 == 0) by (bit_vector);
        assert(forall|i: int| 0 <= i < 8 * before.len() ==> bit_at(middle, i) == bit_at(before, i));
        assert(forall|i: int| used <= i < 8 * middle.len() ==> !bit_at(middle, i));
        if bit {
            let byte: u8 = self.bytes[last];
            let new_byte: u8 = byte | (1u8 << shift);
            assert(forall|j: u8|
                j < 8 ==> ((#[trigger] (new_byte >> j)) & 1 == 1) == (j == shift || (byte >> j) & 1
                    == 1)) by (bit_vector)
                requires
                    shift < 8,
                    new_byte == byte | (1u8 << shift),
            ;
            self.bytes.set(last, new_byte);
        }
        self.free = shift;
        assert forall|i: int| 0 <= i < 8 * middle.len() implies bit_at(self.bytes@, i) == (bit_at(
            middle,
            i,
        ) || (bit && i == used)) by {
            if i / 8 == last {
                assert(((7 - i % 8) as u8) < 8);
            }
        }
        assert(8 * self.bytes@.len() - self.free == used + 1);
        assert forall|i: int| used + 1 <= i < 8 * self.bytes@.len() implies !bit_at(
            self.bytes@,
            i,
        ) by {
            assert(!bit_at(middle, i));
        }
        assert(self@ =~= old(self)@.push(bit));
    }

    pub fn write_bits(&mut self, value: u64, count: usize)
        requires
            old(self).wf(),
            count <= 64,
        ensures
            final(self).wf(),
            final(self)@ == old(self)@ + field_bits(value as nat, count as nat),
    {
        let ghost before = self@;
        let mut shift: usize = count;
        proof {
            lemma_pow2_pos(shift as nat);
            lemma_div_pos_is_pos(value as int, pow2(shift as nat) as int);
            assert(field_bits(value as nat / pow2(shift as nat), 0) =~= Seq::<bool>::empty());
        }
        assert(self@ =~= before + Seq::<bool>::empty());
        while shift > 0
            invariant
                self.wf(),
                shift <= count <= 64,
                self@ == before + field_bits(
                    value as nat / pow2(shift as nat),
                    (count - shift) as nat,
                ),
            decreases shift,
        {
            let ghost above = value as nat / pow2(shift as nat);
            shift = shift - 1;
            let upper: u64 = value >> shift;
            let bit: bool = (upper & 1) != 0;
            proof {
                lemma_u64_shr_is_div(value, shift as u64);
                assert(upper & 1 == upper % 2) by (bit_vector);
                lemma_pow2_unfold((shift + 1) as nat);
                lemma_pow2_pos(shift as nat);
                lemma_div_denominator(value as int, pow2(shift as nat) as int, 2);
                assert(pow2(shift as nat) * 2 == pow2((shift + 1) as nat));
                assert(upper as nat / 2 == above);
            }
            self.write_bit(bit);
            assert(self@ =~= before + field_bits(upper as nat, (count - shift) as nat));
        }
        proof {
            lemma2_to64();
            assert(pow2(shift as nat) == 1);
            assert(value as nat / 1 == value as nat);
        }
    }

    pub fn as_bytes(&self) -> (bytes: &[u8])
        requires
            self.wf(),
        ensures
            bits_of(bytes@) == padded(self@),
    {
        proof {
            self.lemma_bytes();
        }
        self.bytes.as_slice()
    }

    pub fn into_bytes(self) -> (bytes: Vec<u8>)
        requires
            self.wf(),
        ensures
            bits_of(bytes@) == padded(self@),
    {
        proof {
            self.lemma_bytes();
        }
        self.bytes
    }

    proof fn lemma_bytes(&self)
        requires
            self.wf(),
        ensures
            bits_of(self.bytes@) == padded(self@),
    {
        let n = self.bytes@.len();
        let used = self@.len();
        assert(used == 8 * n - self.free);
        assert((8 - used % 8) % 8 == self.free);
        assert forall|i: int| 0 <= i < 8 * n implies bits_of(self.bytes@)[i] == padded(
            self@,
        )[i] by {
            if i >= used {
                assert(!bit_at(self.bytes@, i));
            }
        }
        assert(bits_of(self.bytes@) =~= padded(self@));
    }
}

/// Takes bits from the front of a byte slice.
#[derive(Clone, Debug)]
pub struct BitReader<'a> {
    bytes: &'a [u8],
    /// The byte that holds the next bit.
    byte_index: usize,
    /// How many bits of that byte are already taken.
    taken: u8,
}

/// The bits that are still to be read.
impl<'a> View for BitReader<'a> {
    type V = Seq<bool>;

    closed spec fn view(&self) -> Seq<bool> {
        bits_of(self.bytes@).skip(8 * self.byte_index + self.taken)
    }
}

impl<'a> BitReader<'a> {
    /// The position is one of the bytes, or their end.
    pub closed spec fn wf(&self) -> bool {
        &&& self.byte_index <= self.bytes@.len()
        &&& self.taken < 8
        &&& self.byte_index == self.bytes@.len() ==> self.taken == 0
    }

    pub fn new(bytes: &'a [u8]) -> (reader: Self)
        ensures
            reader.wf(),
            reader@ == bits_of(bytes@),
    {
        let reader = BitReader { bytes, byte_index: 0, taken: 0 };
        assert(reader@ =~= bits_of(bytes@));
        reader
    }

    pub fn read_bit(&mut self) -> (bit: Option<bool>)
        requires
            old(self).wf(),
        ensures
            final(self).wf(),
            old(self)@.len() == 0 ==> bit is None && final(self)@ == old(self)@,
            old(self)@.len() > 0 ==> bit == Some(old(self)@[0]) && final(self)@
                == old(self)@.drop_first(),
    {
        if self.byte_index >= self.bytes.len() {
            return None;
        }
        let byte: u8 = self.bytes[self.byte_index];
        let shift: u8 = 7 - self.taken;
        let bit: bool = ((byte >> shift) & 1) != 0;
        assert((byte >> shift) & 1 == 0 || (byte >> shift) & 1 == 1) by (bit_vector);
        assert((8 * self.byte_index + self.taken) / 8 == self.byte_index);
        assert((8 * self.byte_index + self.taken) % 8 == self.taken);
        if self.taken == 7 {
            self.byte_index = self.byte_index + 1;
            self.taken = 0;
        } else {
            self.taken = self.taken + 1;
        }
        assert(self@ =~= old(self)@.drop_first());
        Some(bit)
    }

    /// Whether at least `count` bits are left.
    fn has_bits(&self, count: usize) -> (enough: bool)
        requires
            self.wf(),
            count <= 64,
        ensures
            enough == (self@.len() >= count),
    {
        let bytes_left: usize = self.bytes.len() - self.byte_index;
        bytes_left > 8 || bytes_left * 8 - (self.taken as usize) >= count
    }

    pub fn read_bits(&mut self, count: usize) -> (value: Option<u64>)
        requires
            old(self).wf(),
        ensures
            final(self).wf(),
            count > 64 || old(self)@.len() < count ==> value is None && final(self)@ == old(self)@,
            count <= 64 && old(self)@.len() >= count ==> {
                &&& value matches Some(v)
                &&& v as nat == bits_value(old(self)@.take(count as int))
                &&& final(self)@ == old(self)@.skip(count as int)
            },
    {
        if count > 64 || !self.has_bits(count) {
            return None;
        }
        let ghost start = self@;
        let mut value: u64 = 0;
        let mut done: usize = 0;
        assert(start.skip(0) =~= start);
        while done < count
            invariant
                self.wf(),
                done <= count <= 64,
                start.len() >= count,
                self@ == start.skip(done as int),
                value as nat == bits_value(start.take(done as int)),
            decreases count - done,
        {
            let bit: bool = match self.read_bit() {
                Some(bit) => bit,
                None => return None,
            };
            proof {
                lemma_bits_value_bound(start.take(done as int));
                lemma2_to64();
                lemma2_to64_rest();
                if done < 63 {
                    lemma_pow2_strictly_increases(done as nat, 63);
                }
                assert(start.take(done + 1).drop_last() =~= start.take(done as int));
                assert(start.skip(done as int).drop_first() =~= start.skip(done + 1));
            }
            let unit: u64 = if bit {
                1
            } else {
                0
            };
            assert((value << 1) | unit == 2 * value + unit) by (bit_vector)
                requires
                    value < 0x8000_0000_0000_0000,
                    unit <= 1,
            ;
            value = (value << 1) | unit;
            done = done + 1;
        }
        Some(value)
    }
}

} // verus!
