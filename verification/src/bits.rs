//! Bit sequences: their numeric meaning, their packing into bytes, and a writer
//! and a reader for them. Bits run from the most significant one down.
use vstd::arithmetic::div_mod::{lemma_div_denominator, lemma_mod_breakdown};
use vstd::arithmetic::power2::{
    lemma2_to64, lemma2_to64_rest, lemma_pow2_pos, lemma_pow2_strictly_increases, lemma_pow2_unfold,
    pow2,
};
use vstd::bits::{lemma_u64_shr_is_div, lemma_u8_shr_is_div};
use vstd::prelude::*;

use crate::error::Error;

verus! {

/// The `n` low-order bits of `v`, most significant first.
pub open spec fn value_bits(v: nat, n: nat) -> Seq<bool>
    decreases n,
{
    if n == 0 {
        Seq::empty()
    } else {
        value_bits(v / 2, (n - 1) as nat).push(v % 2 == 1)
    }
}

/// The number that a bit sequence denotes, most significant bit first.
pub open spec fn bits_value(s: Seq<bool>) -> nat
    decreases s.len(),
{
    if s.len() == 0 {
        0
    } else {
        2 * bits_value(s.drop_last()) + (if s.last() {
            1nat
        } else {
            0nat
        })
    }
}

/// The bits of a byte sequence, byte after byte.
pub open spec fn bytes_bits(s: Seq<u8>) -> Seq<bool>
    decreases s.len(),
{
    if s.len() == 0 {
        Seq::empty()
    } else {
        bytes_bits(s.drop_last()) + value_bits(s.last() as nat, 8)
    }
}

/// How many zero bits bring `len` bits up to a whole number of bytes.
pub open spec fn padding(len: nat) -> nat {
    ((8 - len % 8) % 8) as nat
}

/// A bit sequence followed by zero bits up to a whole number of bytes.
pub open spec fn padded(s: Seq<bool>) -> Seq<bool> {
    s + Seq::new(padding(s.len()), |i: int| false)
}

/// The bytes that hold a bit sequence, the last one filled up with zero bits.
pub open spec fn pack_bits(s: Seq<bool>) -> Seq<u8> {
    Seq::new(
        padded(s).len() / 8,
        |k: int| bits_value(padded(s).subrange(8 * k, 8 * k + 8)) as u8,
    )
}

pub proof fn lemma_value_bits_len(v: nat, n: nat)
    ensures
        value_bits(v, n).len() == n,
    decreases n,
{
    if n > 0 {
        lemma_value_bits_len(v / 2, (n - 1) as nat);
    }
}

pub proof fn lemma_bits_value_bound(s: Seq<bool>)
    ensures
        bits_value(s) < pow2(s.len()),
    decreases s.len(),
{
    lemma_pow2_pos(0);
    if s.len() > 0 {
        lemma_bits_value_bound(s.drop_last());
        lemma_pow2_unfold(s.len());
    }
}

/// Writing a number as bits and reading it back changes nothing, if it fits.
pub proof fn lemma_value_of_bits(v: nat, n: nat)
    requires
        v < pow2(n),
    ensures
        bits_value(value_bits(v, n)) == v,
    decreases n,
{
    lemma_value_bits_len(v, n);
    if n == 0 {
        lemma2_to64();
    } else {
        lemma_pow2_unfold(n);
        lemma_value_of_bits(v / 2, (n - 1) as nat);
        assert(value_bits(v, n).drop_last() =~= value_bits(v / 2, (n - 1) as nat));
    }
}

/// Reading bits as a number and writing it back changes nothing.
pub proof fn lemma_bits_of_value(s: Seq<bool>)
    ensures
        value_bits(bits_value(s), s.len()) == s,
    decreases s.len(),
{
    if s.len() > 0 {
        lemma_bits_of_value(s.drop_last());
        let v = bits_value(s);
        assert(v / 2 == bits_value(s.drop_last()));
        assert(s.drop_last().push(s.last()) =~= s);
    }
}

/// Bit `i` of `n` is the one that is worth two to the `n - 1 - i`.
pub proof fn lemma_value_bits_index(v: nat, n: nat, i: int)
    requires
        0 <= i < n,
    ensures
        value_bits(v, n).len() == n,
        value_bits(v, n)[i] == ((v / pow2((n - 1 - i) as nat)) % 2 == 1),
    decreases n,
{
    lemma_value_bits_len(v, n);
    lemma_value_bits_len(v / 2, (n - 1) as nat);
    lemma2_to64();
    if i < n - 1 {
        lemma_value_bits_index(v / 2, (n - 1) as nat, i);
        let k = (n - 2 - i) as nat;
        lemma_pow2_pos(k);
        lemma_pow2_unfold(k + 1);
        lemma_div_denominator(v as int, 2, pow2(k) as int);
        assert((n - 1 - i) as nat == k + 1);
        assert((v / 2) / pow2(k) == v / pow2(k + 1));
    } else {
        assert((n - 1 - i) as nat == 0);
        assert(v / pow2(0) == v);
    }
}

pub proof fn lemma_bytes_bits_len(s: Seq<u8>)
    ensures
        bytes_bits(s).len() == 8 * s.len(),
    decreases s.len(),
{
    if s.len() > 0 {
        lemma_bytes_bits_len(s.drop_last());
        lemma_value_bits_len(s.last() as nat, 8);
    }
}

/// The bits of byte `k` stand at eight times `k`.
pub proof fn lemma_bytes_bits_of_byte(s: Seq<u8>, k: int)
    requires
        0 <= k < s.len(),
    ensures
        bytes_bits(s).len() == 8 * s.len(),
        bytes_bits(s).subrange(8 * k, 8 * k + 8) == value_bits(s[k] as nat, 8),
    decreases s.len(),
{
    lemma_bytes_bits_len(s);
    lemma_bytes_bits_len(s.drop_last());
    lemma_value_bits_len(s.last() as nat, 8);
    if k < s.len() - 1 {
        lemma_bytes_bits_of_byte(s.drop_last(), k);
        assert(bytes_bits(s).subrange(8 * k, 8 * k + 8) =~= bytes_bits(s.drop_last()).subrange(
            8 * k,
            8 * k + 8,
        ));
    } else {
        assert(bytes_bits(s).subrange(8 * k, 8 * k + 8) =~= value_bits(s.last() as nat, 8));
    }
}

/// A bit inside a byte sequence, found by its position.
pub proof fn lemma_bytes_bits_index(s: Seq<u8>, i: int)
    requires
        0 <= i < 8 * s.len(),
    ensures
        bytes_bits(s).len() == 8 * s.len(),
        bytes_bits(s)[i] == value_bits(s[i / 8] as nat, 8)[i % 8],
{
    let k = i / 8;
    lemma_bytes_bits_of_byte(s, k);
    assert(bytes_bits(s).subrange(8 * k, 8 * k + 8)[i % 8] == bytes_bits(s)[i]);
}

/// Bytes are determined by their bits.
pub proof fn lemma_bytes_of_bits(s: Seq<u8>)
    ensures
        pack_bits(bytes_bits(s)) == s,
{
    lemma_bytes_bits_len(s);
    let bits = bytes_bits(s);
    assert(padded(bits) =~= bits);
    assert forall|k: int| 0 <= k < s.len() implies pack_bits(bits)[k] == s[k] by {
        lemma_bytes_bits_of_byte(s, k);
        lemma2_to64();
        lemma_value_of_bits(s[k] as nat, 8);
    }
    assert(pack_bits(bits) =~= s);
}

/// Packing keeps the bits and appends the padding.
pub proof fn lemma_bits_of_packed(s: Seq<bool>)
    ensures
        bytes_bits(pack_bits(s)) == padded(s),
        pack_bits(s).len() * 8 == padded(s).len(),
{
    let bytes = pack_bits(s);
    let all = padded(s);
    assert(all.len() % 8 == 0);
    lemma_bytes_bits_len(bytes);
    assert forall|i: int| 0 <= i < all.len() implies bytes_bits(bytes)[i] == all[i] by {
        lemma_bytes_bits_index(bytes, i);
        let k = i / 8;
        let chunk = all.subrange(8 * k, 8 * k + 8);
        lemma_bits_value_bound(chunk);
        lemma2_to64();
        lemma_bits_of_value(chunk);
        assert(chunk[i % 8] == all[i]);
    }
    assert(bytes_bits(bytes) =~= all);
}

/// Shifting right by `n - 1 - i` brings bit `i` of `n` to the lowest place.
proof fn lemma_byte_bit(b: u8, j: u8)
    requires
        j < 8,
    ensures
        value_bits(b as nat, 8).len() == 8,
        value_bits(b as nat, 8)[j as int] == (((b >> (7 - j) as u8) & 1) != 0),
{
    let s = (7 - j) as u8;
    lemma_value_bits_index(b as nat, 8, j as int);
    lemma_u8_shr_is_div(b, s);
    let q = b >> s;
    assert((q & 1) != 0 <==> q % 2 == 1) by (bit_vector);
}

/// Setting one bit of a byte leaves the others alone.
proof fn lemma_set_bit(b: u8, j: u8)
    requires
        j < 8,
    ensures
        value_bits(b as nat, 8).len() == 8,
        value_bits((b | (1u8 << (7 - j) as u8)) as nat, 8) == value_bits(b as nat, 8).update(
            j as int,
            true,
        ),
{
    let s = (7 - j) as u8;
    let c = b | (1u8 << s);
    lemma_value_bits_len(b as nat, 8);
    lemma_value_bits_len(c as nat, 8);
    assert forall|i: int| 0 <= i < 8 implies value_bits(c as nat, 8)[i] == value_bits(
        b as nat,
        8,
    ).update(j as int, true)[i] by {
        let k = i as u8;
        lemma_byte_bit(b, k);
        lemma_byte_bit(c, k);
        let t = (7 - k) as u8;
        assert(((b | (1u8 << s)) >> t) & 1 == (if s == t {
            1u8
        } else {
            (b >> t) & 1
        })) by (bit_vector)
            requires
                s < 8,
                t < 8,
        ;
    }
    assert(value_bits(c as nat, 8) =~= value_bits(b as nat, 8).update(j as int, true));
}

/// A sink for single bits. Whole bytes go to `writer`; the bits of the byte that
/// is not complete yet wait in `current_byte`.
pub struct BitWriter {
    writer: Vec<u8>,
    current_byte: u8,
    bit_offset: u8,
}

impl View for BitWriter {
    type V = Seq<bool>;

    /// All the bits written so far.
    closed spec fn view(&self) -> Seq<bool> {
        bytes_bits(self.writer@) + value_bits(self.current_byte as nat, 8).subrange(
            0,
            self.bit_offset as int,
        )
    }
}

impl BitWriter {
    /// The bits of the incomplete byte that were not written yet are zero.
    pub closed spec fn wf(self) -> bool {
        &&& self.bit_offset < 8
        &&& forall|i: int|
            self.bit_offset <= i < 8 ==> !#[trigger] value_bits(self.current_byte as nat, 8)[i]
    }

    /// A writer that continues after the bytes in `writer`.
    pub fn new(writer: Vec<u8>) -> (w: Self)
        ensures
            w.wf(),
            w@ == bytes_bits(writer@),
    {
        let w = BitWriter { writer, current_byte: 0, bit_offset: 0 };
        proof {
            lemma_value_bits_len(0, 8);
            assert forall|i: int| 0 <= i < 8 implies !#[trigger] value_bits(0, 8)[i] by {
                lemma_byte_bit(0, i as u8);
                let s = (7 - i) as u8;
                assert((0u8 >> s) & 1 == 0) by (bit_vector);
            }
            assert(w@ =~= bytes_bits(w.writer@));
        }
        w
    }

    /// Appends one bit.
    pub fn write_bit(&mut self, bit: bool) -> (r: Result<(), Error>)
        requires
            old(self).wf(),
        ensures
            r is Ok,
            final(self).wf(),
            final(self)@ == old(self)@.push(bit),
    {
        let ghost before = value_bits(self.current_byte as nat, 8);
        let ghost done = bytes_bits(self.writer@);
        proof {
            lemma_value_bits_len(self.current_byte as nat, 8);
        }
        if bit {
            proof {
                lemma_set_bit(self.current_byte, self.bit_offset);
            }
            self.current_byte = self.current_byte | (1u8 << (7 - self.bit_offset));
        }
        let ghost after = value_bits(self.current_byte as nat, 8);
        assert(after =~= before.update(self.bit_offset as int, bit));
        assert(done + after.subrange(0, self.bit_offset + 1) =~= (done + before.subrange(
            0,
            self.bit_offset as int,
        )).push(bit));
        self.bit_offset = self.bit_offset + 1;
        if self.bit_offset == 8 {
            let ghost bytes = self.writer@;
            self.writer.push(self.current_byte);
            proof {
                assert(self.writer@.drop_last() =~= bytes);
                assert(after.subrange(0, 8) =~= after);
            }
            self.current_byte = 0;
            self.bit_offset = 0;
            proof {
                lemma_value_bits_len(0, 8);
                assert forall|i: int| 0 <= i < 8 implies !#[trigger] value_bits(0, 8)[i] by {
                    lemma_byte_bit(0, i as u8);
                    let s = (7 - i) as u8;
                    assert((0u8 >> s) & 1 == 0) by (bit_vector);
                }
                assert(self@ =~= bytes_bits(self.writer@));
            }
        }
        Ok(())
    }

    /// Appends the `count` low-order bits of `value`, most significant first.
    pub fn write_bits(&mut self, value: u64, count: u8) -> (r: Result<(), Error>)
        requires
            old(self).wf(),
        ensures
            final(self).wf(),
            r == (if count > 64 {
                Err::<(), Error>(Error::WriteTooWide)
            } else {
                Ok(())
            }),
            final(self)@ == (if count > 64 {
                old(self)@
            } else {
                old(self)@ + value_bits(value as nat, count as nat)
            }),
    {
        if count > 64 {
            return Err(Error::WriteTooWide);
        }
        let mut shift: u8 = count;
        let ghost all = value_bits(value as nat, count as nat);
        proof {
            lemma_value_bits_len(value as nat, count as nat);
            assert(self@ =~= old(self)@ + all.subrange(0, 0));
        }
        while shift > 0
            invariant
                shift <= count <= 64,
                self.wf(),
                all == value_bits(value as nat, count as nat),
                all.len() == count,
                self@ == old(self)@ + all.subrange(0, count - shift),
            decreases shift,
        {
            shift = shift - 1;
            let q: u64 = value >> shift;
            proof {
                lemma_u64_shr_is_div(value, shift as u64);
                lemma_value_bits_index(value as nat, count as nat, count - shift - 1);
                assert((q & 1) != 0 <==> q % 2 == 1) by (bit_vector);
                assert(all.subrange(0, count - shift) =~= all.subrange(0, count - shift - 1).push(
                    all[count - shift - 1],
                ));
            }
            let ghost sofar = self@;
            self.write_bit((q & 1) != 0)?;
            assert(self@ =~= old(self)@ + all.subrange(0, count - shift));
        }
        assert(all.subrange(0, count as int) =~= all);
        Ok(())
    }

    /// Closes the last byte with zero bits and hands all the bytes out.
    pub fn finish(self) -> (r: Result<Vec<u8>, Error>)
        requires
            self.wf(),
        ensures
            r is Ok,
            r->Ok_0@ == pack_bits(self@),
    {
        let ghost bits = self@;
        let ghost done = self.writer@;
        let ghost last = value_bits(self.current_byte as nat, 8);
        let mut out = self.writer;
        proof {
            lemma_value_bits_len(self.current_byte as nat, 8);
            lemma_bytes_bits_len(done);
        }
        if self.bit_offset != 0 {
            out.push(self.current_byte);
            proof {
                assert(out@.drop_last() =~= done);
                assert(bytes_bits(out@) =~= padded(bits));
            }
        } else {
            assert(bytes_bits(out@) =~= padded(bits));
        }
        proof {
            lemma_bytes_of_bits(out@);
            lemma_bytes_bits_len(out@);
            assert(padded(padded(bits)) =~= padded(bits));
        }
        Ok(out)
    }
}

/// The number in the `n` bits from `pos` on, if there are that many.
pub open spec fn take_bits(bits: Seq<bool>, pos: int, n: int) -> Option<nat> {
    if pos + n <= bits.len() {
        Some(bits_value(bits.subrange(pos, pos + n)))
    } else {
        None
    }
}

/// A source of single bits.
pub struct BitReader<'a> {
    data: &'a [u8],
    bit_pos: usize,
}

impl<'a> BitReader<'a> {
    /// All the bits that the reader runs over.
    pub closed spec fn bits(self) -> Seq<bool> {
        bytes_bits(self.data@)
    }

    /// How many bits have been read.
    pub closed spec fn pos(self) -> int {
        self.bit_pos as int
    }

    /// The position lies inside the bits, and any position fits in a machine word.
    pub closed spec fn wf(self) -> bool {
        &&& 8 * self.data@.len() <= usize::MAX
        &&& self.bit_pos <= 8 * self.data@.len()
    }

    pub proof fn lemma_wf(self)
        requires
            self.wf(),
        ensures
            0 <= self.pos() <= self.bits().len(),
    {
        lemma_bytes_bits_len(self.data@);
    }

    /// A reader at the first bit of `data`.
    pub fn new(data: &'a [u8]) -> (r: Self)
        requires
            8 * data@.len() <= usize::MAX,
        ensures
            r.wf(),
            r.bits() == bytes_bits(data@),
            r.pos() == 0,
    {
        BitReader { data, bit_pos: 0 }
    }

    /// Reads one bit.
    pub fn read_bit(&mut self) -> (r: Result<bool, Error>)
        requires
            old(self).wf(),
        ensures
            final(self).wf(),
            final(self).bits() == old(self).bits(),
            old(self).pos() < old(self).bits().len() ==> r == Ok::<bool, Error>(
                old(self).bits()[old(self).pos()],
            ) && final(self).pos() == old(self).pos() + 1,
            old(self).pos() >= old(self).bits().len() ==> r == Err::<bool, Error>(Error::EndOfBits)
                && final(self).pos() == old(self).pos(),
    {
        proof {
            lemma_bytes_bits_len(self.data@);
        }
        if self.bit_pos >= self.data.len() * 8 {
            return Err(Error::EndOfBits);
        }
        let byte = self.data[self.bit_pos / 8];
        let shift: u8 = (7 - self.bit_pos % 8) as u8;
        proof {
            lemma_bytes_bits_index(self.data@, self.bit_pos as int);
            lemma_byte_bit(byte, (self.bit_pos % 8) as u8);
        }
        self.bit_pos = self.bit_pos + 1;
        Ok(((byte >> shift) & 1) != 0)
    }

    /// Reads `count` bits as one number, most significant bit first. Where fewer
    /// are left, all of them are used up.
    pub fn read_bits(&mut self, count: u8) -> (r: Result<u64, Error>)
        requires
            old(self).wf(),
        ensures
            final(self).wf(),
            final(self).bits() == old(self).bits(),
            count > 64 ==> r == Err::<u64, Error>(Error::ReadTooWide) && final(self).pos() == old(
                self
            ).pos(),
            count <= 64 ==> match take_bits(old(self).bits(), old(self).pos(), count as int) {
                Some(v) => {
                    &&& r is Ok
                    &&& r->Ok_0 as nat == v
                    &&& v < pow2(count as nat)
                    &&& final(self).pos() == old(self).pos() + count
                },
                None => {
                    &&& r == Err::<u64, Error>(Error::EndOfBits)
                    &&& final(self).pos() == old(self).bits().len()
                },
            },
    {
        if count > 64 {
            return Err(Error::ReadTooWide);
        }
        let ghost bits = self.bits();
        let ghost from = self.pos();
        let mut value: u64 = 0;
        let mut i: u8 = 0;
        proof {
            self.lemma_wf();
        }
        while i < count
            invariant
                i <= count <= 64,
                self.wf(),
                self.bits() == bits,
                self.pos() == from + i,
                0 <= from,
                from + i <= bits.len(),
                value as nat == bits_value(bits.subrange(from, from + i)),
                bits == old(self).bits(),
                from == old(self).pos(),
            decreases count - i,
        {
            let ghost head = bits.subrange(from, from + i);
            proof {
                lemma_bits_value_bound(head);
                lemma2_to64();
                lemma2_to64_rest();
                if i < 63 {
                    lemma_pow2_strictly_increases(i as nat, 63);
                }
            }
            let bit = self.read_bit()?;
            proof {
                self.lemma_wf();
                let wider = bits.subrange(from, from + i + 1);
                assert(wider.drop_last() =~= head);
            }
            assert(value < 0x8000_0000_0000_0000 ==> (value << 1) | 0 == 2 * value && (value << 1)
                | 1 == 2 * value + 1) by (bit_vector);
            value = (value << 1) | (if bit {
                1
            } else {
                0
            });
            i = i + 1;
        }
        proof {
            lemma_bits_value_bound(bits.subrange(from, from + count));
        }
        Ok(value)
    }

    /// Checks that nothing but the zero bits that close the last byte is left.
    pub fn verify_padding(&mut self) -> (r: Result<(), Error>)
        requires
            old(self).wf(),
        ensures
            final(self).wf(),
            final(self).bits() == old(self).bits(),
            r == check_padding(old(self).bits(), old(self).pos()),
            r is Ok ==> final(self).pos() == old(self).bits().len(),
            r == Err::<(), Error>(Error::TrailingData) ==> final(self).pos() == old(self).pos(),
            r == Err::<(), Error>(Error::NonZeroPadding) ==> {
                &&& old(self).pos() < final(self).pos() <= old(self).bits().len()
                &&& old(self).bits()[final(self).pos() - 1]
                &&& forall|j: int|
                    old(self).pos() <= j < final(self).pos() - 1 ==> !old(self).bits()[j]
            },
    {
        proof {
            self.lemma_wf();
            lemma_bytes_bits_len(self.data@);
        }
        let ghost bits = self.bits();
        let ghost from = self.pos();
        let remaining: usize = self.data.len() * 8 - self.bit_pos;
        if remaining > 7 {
            return Err(Error::TrailingData);
        }
        let mut i: usize = 0;
        while i < remaining
            invariant
                i <= remaining,
                self.wf(),
                self.bits() == bits,
                self.pos() == from + i,
                0 <= from,
                from + remaining == bits.len(),
                remaining <= 7,
                bits == old(self).bits(),
                from == old(self).pos(),
                forall|j: int| from <= j < from + i ==> !bits[j],
            decreases remaining - i,
        {
            if self.read_bit()? {
                assert(bits[from + i]);
                return Err(Error::NonZeroPadding);
            }
            i = i + 1;
        }
        Ok(())
    }
}

/// What is owed on the bits from `pos` on: fewer than eight, and all zero.
pub open spec fn check_padding(bits: Seq<bool>, pos: int) -> Result<(), Error> {
    if bits.len() - pos > 7 {
        Err(Error::TrailingData)
    } else if exists|j: int| pos <= j < bits.len() && bits[j] {
        Err(Error::NonZeroPadding)
    } else {
        Ok(())
    }
}

/// Fields of bits, one behind the other: each the low-order bits of a number, as many
/// as its width.
pub open spec fn fields_bits(fields: Seq<(u64, u8)>) -> Seq<bool>
    decreases fields.len(),
{
    if fields.len() == 0 {
        Seq::empty()
    } else {
        fields_bits(fields.drop_last()) + value_bits(
            fields.last().0 as nat,
            fields.last().1 as nat,
        )
    }
}

/// Where a field starts: behind all the widths ahead of it.
pub open spec fn field_start(fields: Seq<(u64, u8)>, i: int) -> int
    decreases i,
{
    if i <= 0 {
        0
    } else {
        field_start(fields, i - 1) + fields[i - 1].1
    }
}

/// The number in the low-order bits of another.
proof fn lemma_low_bits(v: nat, n: nat)
    ensures
        bits_value(value_bits(v, n)) == v % pow2(n),
    decreases n,
{
    lemma_value_bits_len(v, n);
    if n == 0 {
        lemma2_to64();
    } else {
        let m = (n - 1) as nat;
        lemma_low_bits(v / 2, m);
        lemma_pow2_pos(m);
        lemma_pow2_unfold(n);
        assert(value_bits(v, n).drop_last() =~= value_bits(v / 2, m));
        lemma_mod_breakdown(v as int, 2, pow2(m) as int);
    }
}

/// The fields up to `i` fill the bits up to where field `i` starts, and field `i`
/// stands behind them.
proof fn lemma_field_at(fields: Seq<(u64, u8)>, i: int)
    requires
        0 <= i <= fields.len(),
    ensures
        0 <= field_start(fields, i) <= fields_bits(fields).len(),
        fields_bits(fields).len() == field_start(fields, fields.len() as int),
        i < fields.len() ==> {
            let end = field_start(fields, i) + fields[i].1;
            &&& end <= fields_bits(fields).len()
            &&& fields_bits(fields).subrange(field_start(fields, i), end) == value_bits(
                fields[i].0 as nat,
                fields[i].1 as nat,
            )
        },
    decreases fields.len(),
{
    if fields.len() > 0 {
        let front = fields.drop_last();
        let n = front.len() as int;
        let last = fields.last();
        lemma_value_bits_len(last.0 as nat, last.1 as nat);
        lemma_same_starts(front, fields, n);
        lemma_field_at(front, n);
        if i < n {
            lemma_field_at(front, i);
            lemma_same_starts(front, fields, i);
            let start = field_start(fields, i);
            let end = start + fields[i].1;
            assert(front[i] == fields[i]);
            assert(fields_bits(fields).subrange(start, end) =~= fields_bits(front).subrange(
                start,
                end,
            ));
        } else if i == n {
            assert(fields_bits(fields).subrange(
                field_start(fields, n),
                field_start(fields, n) + last.1,
            ) =~= value_bits(last.0 as nat, last.1 as nat));
        }
    }
}

/// A field starts where it did when more fields follow.
proof fn lemma_same_starts(front: Seq<(u64, u8)>, fields: Seq<(u64, u8)>, i: int)
    requires
        0 <= i <= front.len() <= fields.len(),
        forall|k: int| 0 <= k < front.len() ==> front[k] == fields[k],
    ensures
        field_start(front, i) == field_start(fields, i),
    decreases i,
{
    if i > 0 {
        lemma_same_starts(front, fields, i - 1);
    }
}

/// Fields that were written one behind the other and packed into bytes are read back
/// in that order: where the widths ahead of a field end, a read of its width gives its
/// number cut to that width, and behind the last field nothing but padding is left.
pub proof fn law_fields_round_trip(fields: Seq<(u64, u8)>)
    ensures
        ({
            let bits = bytes_bits(pack_bits(fields_bits(fields)));
            &&& forall|i: int|
                0 <= i < fields.len() ==> take_bits(
                    bits,
                    field_start(fields, i),
                    (#[trigger] fields[i]).1 as int,
                ) == Some(fields[i].0 as nat % pow2(fields[i].1 as nat))
            &&& check_padding(bits, field_start(fields, fields.len() as int)) == Ok::<(), Error>(())
        }),
{
    let plain = fields_bits(fields);
    let bits = bytes_bits(pack_bits(plain));
    lemma_bits_of_packed(plain);
    lemma_field_at(fields, fields.len() as int);
    assert forall|i: int| 0 <= i < fields.len() implies take_bits(
        bits,
        field_start(fields, i),
        (#[trigger] fields[i]).1 as int,
    ) == Some(fields[i].0 as nat % pow2(fields[i].1 as nat)) by {
        lemma_field_at(fields, i);
        lemma_low_bits(fields[i].0 as nat, fields[i].1 as nat);
        let start = field_start(fields, i);
        let end = start + fields[i].1;
        assert(bits.subrange(start, end) =~= plain.subrange(start, end));
    }
}

/// Packed bits take as many bytes as they need, and no more. Bit number `i` stands in
/// byte `i / 8`, where the first of eight bits is worth 128, the next half as much, and
/// so on; the bits of the last byte that are left over are zero.
pub proof fn law_bits_stand_in_their_byte(s: Seq<bool>, i: int)
    ensures
        pack_bits(s).len() == (s.len() + 7) / 8,
        0 <= i < 8 * pack_bits(s).len() ==> {
            let bit = pack_bits(s)[i / 8] as int / pow2((7 - i % 8) as nat) as int % 2 == 1;
            bit == (i < s.len() && s[i])
        },
{
    lemma_bits_of_packed(s);
    let bytes = pack_bits(s);
    if 0 <= i < 8 * bytes.len() {
        lemma_bytes_bits_index(bytes, i);
        lemma_value_bits_index(bytes[i / 8] as nat, 8, i % 8);
        assert(padded(s)[i] == (i < s.len() && s[i]));
    }
}

/// The bits of a number denote it, and a longer sequence denotes the front part times
/// two to the length of the rest, plus the rest.
pub proof fn law_bits_denote_numbers(front: Seq<bool>, rest: Seq<bool>)
    ensures
        bits_value(front + rest) == bits_value(front) * pow2(rest.len()) + bits_value(rest),
        bits_value(seq![true]) == 1,
        bits_value(seq![false]) == 0,
    decreases rest.len(),
{
    reveal_with_fuel(bits_value, 2);
    lemma2_to64();
    let s = front + rest;
    if rest.len() == 0 {
        assert(s =~= front);
        assert(bits_value(rest) == 0);
    } else {
        let less = rest.drop_last();
        law_bits_denote_numbers(front, less);
        assert(s.drop_last() =~= front + less);
        lemma_pow2_unfold(rest.len());
        let v = bits_value(front) as int;
        let p = pow2(less.len()) as int;
        assert(2 * (v * p) == v * (2 * p)) by (nonlinear_arith);
    }
}

/// What is left behind the last value is refused if it has eight bits or more, or if one
/// of its bits is set, and for no other reason.
pub proof fn law_only_zero_padding_passes(front: Seq<bool>, rest: Seq<bool>)
    ensures
        ({
            let r = check_padding(front + rest, front.len() as int);
            let zeros = forall|j: int| 0 <= j < rest.len() ==> !#[trigger] rest[j];
            &&& rest.len() >= 8 ==> r == Err::<(), Error>(Error::TrailingData)
            &&& rest.len() < 8 && !zeros ==> r == Err::<(), Error>(Error::NonZeroPadding)
            &&& rest.len() < 8 && zeros ==> r == Ok::<(), Error>(())
        }),
{
    let all = front + rest;
    let n = front.len() as int;
    if exists|j: int| 0 <= j < rest.len() && #[trigger] rest[j] {
        let j = choose|j: int| 0 <= j < rest.len() && #[trigger] rest[j];
        assert(all[n + j]);
    }
    assert forall|j: int| n <= j < all.len() implies all[j] == #[trigger] rest[j - n] by {}
}

} // verus!
