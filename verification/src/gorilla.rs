//! Variable-length codes for the two halves of a tick: time steps, as the change
//! from one step to the next, and prices, as the bits that differ from the price
//! before.
use vstd::arithmetic::div_mod::lemma_multiply_divide_lt;
use vstd::arithmetic::power2::{lemma2_to64, lemma2_to64_rest, lemma_pow2_adds, lemma_pow2_pos, pow2};
use vstd::bits::lemma_u64_shr_is_div;
use vstd::prelude::*;
use vstd::std_specs::bits::{u64_leading_zeros, u64_trailing_zeros};

use crate::bits::{
    lemma_value_bits_len, lemma_value_of_bits, take_bits, value_bits, BitReader, BitWriter,
};
use crate::error::Error;

verus! {

/// The low 32 bits of a number in two's complement.
pub open spec fn low_word(v: int) -> nat {
    (v % 0x1_0000_0000) as nat
}

/// The size of a number, cut to 64 bits.
pub open spec fn magnitude(v: int) -> nat {
    ((if v < 0 {
        -v
    } else {
        v
    }) % 0x1_0000_0000_0000_0000) as nat
}

/// The code of a change `v` of the time step: a prefix that tells the size class,
/// and then the change itself, biased to be non-negative. The 32-bit class leaves
/// out its least number, which announces a sign bit and a 64-bit magnitude.
pub open spec fn dod_bits(v: int) -> Seq<bool> {
    if v == 0 {
        seq![false]
    } else if -63 <= v <= 64 {
        value_bits(0b10, 2) + value_bits((v + 63) as nat, 7)
    } else if -255 <= v <= 256 {
        value_bits(0b110, 3) + value_bits((v + 255) as nat, 9)
    } else if -2047 <= v <= 2048 {
        value_bits(0b1110, 4) + value_bits((v + 2047) as nat, 12)
    } else if -0x8000_0000 < v < 0x8000_0000 {
        value_bits(0b1111, 4) + value_bits(low_word(v), 32)
    } else {
        value_bits(0b1111, 4) + value_bits(0x8000_0000, 32) + seq![v < 0] + value_bits(
            magnitude(v),
            64,
        )
    }
}

/// The number in `n` bits less `bias`, and where those bits end.
pub open spec fn biased_at(bits: Seq<bool>, pos: int, n: int, bias: int) -> Option<(int, int)> {
    match take_bits(bits, pos, n) {
        Some(v) => Some((v - bias, pos + n)),
        None => None,
    }
}

/// The change of the time step whose code starts at `pos`, and where the code
/// ends; nothing if the bits end first.
pub open spec fn dod_at(bits: Seq<bool>, pos: int) -> Option<(int, int)> {
    if pos >= bits.len() {
        None
    } else if !bits[pos] {
        Some((0, pos + 1))
    } else if pos + 1 >= bits.len() {
        None
    } else if !bits[pos + 1] {
        biased_at(bits, pos + 2, 7, 63)
    } else if pos + 2 >= bits.len() {
        None
    } else if !bits[pos + 2] {
        biased_at(bits, pos + 3, 9, 255)
    } else if pos + 3 >= bits.len() {
        None
    } else if !bits[pos + 3] {
        biased_at(bits, pos + 4, 12, 2047)
    } else {
        match take_bits(bits, pos + 4, 32) {
            None => None,
            Some(word) => if word < 0x8000_0000 {
                Some((word as int, pos + 36))
            } else if word > 0x8000_0000 {
                Some((word - 0x1_0000_0000, pos + 36))
            } else if pos + 36 >= bits.len() {
                None
            } else {
                match take_bits(bits, pos + 37, 64) {
                    None => None,
                    Some(m) => Some((if bits[pos + 36] {
                        -(m as int)
                    } else {
                        m as int
                    }, pos + 101)),
                }
            },
        }
    }
}

/// Appends the code of a change of the time step.
pub fn write_delta_of_delta(writer: &mut BitWriter, value: i128) -> (r: Result<(), Error>)
    requires
        old(writer).wf(),
    ensures
        r is Ok,
        final(writer).wf(),
        final(writer)@ == old(writer)@ + dod_bits(value as int),
{
    let ghost start = writer@;
    if value == 0 {
        writer.write_bit(false)?;
        assert(writer@ =~= start + dod_bits(0));
    } else if -63 <= value && value <= 64 {
        writer.write_bits(0b10, 2)?;
        writer.write_bits((value + 63) as u64, 7)?;
        assert(writer@ =~= start + dod_bits(value as int));
    } else if -255 <= value && value <= 256 {
        writer.write_bits(0b110, 3)?;
        writer.write_bits((value + 255) as u64, 9)?;
        assert(writer@ =~= start + dod_bits(value as int));
    } else if -2047 <= value && value <= 2048 {
        writer.write_bits(0b1110, 4)?;
        writer.write_bits((value + 2047) as u64, 12)?;
        assert(writer@ =~= start + dod_bits(value as int));
    } else {
        writer.write_bits(0b1111, 4)?;
        if -0x8000_0000 < value && value < 0x8000_0000 {
            let word: u64 = if value < 0 {
                (value + 0x1_0000_0000) as u64
            } else {
                value as u64
            };
            writer.write_bits(word, 32)?;
            assert(writer@ =~= start + dod_bits(value as int));
        } else {
            writer.write_bits(0x8000_0000, 32)?;
            writer.write_bit(value < 0)?;
            let size: u128 = if value < 0 {
                (-(value + 1)) as u128 + 1
            } else {
                value as u128
            };
            writer.write_bits((size % 0x1_0000_0000_0000_0000) as u64, 64)?;
            assert(writer@ =~= start + dod_bits(value as int));
        }
    }
    Ok(())
}

/// Reads the code of a change of the time step.
pub fn read_delta_of_delta(reader: &mut BitReader<'_>) -> (r: Result<i128, Error>)
    requires
        old(reader).wf(),
    ensures
        final(reader).wf(),
        final(reader).bits() == old(reader).bits(),
        match dod_at(old(reader).bits(), old(reader).pos()) {
            Some((v, end)) => r is Ok && r->Ok_0 as int == v && final(reader).pos() == end,
            None => r == Err::<i128, Error>(Error::EndOfBits) && final(reader).pos() == old(
                reader
            ).bits().len(),
        },
        r is Ok ==> -0x1_0000_0000_0000_0000 < r->Ok_0 < 0x1_0000_0000_0000_0000,
{
    proof {
        reader.lemma_wf();
        lemma2_to64();
        lemma2_to64_rest();
    }
    if !reader.read_bit()? {
        return Ok(0);
    }
    if !reader.read_bit()? {
        return Ok(reader.read_bits(7)? as i128 - 63);
    }
    if !reader.read_bit()? {
        return Ok(reader.read_bits(9)? as i128 - 255);
    }
    if !reader.read_bit()? {
        return Ok(reader.read_bits(12)? as i128 - 2047);
    }
    let word = reader.read_bits(32)?;
    if word < 0x8000_0000 {
        return Ok(word as i128);
    }
    if word > 0x8000_0000 {
        return Ok(word as i128 - 0x1_0000_0000);
    }
    let negative = reader.read_bit()?;
    let size = reader.read_bits(64)? as i128;
    Ok(
        if negative {
            -size
        } else {
            size
        },
    )
}

/// What a reader finds where a fixed-length field was written.
pub proof fn lemma_take_field(bits: Seq<bool>, pos: int, v: nat, n: nat)
    requires
        0 <= pos,
        pos + n <= bits.len(),
        bits.subrange(pos, pos + n) == value_bits(v, n),
        v < pow2(n),
    ensures
        take_bits(bits, pos, n as int) == Some(v),
{
    lemma_value_of_bits(v, n);
}

/// A part of a code stands where the code stands.
pub proof fn lemma_part_at(bits: Seq<bool>, pos: int, code: Seq<bool>, from: int, to: int)
    requires
        0 <= pos,
        pos + code.len() <= bits.len(),
        bits.subrange(pos, pos + code.len()) == code,
        0 <= from <= to <= code.len(),
    ensures
        bits.subrange(pos + from, pos + to) == code.subrange(from, to),
        forall|i: int| 0 <= i < code.len() ==> bits[pos + i] == #[trigger] code[i],
{
    let here = bits.subrange(pos, pos + code.len());
    assert(bits.subrange(pos + from, pos + to) =~= here.subrange(from, to));
    assert forall|i: int| 0 <= i < code.len() implies bits[pos + i] == #[trigger] code[i] by {
        assert(here[i] == bits[pos + i]);
    }
}

/// The prefixes of the size classes.
proof fn lemma_prefixes()
    ensures
        value_bits(0b10, 2) == seq![true, false],
        value_bits(0b110, 3) == seq![true, true, false],
        value_bits(0b1110, 4) == seq![true, true, true, false],
        value_bits(0b1111, 4) == seq![true, true, true, true],
{
    reveal_with_fuel(value_bits, 5);
    assert(value_bits(0b10, 2) =~= seq![true, false]);
    assert(value_bits(0b110, 3) =~= seq![true, true, false]);
    assert(value_bits(0b1110, 4) =~= seq![true, true, true, false]);
    assert(value_bits(0b1111, 4) =~= seq![true, true, true, true]);
}

/// Where the code of a change stands, that change is read, and nothing past the
/// code is touched.
pub proof fn lemma_dod_round_trip(bits: Seq<bool>, pos: int, v: int)
    requires
        -0x1_0000_0000_0000_0000 < v < 0x1_0000_0000_0000_0000,
        0 <= pos,
        pos + dod_bits(v).len() <= bits.len(),
        bits.subrange(pos, pos + dod_bits(v).len()) == dod_bits(v),
    ensures
        dod_at(bits, pos) == Some((v, pos + dod_bits(v).len())),
{
    let code = dod_bits(v);
    lemma2_to64();
    lemma2_to64_rest();
    lemma_prefixes();
    lemma_part_at(bits, pos, code, 0, 0);
    if v == 0 {
        assert(bits[pos + 0] == code[0]);
    } else if -63 <= v <= 64 {
        let field = value_bits((v + 63) as nat, 7);
        lemma_value_bits_len((v + 63) as nat, 7);
        assert(bits[pos + 0] == code[0] && bits[pos + 1] == code[1]);
        lemma_part_at(bits, pos, code, 2, 9);
        assert(code.subrange(2, 9) =~= field);
        lemma_take_field(bits, pos + 2, (v + 63) as nat, 7);
    } else if -255 <= v <= 256 {
        let field = value_bits((v + 255) as nat, 9);
        lemma_value_bits_len((v + 255) as nat, 9);
        assert(bits[pos + 0] == code[0] && bits[pos + 1] == code[1] && bits[pos + 2] == code[2]);
        lemma_part_at(bits, pos, code, 3, 12);
        assert(code.subrange(3, 12) =~= field);
        lemma_take_field(bits, pos + 3, (v + 255) as nat, 9);
    } else if -2047 <= v <= 2048 {
        let field = value_bits((v + 2047) as nat, 12);
        lemma_value_bits_len((v + 2047) as nat, 12);
        assert(bits[pos + 0] == code[0] && bits[pos + 1] == code[1] && bits[pos + 2] == code[2]
            && bits[pos + 3] == code[3]);
        lemma_part_at(bits, pos, code, 4, 16);
        assert(code.subrange(4, 16) =~= field);
        lemma_take_field(bits, pos + 4, (v + 2047) as nat, 12);
    } else if -0x8000_0000 < v < 0x8000_0000 {
        let field = value_bits(low_word(v), 32);
        lemma_value_bits_len(low_word(v), 32);
        assert(bits[pos + 0] == code[0] && bits[pos + 1] == code[1] && bits[pos + 2] == code[2]
            && bits[pos + 3] == code[3]);
        lemma_part_at(bits, pos, code, 4, 36);
        assert(code.subrange(4, 36) =~= field);
        lemma_take_field(bits, pos + 4, low_word(v), 32);
    } else {
        let mark = value_bits(0x8000_0000, 32);
        let field = value_bits(magnitude(v), 64);
        lemma_value_bits_len(0x8000_0000, 32);
        lemma_value_bits_len(magnitude(v), 64);
        assert(bits[pos + 0] == code[0] && bits[pos + 1] == code[1] && bits[pos + 2] == code[2]
            && bits[pos + 3] == code[3]);
        lemma_part_at(bits, pos, code, 4, 36);
        assert(code.subrange(4, 36) =~= mark);
        lemma_take_field(bits, pos + 4, 0x8000_0000, 32);
        assert(bits[pos + 36] == code[36]);
        assert(code[36] == (v < 0));
        lemma_part_at(bits, pos, code, 37, 101);
        assert(code.subrange(37, 101) =~= field);
        lemma_take_field(bits, pos + 37, magnitude(v), 64);
    }
}

pub proof fn lemma_dod_len(v: int)
    ensures
        1 <= dod_bits(v).len() <= 101,
{
    lemma_value_bits_len(0b10, 2);
    lemma_value_bits_len(0b110, 3);
    lemma_value_bits_len(0b1110, 4);
    lemma_value_bits_len(0b1111, 4);
    lemma_value_bits_len((v + 63) as nat, 7);
    lemma_value_bits_len((v + 255) as nat, 9);
    lemma_value_bits_len((v + 2047) as nat, 12);
    lemma_value_bits_len(low_word(v), 32);
    lemma_value_bits_len(0x8000_0000, 32);
    lemma_value_bits_len(magnitude(v), 64);
}

/// How many of the top bits of a difference are zero, counted up to 31.
pub open spec fn leading(x: u64) -> int {
    if u64_leading_zeros(x) < 31 {
        u64_leading_zeros(x)
    } else {
        31
    }
}

/// How many of the low bits of a difference are zero.
pub open spec fn trailing(x: u64) -> int {
    u64_trailing_zeros(x) as int
}

/// The bits of a word between a number of top bits and a number of low bits that
/// are left out.
pub type Window = Option<(u8, u8)>;

/// A difference has no set bit outside the window.
pub open spec fn fits_window(x: u64, window: Window) -> bool {
    match window {
        Some((l, t)) => leading(x) >= l && trailing(x) >= t,
        None => false,
    }
}

/// The code of a price after `previous`: nothing changed; or the changed bits
/// inside the window in force; or a new window and the changed bits inside it.
/// A window of all 64 bits is written with the length 0.
pub open spec fn xor_bits(previous: u64, current: u64, window: Window) -> Seq<bool> {
    let x = previous ^ current;
    if x == 0 {
        seq![false]
    } else if fits_window(x, window) {
        let (l, t) = window->0;
        seq![true, false] + value_bits((x >> t) as nat, (64 - l - t) as nat)
    } else {
        let n = (64 - leading(x) - trailing(x)) as nat;
        seq![true, true] + value_bits(leading(x) as nat, 5) + value_bits(n % 64, 6) + value_bits(
            (x >> trailing(x) as u8) as nat,
            n,
        )
    }
}

/// The window in force once the price `current` was written after `previous`.
pub open spec fn next_window(previous: u64, current: u64, window: Window) -> Window {
    let x = previous ^ current;
    if x == 0 || fits_window(x, window) {
        window
    } else {
        Some((leading(x) as u8, trailing(x) as u8))
    }
}

/// A window that a reader can use: it leaves out at most the whole word, and
/// never all of it from below.
pub open spec fn window_wf(window: Window) -> bool {
    window matches Some((l, t)) ==> l + t <= 64 && t < 64
}

/// Appends the code of the price `current` that follows the price `previous`.
pub fn write_xor(
    writer: &mut BitWriter,
    previous: u64,
    current: u64,
    window: &mut Option<(u8, u8)>,
) -> (r: Result<(), Error>)
    requires
        old(writer).wf(),
    ensures
        r is Ok,
        final(writer).wf(),
        final(writer)@ == old(writer)@ + xor_bits(previous, current, *old(window)),
        *final(window) == next_window(previous, current, *old(window)),
{
    let ghost start = writer@;
    let xor = previous ^ current;
    if xor == 0 {
        writer.write_bit(false)?;
        assert(writer@ =~= start + xor_bits(previous, current, *window));
        return Ok(());
    }
    writer.write_bit(true)?;
    let zeros: u32 = xor.leading_zeros();
    let leading: u8 = if zeros < 31 {
        zeros as u8
    } else {
        31
    };
    let trailing: u8 = xor.trailing_zeros() as u8;
    proof {
        lemma_zeros(xor);
    }
    if let Some((previous_leading, previous_trailing)) = *window {
        if leading >= previous_leading && trailing >= previous_trailing {
            writer.write_bit(false)?;
            let meaningful: u8 = 64 - previous_leading - previous_trailing;
            writer.write_bits(xor >> previous_trailing, meaningful)?;
            assert(writer@ =~= start + xor_bits(previous, current, *window));
            return Ok(());
        }
    }
    writer.write_bit(true)?;
    let meaningful: u8 = 64 - leading - trailing;
    writer.write_bits(leading as u64, 5)?;
    writer.write_bits((meaningful % 64) as u64, 6)?;
    writer.write_bits(xor >> trailing, meaningful)?;
    assert(writer@ =~= start + xor_bits(previous, current, *window));
    *window = Some((leading, trailing));
    Ok(())
}

/// The zero bits at both ends of a difference do not meet.
pub proof fn lemma_zeros(x: u64)
    requires
        x != 0,
    ensures
        0 <= u64_leading_zeros(x) < 64,
        0 <= u64_trailing_zeros(x) < 64,
        u64_leading_zeros(x) + u64_trailing_zeros(x) < 64,
        x >> (64 - u64_leading_zeros(x)) as u64 == 0,
        x << (64 - u64_trailing_zeros(x)) as u64 == 0,
{
    vstd::std_specs::bits::axiom_u64_leading_zeros(x);
    vstd::std_specs::bits::axiom_u64_trailing_zeros(x);
    let l = u64_leading_zeros(x) as u64;
    let t = u64_trailing_zeros(x) as u64;
    let above = (64 - l) as u64;
    let below = (64 - t) as u64;
    if l + t >= 64 {
        assert(x == 0) by (bit_vector)
            requires
                0 <= l < 64,
                0 <= t < 64,
                l + t >= 64,
                above == 64 - l,
                below == 64 - t,
                x >> above == 0,
                x << below == 0,
        ;
    }
}

/// What reading the code of a price gives: the price or an error, the position
/// behind what was read, and the window in force afterwards.
pub struct XorRead {
    pub price: Result<u64, Error>,
    pub pos: int,
    pub window: Window,
}

/// The changed bits inside a window, applied to the price before.
pub open spec fn changed_at(
    bits: Seq<bool>,
    pos: int,
    previous: u64,
    leading: u8,
    trailing: u8,
) -> XorRead {
    let window = Some((leading, trailing));
    let n = 64 - leading - trailing;
    match take_bits(bits, pos, n) {
        Some(v) => XorRead {
            price: Ok(previous ^ ((v as u64) << trailing)),
            pos: pos + n,
            window,
        },
        None => XorRead { price: Err(Error::EndOfBits), pos: bits.len() as int, window },
    }
}

/// What reading the code of a price at `pos` gives, after the price `previous`
/// and with a window in force.
pub open spec fn xor_at(bits: Seq<bool>, pos: int, previous: u64, window: Window) -> XorRead {
    let cut = XorRead { price: Err(Error::EndOfBits), pos: bits.len() as int, window };
    if pos >= bits.len() {
        cut
    } else if !bits[pos] {
        XorRead { price: Ok(previous), pos: pos + 1, window }
    } else if pos + 1 >= bits.len() {
        cut
    } else if !bits[pos + 1] {
        match window {
            Some((l, t)) => changed_at(bits, pos + 2, previous, l, t),
            None => XorRead { price: Err(Error::MissingXorWindow), pos: pos + 2, window },
        }
    } else {
        match (take_bits(bits, pos + 2, 5), take_bits(bits, pos + 7, 6)) {
            (Some(l), Some(length)) => {
                let n: int = if length == 0 {
                    64
                } else {
                    length as int
                };
                if l + n > 64 {
                    XorRead { price: Err(Error::InvalidXorWindow), pos: pos + 13, window }
                } else {
                    changed_at(bits, pos + 13, previous, l as u8, (64 - l - n) as u8)
                }
            },
            _ => cut,
        }
    }
}

/// Reads the code of the price that follows the price `previous`.
pub fn read_xor(reader: &mut BitReader<'_>, previous: u64, window: &mut Option<(u8, u8)>) -> (r:
    Result<u64, Error>)
    requires
        old(reader).wf(),
        window_wf(*old(window)),
    ensures
        final(reader).wf(),
        final(reader).bits() == old(reader).bits(),
        window_wf(*final(window)),
        ({
            let read = xor_at(old(reader).bits(), old(reader).pos(), previous, *old(window));
            &&& r == read.price
            &&& final(reader).pos() == read.pos
            &&& *final(window) == read.window
        }),
{
    proof {
        reader.lemma_wf();
        lemma2_to64();
    }
    if !reader.read_bit()? {
        return Ok(previous);
    }
    let (leading, trailing) = if !reader.read_bit()? {
        match *window {
            Some((leading, trailing)) => (leading, trailing),
            None => {
                return Err(Error::MissingXorWindow);
            },
        }
    } else {
        let leading: u8 = reader.read_bits(5)? as u8;
        let encoded_length: u8 = reader.read_bits(6)? as u8;
        let meaningful: u8 = if encoded_length == 0 {
            64
        } else {
            encoded_length
        };
        if leading as u16 + meaningful as u16 > 64 {
            return Err(Error::InvalidXorWindow);
        }
        let trailing: u8 = 64 - leading - meaningful;
        *window = Some((leading, trailing));
        (leading, trailing)
    };
    let meaningful: u8 = 64 - leading - trailing;
    let xor: u64 = reader.read_bits(meaningful)? << trailing;
    Ok(previous ^ xor)
}

/// A difference is recovered from its bits inside any window that it fits.
pub proof fn lemma_window_keeps(x: u64, l: u8, t: u8)
    requires
        x != 0,
        leading(x) >= l,
        trailing(x) >= t,
    ensures
        l + t < 64,
        (x >> t) < pow2((64 - l - t) as nat),
        (x >> t) << t == x,
{
    lemma_zeros(x);
    let tz = u64_trailing_zeros(x) as u64;
    let below = (64 - tz) as u64;
    let lz = u64_leading_zeros(x) as u64;
    let above = (64 - lz) as u64;
    let t64 = t as u64;
    assert((x >> t64) << t64 == x) by (bit_vector)
        requires
            t64 <= tz < 64,
            below == 64 - tz,
            x << below == 0,
    ;
    lemma_u64_shr_is_div(x, t64);
    let rest = (64 - l - t) as nat;
    lemma_pow2_pos(t as nat);
    lemma_pow2_adds(t as nat, rest);
    lemma2_to64();
    lemma2_to64_rest();
    if l == 0 {
        assert(x < pow2(64));
    } else {
        let top = (64 - l) as u64;
        assert(x >> top == 0) by (bit_vector)
            requires
                above <= top < 64,
                x >> above == 0,
        ;
        lemma_u64_shr_is_div(x, top);
        lemma_pow2_pos(top as nat);
        let d = pow2(top as nat) as int;
        assert(x < d) by (nonlinear_arith)
            requires
                x as int / d == 0,
                d > 0,
                x >= 0,
        ;
    }
    lemma_multiply_divide_lt(x as int, pow2(t as nat) as int, pow2(rest) as int);
}

/// Changed bits that stand at `pos` are applied to the price before.
proof fn lemma_changed_at(
    bits: Seq<bool>,
    pos: int,
    previous: u64,
    current: u64,
    l: u8,
    t: u8,
)
    requires
        previous ^ current != 0,
        leading(previous ^ current) >= l,
        trailing(previous ^ current) >= t,
        0 <= pos,
        pos + 64 - l - t <= bits.len(),
        bits.subrange(pos, pos + 64 - l - t) == value_bits(
            ((previous ^ current) >> t) as nat,
            (64 - l - t) as nat,
        ),
    ensures
        changed_at(bits, pos, previous, l, t) == (XorRead {
            price: Ok(current),
            pos: pos + 64 - l - t,
            window: Some((l, t)),
        }),
{
    let x = previous ^ current;
    lemma_window_keeps(x, l, t);
    lemma_take_field(bits, pos, (x >> t) as nat, (64 - l - t) as nat);
    assert(previous ^ (previous ^ current) == current) by (bit_vector);
}

/// Reading a code that stays inside the window in force.
proof fn lemma_xor_same_window(
    bits: Seq<bool>,
    pos: int,
    previous: u64,
    current: u64,
    l: u8,
    t: u8,
    code: Seq<bool>,
)
    requires
        previous ^ current != 0,
        fits_window(previous ^ current, Some((l, t))),
        code == xor_bits(previous, current, Some((l, t))),
        0 <= pos,
        pos + code.len() <= bits.len(),
        bits.subrange(pos, pos + code.len()) == code,
    ensures
        xor_at(bits, pos, previous, Some((l, t))) == (XorRead {
            price: Ok(current),
            pos: pos + code.len(),
            window: Some((l, t)),
        }),
{
    let x = previous ^ current;
    let n = (64 - l - t) as nat;
    let v = (x >> t) as nat;
    lemma_zeros(x);
    lemma_value_bits_len(v, n);
    lemma_part_at(bits, pos, code, 2, 2 + n as int);
    assert(bits[pos + 0] == code[0] && bits[pos + 1] == code[1]);
    assert(code.subrange(2, 2 + n as int) =~= value_bits(v, n));
    lemma_changed_at(bits, pos + 2, previous, current, l, t);
}

/// The fields of a code that brings its own window.
proof fn lemma_window_fields(code: Seq<bool>, l: nat, m: nat, v: nat, n: nat)
    requires
        code == seq![true, true] + value_bits(l, 5) + value_bits(m, 6) + value_bits(v, n),
    ensures
        code.len() == 13 + n,
        code[0] && code[1],
        code.subrange(2, 7) == value_bits(l, 5),
        code.subrange(7, 13) == value_bits(m, 6),
        code.subrange(13, 13 + n as int) == value_bits(v, n),
{
    lemma_value_bits_len(l, 5);
    lemma_value_bits_len(m, 6);
    lemma_value_bits_len(v, n);
    assert(code.subrange(2, 7) =~= value_bits(l, 5));
    assert(code.subrange(7, 13) =~= value_bits(m, 6));
    assert(code.subrange(13, 13 + n as int) =~= value_bits(v, n));
}

/// Reading goes by the window that two ones announce.
proof fn lemma_read_window(
    bits: Seq<bool>,
    pos: int,
    previous: u64,
    window: Window,
    l: u8,
    n: nat,
)
    requires
        0 <= pos,
        pos + 13 <= bits.len(),
        bits[pos] && bits[pos + 1],
        0 < n <= 64,
        l + n <= 64,
        take_bits(bits, pos + 2, 5) == Some(l as nat),
        take_bits(bits, pos + 7, 6) == Some(n % 64),
    ensures
        xor_at(bits, pos, previous, window) == changed_at(
            bits,
            pos + 13,
            previous,
            l,
            (64 - l - n) as u8,
        ),
{
    assert(n % 64 == 0 ==> n == 64);
}

/// Reading a code that brings its own window.
proof fn lemma_xor_new_window(
    bits: Seq<bool>,
    pos: int,
    previous: u64,
    current: u64,
    window: Window,
    code: Seq<bool>,
)
    requires
        previous ^ current != 0,
        !fits_window(previous ^ current, window),
        code == xor_bits(previous, current, window),
        0 <= pos,
        pos + code.len() <= bits.len(),
        bits.subrange(pos, pos + code.len()) == code,
    ensures
        xor_at(bits, pos, previous, window) == (XorRead {
            price: Ok(current),
            pos: pos + code.len(),
            window: next_window(previous, current, window),
        }),
{
    let x = previous ^ current;
    lemma_zeros(x);
    let l = leading(x) as u8;
    let t = trailing(x) as u8;
    let n = (64 - l - t) as nat;
    let v = (x >> t) as nat;
    lemma2_to64();
    lemma_window_fields(code, l as nat, n % 64, v, n);
    lemma_part_at(bits, pos, code, 2, 7);
    assert(bits[pos + 0] == code[0] && bits[pos + 1] == code[1]);
    lemma_take_field(bits, pos + 2, l as nat, 5);
    lemma_part_at(bits, pos, code, 7, 13);
    lemma_take_field(bits, pos + 7, n % 64, 6);
    lemma_part_at(bits, pos, code, 13, 13 + n as int);
    lemma_read_window(bits, pos, previous, window, l, n);
    lemma_changed_at(bits, pos + 13, previous, current, l, t);
}

/// Where the code of a price stands, that price is read, the same window comes
/// into force, and nothing past the code is touched.
pub proof fn lemma_xor_round_trip(
    bits: Seq<bool>,
    pos: int,
    previous: u64,
    current: u64,
    window: Window,
)
    requires
        0 <= pos,
        pos + xor_bits(previous, current, window).len() <= bits.len(),
        bits.subrange(pos, pos + xor_bits(previous, current, window).len()) == xor_bits(
            previous,
            current,
            window,
        ),
    ensures
        xor_at(bits, pos, previous, window) == (XorRead {
            price: Ok(current),
            pos: pos + xor_bits(previous, current, window).len(),
            window: next_window(previous, current, window),
        }),
{
    let x = previous ^ current;
    let code = xor_bits(previous, current, window);
    if x == 0 {
        lemma_part_at(bits, pos, code, 0, 0);
        assert(bits[pos + 0] == code[0]);
        assert(previous == current) by (bit_vector)
            requires
                previous ^ current == 0,
        ;
    } else if fits_window(x, window) {
        let (l, t) = window->0;
        lemma_xor_same_window(bits, pos, previous, current, l, t, code);
    } else {
        lemma_xor_new_window(bits, pos, previous, current, window, code);
    }
}

/// A price code is short, and the window it leaves in force is usable.
pub proof fn lemma_xor_len(previous: u64, current: u64, window: Window)
    requires
        window_wf(window),
    ensures
        1 <= xor_bits(previous, current, window).len() <= 77,
        window_wf(next_window(previous, current, window)),
{
    let x = previous ^ current;
    if x != 0 {
        lemma_zeros(x);
        if fits_window(x, window) {
            let (l, t) = window->0;
            lemma_value_bits_len((x >> t) as nat, (64 - l - t) as nat);
        } else {
            let n = (64 - leading(x) - trailing(x)) as nat;
            lemma_value_bits_len(leading(x) as nat, 5);
            lemma_value_bits_len(n % 64, 6);
            lemma_value_bits_len((x >> trailing(x) as u8) as nat, n);
        }
    }
}

} // verus!
