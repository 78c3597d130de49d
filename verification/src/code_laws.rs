//! What the codes of ticks look like, bit by bit.
use vstd::arithmetic::power2::{lemma2_to64, lemma2_to64_rest, pow2};
use vstd::prelude::*;
use vstd::std_specs::bits::{
    axiom_u64_leading_zeros, axiom_u64_trailing_zeros, u64_leading_zeros, u64_trailing_zeros,
};

use crate::bits::{bits_value, lemma_value_bits_len, lemma_value_of_bits, value_bits};
use crate::error::Error;
use crate::gorilla::{
    dod_at, dod_bits, fits_window, leading, lemma_window_keeps, lemma_zeros, low_word, magnitude,
    next_window, trailing, xor_at, xor_bits, Window,
};

verus! {

/// The code of a change of the time step: a few bits that tell how large it is, and then
/// the change, moved up so that it is not negative. No change takes one bit; large
/// changes take 32 bits in two's complement; and the largest take a mark that no other
/// change has, a sign and a magnitude.
pub proof fn law_codes_of_steps(v: int)
    requires
        -0x1_0000_0000_0000_0000 < v < 0x1_0000_0000_0000_0000,
    ensures
        ({
            let code = dod_bits(v);
            let n = code.len() as int;
            &&& v == 0 ==> n == 1 && bits_value(code) == 0
            &&& v != 0 && -63 <= v <= 64 ==> n == 9 && bits_value(code.take(2)) == 0b10
                && bits_value(code.skip(2)) == v + 63
            &&& (-255 <= v <= -64 || 65 <= v <= 256) ==> n == 12 && bits_value(code.take(3))
                == 0b110 && bits_value(code.skip(3)) == v + 255
            &&& (-2047 <= v <= -256 || 257 <= v <= 2048) ==> n == 16 && bits_value(code.take(4))
                == 0b1110 && bits_value(code.skip(4)) == v + 2047
            &&& 2049 <= v < 0x8000_0000 ==> n == 36 && bits_value(code.take(4)) == 0b1111
                && bits_value(code.skip(4)) == v
            &&& -0x8000_0000 < v <= -2048 ==> n == 36 && bits_value(code.take(4)) == 0b1111
                && bits_value(code.skip(4)) == v + 0x1_0000_0000
            &&& v >= 0x8000_0000 || v <= -0x8000_0000 ==> {
                &&& n == 101
                &&& bits_value(code.take(4)) == 0b1111
                &&& bits_value(code.subrange(4, 36)) == 0x8000_0000
                &&& code[36] == (v < 0)
                &&& bits_value(code.skip(37)) == (if v < 0 {
                    -v
                } else {
                    v
                })
            }
        }),
{
    lemma2_to64();
    lemma2_to64_rest();
    let code = dod_bits(v);
    if v == 0 {
        reveal_with_fuel(bits_value, 2);
        assert(seq![false].drop_last() =~= Seq::<bool>::empty());
    } else if -63 <= v <= 64 {
        lemma_two_fields(0b10, 2, (v + 63) as nat, 7);
    } else if -255 <= v <= 256 {
        lemma_two_fields(0b110, 3, (v + 255) as nat, 9);
    } else if -2047 <= v <= 2048 {
        lemma_two_fields(0b1110, 4, (v + 2047) as nat, 12);
    } else if -0x8000_0000 < v < 0x8000_0000 {
        lemma_two_fields(0b1111, 4, low_word(v), 32);
    } else {
        let mark = value_bits(0b1111, 4);
        let word = value_bits(0x8000_0000, 32);
        let size = value_bits(magnitude(v), 64);
        lemma_value_bits_len(0b1111, 4);
        lemma_value_bits_len(0x8000_0000, 32);
        lemma_value_bits_len(magnitude(v), 64);
        lemma_value_of_bits(0b1111, 4);
        lemma_value_of_bits(0x8000_0000, 32);
        lemma_value_of_bits(magnitude(v), 64);
        assert(code.take(4) =~= mark);
        assert(code.subrange(4, 36) =~= word);
        assert(code.skip(37) =~= size);
    }
}

proof fn lemma_two_fields(a: nat, m: nat, b: nat, n: nat)
    requires
        a < pow2(m),
        b < pow2(n),
    ensures
        ({
            let code = value_bits(a, m) + value_bits(b, n);
            &&& code.len() == m + n
            &&& bits_value(code.take(m as int)) == a
            &&& bits_value(code.skip(m as int)) == b
        }),
{
    let code = value_bits(a, m) + value_bits(b, n);
    lemma_value_bits_len(a, m);
    lemma_value_bits_len(b, n);
    lemma_value_of_bits(a, m);
    lemma_value_of_bits(b, n);
    assert(code.take(m as int) =~= value_bits(a, m));
    assert(code.skip(m as int) =~= value_bits(b, n));
}

/// What is read of a change of the time step, for any bits: a prefix tells how many bits
/// follow, and these denote the change. If they are not all there, nothing is read.
pub proof fn law_steps_are_read_by_prefix(bits: Seq<bool>, pos: int)
    requires
        0 <= pos < bits.len(),
    ensures
        ({
            let left = bits.len() - pos;
            let r = dod_at(bits, pos);
            &&& !bits[pos] ==> r == Some((0int, pos + 1))
            &&& bits[pos] && left == 1 ==> r is None
            &&& left >= 2 && bits[pos] && !bits[pos + 1] ==> r == (if left >= 9 {
                Some((bits_value(bits.subrange(pos + 2, pos + 9)) - 63, pos + 9))
            } else {
                None
            })
            &&& left == 2 && bits[pos] && bits[pos + 1] ==> r is None
            &&& left >= 3 && bits[pos] && bits[pos + 1] && !bits[pos + 2] ==> r == (if left >= 12 {
                Some((bits_value(bits.subrange(pos + 3, pos + 12)) - 255, pos + 12))
            } else {
                None
            })
            &&& left == 3 && bits[pos] && bits[pos + 1] && bits[pos + 2] ==> r is None
            &&& left >= 4 && bits[pos] && bits[pos + 1] && bits[pos + 2] && !bits[pos + 3] ==> r
                == (if left >= 16 {
                Some((bits_value(bits.subrange(pos + 4, pos + 16)) - 2047, pos + 16))
            } else {
                None
            })
            &&& left >= 4 && bits[pos] && bits[pos + 1] && bits[pos + 2] && bits[pos + 3] ==> {
                let word = bits_value(bits.subrange(pos + 4, pos + 36)) as int;
                &&& left < 36 ==> r is None
                &&& left >= 36 && word < 0x8000_0000 ==> r == Some((word, pos + 36))
                &&& left >= 36 && word > 0x8000_0000 ==> r == Some((word - 0x1_0000_0000, pos + 36))
                &&& 36 <= left < 101 && word == 0x8000_0000 ==> r is None
                &&& left >= 101 && word == 0x8000_0000 ==> {
                    let size = bits_value(bits.subrange(pos + 37, pos + 101)) as int;
                    r == Some((if bits[pos + 36] {
                        -size
                    } else {
                        size
                    }, pos + 101))
                }
            }
        }),
{
}

/// A difference fits a window just if it has no bit set above it and none below it.
pub proof fn law_windows_hold_all_set_bits(x: u64, l: u8, t: u8)
    requires
        x != 0,
        l <= 31,
        t <= 63,
    ensures
        fits_window(x, Some((l, t))) <==> (l == 0 || x >> ((64 - l) as u64) == 0) && (x >> (
        t as u64)) << (t as u64) == x,
{
    lemma_zeros(x);
    axiom_u64_leading_zeros(x);
    axiom_u64_trailing_zeros(x);
    let lz = u64_leading_zeros(x) as u64;
    let tz = u64_trailing_zeros(x) as u64;
    let top = (64 - l) as u64;
    let above = (64 - lz) as u64;
    let first = (63 - lz) as u64;
    let t64 = t as u64;
    let below = (64 - tz) as u64;
    if lz >= l && l > 0 {
        assert(x >> top == 0) by (bit_vector)
            requires
                above <= top < 64,
                x >> above == 0,
        ;
    }
    if lz < l {
        assert(x >> top != 0) by (bit_vector)
            requires
                top <= first < 64,
                (x >> first) & 1u64 != 0u64,
        ;
    }
    if tz >= t {
        assert((x >> t64) << t64 == x) by (bit_vector)
            requires
                t64 <= tz < 64,
                below == 64 - tz,
                x << below == 0,
        ;
    } else {
        assert((x >> t64) << t64 != x) by (bit_vector)
            requires
                tz < t64 < 64,
                (x >> tz) & 1u64 == 1u64,
        ;
    }
}

/// The code of a price. One bit says that it is the price before. Two bits say that the
/// difference fits the window in force, and the bits of the window follow: moved up to
/// where the window ends, they are the difference. Otherwise two bits announce a window
/// of its own: five bits tell how many zeros are above it, six how wide it is, and then
/// come its bits. It has no zero at the lower end, and none at the upper end unless
/// thirty-one zeros are above it already.
pub proof fn law_codes_of_prices(previous: u64, current: u64, window: Window)
    ensures
        ({
            let x = previous ^ current;
            let code = xor_bits(previous, current, window);
            let next = next_window(previous, current, window);
            &&& previous == current ==> code == seq![false] && next == window
            &&& previous != current && fits_window(x, window) ==> {
                let (l, t) = window->0;
                &&& l + t < 64
                &&& code.len() == 2 + (64 - l - t)
                &&& code[0] && !code[1]
                &&& (bits_value(code.skip(2)) as u64) << (t as u64) == x
                &&& next == window
            }
            &&& previous != current && !fits_window(x, window) ==> {
                let l = bits_value(code.subrange(2, 7));
                let field = bits_value(code.subrange(7, 13));
                let n = if field == 0 {
                    64
                } else {
                    field as int
                };
                let t = 64 - l - n;
                &&& code[0] && code[1]
                &&& code.len() == 13 + n
                &&& 0 <= t < 64 && l <= 31
                &&& (bits_value(code.skip(13)) as u64) << (t as u64) == x
                &&& next == Some((l as u8, t as u8))
                &&& (x >> (t as u64)) & 1u64 == 1u64
                &&& l == 31 || (x >> ((63 - l) as u64)) & 1u64 != 0u64
            }
        }),
{
    let x = previous ^ current;
    let code = xor_bits(previous, current, window);
    assert(x == 0 <==> previous == current) by (bit_vector)
        requires
            x == previous ^ current,
    ;
    if previous != current {
        if fits_window(x, window) {
            let (l, t) = window->0;
            let n = (64 - l - t) as nat;
            lemma_window_keeps(x, l, t);
            lemma_value_bits_len((x >> t) as nat, n);
            lemma_value_of_bits((x >> t) as nat, n);
            assert(code.skip(2) =~= value_bits((x >> t) as nat, n));
        } else {
            lemma_new_window_code(x, code);
            lemma_zeros(x);
            axiom_u64_leading_zeros(x);
            axiom_u64_trailing_zeros(x);
        }
    }
}

proof fn lemma_new_window_code(x: u64, code: Seq<bool>)
    requires
        x != 0,
        code == ({
            let n = (64 - leading(x) - trailing(x)) as nat;
            seq![true, true] + value_bits(leading(x) as nat, 5) + value_bits(n % 64, 6)
                + value_bits((x >> trailing(x) as u8) as nat, n)
        }),
    ensures
        ({
            let n = 64 - leading(x) - trailing(x);
            &&& 0 <= leading(x) <= 31
            &&& 0 <= trailing(x) < 64
            &&& 0 < n <= 64
            &&& code[0] && code[1]
            &&& code.len() == 13 + n
            &&& bits_value(code.subrange(2, 7)) == leading(x)
            &&& bits_value(code.subrange(7, 13)) == n % 64
            &&& (bits_value(code.skip(13)) as u64) << (trailing(x) as u64) == x
        }),
{
    lemma_zeros(x);
    lemma2_to64();
    let l = leading(x) as nat;
    let t = trailing(x) as u8;
    let n = (64 - leading(x) - trailing(x)) as nat;
    lemma_window_keeps(x, l as u8, t);
    lemma_value_bits_len(l, 5);
    lemma_value_bits_len(n % 64, 6);
    lemma_value_bits_len((x >> t) as nat, n);
    lemma_value_of_bits(l, 5);
    lemma_value_of_bits(n % 64, 6);
    lemma_value_of_bits((x >> t) as nat, n);
    assert(code.subrange(2, 7) =~= value_bits(l, 5));
    assert(code.subrange(7, 13) =~= value_bits(n % 64, 6));
    assert(code.skip(13) =~= value_bits((x >> t) as nat, n));
}

/// What is read of a price, for any bits. A zero repeats the price before. A one and a
/// zero take as many bits as the window in force has, and are refused if there is none.
/// Two ones announce a window, which is refused if it does not fit a word. The bits of a
/// window change those of the price before that they stand for, and no others.
pub proof fn law_prices_are_read_by_prefix(
    bits: Seq<bool>,
    pos: int,
    previous: u64,
    window: Window,
)
    requires
        0 <= pos < bits.len(),
    ensures
        ({
            let left = bits.len() - pos;
            let r = xor_at(bits, pos, previous, window);
            &&& !bits[pos] ==> r.price == Ok::<u64, Error>(previous) && r.pos == pos + 1 && r.window
                == window
            &&& bits[pos] && left == 1 ==> r.price == Err::<u64, Error>(Error::EndOfBits)
            &&& bits[pos] && left >= 2 && !bits[pos + 1] ==> match window {
                None => r.price == Err::<u64, Error>(Error::MissingXorWindow),
                Some((l, t)) => {
                    let n = 64 - l - t;
                    &&& left < 2 + n ==> r.price == Err::<u64, Error>(Error::EndOfBits)
                    &&& left >= 2 + n ==> r.window == window && r.pos == pos + 2 + n && r.price
                        == Ok::<u64, Error>(
                        previous ^ ((bits_value(bits.subrange(pos + 2, pos + 2 + n)) as u64) << t),
                    )
                },
            }
            &&& bits[pos] && left >= 2 && bits[pos + 1] && left < 13 ==> r.price == Err::<
                u64,
                Error,
            >(Error::EndOfBits)
            &&& bits[pos] && left >= 13 && bits[pos + 1] ==> {
                let l = bits_value(bits.subrange(pos + 2, pos + 7));
                let field = bits_value(bits.subrange(pos + 7, pos + 13));
                let n = if field == 0 {
                    64
                } else {
                    field as int
                };
                let t = (64 - l - n) as u8;
                &&& l + n > 64 ==> r.price == Err::<u64, Error>(Error::InvalidXorWindow)
                &&& l + n <= 64 && left >= 13 + n ==> {
                    &&& r.window == Some((l as u8, t))
                    &&& r.pos == pos + 13 + n
                    &&& r.price == Ok::<u64, Error>(
                        previous ^ ((bits_value(bits.subrange(pos + 13, pos + 13 + n)) as u64)
                            << t),
                    )
                }
                &&& l + n <= 64 && left < 13 + n ==> r.price == Err::<u64, Error>(Error::EndOfBits)
            }
        }),
{
    lemma2_to64();
    if pos + 13 <= bits.len() {
        crate::bits::lemma_bits_value_bound(bits.subrange(pos + 2, pos + 7));
        crate::bits::lemma_bits_value_bound(bits.subrange(pos + 7, pos + 13));
    }
}

} // verus!
