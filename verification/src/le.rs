//! Little-endian integers inside byte sequences.
use vstd::arithmetic::div_mod::lemma_div_denominator;
use vstd::arithmetic::power::{lemma_pow_positive, pow};
use vstd::prelude::*;

verus! {

/// The number that a byte sequence denotes, least significant byte first.
pub open spec fn le_value(s: Seq<u8>) -> nat
    decreases s.len(),
{
    if s.len() == 0 {
        0
    } else {
        s[0] as nat + 256 * le_value(s.drop_first())
    }
}

/// The `n` low-order bytes of `v`, least significant byte first.
pub open spec fn le_bytes(v: nat, n: nat) -> Seq<u8>
    decreases n,
{
    if n == 0 {
        Seq::empty()
    } else {
        seq![(v % 256) as u8] + le_bytes(v / 256, (n - 1) as nat)
    }
}

/// How many different values `n` bytes can hold.
pub open spec fn byte_bound(n: nat) -> nat
    decreases n,
{
    if n == 0 {
        1
    } else {
        256 * byte_bound((n - 1) as nat)
    }
}

pub proof fn lemma_byte_bounds()
    ensures
        byte_bound(4) == 0x1_0000_0000,
        byte_bound(8) == 0x1_0000_0000_0000_0000,
{
    reveal_with_fuel(byte_bound, 9);
}

pub proof fn lemma_le_bytes_len(v: nat, n: nat)
    ensures
        le_bytes(v, n).len() == n,
    decreases n,
{
    if n > 0 {
        lemma_le_bytes_len(v / 256, (n - 1) as nat);
    }
}

pub proof fn lemma_le_value_bound(s: Seq<u8>)
    ensures
        le_value(s) < byte_bound(s.len()),
    decreases s.len(),
{
    if s.len() > 0 {
        lemma_le_value_bound(s.drop_first());
    }
}

/// Reading back what was written gives the number that was written.
pub proof fn lemma_value_of_bytes(v: nat, n: nat)
    requires
        v < byte_bound(n),
    ensures
        le_value(le_bytes(v, n)) == v,
    decreases n,
{
    if n > 0 {
        let rest = le_bytes(v / 256, (n - 1) as nat);
        lemma_value_of_bytes(v / 256, (n - 1) as nat);
        assert(le_bytes(v, n).drop_first() =~= rest);
    }
}

/// Writing back what was read gives the bytes that were read.
pub proof fn lemma_bytes_of_value(s: Seq<u8>)
    ensures
        le_bytes(le_value(s), s.len()) == s,
    decreases s.len(),
{
    if s.len() > 0 {
        let rest = s.drop_first();
        lemma_bytes_of_value(rest);
        let v = le_value(s);
        assert(v % 256 == s[0] as nat && v / 256 == le_value(rest));
        assert(seq![s[0]] + rest =~= s);
    }
}

/// Writes the `n` low-order bytes of `v` into `buf`, starting at `at`.
pub fn put_le<const N: usize>(buf: &mut [u8; N], at: usize, v: u64, n: usize)
    requires
        at + n <= N,
    ensures
        final(buf)@ == old(buf)@.subrange(0, at as int) + le_bytes(v as nat, n as nat)
            + old(buf)@.subrange(at + n, N as int),
{
    let ghost before = buf@;
    let mut rest: u64 = v;
    let mut i: usize = 0;
    proof {
        lemma_le_bytes_len(v as nat, n as nat);
    }
    while i < n
        invariant
            i <= n,
            at + n <= N,
            before.len() == N,
            le_bytes(rest as nat, (n - i) as nat).len() == n - i,
            le_bytes(v as nat, n as nat).len() == n,
            buf@.subrange(at as int, at + i) + le_bytes(rest as nat, (n - i) as nat) == le_bytes(
                v as nat,
                n as nat,
            ),
            buf@.subrange(0, at as int) == before.subrange(0, at as int),
            buf@.subrange(at + n, N as int) == before.subrange(at + n, N as int),
        decreases n - i,
    {
        let ghost step = buf@;
        buf[at + i] = (rest % 256) as u8;
        proof {
            let tail = le_bytes((rest / 256) as nat, (n - i - 1) as nat);
            lemma_le_bytes_len((rest / 256) as nat, (n - i - 1) as nat);
            assert(le_bytes(rest as nat, (n - i) as nat) == seq![(rest % 256) as u8] + tail);
            assert(buf@.subrange(at as int, at + i + 1) =~= step.subrange(at as int, at + i)
                + seq![(rest % 256) as u8]);
            assert(buf@.subrange(at as int, at + i + 1) + tail =~= step.subrange(at as int, at + i)
                + (seq![(rest % 256) as u8] + tail));
        }
        rest = rest / 256;
        i += 1;
    }
    proof {
        assert(buf@ =~= buf@.subrange(0, at as int) + buf@.subrange(at as int, at + n)
            + buf@.subrange(at + n, N as int));
        assert(le_bytes(rest as nat, 0) =~= Seq::<u8>::empty());
        assert(buf@.subrange(at as int, at + n) =~= le_bytes(v as nat, n as nat));
    }
}

/// Reads the `n` bytes of `s` from `at` on as one number.
pub fn get_le(s: &[u8], at: usize, n: usize) -> (v: u64)
    requires
        n <= 8,
        at + n <= s.len(),
    ensures
        v as nat == le_value(s@.subrange(at as int, at + n)),
        v < byte_bound(n as nat),
{
    let mut v: u64 = 0;
    let mut i: usize = n;
    while i > 0
        invariant
            i <= n <= 8,
            at + n <= s.len(),
            v as nat == le_value(s@.subrange(at + i, at + n)),
        decreases i,
    {
        proof {
            let wider = s@.subrange(at + i - 1, at + n);
            assert(wider.drop_first() =~= s@.subrange(at + i, at + n));
            lemma_le_value_bound(wider);
            assert(byte_bound(wider.len()) <= byte_bound(8)) by {
                reveal_with_fuel(byte_bound, 9);
            }
            lemma_byte_bounds();
        }
        i -= 1;
        v = v * 256 + s[at + i] as u64;
    }
    proof {
        lemma_le_value_bound(s@.subrange(at as int, at + n));
    }
    v
}

/// Byte number `i` of a written number is its digit number `i` to the base 256.
pub proof fn law_bytes_are_digits(v: nat, n: nat, i: int)
    requires
        0 <= i < n,
    ensures
        le_bytes(v, n).len() == n,
        le_bytes(v, n)[i] as int == v as int / pow(256, i as nat) % 256,
    decreases n,
{
    reveal(pow);
    lemma_le_bytes_len(v, n);
    if i > 0 {
        let k = (i - 1) as nat;
        law_bytes_are_digits(v / 256, (n - 1) as nat, i - 1);
        lemma_pow_positive(256, k);
        lemma_div_denominator(v as int, 256, pow(256, k));
        assert(pow(256, i as nat) == 256 * pow(256, k));
        assert(le_bytes(v, n)[i] == le_bytes(v / 256, (n - 1) as nat)[i - 1]);
    } else {
        assert(pow(256, 0) == 1);
    }
}

/// A number that is read is the sum of its bytes, each times its place.
pub proof fn law_value_is_the_sum_of_digits(s: Seq<u8>)
    requires
        s.len() > 0,
    ensures
        le_value(s) == le_value(s.drop_last()) + s.last() * pow(256, (s.len() - 1) as nat),
        s.len() == 1 ==> le_value(s) == s[0],
    decreases s.len(),
{
    reveal(pow);
    let rest = s.drop_first();
    if s.len() > 1 {
        law_value_is_the_sum_of_digits(rest);
        let front = s.drop_last();
        assert(front.drop_first() =~= rest.drop_last());
        assert(front[0] == s[0]);
        let p = pow(256, (rest.len() - 1) as nat);
        assert(pow(256, (s.len() - 1) as nat) == 256 * p);
        assert(256 * (s.last() * p) == s.last() * (256 * p)) by (nonlinear_arith);
    } else {
        assert(pow(256, 0) == 1);
        assert(le_value(rest) == 0);
        assert(le_value(s.drop_last()) == 0);
    }
}

} // verus!
