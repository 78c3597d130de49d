//! Records and constants that the store, its wire protocol and its clients share.
use vstd::prelude::*;
use vstd::std_specs::cmp::PartialEqSpecImpl;
use vstd::utf8::{decode_utf8, encode_utf8, valid_utf8};

use crate::le::{
    get_le, le_bytes, le_value, lemma_byte_bounds, lemma_bytes_of_value, lemma_le_bytes_len,
    lemma_le_value_bound, lemma_value_of_bytes, put_le,
};
use crate::price::{price_eq, same};
use crate::text::{ascii_text, from_utf8_lossy, lemma_ascii, utf8_lossy};

verus! {

pub const PROTOCOL_VERSION: u8 = 0x01;

/// The size of a raw tick: a timestamp and a price, eight bytes each.
pub const TICK_SIZE: usize = 16;

/// The size of a metrics reply: twelve fields of eight bytes.
pub const METRICS_SIZE: usize = 96;

/// How many ticks a feed sends at once.
pub const BATCH_SIZE: usize = 10_000;

/// How many ticks the server takes at once.
pub const MAX_BATCH_SIZE: usize = 100_000;

/// A price at a time. The price is kept as the bit pattern of an IEEE 754 double,
/// so that every pattern, NaN payloads and signed zeros included, is a price.
#[derive(Debug, Clone, Copy)]
pub struct Tick {
    /// Microseconds since the epoch.
    pub timestamp: u64,
    pub price_bits: u64,
}

/// Ticks compare by time and by the value of the price.
impl PartialEq for Tick {
    fn eq(&self, other: &Self) -> (r: bool) {
        self.timestamp == other.timestamp && same(self.price_bits, other.price_bits)
    }
}

impl PartialEqSpecImpl for Tick {
    open spec fn obeys_eq_spec() -> bool {
        true
    }

    open spec fn eq_spec(&self, other: &Self) -> bool {
        self.timestamp == other.timestamp && price_eq(self.price_bits, other.price_bits)
    }
}

/// How many prices a metrics snapshot keeps for a small chart.
pub const SPARKLINE_SIZE: usize = 50;

/// The statistics of the ticks that a query selects. Every field but the counts is
/// the bit pattern of an IEEE 754 double.
#[derive(Debug, Clone, Copy)]
pub struct QueryMetrics {
    pub count: u64,
    pub open: u64,
    pub high: u64,
    pub low: u64,
    pub close: u64,
    pub mean: u64,
    pub variance: u64,
    pub std_dev: u64,
    pub z_score: u64,
    pub upper_bollinger: u64,
    pub lower_bollinger: u64,
    pub max_drawdown: u64,
    /// The last prices, oldest first. They are not part of the wire format.
    pub sparkline: [u64; SPARKLINE_SIZE],
    /// How many prices `sparkline` holds.
    pub sparkline_len: usize,
}

/// The fields of a snapshot that go over the wire, in their order there.
pub open spec fn wire_fields(m: QueryMetrics) -> Seq<u64> {
    seq![
        m.count,
        m.open,
        m.high,
        m.low,
        m.close,
        m.mean,
        m.variance,
        m.std_dev,
        m.z_score,
        m.upper_bollinger,
        m.lower_bollinger,
        m.max_drawdown,
    ]
}

/// Snapshots compare by their counts and by the values of their prices, those of the
/// small chart included.
impl PartialEq for QueryMetrics {
    fn eq(&self, other: &Self) -> (r: bool) {
        let mut line: bool = true;
        let mut i: usize = 0;
        while i < SPARKLINE_SIZE
            invariant
                i <= SPARKLINE_SIZE,
                line == (forall|k: int|
                    0 <= k < i ==> price_eq(#[trigger] self.sparkline@[k], other.sparkline@[k])),
            decreases SPARKLINE_SIZE - i,
        {
            if !same(self.sparkline[i], other.sparkline[i]) {
                line = false;
            }
            i += 1;
        }
        self.count == other.count && same(self.open, other.open) && same(self.high, other.high)
            && same(self.low, other.low) && same(self.close, other.close) && same(
            self.mean,
            other.mean,
        ) && same(self.variance, other.variance) && same(self.std_dev, other.std_dev) && same(
            self.z_score,
            other.z_score,
        ) && same(self.upper_bollinger, other.upper_bollinger) && same(
            self.lower_bollinger,
            other.lower_bollinger,
        ) && same(self.max_drawdown, other.max_drawdown) && line && self.sparkline_len
            == other.sparkline_len
    }
}

impl PartialEqSpecImpl for QueryMetrics {
    open spec fn obeys_eq_spec() -> bool {
        true
    }

    open spec fn eq_spec(&self, other: &Self) -> bool {
        &&& self.count == other.count
        &&& price_eq(self.open, other.open)
        &&& price_eq(self.high, other.high)
        &&& price_eq(self.low, other.low)
        &&& price_eq(self.close, other.close)
        &&& price_eq(self.mean, other.mean)
        &&& price_eq(self.variance, other.variance)
        &&& price_eq(self.std_dev, other.std_dev)
        &&& price_eq(self.z_score, other.z_score)
        &&& price_eq(self.upper_bollinger, other.upper_bollinger)
        &&& price_eq(self.lower_bollinger, other.lower_bollinger)
        &&& price_eq(self.max_drawdown, other.max_drawdown)
        &&& forall|k: int|
            0 <= k < SPARKLINE_SIZE ==> price_eq(
                #[trigger] self.sparkline@[k],
                other.sparkline@[k],
            )
        &&& self.sparkline_len == other.sparkline_len
    }
}

/// Numbers one after the other, eight little-endian bytes each.
pub open spec fn words_bytes(words: Seq<u64>) -> Seq<u8>
    decreases words.len(),
{
    if words.len() == 0 {
        Seq::empty()
    } else {
        words_bytes(words.drop_last()) + le_bytes(words.last() as nat, 8)
    }
}

/// Number `i` among numbers that stand one after the other.
pub open spec fn word_at(s: Seq<u8>, i: int) -> u64 {
    le_value(s.subrange(8 * i, 8 * i + 8)) as u64
}

proof fn lemma_words_bytes(words: Seq<u64>)
    ensures
        words_bytes(words).len() == 8 * words.len(),
        forall|i: int| 0 <= i < words.len() ==> #[trigger] word_at(words_bytes(words), i) == words[i],
    decreases words.len(),
{
    if words.len() > 0 {
        let shorter = words.drop_last();
        lemma_words_bytes(shorter);
        lemma_le_bytes_len(words.last() as nat, 8);
        let s = words_bytes(words);
        assert forall|i: int| 0 <= i < words.len() implies #[trigger] word_at(s, i) == words[i] by {
            if i < shorter.len() {
                assert(s.subrange(8 * i, 8 * i + 8) =~= words_bytes(shorter).subrange(
                    8 * i,
                    8 * i + 8,
                ));
                assert(word_at(words_bytes(shorter), i) == shorter[i]);
            } else {
                assert(s.subrange(8 * i, 8 * i + 8) =~= le_bytes(words.last() as nat, 8));
                lemma_byte_bounds();
                lemma_value_of_bytes(words.last() as nat, 8);
            }
        }
    }
}

/// Nothing is selected: all counts and all prices are zero.
pub open spec fn is_empty_metrics(m: QueryMetrics) -> bool {
    &&& wire_fields(m) == Seq::new(12, |i: int| 0u64)
    &&& m.sparkline@ == Seq::new(SPARKLINE_SIZE as nat, |i: int| 0u64)
    &&& m.sparkline_len == 0
}

impl QueryMetrics {
    /// The snapshot of no ticks.
    pub fn empty() -> (m: Self)
        ensures
            is_empty_metrics(m),
            m.count == 0,
            m.sparkline_len == 0,
            forall|i: int| 0 <= i < 12 ==> #[trigger] wire_fields(m)[i] == 0,
            forall|i: int| 0 <= i < 50 ==> #[trigger] m.sparkline@[i] == 0,
    {
        let m = QueryMetrics {
            count: 0,
            open: 0,
            high: 0,
            low: 0,
            close: 0,
            mean: 0,
            variance: 0,
            std_dev: 0,
            z_score: 0,
            upper_bollinger: 0,
            lower_bollinger: 0,
            max_drawdown: 0,
            sparkline: [0u64; SPARKLINE_SIZE],
            sparkline_len: 0,
        };
        assert(wire_fields(m) =~= Seq::new(12, |i: int| 0u64));
        assert(m.sparkline@ =~= Seq::new(SPARKLINE_SIZE as nat, |i: int| 0u64));
        m
    }

    /// The wire format of a snapshot.
    pub fn to_bytes(&self) -> (r: [u8; METRICS_SIZE])
        ensures
            r@ == words_bytes(wire_fields(*self)),
            word_at(r@, 0) == self.count,
            word_at(r@, 1) == self.open,
            word_at(r@, 2) == self.high,
            word_at(r@, 3) == self.low,
            word_at(r@, 4) == self.close,
            word_at(r@, 5) == self.mean,
            word_at(r@, 6) == self.variance,
            word_at(r@, 7) == self.std_dev,
            word_at(r@, 8) == self.z_score,
            word_at(r@, 9) == self.upper_bollinger,
            word_at(r@, 10) == self.lower_bollinger,
            word_at(r@, 11) == self.max_drawdown,
    {
        let words = [
            self.count,
            self.open,
            self.high,
            self.low,
            self.close,
            self.mean,
            self.variance,
            self.std_dev,
            self.z_score,
            self.upper_bollinger,
            self.lower_bollinger,
            self.max_drawdown,
        ];
        let ghost fields = wire_fields(*self);
        assert(words@ =~= fields);
        let mut buf = [0u8; METRICS_SIZE];
        let mut i: usize = 0;
        assert(words_bytes(fields.take(0)) =~= buf@.take(0));
        while i < 12
            invariant
                i <= 12,
                words@ == fields,
                fields.len() == 12,
                words_bytes(fields.take(i as int)).len() == 8 * i,
                buf@.take(8 * i as int) == words_bytes(fields.take(i as int)),
            decreases 12 - i,
        {
            let ghost before = buf@;
            put_le(&mut buf, 8 * i, words[i], 8);
            proof {
                lemma_le_bytes_len(fields[i as int] as nat, 8);
                assert(fields.take(i + 1).drop_last() =~= fields.take(i as int));
                assert(before.subrange(0, 8 * i as int) =~= before.take(8 * i as int));
                assert(buf@.take(8 * (i + 1)) =~= words_bytes(fields.take(i + 1)));
            }
            i += 1;
        }
        assert(fields.take(12) =~= fields);
        assert(buf@.take(96) =~= buf@);
        proof {
            lemma_words_bytes(fields);
            law_fields_have_their_place(*self);
        }
        buf
    }

    /// The snapshot that a reply carries; it brings no prices for a chart.
    pub fn from_bytes(buf: &[u8; METRICS_SIZE]) -> (m: Self)
        ensures
            wire_fields(m) == Seq::new(12, |i: int| word_at(buf@, i)),
            m.count == word_at(buf@, 0),
            m.open == word_at(buf@, 1),
            m.high == word_at(buf@, 2),
            m.low == word_at(buf@, 3),
            m.close == word_at(buf@, 4),
            m.mean == word_at(buf@, 5),
            m.variance == word_at(buf@, 6),
            m.std_dev == word_at(buf@, 7),
            m.z_score == word_at(buf@, 8),
            m.upper_bollinger == word_at(buf@, 9),
            m.lower_bollinger == word_at(buf@, 10),
            m.max_drawdown == word_at(buf@, 11),
            m.sparkline@ == Seq::new(SPARKLINE_SIZE as nat, |i: int| 0u64),
            m.sparkline_len == 0,
    {
        proof {
            lemma_byte_bounds();
        }
        let s = buf.as_slice();
        let m = QueryMetrics {
            count: get_le(s, 0, 8),
            open: get_le(s, 8, 8),
            high: get_le(s, 16, 8),
            low: get_le(s, 24, 8),
            close: get_le(s, 32, 8),
            mean: get_le(s, 40, 8),
            variance: get_le(s, 48, 8),
            std_dev: get_le(s, 56, 8),
            z_score: get_le(s, 64, 8),
            upper_bollinger: get_le(s, 72, 8),
            lower_bollinger: get_le(s, 80, 8),
            max_drawdown: get_le(s, 88, 8),
            sparkline: [0u64; SPARKLINE_SIZE],
            sparkline_len: 0,
        };
        assert(wire_fields(m) =~= Seq::new(12, |i: int| word_at(buf@, i)));
        assert(m.sparkline@ =~= Seq::new(SPARKLINE_SIZE as nat, |i: int| 0u64));
        m
    }
}

/// Every field that goes over the wire arrives as it was sent, and a reply that was
/// read and is sent on has the bytes it came with.
pub proof fn law_metrics_round_trip(m: QueryMetrics, reply: Seq<u8>)
    requires
        reply.len() == METRICS_SIZE,
    ensures
        words_bytes(wire_fields(m)).len() == METRICS_SIZE,
        Seq::new(12, |i: int| word_at(words_bytes(wire_fields(m)), i)) == wire_fields(m),
        words_bytes(Seq::new(12, |i: int| word_at(reply, i))) == reply,
{
    let words = Seq::new(12, |i: int| word_at(reply, i));
    lemma_bytes_of_words(reply, 12);
    assert(reply.take(96) =~= reply);
    assert(words =~= Seq::new(12, |i: int| word_at(reply, i)));
    lemma_words_bytes(wire_fields(m));
    let s = words_bytes(wire_fields(m));
    assert forall|i: int| 0 <= i < 12 implies word_at(s, i) == wire_fields(m)[i] by {}
    assert(Seq::new(12, |i: int| word_at(s, i)) =~= wire_fields(m));
}

/// Numbers that were read are written as the bytes they came with.
proof fn lemma_bytes_of_words(s: Seq<u8>, n: nat)
    requires
        8 * n <= s.len(),
    ensures
        words_bytes(Seq::new(n, |i: int| word_at(s, i))) == s.take(8 * n as int),
    decreases n,
{
    let words = Seq::new(n, |i: int| word_at(s, i));
    if n > 0 {
        let m = (n - 1) as nat;
        lemma_bytes_of_words(s, m);
        assert(words.drop_last() =~= Seq::new(m, |i: int| word_at(s, i)));
        let last = s.subrange(8 * m as int, 8 * m as int + 8);
        lemma_le_value_bound(last);
        lemma_byte_bounds();
        lemma_bytes_of_value(last);
        assert(words.last() as nat == le_value(last));
        assert(s.take(8 * n as int) =~= s.take(8 * m as int) + last);
    } else {
        assert(s.take(0) =~= Seq::<u8>::empty());
    }
}

/// What a client asks for.
#[derive(Debug, Clone, Copy, PartialEq, Eq, Structural)]
pub enum Opcode {
    /// Store a batch of ticks.
    IngestBatch,
    /// Compute the statistics of stored ticks.
    QuantAnalytics,
}

impl Opcode {
    /// The byte that stands for a request.
    pub open spec fn spec_code(self) -> u8 {
        match self {
            Opcode::IngestBatch => 0x11,
            Opcode::QuantAnalytics => 0x01,
        }
    }

    /// The byte that stands for a request.
    pub fn code(self) -> (r: u8)
        ensures
            r == self.spec_code(),
    {
        match self {
            Opcode::IngestBatch => 0x11,
            Opcode::QuantAnalytics => 0x01,
        }
    }

    /// The request that a byte stands for, if it stands for one.
    pub fn from_u8(val: u8) -> (r: Option<Self>)
        ensures
            match r {
                Some(op) => op.spec_code() == val,
                None => forall|op: Opcode| #[trigger] op.spec_code() != val,
            },
    {
        match val {
            0x11 => Some(Opcode::IngestBatch),
            0x01 => Some(Opcode::QuantAnalytics),
            _ => None,
        }
    }
}

/// How many bytes stand ahead of the first zero byte.
pub open spec fn text_len(raw: Seq<u8>) -> int
    decreases raw.len(),
{
    if raw.len() == 0 || raw[0] == 0 {
        0
    } else {
        1 + text_len(raw.drop_first())
    }
}

pub proof fn lemma_text_len(raw: Seq<u8>)
    ensures
        0 <= text_len(raw) <= raw.len(),
        forall|i: int| 0 <= i < text_len(raw) ==> raw[i] != 0,
        text_len(raw) < raw.len() ==> raw[text_len(raw)] == 0,
    decreases raw.len(),
{
    if raw.len() > 0 && raw[0] != 0 {
        let rest = raw.drop_first();
        lemma_text_len(rest);
        assert forall|i: int| 0 <= i < text_len(raw) implies raw[i] != 0 by {
            if i > 0 {
                assert(rest[i - 1] == raw[i]);
            }
        }
    }
}

/// The text ends at the first zero byte.
pub proof fn lemma_text_len_is(raw: Seq<u8>, n: int)
    requires
        0 <= n <= raw.len(),
        forall|i: int| 0 <= i < n ==> raw[i] != 0,
        n < raw.len() ==> raw[n] == 0,
    ensures
        text_len(raw) == n,
{
    lemma_text_len(raw);
    if text_len(raw) < n {
        assert(raw[text_len(raw)] != 0);
    }
}

/// Counts the bytes ahead of the first zero byte.
fn count_text(raw: &[u8]) -> (n: usize)
    ensures
        n == text_len(raw@),
{
    let mut n: usize = 0;
    while n < raw.len() && raw[n] != 0
        invariant
            n <= raw.len(),
            forall|i: int| 0 <= i < n ==> raw@[i] != 0,
        decreases raw.len() - n,
    {
        n += 1;
    }
    proof {
        lemma_text_len_is(raw@, n as int);
    }
    n
}

/// A byte that may stand in a symbol: a letter, a digit, `_` or `-`.
pub open spec fn symbol_byte(b: u8) -> bool {
    ||| 65 <= b <= 90
    ||| 97 <= b <= 122
    ||| 48 <= b <= 57
    ||| b == 95
    ||| b == 45
}

/// A byte with a small letter made a capital.
pub open spec fn capital(b: u8) -> u8 {
    if 97 <= b <= 122 {
        (b - 32) as u8
    } else {
        b
    }
}

/// The normal form of a symbol: capitals, filled up with zeros to eight bytes.
pub open spec fn normal_symbol(raw: Seq<u8>) -> Seq<u8> {
    Seq::new(
        8,
        |i: int|
            if i < text_len(raw) {
                capital(raw[i])
            } else {
                0
            },
    )
}

/// What a text makes as a symbol, or why it is none.
pub open spec fn sanitized(raw: Seq<u8>) -> Result<Seq<u8>, Seq<char>> {
    let n = text_len(raw);
    if n == 0 || n > 8 {
        Err("Symbol length must be 1-8 chars"@)
    } else if exists|i: int| 0 <= i < n && !symbol_byte(raw[i]) {
        Err("Illegal symbol character"@)
    } else {
        Ok(normal_symbol(raw))
    }
}

/// Takes the bytes up to the first zero byte as a symbol.
pub fn sanitize_symbol(raw: &[u8]) -> (r: Result<[u8; 8], &'static str>)
    ensures
        match sanitized(raw@) {
            Ok(symbol) => r is Ok && r->Ok_0@ == symbol,
            Err(why) => r is Err && r->Err_0@ == why,
        },
{
    let n: usize = count_text(raw);
    if n == 0 || n > 8 {
        return Err("Symbol length must be 1-8 chars");
    }
    proof {
        lemma_text_len(raw@);
    }
    let mut out = [0u8; 8];
    let mut i: usize = 0;
    while i < n
        invariant
            i <= n <= 8,
            n <= raw.len(),
            n == text_len(raw@),
            n > 0,
            forall|j: int| 0 <= j < i ==> symbol_byte(raw@[j]),
            forall|j: int| 0 <= j < i ==> out@[j] == capital(raw@[j]),
            forall|j: int| i <= j < 8 ==> out@[j] == 0,
        decreases n - i,
    {
        let b: u8 = raw[i];
        if 97 <= b && b <= 122 {
            out[i] = b - 32;
        } else if (65 <= b && b <= 90) || (48 <= b && b <= 57) || b == 95 || b == 45 {
            out[i] = b;
        } else {
            assert(!symbol_byte(raw@[i as int]));
            return Err("Illegal symbol character");
        }
        i += 1;
    }
    assert(out@ =~= normal_symbol(raw@));
    Ok(out)
}

/// The bytes of a symbol without the zeros that fill it up.
pub open spec fn symbol_name(symbol: Seq<u8>) -> Seq<u8> {
    symbol.take(text_len(symbol))
}

/// The text of a symbol.
pub fn symbol_to_string(sym: &[u8; 8]) -> (r: String)
    ensures
        r@ == utf8_lossy(symbol_name(sym@)),
        valid_utf8(symbol_name(sym@)) ==> r@ == decode_utf8(symbol_name(sym@)),
        (forall|i: int| 0 <= i < text_len(sym@) ==> sym@[i] < 128) ==> r@ == ascii_text(
            symbol_name(sym@),
        ),
{
    let len: usize = count_text(sym.as_slice());
    let mut name: Vec<u8> = Vec::new();
    let mut i: usize = 0;
    proof {
        lemma_text_len(sym@);
    }
    while i < len
        invariant
            i <= len <= 8,
            name@ == sym@.take(i as int),
        decreases len - i,
    {
        name.push(sym[i]);
        i += 1;
        assert(sym@.take(i as int) =~= sym@.take(i - 1).push(sym@[i - 1]));
    }
    proof {
        if forall|j: int| 0 <= j < text_len(sym@) ==> sym@[j] < 128 {
            lemma_ascii(name@);
        }
    }
    from_utf8_lossy(name.as_slice())
}

/// A symbol is its own normal form, as bytes and as text, and small letters stand
/// for capitals.
pub proof fn law_symbols_are_normal(raw: Seq<u8>, symbol: Seq<u8>)
    requires
        sanitized(raw) == Ok::<Seq<u8>, Seq<char>>(symbol),
    ensures
        symbol.len() == 8,
        sanitized(symbol) == Ok::<Seq<u8>, Seq<char>>(symbol),
        sanitized(encode_utf8(ascii_text(symbol_name(symbol)))) == Ok::<Seq<u8>, Seq<char>>(symbol),
        sanitized(Seq::new(raw.len(), |i: int| capital(raw[i]))) == Ok::<Seq<u8>, Seq<char>>(
            symbol,
        ),
{
    let n = text_len(raw);
    lemma_text_len(raw);
    assert forall|i: int| 0 <= i < n implies symbol_byte(raw[i]) by {}
    lemma_text_len_is(symbol, n);
    assert(normal_symbol(symbol) =~= symbol);
    let name = symbol_name(symbol);
    lemma_text_len_is(name, n);
    lemma_ascii(name);
    assert(normal_symbol(name) =~= symbol);
    assert forall|i: int| 0 <= i < n implies symbol_byte(name[i]) by {
        assert(symbol_byte(raw[i]));
    }
    assert forall|i: int| 0 <= i < n implies symbol_byte(symbol[i]) by {
        assert(symbol_byte(raw[i]));
    }
    let upper = Seq::new(raw.len(), |i: int| capital(raw[i]));
    lemma_text_len_is(upper, n);
    assert(normal_symbol(upper) =~= symbol);
    assert forall|i: int| 0 <= i < n implies symbol_byte(upper[i]) by {
        assert(symbol_byte(raw[i]));
    }
}

/// Whether letters are small or capital does not matter, to what is accepted, to what
/// is refused and why, and to which symbol results.
pub proof fn law_case_does_not_matter(raw: Seq<u8>, other: Seq<u8>)
    requires
        other.len() == raw.len(),
        forall|i: int| 0 <= i < raw.len() ==> capital(#[trigger] other[i]) == capital(raw[i]),
    ensures
        sanitized(other) == sanitized(raw),
{
    let n = text_len(raw);
    lemma_text_len(raw);
    assert forall|i: int| 0 <= i < n implies other[i] != 0 by {
        assert(capital(other[i]) == capital(raw[i]));
    }
    if n < raw.len() {
        assert(capital(other[n]) == capital(raw[n]));
    }
    lemma_text_len_is(other, n);
    assert forall|i: int| 0 <= i < n implies symbol_byte(#[trigger] other[i]) == symbol_byte(
        raw[i],
    ) by {
        assert(capital(other[i]) == capital(raw[i]));
    }
    if exists|i: int| 0 <= i < n && !symbol_byte(raw[i]) {
        let i = choose|i: int| 0 <= i < n && !symbol_byte(raw[i]);
        assert(!symbol_byte(other[i]));
    }
    assert(normal_symbol(other) =~= normal_symbol(raw));
}

/// A normal symbol is its name and then zeros; the name is ASCII and has no
/// separator.
pub proof fn lemma_symbol_name(symbol: Seq<u8>)
    requires
        symbol.len() == 8,
        sanitized(symbol) == Ok::<Seq<u8>, Seq<char>>(symbol),
    ensures
        ({
            let name = symbol_name(symbol);
            &&& 1 <= name.len() <= 8
            &&& forall|i: int| 0 <= i < name.len() ==> name[i] == symbol[i]
            &&& forall|i: int| 0 <= i < name.len() ==> name[i] < 128 && name[i] != 47 && name[i] != 0
            &&& forall|i: int| name.len() <= i < 8 ==> symbol[i] == 0
        }),
{
    lemma_text_len(symbol);
    assert forall|i: int| 0 <= i < text_len(symbol) implies symbol_byte(symbol[i]) by {}
    assert forall|i: int| text_len(symbol) <= i < 8 implies symbol[i] == 0 by {
        assert(normal_symbol(symbol)[i] == 0);
    }
}

/// Each field of a reply stands in a place of its own, eight bytes wide.
pub proof fn law_fields_have_their_place(m: QueryMetrics)
    ensures
        ({
            let s = words_bytes(wire_fields(m));
            &&& s.len() == 96
            &&& word_at(s, 0) == m.count
            &&& word_at(s, 1) == m.open
            &&& word_at(s, 2) == m.high
            &&& word_at(s, 3) == m.low
            &&& word_at(s, 4) == m.close
            &&& word_at(s, 5) == m.mean
            &&& word_at(s, 6) == m.variance
            &&& word_at(s, 7) == m.std_dev
            &&& word_at(s, 8) == m.z_score
            &&& word_at(s, 9) == m.upper_bollinger
            &&& word_at(s, 10) == m.lower_bollinger
            &&& word_at(s, 11) == m.max_drawdown
        }),
{
    lemma_words_bytes(wire_fields(m));
    let s = words_bytes(wire_fields(m));
    let fields = wire_fields(m);
    assert(forall|i: int| 0 <= i < 12 ==> #[trigger] word_at(s, i) == fields[i]);
    assert(fields[11] == m.max_drawdown && fields[10] == m.lower_bollinger && fields[9]
        == m.upper_bollinger && fields[8] == m.z_score && fields[7] == m.std_dev && fields[6]
        == m.variance);
}

/// A word is the sum of its eight bytes, each times its place.
pub proof fn law_words_are_little_endian(s: Seq<u8>, i: int)
    requires
        0 <= i,
        8 * i + 8 <= s.len(),
    ensures
        word_at(s, i) == s[8 * i] + 0x100 * (s[8 * i + 1] + 0x100 * (s[8 * i + 2] + 0x100 * (s[8 * i
            + 3] + 0x100 * (s[8 * i + 4] + 0x100 * (s[8 * i + 5] + 0x100 * (s[8 * i + 6] + 0x100
            * s[8 * i + 7])))))),
{
    let w = s.subrange(8 * i, 8 * i + 8);
    lemma_le_value_bound(w);
    lemma_byte_bounds();
    let w1 = w.drop_first();
    let w2 = w1.drop_first();
    let w3 = w2.drop_first();
    let w4 = w3.drop_first();
    let w5 = w4.drop_first();
    let w6 = w5.drop_first();
    let w7 = w6.drop_first();
    let w8 = w7.drop_first();
    assert(le_value(w8) == 0);
    assert(le_value(w7) == w7[0] as nat);
    assert(w1[0] == s[8 * i + 1] && w2[0] == s[8 * i + 2] && w3[0] == s[8 * i + 3] && w4[0] == s[8
        * i + 4] && w5[0] == s[8 * i + 5] && w6[0] == s[8 * i + 6] && w7[0] == s[8 * i + 7]);
    assert(le_value(w6) == w6[0] + 256 * le_value(w7));
    assert(le_value(w5) == w5[0] + 256 * le_value(w6));
    assert(le_value(w4) == w4[0] + 256 * le_value(w5));
    assert(le_value(w3) == w3[0] + 256 * le_value(w4));
    assert(le_value(w2) == w2[0] + 256 * le_value(w3));
    assert(le_value(w1) == w1[0] + 256 * le_value(w2));
    assert(le_value(w) == w[0] + 256 * le_value(w1));
}

/// One to eight letters, digits, underscores and hyphens are a symbol, whatever stands
/// behind the zero byte that ends them. Small letters become capitals, the others stay,
/// and zeros fill the symbol up. More, fewer or other characters are none.
pub proof fn law_which_names_are_symbols(name: Seq<u8>, rest: Seq<u8>)
    requires
        forall|i: int| 0 <= i < name.len() ==> #[trigger] name[i] != 0,
        rest.len() > 0 ==> rest[0] == 0,
    ensures
        ({
            let r = sanitized(name + rest);
            let fits = 1 <= name.len() <= 8;
            let letters = forall|i: int|
                #![trigger name[i]]
                0 <= i < name.len() ==> 65 <= name[i] <= 90 || 97 <= name[i] <= 122 || 48 <= name[i]
                    <= 57 || name[i] == 95 || name[i] == 45;
            &&& !fits ==> r == Err::<Seq<u8>, Seq<char>>("Symbol length must be 1-8 chars"@)
            &&& fits && !letters ==> r == Err::<Seq<u8>, Seq<char>>("Illegal symbol character"@)
            &&& fits && letters ==> r is Ok
            &&& r matches Ok(symbol) ==> {
                &&& symbol.len() == 8
                &&& forall|i: int|
                    0 <= i < name.len() ==> #[trigger] symbol[i] == name[i] - (if 97 <= name[i]
                        <= 122 {
                        32int
                    } else {
                        0
                    })
                &&& forall|i: int| name.len() <= i < 8 ==> #[trigger] symbol[i] == 0
            }
        }),
{
    let raw = name + rest;
    let n = name.len() as int;
    assert forall|i: int| 0 <= i < n implies raw[i] != 0 by {
        assert(raw[i] == name[i]);
    }
    lemma_text_len_is(raw, n);
    let letters = forall|i: int|
        #![trigger name[i]]
        0 <= i < name.len() ==> 65 <= name[i] <= 90 || 97 <= name[i] <= 122 || 48 <= name[i] <= 57
            || name[i] == 95 || name[i] == 45;
    if letters {
        assert forall|i: int| 0 <= i < n implies symbol_byte(raw[i]) by {
            assert(raw[i] == name[i]);
        }
    } else {
        let i = choose|i: int|
            #![trigger name[i]]
            0 <= i < name.len() && !(65 <= name[i] <= 90 || 97 <= name[i] <= 122 || 48 <= name[i]
                <= 57 || name[i] == 95 || name[i] == 45);
        assert(!symbol_byte(raw[i]));
    }
}

/// The name of a symbol is what stands ahead of its first zero byte.
pub proof fn law_names_end_at_zero(name: Seq<u8>, rest: Seq<u8>)
    requires
        forall|i: int| 0 <= i < name.len() ==> #[trigger] name[i] != 0,
        rest.len() > 0 ==> rest[0] == 0,
    ensures
        symbol_name(name + rest) == name,
{
    let raw = name + rest;
    assert forall|i: int| 0 <= i < name.len() implies raw[i] != 0 by {
        assert(raw[i] == name[i]);
    }
    lemma_text_len_is(raw, name.len() as int);
    assert(raw.take(name.len() as int) =~= name);
}

} // verus!
