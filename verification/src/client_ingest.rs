//! A feed of made-up prices: which symbols it covers, what it sends, and when it
//! stops.
use vstd::arithmetic::div_mod::lemma_add_mod_noop;
use vstd::prelude::*;
use vstd::string::StringExecFns;
use vstd::utf8::is_ascii_chars;

use crate::compression::{ordered, raw_ticks, tick_at};
use crate::error::Error;
use crate::le::{le_bytes, lemma_byte_bounds, lemma_le_bytes_len, lemma_value_of_bytes, put_le};
use crate::network::{fed, Effect, Phase, SessionState};
use crate::protocol::{sanitized, Opcode, Tick, BATCH_SIZE, MAX_BATCH_SIZE, PROTOCOL_VERSION};
use crate::text::{
    ascii_capitals, capital_char, chars_of, make_capital, text_of, to_uppercase, trim_chars,
    trimmed, uppercase,
};

verus! {

/// The symbols that stand for all, by number.
pub open spec fn preset_name(i: int) -> Seq<char> {
    if i == 0 {
        "AAPL"@
    } else if i == 1 {
        "MSFT"@
    } else if i == 2 {
        "NVDA"@
    } else if i == 3 {
        "TSLA"@
    } else if i == 4 {
        "GOOGL"@
    } else {
        "BTC"@
    }
}

/// How many symbols stand for all.
pub const PRESET_COUNT: usize = 6;

/// One of the symbols that stand for all.
pub fn preset(i: usize) -> (r: &'static str)
    requires
        i < PRESET_COUNT,
    ensures
        r@ == preset_name(i as int),
{
    if i == 0 {
        "AAPL"
    } else if i == 1 {
        "MSFT"
    } else if i == 2 {
        "NVDA"
    } else if i == 3 {
        "TSLA"
    } else if i == 4 {
        "GOOGL"
    } else {
        "BTC"
    }
}

/// The parts of a text between its commas.
pub open spec fn comma_parts(s: Seq<char>) -> Seq<Seq<char>>
    decreases s.len(),
{
    if s.len() == 0 {
        seq![Seq::empty()]
    } else {
        let parts = comma_parts(s.drop_last());
        if s.last() == ',' {
            parts.push(Seq::empty())
        } else {
            parts.drop_last().push(parts.last().push(s.last()))
        }
    }
}

/// The parts of a list as symbols: without blanks around them and in capitals.
pub open spec fn list_symbols(parts: Seq<Seq<char>>) -> Seq<Seq<char>> {
    Seq::new(parts.len(), |i: int| uppercase(trimmed(parts[i])))
}

/// The symbols that a feed is asked to cover: all of the presets, or those in a list
/// with commas, in capitals.
pub open spec fn listed_symbols(arg: Seq<char>) -> Seq<Seq<char>> {
    if ascii_capitals(arg) == "ALL"@ {
        Seq::new(PRESET_COUNT as nat, |i: int| preset_name(i))
    } else {
        list_symbols(comma_parts(arg))
    }
}

/// The texts that strings hold.
pub open spec fn texts(strings: Seq<String>) -> Seq<Seq<char>> {
    Seq::new(strings.len(), |i: int| strings[i]@)
}

/// Whether a text says `ALL`, in capitals or not.
fn says_all(chars: &Vec<char>) -> (r: bool)
    ensures
        r == (ascii_capitals(chars@) == "ALL"@),
{
    proof {
        reveal_strlit("ALL");
    }
    if chars.len() != 3 {
        assert(ascii_capitals(chars@).len() != "ALL"@.len());
        return false;
    }
    let r = make_capital(chars[0]) == 'A' && make_capital(chars[1]) == 'L' && make_capital(chars[2])
        == 'L';
    proof {
        let capitals = ascii_capitals(chars@);
        assert(capitals[0] == capital_char(chars@[0]) && capitals[1] == capital_char(chars@[1])
            && capitals[2] == capital_char(chars@[2]));
        if r {
            assert(capitals =~= "ALL"@);
        }
    }
    r
}

/// Finds the symbols that a feed is asked to cover. It must send something.
pub fn plan_feed(arg: &str, ticks_per_second: u64) -> (r: Result<Vec<String>, Error>)
    ensures
        ticks_per_second == 0 ==> r is Err && r->Err_0 == Error::ZeroRate,
        ticks_per_second > 0 ==> r is Ok && texts(r->Ok_0@) == listed_symbols(arg@),
        ticks_per_second > 0 ==> r->Ok_0@.len() == listed_symbols(arg@).len() && forall|i: int|
            0 <= i < r->Ok_0@.len() ==> (#[trigger] r->Ok_0@[i])@ == listed_symbols(arg@)[i],
        ticks_per_second > 0 && ascii_capitals(arg@) != "ALL"@ ==> forall|i: int|
            0 <= i < comma_parts(arg@).len() && is_ascii_chars(
                trimmed(#[trigger] comma_parts(arg@)[i]),
            ) ==> listed_symbols(arg@)[i] == ascii_capitals(trimmed(comma_parts(arg@)[i])),
{
    if ticks_per_second == 0 {
        return Err(Error::ZeroRate);
    }
    let chars = chars_of(arg);
    let mut symbols: Vec<String> = Vec::new();
    if says_all(&chars) {
        let mut i: usize = 0;
        while i < PRESET_COUNT
            invariant
                i <= PRESET_COUNT,
                symbols@.len() == i,
                forall|j: int| 0 <= j < i ==> symbols@[j]@ == preset_name(j),
            decreases PRESET_COUNT - i,
        {
            symbols.push(String::from_str(preset(i)));
            i += 1;
        }
        assert(texts(symbols@) =~= listed_symbols(arg@));
        return Ok(symbols);
    }
    let mut part: Vec<char> = Vec::new();
    let mut i: usize = 0;
    assert(chars@.take(0) =~= Seq::<char>::empty());
    assert(comma_parts(chars@.take(0)).drop_last() =~= Seq::<Seq<char>>::empty());
    assert(texts(symbols@) =~= list_symbols(comma_parts(chars@.take(0)).drop_last()));
    while i < chars.len()
        invariant
            i <= chars@.len(),
            comma_parts(chars@.take(i as int)).len() > 0,
            part@ == comma_parts(chars@.take(i as int)).last(),
            texts(symbols@) == list_symbols(comma_parts(chars@.take(i as int)).drop_last()),
            plain_capitals(comma_parts(chars@.take(i as int)).drop_last()),
        decreases chars@.len() - i,
    {
        let c = chars[i];
        let ghost parts = comma_parts(chars@.take(i as int));
        let ghost before = texts(symbols@);
        assert(chars@.take(i + 1).drop_last() =~= chars@.take(i as int));
        if c == ',' {
            let symbol = symbol_text(&part);
            symbols.push(symbol);
            part = Vec::new();
            proof {
                assert(comma_parts(chars@.take(i + 1)).drop_last() =~= parts);
                assert(before.len() == list_symbols(parts.drop_last()).len() == parts.len() - 1);
                lemma_part_added(parts, before, texts(symbols@));
                lemma_plain_capitals(parts);
            }
        } else {
            part.push(c);
            proof {
                assert(comma_parts(chars@.take(i + 1)).drop_last() =~= parts.drop_last());
            }
        }
        i += 1;
    }
    let ghost before = texts(symbols@);
    let symbol = symbol_text(&part);
    symbols.push(symbol);
    proof {
        assert(chars@.take(i as int) =~= chars@);
        lemma_part_added(comma_parts(chars@), before, texts(symbols@));
        lemma_plain_capitals(comma_parts(chars@));
    }
    Ok(symbols)
}

/// The ASCII parts of a list are made capitals letter by letter.
spec fn plain_capitals(parts: Seq<Seq<char>>) -> bool {
    forall|i: int|
        0 <= i < parts.len() && is_ascii_chars(trimmed(#[trigger] parts[i])) ==> uppercase(
            trimmed(parts[i]),
        ) == ascii_capitals(trimmed(parts[i]))
}

proof fn lemma_plain_capitals(parts: Seq<Seq<char>>)
    requires
        parts.len() > 0,
        plain_capitals(parts.drop_last()),
        is_ascii_chars(trimmed(parts.last())) ==> uppercase(trimmed(parts.last()))
            == ascii_capitals(trimmed(parts.last())),
    ensures
        plain_capitals(parts),
{
    assert forall|i: int|
        0 <= i < parts.len() && is_ascii_chars(trimmed(#[trigger] parts[i])) implies uppercase(
        trimmed(parts[i]),
    ) == ascii_capitals(trimmed(parts[i])) by {
        if i < parts.len() - 1 {
            assert(parts.drop_last()[i] == parts[i]);
        }
    }
}

/// The symbols of all parts, from those of all but the last.
proof fn lemma_part_added(parts: Seq<Seq<char>>, before: Seq<Seq<char>>, after: Seq<Seq<char>>)
    requires
        parts.len() > 0,
        before == list_symbols(parts.drop_last()),
        after.len() == parts.len(),
        forall|j: int| 0 <= j < before.len() ==> after[j] == before[j],
        after.last() == uppercase(trimmed(parts.last())),
    ensures
        after == list_symbols(parts),
{
    assert forall|j: int| 0 <= j < parts.len() implies after[j] == uppercase(
        trimmed(#[trigger] parts[j]),
    ) by {
        if j < before.len() {
            assert(parts.drop_last()[j] == parts[j]);
        }
    }
    assert(after =~= list_symbols(parts));
}

/// A part of a list as a symbol: without blanks around it and in capitals.
pub fn symbol_text(part: &Vec<char>) -> (r: String)
    ensures
        r@ == uppercase(trimmed(part@)),
        is_ascii_chars(trimmed(part@)) ==> r@ == ascii_capitals(trimmed(part@)),
{
    let (from, to) = trim_chars(part);
    let text = text_of(part, from, to);
    to_uppercase(text.as_str())
}

/// The price around which a feed moves, in whole dollars.
pub open spec fn price_level(symbol: Seq<char>) -> u32 {
    if symbol == "BTC"@ {
        65_000
    } else if symbol == "NVDA"@ {
        125
    } else if symbol == "TSLA"@ {
        210
    } else if symbol == "MSFT"@ {
        420
    } else if symbol == "GOOGL"@ {
        165
    } else {
        150
    }
}

/// Whether two texts are the same.
pub fn same_text(a: &str, b: &str) -> (r: bool)
    ensures
        r == (a@ == b@),
{
    let x = chars_of(a);
    let y = chars_of(b);
    if x.len() != y.len() {
        return false;
    }
    let mut i: usize = 0;
    while i < x.len()
        invariant
            i <= x@.len(),
            x@ == a@,
            y@ == b@,
            x@.len() == y@.len(),
            forall|j: int| 0 <= j < i ==> x@[j] == y@[j],
        decreases x@.len() - i,
    {
        if x[i] != y[i] {
            return false;
        }
        i += 1;
    }
    assert(a@ =~= b@);
    true
}

/// The price around which a feed moves, in whole dollars.
pub fn equilibrium_price(symbol: &str) -> (r: u32)
    ensures
        r == price_level(symbol@),
{
    if same_text(symbol, "BTC") {
        65_000
    } else if same_text(symbol, "NVDA") {
        125
    } else if same_text(symbol, "TSLA") {
        210
    } else if same_text(symbol, "MSFT") {
        420
    } else if same_text(symbol, "GOOGL") {
        165
    } else {
        150
    }
}

/// The step of a linear congruential generator from `ts`, and of its result the
/// upper bits, below two hundred.
pub open spec fn noise_at(ts: u64) -> int {
    ((ts * 6364136223846793005 + 1) % 0x1_0000_0000_0000_0000) / 0x2_0000_0000 % 200
}

/// A number below two hundred that looks random.
pub fn noise(ts: u64) -> (r: u64)
    ensures
        r == noise_at(ts),
        r < 200,
{
    let x: u64 = ts.wrapping_mul(6364136223846793005).wrapping_add(1);
    proof {
        let m: int = 0x1_0000_0000_0000_0000;
        let product = ts * 6364136223846793005;
        lemma_add_mod_noop(product, 1, m);
        assert(x == (product % m + 1) % m);
        assert(x >> 33 == x / 0x2_0000_0000u64) by (bit_vector);
    }
    (x >> 33) % 200
}

/// Raw ticks, one after the other.
pub open spec fn raw_bytes(ticks: Seq<Tick>) -> Seq<u8>
    decreases ticks.len(),
{
    if ticks.len() == 0 {
        Seq::empty()
    } else {
        raw_bytes(ticks.drop_last()) + le_bytes(ticks.last().timestamp as nat, 8) + le_bytes(
            ticks.last().price_bits as nat,
            8,
        )
    }
}

/// Raw ticks are read back as they were written.
pub proof fn law_raw_round_trip(ticks: Seq<Tick>)
    ensures
        raw_bytes(ticks).len() == 16 * ticks.len(),
        raw_ticks(raw_bytes(ticks)) == ticks,
    decreases ticks.len(),
{
    let raw = raw_bytes(ticks);
    if ticks.len() > 0 {
        let n = ticks.len() - 1;
        let front = raw_bytes(ticks.drop_last());
        let last = ticks.last();
        law_raw_round_trip(ticks.drop_last());
        lemma_byte_bounds();
        lemma_le_bytes_len(last.timestamp as nat, 8);
        lemma_le_bytes_len(last.price_bits as nat, 8);
        lemma_value_of_bytes(last.timestamp as nat, 8);
        lemma_value_of_bytes(last.price_bits as nat, 8);
        assert forall|i: int| 0 <= i < n implies tick_at(raw, i) == ticks[i] by {
            assert(raw.subrange(16 * i, 16 * i + 8) =~= front.subrange(16 * i, 16 * i + 8));
            assert(raw.subrange(16 * i + 8, 16 * i + 16) =~= front.subrange(16 * i + 8, 16 * i + 16));
            assert(raw_ticks(front)[i] == ticks.drop_last()[i]);
        }
        assert(raw.subrange(16 * n, 16 * n + 8) =~= le_bytes(last.timestamp as nat, 8));
        assert(raw.subrange(16 * n + 8, 16 * n + 16) =~= le_bytes(last.price_bits as nat, 8));
    }
    assert(raw_ticks(raw) =~= ticks);
}

/// What announces a batch: the version, the kind of the request, the symbol, and the
/// number of ticks.
pub open spec fn batch_announcement(symbol: Seq<u8>, count: nat) -> Seq<u8> {
    seq![PROTOCOL_VERSION, Opcode::IngestBatch.spec_code()] + symbol + le_bytes(count, 4)
}

/// Announces a batch of the usual size.
pub fn announce_batch(symbol: &[u8; 8]) -> (r: [u8; 14])
    ensures
        r@ == batch_announcement(symbol@, BATCH_SIZE as nat),
        r@ == batch_announcement(symbol@, 10_000),
{
    let mut r = [0u8; 14];
    r[0] = PROTOCOL_VERSION;
    r[1] = Opcode::IngestBatch.code();
    let mut i: usize = 0;
    while i < 8
        invariant
            i <= 8,
            r@[0] == PROTOCOL_VERSION,
            r@[1] == Opcode::IngestBatch.spec_code(),
            forall|j: int| 0 <= j < i ==> r@[2 + j] == symbol@[j],
        decreases 8 - i,
    {
        r[2 + i] = symbol[i];
        i += 1;
    }
    let ghost front = r@;
    put_le(&mut r, 10, BATCH_SIZE as u64, 4);
    proof {
        lemma_le_bytes_len(BATCH_SIZE as nat, 4);
        assert(r@ =~= batch_announcement(symbol@, BATCH_SIZE as nat));
    }
    r
}

/// Prices a microsecond apart.
pub open spec fn ticks_of(base_ts: u64, prices: Seq<u64>) -> Seq<Tick> {
    Seq::new(
        prices.len(),
        |i: int| Tick { timestamp: (base_ts + i) as u64, price_bits: prices[i] },
    )
}

/// Appends a number, eight little-endian bytes.
fn push_word(out: &mut Vec<u8>, v: u64)
    ensures
        final(out)@ == old(out)@ + le_bytes(v as nat, 8),
{
    let ghost before = out@;
    let mut word = [0u8; 8];
    put_le(&mut word, 0, v, 8);
    proof {
        lemma_le_bytes_len(v as nat, 8);
        assert(word@ =~= le_bytes(v as nat, 8));
    }
    let mut i: usize = 0;
    while i < 8
        invariant
            i <= 8,
            out@ == before + word@.take(i as int),
        decreases 8 - i,
    {
        out.push(word[i]);
        i += 1;
        assert(out@ =~= before + word@.take(i as int));
    }
    assert(word@.take(8) =~= word@);
}

/// A batch of the usual size, ready to be sent: its prices are a microsecond apart.
pub fn batch_message(symbol: &[u8; 8], base_ts: u64, prices: &Vec<u64>) -> (r: Vec<u8>)
    requires
        prices@.len() == BATCH_SIZE,
        base_ts + (BATCH_SIZE - 1) <= u64::MAX,
    ensures
        r@ == batch_announcement(symbol@, BATCH_SIZE as nat) + raw_bytes(
            ticks_of(base_ts, prices@),
        ),
        raw_ticks(r@.skip(14)).len() == prices@.len(),
        forall|i: int|
            0 <= i < prices@.len() ==> {
                &&& (#[trigger] raw_ticks(r@.skip(14))[i]).timestamp == base_ts + i
                &&& raw_ticks(r@.skip(14))[i].price_bits == prices@[i]
            },
{
    let head = announce_batch(symbol);
    let mut r: Vec<u8> = Vec::new();
    let mut i: usize = 0;
    while i < 14
        invariant
            i <= 14,
            r@ == head@.take(i as int),
        decreases 14 - i,
    {
        r.push(head[i]);
        i += 1;
        assert(r@ =~= head@.take(i as int));
    }
    assert(head@.take(14) =~= head@);
    let ghost ticks = ticks_of(base_ts, prices@);
    let mut i: usize = 0;
    assert(r@ =~= head@ + raw_bytes(ticks.take(0)));
    while i < prices.len()
        invariant
            i <= prices@.len() == BATCH_SIZE,
            base_ts + (BATCH_SIZE - 1) <= u64::MAX,
            ticks == ticks_of(base_ts, prices@),
            r@ == head@ + raw_bytes(ticks.take(i as int)),
        decreases prices@.len() - i,
    {
        let tick_ts: u64 = base_ts + i as u64;
        push_word(&mut r, tick_ts);
        push_word(&mut r, prices[i]);
        proof {
            let more = ticks.take(i + 1);
            assert(more.drop_last() =~= ticks.take(i as int));
            assert(more.last() == ticks[i as int]);
            assert(r@ =~= head@ + raw_bytes(more));
        }
        i += 1;
    }
    assert(ticks.take(i as int) =~= ticks);
    proof {
        assert(r@.skip(14) =~= raw_bytes(ticks));
        assert forall|i: int| 0 <= i < prices@.len() implies {
            &&& (#[trigger] raw_ticks(r@.skip(14))[i]).timestamp == base_ts + i
            &&& raw_ticks(r@.skip(14))[i].price_bits == prices@[i]
        } by {
            law_feeds_send_each_price(base_ts, prices@, i);
        }
        law_raw_round_trip(ticks);
    }
    r
}

/// How far a feed has come.
#[derive(Debug, Clone, Copy, PartialEq, Eq, Structural)]
pub struct Feed {
    /// How many ticks to send at least; 0 for no end.
    pub max_ticks: u64,
    /// How many ticks have been sent and stored.
    pub total_sent: u64,
}

impl Feed {
    /// A feed that has sent nothing.
    pub fn new(max_ticks: u64) -> (r: Self)
        ensures
            r.max_ticks == max_ticks,
            r.total_sent == 0,
    {
        Feed { max_ticks, total_sent: 0 }
    }

    /// Whether everything has been sent.
    pub fn finished(&self) -> (r: bool)
        ensures
            r == (self.max_ticks > 0 && self.total_sent >= self.max_ticks),
    {
        self.max_ticks > 0 && self.total_sent >= self.max_ticks
    }

    /// Takes the answer to a batch; whether the feed goes on.
    pub fn acknowledged(&mut self, ack: u8) -> (r: bool)
        requires
            ack == 0 ==> old(self).total_sent + BATCH_SIZE <= u64::MAX,
        ensures
            r == (ack == 0),
            final(self).max_ticks == old(self).max_ticks,
            final(self).total_sent == old(self).total_sent + (if ack == 0 {
                BATCH_SIZE as int
            } else {
                0
            }),
    {
        if ack != 0 {
            return false;
        }
        self.total_sent = self.total_sent + BATCH_SIZE as u64;
        true
    }
}

/// A server takes a feed's batch as it was meant: it reads the announcement, then as
/// many bytes as the ticks have, and then stores exactly these ticks, which are in
/// time order.
pub proof fn law_batches_are_understood(
    s: SessionState,
    raw: Seq<u8>,
    symbol: Seq<u8>,
    base_ts: u64,
    prices: Seq<u64>,
)
    requires
        s.phase == Phase::First,
        sanitized(raw) == Ok::<Seq<u8>, Seq<char>>(symbol),
        0 < prices.len() <= MAX_BATCH_SIZE,
        base_ts + (prices.len() - 1) <= u64::MAX,
    ensures
        ({
            let ticks = ticks_of(base_ts, prices);
            let message = batch_announcement(symbol, prices.len()) + raw_bytes(ticks);
            let kind = fed(s, message.subrange(0, 1)).0;
            let head = fed(kind, message.subrange(1, 2)).0;
            let payload = fed(head, message.subrange(2, 14)).0;
            let ready = fed(payload, message.subrange(14, message.len() as int));
            &&& payload.phase == Phase::Payload
            &&& payload.size == message.len() - 14
            &&& ready.0.phase == Phase::Storing
            &&& ready.1 == Effect::Store(symbol)
            &&& raw_ticks(message.subrange(14, message.len() as int)) == ticks
            &&& ordered(ticks)
        }),
{
    let ticks = ticks_of(base_ts, prices);
    let count = prices.len();
    let front = batch_announcement(symbol, count);
    let message = front + raw_bytes(ticks);
    law_raw_round_trip(ticks);
    crate::protocol::law_symbols_are_normal(raw, symbol);
    lemma_byte_bounds();
    lemma_le_bytes_len(count, 4);
    lemma_value_of_bytes(count, 4);
    assert(front.len() == 14);
    assert(message.subrange(0, 1)[0] == PROTOCOL_VERSION);
    assert(message.subrange(1, 2)[0] == Opcode::IngestBatch.spec_code());
    let announced = message.subrange(2, 14);
    assert(announced.subrange(0, 8) =~= symbol);
    assert(announced.subrange(8, 12) =~= le_bytes(count, 4));
    assert(message.subrange(14, message.len() as int) =~= raw_bytes(ticks));
}

/// Record `i` of a feed's payload, as a server reads it, has the timestamp `i`
/// microseconds after the first and the price number `i`.
pub proof fn law_feeds_send_each_price(base_ts: u64, prices: Seq<u64>, i: int)
    requires
        0 <= i < prices.len(),
        base_ts + (prices.len() - 1) <= u64::MAX,
    ensures
        raw_ticks(raw_bytes(ticks_of(base_ts, prices))).len() == prices.len(),
        raw_ticks(raw_bytes(ticks_of(base_ts, prices)))[i].timestamp == base_ts + i,
        raw_ticks(raw_bytes(ticks_of(base_ts, prices)))[i].price_bits == prices[i],
{
    law_raw_round_trip(ticks_of(base_ts, prices));
}

/// Parts with a comma between any two.
pub open spec fn comma_joined(parts: Seq<Seq<char>>) -> Seq<char>
    decreases parts.len(),
{
    if parts.len() == 0 {
        Seq::empty()
    } else if parts.len() == 1 {
        parts[0]
    } else {
        comma_joined(parts.drop_last()).push(',') + parts.last()
    }
}

/// The parts of a list hold no comma, and with commas between them they make up the
/// list again: nothing is lost, and empty parts stay.
pub proof fn law_parts_make_up_the_list(s: Seq<char>)
    ensures
        comma_parts(s).len() > 0,
        comma_joined(comma_parts(s)) == s,
        forall|i: int, j: int|
            0 <= i < comma_parts(s).len() && 0 <= j < comma_parts(s)[i].len() ==> (
            #[trigger] comma_parts(s)[i][j]) != ',',
    decreases s.len(),
{
    let parts = comma_parts(s);
    if s.len() == 0 {
        assert(comma_joined(parts) =~= s);
    } else {
        let front = s.drop_last();
        let before = comma_parts(front);
        law_parts_make_up_the_list(front);
        assert(front.push(s.last()) =~= s);
        if s.last() == ',' {
            assert(parts.drop_last() =~= before);
            assert(comma_joined(parts) =~= s);
        } else {
            assert(parts.drop_last() =~= before.drop_last());
            if before.len() == 1 {
                assert(comma_joined(parts) =~= s);
            } else {
                assert(comma_joined(parts) =~= comma_joined(before).push(s.last()));
            }
        }
        assert forall|i: int, j: int|
            0 <= i < parts.len() && 0 <= j < parts[i].len() implies #[trigger] parts[i][j] != ','
        by {
            if i < before.len() - 1 {
                assert(parts[i] == before[i]);
                assert(before[i][j] != ',');
            } else if s.last() == ',' {
                if i < before.len() {
                    assert(before[i][j] != ',');
                }
            } else if j < before.last().len() {
                assert(before[before.len() - 1][j] != ',');
            }
        }
    }
}

/// A list of three letters that says `ALL`, whatever their case, stands for the six
/// presets; any other list stands for its parts, each trimmed and in capitals.
pub proof fn law_lists_name_their_symbols(arg: Seq<char>, i: int)
    ensures
        ({
            let all = arg.len() == 3 && (arg[0] == 'A' || arg[0] == 'a') && (arg[1] == 'L'
                || arg[1] == 'l') && (arg[2] == 'L' || arg[2] == 'l');
            &&& all ==> listed_symbols(arg) == seq![
                "AAPL"@,
                "MSFT"@,
                "NVDA"@,
                "TSLA"@,
                "GOOGL"@,
                "BTC"@,
            ]
            &&& !all ==> listed_symbols(arg).len() == comma_parts(arg).len()
            &&& !all && 0 <= i < comma_parts(arg).len() ==> listed_symbols(arg)[i] == uppercase(
                trimmed(comma_parts(arg)[i]),
            )
        }),
{
    reveal_strlit("ALL");
    let capitals = ascii_capitals(arg);
    if arg.len() == 3 {
        lemma_capital_of(arg[0]);
        lemma_capital_of(arg[1]);
        lemma_capital_of(arg[2]);
        assert(capitals[0] == capital_char(arg[0]));
        assert(capitals[1] == capital_char(arg[1]));
        assert(capitals[2] == capital_char(arg[2]));
        if capitals[0] == 'A' && capitals[1] == 'L' && capitals[2] == 'L' {
            assert(capitals =~= "ALL"@);
            assert(listed_symbols(arg) =~= seq![
                "AAPL"@,
                "MSFT"@,
                "NVDA"@,
                "TSLA"@,
                "GOOGL"@,
                "BTC"@,
            ]);
        }
    } else {
        assert(capitals.len() == arg.len());
    }
}

proof fn lemma_capital_of(c: char)
    ensures
        capital_char(c) == 'A' <==> c == 'A' || c == 'a',
        capital_char(c) == 'L' <==> c == 'L' || c == 'l',
{
}

/// The noise is made of the upper 31 bits of a word: of the timestamp times the
/// multiplier, plus one, whatever overflows is dropped, and so are the 33 bits below.
pub proof fn law_noise_is_made_of_the_upper_bits(ts: u64, dropped: int, upper: int, below: int)
    requires
        ts * 6364136223846793005 + 1 == dropped * 0x1_0000_0000_0000_0000 + upper * 0x2_0000_0000
            + below,
        0 <= upper < 0x8000_0000,
        0 <= below < 0x2_0000_0000,
    ensures
        noise_at(ts) == upper % 200,
        0 <= noise_at(ts) < 200,
{
    let m: int = 0x1_0000_0000_0000_0000;
    let word = upper * 0x2_0000_0000 + below;
    vstd::arithmetic::div_mod::lemma_fundamental_div_mod_converse(
        ts * 6364136223846793005 + 1,
        m,
        dropped,
        word,
    );
    vstd::arithmetic::div_mod::lemma_fundamental_div_mod_converse(
        word,
        0x2_0000_0000,
        upper,
        below,
    );
}

/// What announces a batch has fourteen bytes: the version, the kind of the request, the
/// symbol, and the number of ticks.
pub proof fn law_announcements_have_fourteen_bytes(symbol: Seq<u8>, count: nat)
    requires
        symbol.len() == 8,
        count < 0x1_0000_0000,
    ensures
        ({
            let r = batch_announcement(symbol, count);
            &&& r.len() == 14
            &&& r[0] == 1 && r[1] == 0x11
            &&& r.subrange(2, 10) == symbol
            &&& crate::le::le_value(r.subrange(10, 14)) == count
        }),
{
    let r = batch_announcement(symbol, count);
    lemma_byte_bounds();
    lemma_le_bytes_len(count, 4);
    lemma_value_of_bytes(count, 4);
    assert(r.subrange(2, 10) =~= symbol);
    assert(r.subrange(10, 14) =~= le_bytes(count, 4));
}

/// Five symbols have prices of their own; every other symbol moves around the same one.
pub proof fn law_price_levels(symbol: Seq<char>)
    ensures
        price_level("BTC"@) == 65_000,
        price_level("NVDA"@) == 125,
        price_level("TSLA"@) == 210,
        price_level("MSFT"@) == 420,
        price_level("GOOGL"@) == 165,
        symbol != "BTC"@ && symbol != "NVDA"@ && symbol != "TSLA"@ && symbol != "MSFT"@ && symbol
            != "GOOGL"@ ==> price_level(symbol) == 150,
{
    reveal_strlit("BTC");
    reveal_strlit("NVDA");
    reveal_strlit("TSLA");
    reveal_strlit("MSFT");
    reveal_strlit("GOOGL");
    assert("NVDA"@[0] == 'N' && "TSLA"@[0] == 'T' && "MSFT"@[0] == 'M' && "GOOGL"@[0] == 'G'
        && "BTC"@[0] == 'B');
}

} // verus!
