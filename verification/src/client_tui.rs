//! A terminal client: what is typed, what is asked of the server, and what is kept of
//! its answers.
use vstd::prelude::*;
use vstd::string::StringExecFns;
use vstd::utf8::{encode_utf8, is_ascii_chars, is_ascii_chars_encode_utf8};

use crate::client_ingest::{preset, preset_name, same_text, PRESET_COUNT};
use crate::dashboard::{ServerStatus, CHART_WIDTH};
use crate::engine::{last_of, MINUTE_MICROS};
use crate::le::{
    le_bytes, lemma_byte_bounds, lemma_le_bytes_len, lemma_value_of_bytes, put_le,
};
use crate::network::{fed, Effect, Phase, SessionState};
use crate::price::{finite, is_finite, less, price_lt, rank};
use crate::protocol::{
    law_symbols_are_normal, lemma_text_len_is, sanitize_symbol, sanitized, symbol_byte, Opcode,
    QueryMetrics, PROTOCOL_VERSION,
};
use crate::text::{
    ascii_capitals, chars_of, text_of, to_uppercase, trim_chars, trimmed, uppercase,
};

verus! {

/// What a line that was typed says: without blanks around it and in capitals. There
/// is nothing if that is empty.
pub fn read_command(line: &str) -> (r: Option<String>)
    ensures
        match r {
            Some(text) => text@ == uppercase(trimmed(line@)) && text@.len() > 0,
            None => uppercase(trimmed(line@)).len() == 0,
        },
        is_ascii_chars(trimmed(line@)) ==> match r {
            Some(text) => text@ == ascii_capitals(trimmed(line@)),
            None => trimmed(line@).len() == 0,
        },
{
    let chars = chars_of(line);
    let (from, to) = trim_chars(&chars);
    let part = text_of(&chars, from, to);
    let text = to_uppercase(part.as_str());
    if text.as_str().is_empty() {
        None
    } else {
        Some(text)
    }
}

/// How long a command stays on show, in milliseconds.
pub const HELD_MILLIS: u64 = 2500;

/// Whether a command that was typed this many milliseconds ago is still shown.
pub fn still_held(elapsed_ms: u64) -> (r: bool)
    ensures
        r == (elapsed_ms < HELD_MILLIS),
        r <==> elapsed_ms <= 2499,
{
    elapsed_ms < HELD_MILLIS
}

/// How far apart the rates of a feed are taken at least, in milliseconds.
pub const RATE_MILLIS: u64 = 250;

/// Whether a rate is due, this many milliseconds after the last one was taken.
pub fn rate_due(elapsed_ms: u64) -> (r: bool)
    ensures
        r == (elapsed_ms >= RATE_MILLIS),
        r <==> elapsed_ms >= 250,
{
    elapsed_ms >= RATE_MILLIS
}

/// What a command means.
pub enum Command {
    Quit,
    /// Watch a symbol, which goes by this name.
    Watch(Seq<u8>, Seq<char>),
    /// Show what is wrong with it.
    Wrong(Seq<char>),
}

/// The preset that a command names by its number, if any.
pub open spec fn preset_number(cmd: Seq<char>) -> Option<int> {
    if cmd.len() == 1 && '1' <= cmd[0] <= '6' {
        Some(cmd[0] as u32 - '1' as u32)
    } else {
        None
    }
}

/// What a command means: to leave, to watch a preset, or to watch any symbol.
pub open spec fn meaning(cmd: Seq<char>) -> Command {
    if cmd == "Q"@ || cmd == "QUIT"@ || cmd == "EXIT"@ {
        Command::Quit
    } else {
        let name = match preset_number(cmd) {
            Some(i) => preset_name(i),
            None => cmd,
        };
        match sanitized(encode_utf8(name)) {
            Ok(symbol) => Command::Watch(symbol, name),
            Err(why) => Command::Wrong(why),
        }
    }
}

/// The prices of a window, up to `n`, once one more has come.
pub open spec fn slid(history: Seq<u64>, value: u64) -> Seq<u64> {
    last_of(history.push(value), CHART_WIDTH as int)
}

/// Appends a value; if there are too many then, the first one goes.
fn slide(history: &mut Vec<u64>, value: u64)
    requires
        old(history)@.len() <= CHART_WIDTH,
    ensures
        final(history)@ == slid(old(history)@, value),
        final(history)@.len() <= CHART_WIDTH,
{
    let ghost before = history@;
    history.push(value);
    if history.len() > CHART_WIDTH {
        history.remove(0);
        assert(history@ =~= before.push(value).skip(1));
    }
}

/// What a client watches, and what it keeps.
pub struct Watch {
    symbol: [u8; 8],
    prices: Vec<u64>,
    rates: Vec<u64>,
    prev_total_ticks: u64,
    status: String,
}

impl Watch {
    /// The symbol that is watched.
    pub closed spec fn symbol(self) -> Seq<u8> {
        self.symbol@
    }

    /// The last prices of the symbol.
    pub closed spec fn prices(self) -> Seq<u64> {
        self.prices@
    }

    /// The last rates of its feed.
    pub closed spec fn rates(self) -> Seq<u64> {
        self.rates@
    }

    /// How many ticks the server counted when the last rate was taken.
    pub closed spec fn ticks_before(self) -> u64 {
        self.prev_total_ticks
    }

    /// What was done last.
    pub closed spec fn status(self) -> Seq<char> {
        self.status@
    }

    /// No more is kept than is shown, and all prices are numbers.
    pub open spec fn wf(self) -> bool {
        &&& self.prices().len() <= CHART_WIDTH
        &&& self.rates().len() <= CHART_WIDTH
        &&& forall|i: int| 0 <= i < self.prices().len() ==> is_finite(#[trigger] self.prices()[i])
    }

    /// Nothing is kept of a symbol.
    pub open spec fn fresh(self) -> bool {
        &&& self.prices() == Seq::<u64>::empty()
        &&& self.rates() == Seq::<u64>::empty()
        &&& self.ticks_before() == 0
    }

    /// Watches a symbol; the first preset if the text is none.
    pub fn new(default_symbol: &str) -> (r: Self)
        ensures
            r.wf(),
            r.fresh(),
            r.status() == "System ready."@,
            r.symbol() == (match sanitized(encode_utf8(default_symbol@)) {
                Ok(symbol) => symbol,
                Err(_) => seq![65u8, 65u8, 80u8, 76u8, 0u8, 0u8, 0u8, 0u8],
            }),
    {
        let symbol: [u8; 8] = match sanitize_symbol(default_symbol.as_bytes()) {
            Ok(symbol) => symbol,
            Err(_) => {
                let first: [u8; 8] = [65, 65, 80, 76, 0, 0, 0, 0];
                assert(first@ =~= seq![65u8, 65u8, 80u8, 76u8, 0u8, 0u8, 0u8, 0u8]);
                first
            },
        };
        let r = Watch {
            symbol,
            prices: Vec::new(),
            rates: Vec::new(),
            prev_total_ticks: 0,
            status: String::from_str("System ready."),
        };
        assert(r.prices() =~= Seq::<u64>::empty());
        assert(r.rates() =~= Seq::<u64>::empty());
        r
    }

    /// Does what a command says; whether to leave.
    pub fn obey(&mut self, cmd: &str) -> (quit: bool)
        requires
            old(self).wf(),
        ensures
            final(self).wf(),
            match meaning(cmd@) {
                Command::Quit => quit && *final(self) == *old(self),
                Command::Watch(symbol, name) => {
                    &&& !quit
                    &&& final(self).fresh()
                    &&& final(self).symbol() == symbol
                    &&& final(self).status() == name + " Feed"@
                },
                Command::Wrong(why) => {
                    &&& !quit
                    &&& final(self).symbol() == old(self).symbol()
                    &&& final(self).prices() == old(self).prices()
                    &&& final(self).rates() == old(self).rates()
                    &&& final(self).ticks_before() == old(self).ticks_before()
                    &&& final(self).status() == "Error: "@ + why
                },
            },
    {
        if same_text(cmd, "Q") || same_text(cmd, "QUIT") || same_text(cmd, "EXIT") {
            return true;
        }
        let name: &str = match find_preset(cmd) {
            Some(i) => preset(i),
            None => cmd,
        };
        match sanitize_symbol(name.as_bytes()) {
            Ok(symbol) => {
                self.symbol = symbol;
                self.prices = Vec::new();
                self.rates = Vec::new();
                self.prev_total_ticks = 0;
                let mut status = String::from_str(name);
                status.append(" Feed");
                self.status = status;
                assert(self.prices() =~= Seq::<u64>::empty());
                assert(self.rates() =~= Seq::<u64>::empty());
            },
            Err(why) => {
                let mut status = String::from_str("Error: ");
                status.append(why);
                self.status = status;
            },
        }
        false
    }

    /// Takes the server's answer, if there was one: how the server is doing. The last
    /// price is kept if there are ticks and it is a number.
    pub fn observe(&mut self, answer: Option<&QueryMetrics>) -> (state: ServerStatus)
        requires
            old(self).wf(),
        ensures
            final(self).wf(),
            final(self).symbol() == old(self).symbol(),
            final(self).rates() == old(self).rates(),
            final(self).ticks_before() == old(self).ticks_before(),
            final(self).status() == old(self).status(),
            state == (match answer {
                None => ServerStatus::Offline,
                Some(m) => if m.count > 0 && is_finite(m.close) {
                    ServerStatus::OnlineStreaming
                } else {
                    ServerStatus::OnlineIdle
                },
            }),
            final(self).prices() == (if state == ServerStatus::OnlineStreaming {
                slid(old(self).prices(), answer->0.close)
            } else {
                old(self).prices()
            }),
    {
        match answer {
            None => ServerStatus::Offline,
            Some(m) => {
                if m.count > 0 && finite(m.close) {
                    slide(&mut self.prices, m.close);
                    ServerStatus::OnlineStreaming
                } else {
                    ServerStatus::OnlineIdle
                }
            },
        }
    }

    /// How many ticks have come since the last rate was taken, if that is known.
    pub fn new_ticks(&self, count: u64) -> (r: Option<u64>)
        ensures
            r == (if self.ticks_before() > 0 && count >= self.ticks_before() {
                Some((count - self.ticks_before()) as u64)
            } else {
                None
            }),
    {
        if self.prev_total_ticks > 0 && count >= self.prev_total_ticks {
            Some(count - self.prev_total_ticks)
        } else {
            None
        }
    }

    /// Takes a rate, and the number of ticks that the server counts now.
    pub fn note_rate(&mut self, rate: u64, count: u64)
        requires
            old(self).wf(),
        ensures
            final(self).wf(),
            final(self).symbol() == old(self).symbol(),
            final(self).prices() == old(self).prices(),
            final(self).status() == old(self).status(),
            final(self).rates() == slid(old(self).rates(), rate),
            final(self).ticks_before() == count,
    {
        slide(&mut self.rates, rate);
        self.prev_total_ticks = count;
    }

    /// The symbol that is watched.
    pub fn watched(&self) -> (r: &[u8; 8])
        ensures
            r@ == self.symbol(),
    {
        &self.symbol
    }

    /// The last prices of the symbol.
    pub fn price_history(&self) -> (r: &Vec<u64>)
        ensures
            r@ == self.prices(),
    {
        &self.prices
    }

    /// The last rates of its feed.
    pub fn tps_history(&self) -> (r: &Vec<u64>)
        ensures
            r@ == self.rates(),
    {
        &self.rates
    }

    /// The lowest and the highest price that a chart shows, or zeros if it shows none.
    pub fn chart_range(&self, state: ServerStatus) -> (r: (u64, u64))
        requires
            self.wf(),
        ensures
            self.prices().len() == 0 || state != ServerStatus::OnlineStreaming ==> r == (0u64, 0u64),
            self.prices().len() > 0 && state == ServerStatus::OnlineStreaming ==> bounds(
                self.prices(),
                r.0,
                r.1,
            ),
            self.prices().len() > 0 && state == ServerStatus::OnlineStreaming ==> forall|i: int|
                0 <= i < self.prices().len() ==> !price_lt(#[trigger] self.prices()[i], r.0)
                    && !price_lt(r.1, self.prices()[i]),
    {
        let streaming = match state {
            ServerStatus::OnlineStreaming => true,
            _ => false,
        };
        if !streaming || self.prices.len() == 0 {
            return (0, 0);
        }
        let ghost prices = self.prices@;
        let mut low: u64 = self.prices[0];
        let mut high: u64 = self.prices[0];
        let mut i: usize = 1;
        while i < self.prices.len()
            invariant
                1 <= i <= prices.len(),
                prices == self.prices@,
                forall|k: int| 0 <= k < prices.len() ==> is_finite(#[trigger] prices[k]),
                prices.contains(low),
                prices.contains(high),
                is_finite(low),
                is_finite(high),
                forall|k: int| 0 <= k < i ==> rank(low) <= #[trigger] rank(prices[k]) <= rank(high),
            decreases prices.len() - i,
        {
            assert(prices.contains(prices[i as int]));
            if less(self.prices[i], low) {
                low = self.prices[i];
            }
            if less(high, self.prices[i]) {
                high = self.prices[i];
            }
            i += 1;
        }
        assert forall|k: int| 0 <= k < prices.len() implies !price_lt(#[trigger] prices[k], low)
            && !price_lt(high, prices[k]) by {
            assert(rank(low) <= rank(prices[k]) <= rank(high));
        }
        (low, high)
    }

    /// What was done last.
    pub fn status_text(&self) -> (r: &str)
        ensures
            r@ == self.status(),
    {
        self.status.as_str()
    }

    /// The query that asks about the last minute of the symbol.
    pub fn request(&self) -> (r: [u8; 18])
        ensures
            r@ == query_message(self.symbol(), MINUTE_MICROS),
            r@ == query_message(self.symbol(), 60_000_000),
    {
        write_query(&self.symbol, MINUTE_MICROS)
    }
}

/// The number of the preset that a command names.
fn find_preset(cmd: &str) -> (r: Option<usize>)
    ensures
        match preset_number(cmd@) {
            Some(i) => r is Some && r->0 == i && 0 <= i < PRESET_COUNT,
            None => r is None,
        },
{
    let chars = chars_of(cmd);
    if chars.len() == 1 && '1' <= chars[0] && chars[0] <= '6' {
        Some((chars[0] as u32 - '1' as u32) as usize)
    } else {
        None
    }
}

/// A query: the version, the kind of the request, the symbol, and the time.
pub open spec fn query_message(symbol: Seq<u8>, since_ts: u64) -> Seq<u8> {
    seq![PROTOCOL_VERSION, Opcode::QuantAnalytics.spec_code()] + symbol + le_bytes(
        since_ts as nat,
        8,
    )
}

/// Writes a query.
pub fn write_query(symbol: &[u8; 8], since_ts: u64) -> (r: [u8; 18])
    ensures
        r@ == query_message(symbol@, since_ts),
{
    let mut r = [0u8; 18];
    r[0] = PROTOCOL_VERSION;
    r[1] = Opcode::QuantAnalytics.code();
    let mut i: usize = 0;
    while i < 8
        invariant
            i <= 8,
            r@[0] == PROTOCOL_VERSION,
            r@[1] == Opcode::QuantAnalytics.spec_code(),
            forall|j: int| 0 <= j < i ==> r@[2 + j] == symbol@[j],
        decreases 8 - i,
    {
        r[2 + i] = symbol[i];
        i += 1;
    }
    put_le(&mut r, 10, since_ts, 8);
    proof {
        lemma_le_bytes_len(since_ts as nat, 8);
        assert(r@ =~= query_message(symbol@, since_ts));
    }
    r
}

/// A server takes a client's query as it was meant, and is then ready to answer it.
pub proof fn law_queries_are_understood(
    s: SessionState,
    raw: Seq<u8>,
    symbol: Seq<u8>,
    since_ts: u64,
)
    requires
        s.phase == Phase::First,
        sanitized(raw) == Ok::<Seq<u8>, Seq<char>>(symbol),
    ensures
        ({
            let message = query_message(symbol, since_ts);
            let kind = fed(s, message.subrange(0, 1)).0;
            let query = fed(kind, message.subrange(1, 2)).0;
            let (end, effect) = fed(query, message.subrange(2, 18));
            &&& message.len() == 18
            &&& end.phase == Phase::Answering
            &&& effect == Effect::Answer(symbol, since_ts)
        }),
{
    let message = query_message(symbol, since_ts);
    law_symbols_are_normal(raw, symbol);
    lemma_byte_bounds();
    lemma_le_bytes_len(since_ts as nat, 8);
    lemma_value_of_bytes(since_ts as nat, 8);
    assert(message.len() == 18);
    assert(message.subrange(0, 1)[0] == PROTOCOL_VERSION);
    assert(message.subrange(1, 2)[0] == Opcode::QuantAnalytics.spec_code());
    let body = message.subrange(2, 18);
    assert(body.subrange(0, 8) =~= symbol);
    assert(body.subrange(8, 16) =~= le_bytes(since_ts as nat, 8));
}

/// A lowest and a highest price of some.
pub open spec fn bounds(prices: Seq<u64>, low: u64, high: u64) -> bool {
    &&& prices.contains(low)
    &&& prices.contains(high)
    &&& forall|i: int|
        0 <= i < prices.len() ==> rank(low) <= #[trigger] rank(prices[i]) <= rank(high)
}

/// The presets are symbols, and a number stands for its preset.
pub proof fn law_presets_are_symbols(i: int)
    requires
        0 <= i < PRESET_COUNT,
    ensures
        sanitized(encode_utf8(preset_name(i))) is Ok,
        meaning(seq![(49 + i) as u8 as char]) == Command::Watch(
            sanitized(encode_utf8(preset_name(i)))->Ok_0,
            preset_name(i),
        ),
{
    reveal_strlit("AAPL");
    reveal_strlit("MSFT");
    reveal_strlit("NVDA");
    reveal_strlit("TSLA");
    reveal_strlit("GOOGL");
    reveal_strlit("BTC");
    reveal_strlit("Q");
    reveal_strlit("QUIT");
    reveal_strlit("EXIT");
    let name = preset_name(i);
    let bytes = encode_utf8(name);
    assert(is_ascii_chars(name));
    is_ascii_chars_encode_utf8(name);
    assert forall|k: int| 0 <= k < bytes.len() implies symbol_byte(bytes[k]) && bytes[k] != 0 by {
        assert(name[k] as u8 == bytes[k]);
    }
    lemma_text_len_is(bytes, bytes.len() as int);
    let cmd = seq![(49 + i) as u8 as char];
    assert(cmd[0] as u32 == 49 + i);
    assert(cmd[0] != 'Q');
    assert(cmd != "Q"@) by {
        assert("Q"@[0] == 'Q');
    }
    assert(cmd.len() != "QUIT"@.len() && cmd.len() != "EXIT"@.len());
    assert(preset_number(cmd) == Some(i));
}

/// Three words leave. Any other text that is not a digit from 1 to 6 alone is taken as a
/// symbol, and is wrong if it is none.
pub proof fn law_other_commands_are_symbols(cmd: Seq<char>)
    ensures
        meaning(cmd) is Quit <==> cmd == "Q"@ || cmd == "QUIT"@ || cmd == "EXIT"@,
        cmd.len() != 1 || cmd[0] as u32 > 54 || cmd[0] as u32 <= 48 ==> match meaning(cmd) {
            Command::Quit => true,
            Command::Watch(symbol, name) => name == cmd && sanitized(encode_utf8(cmd)) == Ok::<
                Seq<u8>,
                Seq<char>,
            >(symbol),
            Command::Wrong(why) => sanitized(encode_utf8(cmd)) == Err::<Seq<u8>, Seq<char>>(why),
        },
{
}

/// A history ends with the value that came last, keeps the order of the others, and
/// loses its first value just if it was full.
pub proof fn law_histories_slide(history: Seq<u64>, value: u64)
    requires
        history.len() <= 62,
    ensures
        slid(history, value).last() == value,
        history.len() < 62 ==> slid(history, value) == history.push(value),
        history.len() == 62 ==> slid(history, value) == history.drop_first().push(value),
{
    if history.len() < 62 {
        assert(slid(history, value) =~= history.push(value));
    } else {
        assert(slid(history, value) =~= history.drop_first().push(value));
    }
}

/// A query has eighteen bytes: the version, the kind of the request, the symbol, and the
/// time.
pub proof fn law_queries_have_eighteen_bytes(symbol: Seq<u8>, since_ts: u64)
    requires
        symbol.len() == 8,
    ensures
        ({
            let r = query_message(symbol, since_ts);
            &&& r.len() == 18
            &&& r[0] == 1 && r[1] == 1
            &&& r.subrange(2, 10) == symbol
            &&& crate::le::le_value(r.subrange(10, 18)) == since_ts
        }),
{
    let r = query_message(symbol, since_ts);
    lemma_byte_bounds();
    lemma_le_bytes_len(since_ts as nat, 8);
    lemma_value_of_bytes(since_ts as nat, 8);
    assert(r.subrange(2, 10) =~= symbol);
    assert(r.subrange(10, 18) =~= le_bytes(since_ts as nat, 8));
}

/// No price of a chart is below its lowest or above its highest, and both are among the
/// prices.
pub proof fn law_bounds_hold_all_prices(prices: Seq<u64>, low: u64, high: u64, i: int)
    requires
        bounds(prices, low, high),
        0 <= i < prices.len(),
    ensures
        !price_lt(prices[i], low),
        !price_lt(high, prices[i]),
        prices.contains(low),
        prices.contains(high),
{
    assert(rank(low) <= rank(prices[i]) <= rank(high));
}

} // verus!
