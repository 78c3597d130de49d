//! The server's side of a connection: which bytes it reads, what it makes of them,
//! and what it does next. The same port takes binary requests and HTTP.
use vstd::prelude::*;
use vstd::slice::slice_subrange;
use vstd::utf8::{decode_utf8, encode_utf8, valid_utf8};

use crate::le::{
    get_le, le_bytes, le_value, lemma_byte_bounds, lemma_le_bytes_len, lemma_value_of_bytes,
};
use crate::protocol::{
    sanitize_symbol, sanitized, Opcode, MAX_BATCH_SIZE, PROTOCOL_VERSION, TICK_SIZE,
};
use crate::text::{
    chars_of, find_word, first_word, from_utf8_lossy, is_white, law_first_word_ends_at_white,
    leading, lemma_leading, text_of, utf8_lossy,
};

verus! {

/// How many connections are served at once.
pub const MAX_CONCURRENT_CONNS: usize = 100;

/// How many bytes of an HTTP request are read at most, but for one.
pub const HEAD_LIMIT: usize = 4096;

/// The batch is stored.
pub const REPLY_STORED: u8 = 0x00;

/// There are too many connections.
pub const REPLY_BUSY: u8 = 0x29;

/// The symbol of a batch is none.
pub const REPLY_BAD_SYMBOL: u8 = 0x50;

/// A batch is empty or too large.
pub const REPLY_BAD_COUNT: u8 = 0x51;

/// The store does not take batches any more.
pub const REPLY_NO_STORE: u8 = 0x53;

/// The batch could not be stored.
pub const REPLY_NOT_STORED: u8 = 0x54;

/// There is no such request.
pub const REPLY_BAD_OPCODE: u8 = 0xFE;

/// The request is of another version.
pub const REPLY_BAD_VERSION: u8 = 0xFF;

/// Whether one more connection is served, next to `active` others. If not, it is
/// told so.
pub fn make_room(active: usize) -> (r: Result<(), u8>)
    ensures
        active < MAX_CONCURRENT_CONNS ==> r is Ok,
        active >= MAX_CONCURRENT_CONNS ==> r is Err && r->Err_0 == REPLY_BUSY,
        active <= 99 <==> r is Ok,
        r is Err ==> r->Err_0 == 0x29,
{
    if active >= MAX_CONCURRENT_CONNS {
        Err(REPLY_BUSY)
    } else {
        Ok(())
    }
}

/// What the head of a batch announces: a symbol and the size of the raw ticks, or
/// why it is refused.
pub open spec fn batch_head(bytes: Seq<u8>) -> Result<(Seq<u8>, int), u8> {
    match sanitized(bytes.subrange(0, 8)) {
        Err(_) => Err(REPLY_BAD_SYMBOL),
        Ok(symbol) => {
            let count = le_value(bytes.subrange(8, 12));
            if count == 0 || count > MAX_BATCH_SIZE {
                Err(REPLY_BAD_COUNT)
            } else {
                Ok((symbol, count * TICK_SIZE))
            }
        },
    }
}

/// Reads the head of a batch.
pub fn parse_batch_head(bytes: &[u8]) -> (r: Result<([u8; 8], usize), u8>)
    requires
        bytes@.len() == 12,
    ensures
        match batch_head(bytes@) {
            Ok((symbol, size)) => r matches Ok(head) && head.0@ == symbol && head.1 == size,
            Err(code) => r is Err && r->Err_0 == code,
        },
{
    let symbol: [u8; 8] = match sanitize_symbol(slice_subrange(bytes, 0, 8)) {
        Ok(symbol) => symbol,
        Err(_) => {
            return Err(REPLY_BAD_SYMBOL);
        },
    };
    proof {
        lemma_byte_bounds();
    }
    let count: usize = get_le(bytes, 8, 4) as usize;
    if count == 0 || count > MAX_BATCH_SIZE {
        return Err(REPLY_BAD_COUNT);
    }
    Ok((symbol, count * TICK_SIZE))
}

/// What a query asks for: a symbol and a time. There is nothing to answer if the
/// symbol is none.
pub open spec fn query_of(bytes: Seq<u8>) -> Option<(Seq<u8>, u64)> {
    match sanitized(bytes.subrange(0, 8)) {
        Err(_) => None,
        Ok(symbol) => Some((symbol, le_value(bytes.subrange(8, 16)) as u64)),
    }
}

/// Reads a query.
pub fn parse_query(bytes: &[u8]) -> (r: Option<([u8; 8], u64)>)
    requires
        bytes@.len() == 16,
    ensures
        match query_of(bytes@) {
            Some((symbol, since_ts)) => r matches Some(q) && q.0@ == symbol && q.1 == since_ts,
            None => r is None,
        },
{
    match sanitize_symbol(slice_subrange(bytes, 0, 8)) {
        Ok(symbol) => Some((symbol, get_le(bytes, 8, 8))),
        Err(_) => None,
    }
}

/// The test for slashes.
pub open spec fn slash_test() -> spec_fn(char) -> bool {
    |c: char| c == '/'
}

/// How many slashes stand in front.
pub open spec fn slashes(s: Seq<char>) -> int {
    leading(s, slash_test())
}

/// The name that an HTTP request asks for: its first word without the slashes in
/// front.
pub open spec fn requested_name(text: Seq<char>) -> Seq<char> {
    let path = first_word(text);
    path.skip(slashes(path))
}

/// The symbol that an HTTP request asks for, with the name it goes by in the
/// request. There is none if the name is no symbol.
pub open spec fn requested_symbol(text: Seq<char>) -> Option<(Seq<u8>, Seq<char>)> {
    let name = requested_name(text);
    match sanitized(encode_utf8(name)) {
        Ok(symbol) => Some((symbol, name)),
        Err(_) => None,
    }
}

/// Finds the symbol that an HTTP request asks for. The text is that of the request
/// behind `GET `.
pub fn symbol_in_request(text: &str) -> (r: Option<([u8; 8], String)>)
    ensures
        match requested_symbol(text@) {
            Some((symbol, name)) => r matches Some(found) && found.0@ == symbol && found.1@ == name,
            None => r is None,
        },
{
    let chars = chars_of(text);
    let (from, to) = find_word(&chars);
    let ghost path = chars@.subrange(from as int, to as int);
    let mut at: usize = from;
    while at < to && chars[at] == '/'
        invariant
            from <= at <= to <= chars@.len(),
            path == chars@.subrange(from as int, to as int),
            forall|i: int| 0 <= i < at - from ==> path[i] == '/',
        decreases to - at,
    {
        assert(path[at - from] == chars@[at as int]);
        at += 1;
    }
    let name = text_of(&chars, at, to);
    proof {
        if at < to {
            assert(path[at - from] == chars@[at as int]);
        }
        lemma_leading(path, slash_test(), at - from);
        assert(chars@.subrange(at as int, to as int) =~= path.skip(at - from));
    }
    match sanitize_symbol(name.as_str().as_bytes()) {
        Ok(symbol) => Some((symbol, name)),
        Err(_) => None,
    }
}

/// Where a connection stands.
#[derive(Debug, Clone, Copy, PartialEq, Eq, Structural)]
pub enum Phase {
    /// The first byte of a request comes next.
    First,
    /// The rest of the word `GET` and a blank come next.
    Method,
    /// An HTTP request is read, byte by byte.
    Head,
    /// The kind of a binary request comes next.
    Kind,
    /// The head of a batch comes next.
    BatchHead,
    /// The ticks of a batch come next.
    Payload,
    /// A batch waits to be stored.
    Storing,
    /// The body of a query comes next.
    Query,
    /// An answer is sent.
    Answering,
    /// The connection is done.
    Closed,
}

/// What a connection is about, in mathematical terms.
pub struct SessionState {
    pub phase: Phase,
    /// What has come of an HTTP request.
    pub head: Seq<u8>,
    /// The symbol of the batch that is received.
    pub symbol: Seq<u8>,
    /// The size of the batch that is received.
    pub size: int,
}

/// What to do next about a connection.
#[derive(Debug)]
pub enum Action {
    /// Nothing but to read on.
    ReadOn,
    /// Send this byte, then close.
    Refuse(u8),
    /// Store the ticks that were just received, then tell how it went.
    Store([u8; 8]),
    /// Send this byte, then tell how it went.
    Acknowledge(u8),
    /// Send the statistics of a symbol since a time, then tell how it went.
    Answer([u8; 8], u64),
    /// Send the statistics of nothing and read on, even if they cannot be sent.
    AnswerEmpty,
    /// Send a chart of a symbol, by the name it was asked for, then close.
    ShowChart([u8; 8], String),
    /// Send a page that tells how to ask, then close.
    ShowGreeting,
    /// Close.
    Close,
}

/// What to do next about a connection, in mathematical terms.
pub enum Effect {
    ReadOn,
    Refuse(u8),
    Store(Seq<u8>),
    Acknowledge(u8),
    Answer(Seq<u8>, u64),
    AnswerEmpty,
    ShowChart(Seq<u8>, Seq<char>),
    ShowGreeting,
    Close,
}

impl View for Action {
    type V = Effect;

    open spec fn view(&self) -> Effect {
        match self {
            Action::ReadOn => Effect::ReadOn,
            Action::Refuse(code) => Effect::Refuse(*code),
            Action::Store(symbol) => Effect::Store(symbol@),
            Action::Acknowledge(code) => Effect::Acknowledge(*code),
            Action::Answer(symbol, since_ts) => Effect::Answer(symbol@, *since_ts),
            Action::AnswerEmpty => Effect::AnswerEmpty,
            Action::ShowChart(symbol, name) => Effect::ShowChart(symbol@, name@),
            Action::ShowGreeting => Effect::ShowGreeting,
            Action::Close => Effect::Close,
        }
    }
}

/// A connection in another phase.
pub open spec fn moved(s: SessionState, phase: Phase) -> SessionState {
    SessionState { phase, ..s }
}

/// The answer to an HTTP request whose text is known.
pub open spec fn page(text: Seq<char>) -> Effect {
    match requested_symbol(text) {
        Some((symbol, name)) => Effect::ShowChart(symbol, name),
        None => Effect::ShowGreeting,
    }
}

/// An HTTP request is complete: it ends with an empty line, or has grown too long.
pub open spec fn head_complete(head: Seq<u8>) -> bool {
    let n = head.len();
    ||| n >= 4 && head[n - 4] == 13 && head[n - 3] == 10 && head[n - 2] == 13 && head[n - 1] == 10
    ||| n > HEAD_LIMIT
}

/// How many bytes come next.
pub open spec fn wanted(s: SessionState) -> Option<int> {
    match s.phase {
        Phase::First | Phase::Head | Phase::Kind => Some(1),
        Phase::Method => Some(3),
        Phase::BatchHead => Some(12),
        Phase::Payload => Some(s.size),
        Phase::Query => Some(16),
        Phase::Storing | Phase::Answering | Phase::Closed => None,
    }
}

/// Where a connection stands once the bytes that it waits for have come, and what to
/// do.
pub open spec fn fed(s: SessionState, bytes: Seq<u8>) -> (SessionState, Effect) {
    match s.phase {
        Phase::First => if bytes[0] == 71 {
            (moved(s, Phase::Method), Effect::ReadOn)
        } else if bytes[0] == PROTOCOL_VERSION {
            (moved(s, Phase::Kind), Effect::ReadOn)
        } else {
            (moved(s, Phase::Closed), Effect::Refuse(REPLY_BAD_VERSION))
        },
        Phase::Method => if bytes == seq![69u8, 84u8, 32u8] {
            (SessionState { phase: Phase::Head, head: Seq::empty(), ..s }, Effect::ReadOn)
        } else {
            (moved(s, Phase::Closed), Effect::Close)
        },
        Phase::Head => {
            let head = s.head.push(bytes[0]);
            if head_complete(head) {
                (
                    SessionState { phase: Phase::Closed, head, ..s },
                    page(utf8_lossy(head)),
                )
            } else {
                (SessionState { head, ..s }, Effect::ReadOn)
            }
        },
        Phase::Kind => if bytes[0] == Opcode::IngestBatch.spec_code() {
            (moved(s, Phase::BatchHead), Effect::ReadOn)
        } else if bytes[0] == Opcode::QuantAnalytics.spec_code() {
            (moved(s, Phase::Query), Effect::ReadOn)
        } else {
            (moved(s, Phase::Closed), Effect::Refuse(REPLY_BAD_OPCODE))
        },
        Phase::BatchHead => match batch_head(bytes) {
            Ok((symbol, size)) => (
                SessionState { phase: Phase::Payload, symbol, size, ..s },
                Effect::ReadOn,
            ),
            Err(code) => (moved(s, Phase::Closed), Effect::Refuse(code)),
        },
        Phase::Payload => (moved(s, Phase::Storing), Effect::Store(s.symbol)),
        Phase::Query => match query_of(bytes) {
            Some((symbol, since_ts)) => (
                moved(s, Phase::Answering),
                Effect::Answer(symbol, since_ts),
            ),
            None => (moved(s, Phase::First), Effect::AnswerEmpty),
        },
        _ => (s, Effect::Close),
    }
}

/// Where a connection stands if the bytes that it waits for do not come, and what to
/// do: an HTTP request is taken as it is, anything else is given up.
pub open spec fn starved(s: SessionState) -> (SessionState, Effect) {
    (
        moved(s, Phase::Closed),
        if s.phase == Phase::Head {
            page(utf8_lossy(s.head))
        } else {
            Effect::Close
        },
    )
}

/// How the storing of a batch went.
#[derive(Debug, Clone, Copy, PartialEq, Eq, Structural)]
pub enum Outcome {
    Stored,
    /// The store does not take batches any more.
    NoStore,
    Failed,
}

/// Where a connection stands once its batch was stored or not, and what to do.
pub open spec fn after_store(s: SessionState, outcome: Outcome) -> (SessionState, Effect) {
    match outcome {
        Outcome::Stored => (moved(s, Phase::Answering), Effect::Acknowledge(REPLY_STORED)),
        Outcome::NoStore => (moved(s, Phase::Closed), Effect::Refuse(REPLY_NO_STORE)),
        Outcome::Failed => (moved(s, Phase::Closed), Effect::Refuse(REPLY_NOT_STORED)),
    }
}

/// Where a connection stands once its answer was sent or not.
pub open spec fn after_answer(s: SessionState, sent: bool) -> SessionState {
    moved(
        s,
        if sent {
            Phase::First
        } else {
            Phase::Closed
        },
    )
}

/// A connection under way.
pub struct Session {
    phase: Phase,
    head: Vec<u8>,
    symbol: [u8; 8],
    size: usize,
}

impl View for Session {
    type V = SessionState;

    closed spec fn view(&self) -> SessionState {
        SessionState {
            phase: self.phase,
            head: self.head@,
            symbol: self.symbol@,
            size: self.size as int,
        }
    }
}

impl Session {
    /// A connection of which nothing has been read.
    pub fn new() -> (r: Self)
        ensures
            r@.phase == Phase::First,
            r@.head == Seq::<u8>::empty(),
            r@.symbol == Seq::new(8, |i: int| 0u8),
            r@.size == 0,
            wanted(r@) == Some(1int),
    {
        let r = Session { phase: Phase::First, head: Vec::new(), symbol: [0u8; 8], size: 0 };
        assert(r@.symbol =~= Seq::new(8, |i: int| 0u8));
        r
    }

    /// How many bytes to read next; none if something else is to be done first, or if
    /// the connection is done.
    pub fn wants(&self) -> (r: Option<usize>)
        ensures
            match wanted(self@) {
                Some(n) => r is Some && r->0 == n,
                None => r is None,
            },
    {
        match self.phase {
            Phase::First | Phase::Head | Phase::Kind => Some(1),
            Phase::Method => Some(3),
            Phase::BatchHead => Some(12),
            Phase::Payload => Some(self.size),
            Phase::Query => Some(16),
            Phase::Storing | Phase::Answering | Phase::Closed => None,
        }
    }

    /// Takes the bytes that came next.
    pub fn feed(&mut self, bytes: &[u8]) -> (r: Action)
        requires
            wanted(old(self)@) == Some(bytes@.len() as int),
        ensures
            (final(self)@, r@) == fed(old(self)@, bytes@),
            old(self)@.phase == Phase::Head && head_complete(final(self)@.head) && valid_utf8(
                final(self)@.head,
            ) ==> r@ == page(decode_utf8(final(self)@.head)),
    {
        match self.phase {
            Phase::First => {
                if bytes[0] == 71 {
                    self.phase = Phase::Method;
                    Action::ReadOn
                } else if bytes[0] == PROTOCOL_VERSION {
                    self.phase = Phase::Kind;
                    Action::ReadOn
                } else {
                    self.phase = Phase::Closed;
                    Action::Refuse(REPLY_BAD_VERSION)
                }
            },
            Phase::Method => {
                assert(bytes@ == seq![69u8, 84u8, 32u8] <==> bytes@[0] == 69 && bytes@[1] == 84
                    && bytes@[2] == 32) by {
                    if bytes@[0] == 69 && bytes@[1] == 84 && bytes@[2] == 32 {
                        assert(bytes@ =~= seq![69u8, 84u8, 32u8]);
                    }
                }
                if bytes[0] == 69 && bytes[1] == 84 && bytes[2] == 32 {
                    self.phase = Phase::Head;
                    self.head = Vec::new();
                    Action::ReadOn
                } else {
                    self.phase = Phase::Closed;
                    Action::Close
                }
            },
            Phase::Head => {
                self.head.push(bytes[0]);
                if complete(&self.head) {
                    self.phase = Phase::Closed;
                    show_page(self.head.as_slice())
                } else {
                    Action::ReadOn
                }
            },
            Phase::Kind => match Opcode::from_u8(bytes[0]) {
                Some(Opcode::IngestBatch) => {
                    self.phase = Phase::BatchHead;
                    Action::ReadOn
                },
                Some(Opcode::QuantAnalytics) => {
                    self.phase = Phase::Query;
                    Action::ReadOn
                },
                None => {
                    assert(Opcode::IngestBatch.spec_code() != bytes@[0]);
                    assert(Opcode::QuantAnalytics.spec_code() != bytes@[0]);
                    self.phase = Phase::Closed;
                    Action::Refuse(REPLY_BAD_OPCODE)
                },
            },
            Phase::BatchHead => match parse_batch_head(bytes) {
                Ok((symbol, size)) => {
                    self.phase = Phase::Payload;
                    self.symbol = symbol;
                    self.size = size;
                    Action::ReadOn
                },
                Err(code) => {
                    self.phase = Phase::Closed;
                    Action::Refuse(code)
                },
            },
            Phase::Payload => {
                self.phase = Phase::Storing;
                Action::Store(self.symbol)
            },
            Phase::Query => match parse_query(bytes) {
                Some((symbol, since_ts)) => {
                    self.phase = Phase::Answering;
                    Action::Answer(symbol, since_ts)
                },
                None => {
                    self.phase = Phase::First;
                    Action::AnswerEmpty
                },
            },
            Phase::Storing | Phase::Answering | Phase::Closed => Action::Close,
        }
    }

    /// The bytes that come next cannot be read.
    pub fn starve(&mut self) -> (r: Action)
        ensures
            (final(self)@, r@) == starved(old(self)@),
            old(self)@.phase == Phase::Head && valid_utf8(old(self)@.head) ==> r@ == page(
                decode_utf8(old(self)@.head),
            ),
    {
        let phase = self.phase;
        self.phase = Phase::Closed;
        match phase {
            Phase::Head => show_page(self.head.as_slice()),
            _ => Action::Close,
        }
    }

    /// The batch was stored, or not.
    pub fn stored(&mut self, outcome: Outcome) -> (r: Action)
        requires
            old(self)@.phase == Phase::Storing,
        ensures
            (final(self)@, r@) == after_store(old(self)@, outcome),
    {
        match outcome {
            Outcome::Stored => {
                self.phase = Phase::Answering;
                Action::Acknowledge(REPLY_STORED)
            },
            Outcome::NoStore => {
                self.phase = Phase::Closed;
                Action::Refuse(REPLY_NO_STORE)
            },
            Outcome::Failed => {
                self.phase = Phase::Closed;
                Action::Refuse(REPLY_NOT_STORED)
            },
        }
    }

    /// The answer was sent, or not.
    pub fn answered(&mut self, sent: bool)
        requires
            old(self)@.phase == Phase::Answering,
        ensures
            final(self)@ == after_answer(old(self)@, sent),
    {
        self.phase = if sent {
            Phase::First
        } else {
            Phase::Closed
        };
    }
}

/// Whether an HTTP request is complete.
fn complete(head: &Vec<u8>) -> (r: bool)
    ensures
        r == head_complete(head@),
{
    let n: usize = head.len();
    (n >= 4 && head[n - 4] == 13 && head[n - 3] == 10 && head[n - 2] == 13 && head[n - 1] == 10)
        || n > HEAD_LIMIT
}

/// The answer to an HTTP request.
pub fn show_page(head: &[u8]) -> (r: Action)
    ensures
        r@ == page(utf8_lossy(head@)),
        valid_utf8(head@) ==> r@ == page(decode_utf8(head@)),
{
    let text = from_utf8_lossy(head);
    match symbol_in_request(text.as_str()) {
        Some((symbol, name)) => Action::ShowChart(symbol, name),
        None => Action::ShowGreeting,
    }
}

/// A connection at the start of a request.
pub open spec fn ready(s: SessionState) -> bool {
    s.phase == Phase::First
}

/// A refusal, a page and giving up are the end of a connection: nothing is read any
/// more. After anything else it goes on: there is more to read, or the caller has
/// something to tell first.
pub proof fn law_connections_end(s: SessionState, bytes: Seq<u8>, outcome: Outcome, sent: bool)
    requires
        wanted(s) is Some,
    ensures
        ({
            let (next, effect) = fed(s, bytes);
            let over = effect is Refuse || effect is ShowChart || effect is ShowGreeting
                || effect is Close;
            &&& over <==> next.phase == Phase::Closed
            &&& over ==> wanted(next) is None
            &&& effect is ReadOn || effect is AnswerEmpty ==> wanted(next) is Some
            &&& effect is Store <==> next.phase == Phase::Storing
            &&& effect is Answer <==> next.phase == Phase::Answering
        }),
        starved(s).0.phase == Phase::Closed,
        after_store(s, outcome).1 is Refuse <==> after_store(s, outcome).0.phase == Phase::Closed,
        after_store(s, outcome).1 is Acknowledge <==> outcome == Outcome::Stored,
        sent <==> wanted(after_answer(s, sent)) == Some(1int),
{
}

/// A batch is stored only after a head that names a symbol and between one and the
/// largest number of ticks, and then as many bytes as those ticks have are read.
pub proof fn law_batches_are_bounded(s: SessionState, head: Seq<u8>)
    requires
        s.phase == Phase::BatchHead,
        head.len() == 12,
    ensures
        ({
            let (next, effect) = fed(s, head);
            ||| effect is Refuse
            ||| {
                &&& next.phase == Phase::Payload
                &&& sanitized(head.subrange(0, 8)) == Ok::<Seq<u8>, Seq<char>>(next.symbol)
                &&& TICK_SIZE <= next.size <= MAX_BATCH_SIZE * TICK_SIZE
                &&& next.size % (TICK_SIZE as int) == 0
            }
        }),
{
}

/// A query for something that is no symbol is answered all the same, with the
/// statistics of nothing, and the connection stays open.
pub proof fn law_bad_queries_are_answered(s: SessionState, query: Seq<u8>)
    requires
        s.phase == Phase::Query,
        query.len() == 16,
        sanitized(query.subrange(0, 8)) is Err,
    ensures
        fed(s, query).1 == Effect::AnswerEmpty,
        ready(fed(s, query).0),
{
}

/// The first byte of a request decides how it is read: the letter `G` starts an HTTP
/// request, a 1 starts a binary request, and anything else is refused.
pub proof fn law_first_byte_decides(s: SessionState, b: u8)
    requires
        s.phase == Phase::First,
    ensures
        ({
            let (next, effect) = fed(s, seq![b]);
            &&& b == 0x47 ==> next.phase == Phase::Method && effect == Effect::ReadOn && wanted(
                next,
            ) == Some(3int)
            &&& b == 0x01 ==> next.phase == Phase::Kind && effect == Effect::ReadOn && wanted(next)
                == Some(1int)
            &&& b != 0x47 && b != 0x01 ==> effect == Effect::Refuse(0xFF)
        }),
{
}

/// The second byte of a binary request decides what it asks for: a batch to be stored or
/// statistics. Anything else is refused.
pub proof fn law_second_byte_decides(s: SessionState, b: u8)
    requires
        s.phase == Phase::Kind,
    ensures
        ({
            let (next, effect) = fed(s, seq![b]);
            &&& b == 0x11 ==> next.phase == Phase::BatchHead && wanted(next) == Some(12int)
            &&& b == 0x01 ==> next.phase == Phase::Query && wanted(next) == Some(16int)
            &&& b == 0x11 || b == 0x01 ==> effect == Effect::ReadOn
            &&& b != 0x11 && b != 0x01 ==> effect == Effect::Refuse(0xFE)
        }),
{
}

/// The head of a batch, written as a symbol and a number of ticks: the batch is taken
/// just if the symbol is one and there are between 1 and 100000 ticks. Then sixteen
/// bytes for each tick come next, and the batch is stored for that symbol.
pub proof fn law_batch_heads(s: SessionState, raw: Seq<u8>, count: nat, payload: Seq<u8>)
    requires
        s.phase == Phase::BatchHead,
        raw.len() == 8,
        count < 0x1_0000_0000,
    ensures
        ({
            let (next, effect) = fed(s, raw + le_bytes(count, 4));
            match sanitized(raw) {
                Err(_) => effect == Effect::Refuse(0x50),
                Ok(symbol) => {
                    &&& !(1 <= count <= 100_000) ==> effect == Effect::Refuse(0x51)
                    &&& 1 <= count <= 100_000 ==> {
                        &&& effect == Effect::ReadOn
                        &&& wanted(next) == Some(16 * count as int)
                        &&& fed(next, payload).1 == Effect::Store(symbol)
                        &&& fed(next, payload).0.phase == Phase::Storing
                    }
                },
            }
        }),
{
    let bytes = raw + le_bytes(count, 4);
    lemma_byte_bounds();
    lemma_le_bytes_len(count, 4);
    lemma_value_of_bytes(count, 4);
    assert(bytes.subrange(0, 8) =~= raw);
    assert(bytes.subrange(8, 12) =~= le_bytes(count, 4));
}

/// A query, written as a symbol and a time, is answered for just that symbol and time.
pub proof fn law_queries_ask_for_symbol_and_time(s: SessionState, raw: Seq<u8>, since_ts: u64)
    requires
        s.phase == Phase::Query,
        raw.len() == 8,
    ensures
        ({
            let (next, effect) = fed(s, raw + le_bytes(since_ts as nat, 8));
            match sanitized(raw) {
                Err(_) => effect == Effect::AnswerEmpty && next.phase == Phase::First,
                Ok(symbol) => effect == Effect::Answer(symbol, since_ts) && next.phase
                    == Phase::Answering,
            }
        }),
{
    let bytes = raw + le_bytes(since_ts as nat, 8);
    lemma_byte_bounds();
    lemma_le_bytes_len(since_ts as nat, 8);
    lemma_value_of_bytes(since_ts as nat, 8);
    assert(bytes.subrange(0, 8) =~= raw);
    assert(bytes.subrange(8, 16) =~= le_bytes(since_ts as nat, 8));
}

/// The reply to a batch tells how the storing went, and only after success can another
/// request follow.
pub proof fn law_replies_to_batches(s: SessionState)
    ensures
        after_store(s, Outcome::Stored).1 == Effect::Acknowledge(0x00),
        after_store(s, Outcome::NoStore).1 == Effect::Refuse(0x53),
        after_store(s, Outcome::Failed).1 == Effect::Refuse(0x54),
        after_store(s, Outcome::Stored).0.phase == Phase::Answering,
        after_answer(after_store(s, Outcome::Stored).0, true).phase == Phase::First,
        after_answer(s, false).phase == Phase::Closed,
{
}

/// An HTTP request is complete as soon as it ends with an empty line, or has more than
/// 4096 bytes, and not before.
pub proof fn law_http_requests_end(front: Seq<u8>, head: Seq<u8>)
    ensures
        head_complete(front + seq![13u8, 10u8, 13u8, 10u8]),
        head.len() > 4096 ==> head_complete(head),
        head_complete(head) && head.len() <= 4096 ==> head == head.take(head.len() - 4) + seq![
            13u8,
            10u8,
            13u8,
            10u8,
        ],
{
    let whole = front + seq![13u8, 10u8, 13u8, 10u8];
    let n = whole.len() as int;
    assert(whole[n - 4] == 13 && whole[n - 3] == 10 && whole[n - 2] == 13 && whole[n - 1] == 10);
    if head_complete(head) && head.len() <= 4096 {
        assert(head =~= head.take(head.len() - 4) + seq![13u8, 10u8, 13u8, 10u8]);
    }
}

/// An HTTP request is read byte by byte and kept whole. Once it is complete, or nothing
/// more comes, what has come is answered.
pub proof fn law_http_requests_are_kept_whole(s: SessionState, b: u8)
    requires
        s.phase == Phase::Head,
    ensures
        ({
            let (next, effect) = fed(s, seq![b]);
            &&& next.head == s.head + seq![b]
            &&& head_complete(next.head) ==> effect == page(utf8_lossy(next.head))
            &&& !head_complete(next.head) ==> effect == Effect::ReadOn && next.phase == Phase::Head
            &&& starved(s).1 == page(utf8_lossy(s.head))
        }),
{
    assert(s.head.push(b) =~= s.head + seq![b]);
}

/// Behind `GET` and a blank an HTTP request starts with nothing kept; any other word ends
/// the connection without an answer.
pub proof fn law_only_get_is_read(s: SessionState, bytes: Seq<u8>)
    requires
        s.phase == Phase::Method,
        bytes.len() == 3,
    ensures
        ({
            let (next, effect) = fed(s, bytes);
            let get = bytes[0] == 0x45 && bytes[1] == 0x54 && bytes[2] == 0x20;
            &&& get ==> next.phase == Phase::Head && next.head.len() == 0 && effect
                == Effect::ReadOn && wanted(next) == Some(1int)
            &&& !get ==> effect == Effect::Close
        }),
{
    if bytes[0] == 0x45 && bytes[1] == 0x54 && bytes[2] == 0x20 {
        assert(bytes =~= seq![69u8, 84u8, 32u8]);
    }
}

/// The name in an HTTP request is its first word, without the slashes in front of it,
/// whatever follows. If it is a symbol, its chart is shown; otherwise a greeting is.
pub proof fn law_requests_name_a_symbol(
    blanks: Seq<char>,
    front: Seq<char>,
    name: Seq<char>,
    rest: Seq<char>,
)
    requires
        forall|i: int| 0 <= i < blanks.len() ==> is_white(#[trigger] blanks[i]),
        forall|i: int| 0 <= i < front.len() ==> #[trigger] front[i] == '/',
        forall|i: int| 0 <= i < name.len() ==> !is_white(#[trigger] name[i]),
        name.len() > 0 ==> name[0] != '/',
        rest.len() > 0 ==> front.len() + name.len() > 0 && is_white(rest[0]),
    ensures
        ({
            let text = blanks + (front + name) + rest;
            &&& requested_name(text) == name
            &&& match sanitized(encode_utf8(name)) {
                Ok(symbol) => page(text) == Effect::ShowChart(symbol, name),
                Err(_) => page(text) == Effect::ShowGreeting,
            }
        }),
{
    let word = front + name;
    let n = front.len() as int;
    assert forall|i: int| 0 <= i < word.len() implies !is_white(#[trigger] word[i]) by {
        if i < n {
            assert(word[i] == front[i]);
        } else {
            assert(word[i] == name[i - n]);
        }
    }
    law_first_word_ends_at_white(blanks, word, rest);
    assert forall|i: int| 0 <= i < n implies slash_test()(#[trigger] word[i]) by {
        assert(word[i] == front[i]);
    }
    if name.len() > 0 {
        assert(word[n] == name[0]);
    }
    lemma_leading(word, slash_test(), n);
    assert(word.skip(n) =~= name);
}

} // verus!
