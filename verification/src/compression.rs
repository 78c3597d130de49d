//! Frames: up to a thousand ticks in time order, compressed, behind a header that
//! tells their time span, their number and the length of the compressed bytes.
use vstd::arithmetic::power2::lemma2_to64_rest;
use vstd::prelude::*;

use crate::bits::{
    bits_value, bytes_bits, check_padding, lemma_bits_of_packed, lemma_bytes_bits_len,
    lemma_value_bits_len, lemma_value_of_bits, pack_bits, padded, take_bits, value_bits, BitReader,
    BitWriter,
};
use crate::error::Error;
use crate::gorilla::{
    dod_at, dod_bits, lemma_dod_len, lemma_dod_round_trip, lemma_take_field, lemma_xor_len,
    lemma_xor_round_trip, next_window, read_delta_of_delta, read_xor, window_wf,
    write_delta_of_delta, write_xor, xor_at, xor_bits, Window,
};
use crate::le::{
    get_le, le_bytes, le_value, lemma_byte_bounds, lemma_bytes_of_value, lemma_le_bytes_len,
    lemma_le_value_bound, lemma_value_of_bytes, put_le,
};
use crate::protocol::{Tick, TICK_SIZE};

verus! {

pub const FRAME_HEADER_SIZE: usize = 24;

pub const FRAME_TICK_COUNT: usize = 1_000;

/// What stands ahead of a frame's compressed bytes.
#[derive(Debug, Clone, Copy, PartialEq, Eq, Structural)]
pub struct FrameHeader {
    /// The timestamp of the first tick.
    pub start_ts: u64,
    /// The timestamp of the last tick.
    pub end_ts: u64,
    /// The number of ticks.
    pub count: u32,
    /// The number of compressed bytes.
    pub comp_len: u32,
}

/// The bytes of a header: its fields in order, each little-endian.
pub open spec fn header_bytes(h: FrameHeader) -> Seq<u8> {
    le_bytes(h.start_ts as nat, 8) + le_bytes(h.end_ts as nat, 8) + le_bytes(h.count as nat, 4)
        + le_bytes(h.comp_len as nat, 4)
}

/// The header that 24 bytes hold.
pub open spec fn header_of(s: Seq<u8>) -> FrameHeader {
    FrameHeader {
        start_ts: le_value(s.subrange(0, 8)) as u64,
        end_ts: le_value(s.subrange(8, 16)) as u64,
        count: le_value(s.subrange(16, 20)) as u32,
        comp_len: le_value(s.subrange(20, 24)) as u32,
    }
}

impl FrameHeader {
    /// The bytes that stand for the header.
    pub fn to_bytes(self) -> (r: [u8; FRAME_HEADER_SIZE])
        ensures
            r@ == header_bytes(self),
    {
        let mut bytes = [0u8; FRAME_HEADER_SIZE];
        put_le(&mut bytes, 0, self.start_ts, 8);
        put_le(&mut bytes, 8, self.end_ts, 8);
        put_le(&mut bytes, 16, self.count as u64, 4);
        put_le(&mut bytes, 20, self.comp_len as u64, 4);
        proof {
            lemma_le_bytes_len(self.start_ts as nat, 8);
            lemma_le_bytes_len(self.end_ts as nat, 8);
            lemma_le_bytes_len(self.count as nat, 4);
            lemma_le_bytes_len(self.comp_len as nat, 4);
            assert(bytes@ =~= header_bytes(self));
        }
        bytes
    }

    /// The header that the bytes stand for.
    pub fn from_bytes(bytes: &[u8; FRAME_HEADER_SIZE]) -> (h: Self)
        ensures
            h == header_of(bytes@),
    {
        assert(bytes@.subrange(0, FRAME_HEADER_SIZE as int) =~= bytes@);
        Self::read_at(bytes.as_slice(), 0)
    }

    /// The header that stands in `bytes` at `at`.
    pub fn read_at(bytes: &[u8], at: usize) -> (h: Self)
        requires
            at + FRAME_HEADER_SIZE <= bytes.len(),
        ensures
            h == header_of(bytes@.subrange(at as int, at + FRAME_HEADER_SIZE)),
    {
        proof {
            lemma_byte_bounds();
            let s = bytes@.subrange(at as int, at + 24);
            assert(s.subrange(0, 8) =~= bytes@.subrange(at as int, at + 8));
            assert(s.subrange(8, 16) =~= bytes@.subrange(at + 8, at + 16));
            assert(s.subrange(16, 20) =~= bytes@.subrange(at + 16, at + 20));
            assert(s.subrange(20, 24) =~= bytes@.subrange(at + 20, at + 24));
        }
        FrameHeader {
            start_ts: get_le(bytes, at, 8),
            end_ts: get_le(bytes, at + 8, 8),
            count: get_le(bytes, at + 16, 4) as u32,
            comp_len: get_le(bytes, at + 20, 4) as u32,
        }
    }
}

/// A header survives being written and read back, and the other way round.
pub proof fn law_header_round_trip(h: FrameHeader, s: Seq<u8>)
    requires
        s.len() == FRAME_HEADER_SIZE,
    ensures
        header_bytes(h).len() == FRAME_HEADER_SIZE,
        header_of(header_bytes(h)) == h,
        header_bytes(header_of(s)) == s,
{
    lemma_byte_bounds();
    lemma_le_bytes_len(h.start_ts as nat, 8);
    lemma_le_bytes_len(h.end_ts as nat, 8);
    lemma_le_bytes_len(h.count as nat, 4);
    lemma_le_bytes_len(h.comp_len as nat, 4);
    lemma_value_of_bytes(h.start_ts as nat, 8);
    lemma_value_of_bytes(h.end_ts as nat, 8);
    lemma_value_of_bytes(h.count as nat, 4);
    lemma_value_of_bytes(h.comp_len as nat, 4);
    let b = header_bytes(h);
    assert(b.subrange(0, 8) =~= le_bytes(h.start_ts as nat, 8));
    assert(b.subrange(8, 16) =~= le_bytes(h.end_ts as nat, 8));
    assert(b.subrange(16, 20) =~= le_bytes(h.count as nat, 4));
    assert(b.subrange(20, 24) =~= le_bytes(h.comp_len as nat, 4));
    lemma_bytes_of_value(s.subrange(0, 8));
    lemma_bytes_of_value(s.subrange(8, 16));
    lemma_bytes_of_value(s.subrange(16, 20));
    lemma_bytes_of_value(s.subrange(20, 24));
    lemma_le_value_bound(s.subrange(0, 8));
    lemma_le_value_bound(s.subrange(8, 16));
    lemma_le_value_bound(s.subrange(16, 20));
    lemma_le_value_bound(s.subrange(20, 24));
    assert(s =~= s.subrange(0, 8) + s.subrange(8, 16) + s.subrange(16, 20) + s.subrange(20, 24));
}

/// A header that some frame can have.
pub open spec fn header_ok(h: FrameHeader) -> bool {
    &&& 1 <= h.count <= FRAME_TICK_COUNT
    &&& h.start_ts <= h.end_ts
    &&& 8 <= h.comp_len <= 24 * h.count + 16
}

/// Accepts the headers that some frame can have.
pub fn validate_header(header: FrameHeader) -> (r: Result<(), Error>)
    ensures
        r == (if header_ok(header) {
            Ok::<(), Error>(())
        } else {
            Err(Error::InvalidFrameHeader)
        }),
        r is Ok <==> {
            &&& 1 <= header.count <= 1_000
            &&& header.start_ts <= header.end_ts
            &&& 8 <= header.comp_len <= 24 * header.count + 16
        },
{
    if header.count == 0 || header.count as usize > FRAME_TICK_COUNT || header.start_ts
        > header.end_ts || header.comp_len < 8 || header.comp_len > header.count * 24 + 16 {
        return Err(Error::InvalidFrameHeader);
    }
    Ok(())
}

/// No tick is older than one ahead of it.
pub open spec fn ordered(ticks: Seq<Tick>) -> bool {
    forall|i: int, j: int|
        0 <= i <= j < ticks.len() ==> (#[trigger] ticks[i]).timestamp <= (
        #[trigger] ticks[j]).timestamp
}

/// The time step that leads to tick `i`.
pub open spec fn delta(ticks: Seq<Tick>, i: int) -> int {
    ticks[i].timestamp - ticks[i - 1].timestamp
}

/// The code of the time of tick `i`: the first step in full, then the changes.
pub open spec fn time_bits(ticks: Seq<Tick>, i: int) -> Seq<bool> {
    if i == 1 {
        value_bits(delta(ticks, 1) as nat, 64)
    } else {
        dod_bits(delta(ticks, i) - delta(ticks, i - 1))
    }
}

/// The code of the first `n` ticks without the first timestamp, and the window
/// that is in force after it.
pub open spec fn coded(ticks: Seq<Tick>, n: int) -> (Seq<bool>, Window)
    decreases n,
{
    if n <= 1 {
        (value_bits(ticks[0].price_bits as nat, 64), None)
    } else {
        let (bits, window) = coded(ticks, n - 1);
        let previous = ticks[n - 2].price_bits;
        let current = ticks[n - 1].price_bits;
        (
            bits + time_bits(ticks, n - 1) + xor_bits(previous, current, window),
            next_window(previous, current, window),
        )
    }
}

/// The compressed bytes of a frame.
pub open spec fn frame_payload(ticks: Seq<Tick>) -> Seq<u8> {
    pack_bits(coded(ticks, ticks.len() as int).0)
}

/// Compresses the ticks of one frame.
pub fn encode_frame(ticks: &[Tick]) -> (r: Result<Vec<u8>, Error>)
    requires
        ticks@.len() >= 1,
    ensures
        ordered(ticks@) ==> r is Ok && r->Ok_0@ == frame_payload(ticks@),
        !ordered(ticks@) ==> r is Err && r->Err_0 == Error::UnorderedTicks,
{
    let mut writer = BitWriter::new(Vec::new());
    let mut previous_price: u64 = ticks[0].price_bits;
    writer.write_bits(previous_price, 64)?;
    let mut xor_window: Option<(u8, u8)> = None;
    let mut previous_delta: u64 = 0;
    let mut index: usize = 1;
    proof {
        assert(bytes_bits(Seq::<u8>::empty()) =~= Seq::<bool>::empty());
        assert(writer@ =~= coded(ticks@, 1).0);
    }
    while index < ticks.len()
        invariant
            1 <= index <= ticks@.len(),
            writer.wf(),
            writer@ == coded(ticks@, index as int).0,
            xor_window == coded(ticks@, index as int).1,
            previous_price == ticks@[index - 1].price_bits,
            previous_delta == (if index == 1 {
                0
            } else {
                delta(ticks@, index - 1)
            }),
            ordered(ticks@.take(index as int)),
        decreases ticks@.len() - index,
    {
        if ticks[index].timestamp < ticks[index - 1].timestamp {
            assert(!ordered(ticks@));
            return Err(Error::UnorderedTicks);
        }
        let delta: u64 = ticks[index].timestamp - ticks[index - 1].timestamp;
        if index == 1 {
            writer.write_bits(delta, 64)?;
        } else {
            write_delta_of_delta(&mut writer, delta as i128 - previous_delta as i128)?;
        }
        previous_delta = delta;
        let price: u64 = ticks[index].price_bits;
        write_xor(&mut writer, previous_price, price, &mut xor_window)?;
        previous_price = price;
        proof {
            lemma_ordered_grows(ticks@, index as int);
        }
        index += 1;
    }
    assert(ticks@.take(index as int) =~= ticks@);
    writer.finish()
}

/// A longer code starts with the shorter ones, and codes stay short.
pub proof fn lemma_coded(ticks: Seq<Tick>, n: int, m: int)
    requires
        1 <= n <= m <= ticks.len(),
    ensures
        64 <= coded(ticks, n).0.len() <= 64 + 178 * (n - 1),
        coded(ticks, n).0.len() <= coded(ticks, m).0.len(),
        coded(ticks, m).0.subrange(0, coded(ticks, n).0.len() as int) == coded(ticks, n).0,
        window_wf(coded(ticks, n).1),
    decreases m,
{
    if n < m {
        lemma_coded(ticks, n, m - 1);
        assert(coded(ticks, m).0.subrange(0, coded(ticks, n).0.len() as int) =~= coded(
            ticks,
            m - 1,
        ).0.subrange(0, coded(ticks, n).0.len() as int));
    } else {
        assert(coded(ticks, m).0.subrange(0, coded(ticks, n).0.len() as int) =~= coded(ticks, n).0);
        if n == 1 {
            lemma_value_bits_len(ticks[0].price_bits as nat, 64);
        } else {
            lemma_coded(ticks, n - 1, n - 1);
            lemma_value_bits_len(delta(ticks, 1) as nat, 64);
            lemma_dod_len(delta(ticks, n - 1) - delta(ticks, n - 2));
            lemma_xor_len(
                ticks[n - 2].price_bits,
                ticks[n - 1].price_bits,
                coded(ticks, n - 1).1,
            );
        }
    }
}

/// The header of the frame that holds `ticks`.
pub open spec fn header_for(ticks: Seq<Tick>) -> FrameHeader {
    FrameHeader {
        start_ts: ticks[0].timestamp,
        end_ts: ticks.last().timestamp,
        count: ticks.len() as u32,
        comp_len: frame_payload(ticks).len() as u32,
    }
}

/// A frame: the header and the compressed bytes.
pub open spec fn frame_bytes(ticks: Seq<Tick>) -> Seq<u8> {
    header_bytes(header_for(ticks)) + frame_payload(ticks)
}

/// The ticks that one frame can hold.
pub open spec fn frame_ticks(ticks: Seq<Tick>) -> bool {
    &&& 1 <= ticks.len() <= FRAME_TICK_COUNT
    &&& ordered(ticks)
}

/// Every frame that is written has a header that is accepted.
pub proof fn law_written_headers_are_valid(ticks: Seq<Tick>)
    requires
        frame_ticks(ticks),
    ensures
        header_ok(header_for(ticks)),
        header_for(ticks).comp_len == frame_payload(ticks).len(),
        header_for(ticks).count == ticks.len(),
        frame_bytes(ticks).len() == FRAME_HEADER_SIZE + frame_payload(ticks).len(),
{
    let n = ticks.len() as int;
    lemma_coded(ticks, n, n);
    lemma_bits_of_packed(coded(ticks, n).0);
    law_header_round_trip(header_for(ticks), header_bytes(header_for(ticks)).take(0) + Seq::new(
        24,
        |i: int| 0u8,
    ));
    assert(ticks[0].timestamp <= ticks[n - 1].timestamp);
}

/// Tick `i` of a raw batch: a timestamp and a price, eight bytes each.
pub open spec fn tick_at(raw: Seq<u8>, i: int) -> Tick {
    Tick {
        timestamp: le_value(raw.subrange(16 * i, 16 * i + 8)) as u64,
        price_bits: le_value(raw.subrange(16 * i + 8, 16 * i + 16)) as u64,
    }
}

/// The ticks of a raw batch.
pub open spec fn raw_ticks(raw: Seq<u8>) -> Seq<Tick> {
    Seq::new(raw.len() / 16, |i: int| tick_at(raw, i))
}

/// The frames that hold `ticks`: a thousand each, and the rest in the last one.
pub open spec fn batch_bytes(ticks: Seq<Tick>) -> Seq<u8>
    decreases ticks.len(),
{
    if ticks.len() == 0 {
        Seq::empty()
    } else if ticks.len() <= FRAME_TICK_COUNT {
        frame_bytes(ticks)
    } else {
        frame_bytes(ticks.take(FRAME_TICK_COUNT as int)) + batch_bytes(
            ticks.skip(FRAME_TICK_COUNT as int),
        )
    }
}

/// A batch of ticks, ready to be appended to a partition.
#[derive(Debug)]
pub struct EncodedBatch {
    /// The frames, one after the other.
    pub bytes: Vec<u8>,
    /// The timestamp of the first tick.
    pub first_ts: u64,
    /// The timestamp of the last tick.
    pub last_ts: u64,
    /// The number of ticks.
    pub count: usize,
}

/// Reads tick `index` of a raw batch.
fn read_tick(raw: &[u8], index: usize) -> (t: Tick)
    requires
        16 * index + 16 <= raw.len(),
    ensures
        t == tick_at(raw@, index as int),
{
    proof {
        lemma_byte_bounds();
    }
    let offset: usize = index * TICK_SIZE;
    Tick { timestamp: get_le(raw, offset, 8), price_bits: get_le(raw, offset + 8, 8) }
}

/// Reads the ticks `from` to `to` of a raw batch, which have to be in order, also
/// behind the tick ahead of them.
fn read_ticks(raw: &[u8], from: usize, to: usize) -> (r: Result<Vec<Tick>, Error>)
    requires
        from < to,
        16 * to <= raw.len(),
        ordered(raw_ticks(raw@).take(from as int)),
    ensures
        match r {
            Ok(ticks) => {
                &&& ticks@ == raw_ticks(raw@).subrange(from as int, to as int)
                &&& ordered(raw_ticks(raw@).take(to as int))
            },
            Err(e) => e == Error::UnorderedTicks && !ordered(raw_ticks(raw@)),
        },
{
    let ghost all = raw_ticks(raw@);
    let mut previous_ts: u64 = if from > 0 {
        read_tick(raw, from - 1).timestamp
    } else {
        0
    };
    let mut ticks: Vec<Tick> = Vec::with_capacity(to - from);
    let mut index: usize = from;
    while index < to
        invariant
            from <= index <= to,
            16 * to <= raw.len(),
            all == raw_ticks(raw@),
            ordered(all.take(index as int)),
            index > 0 ==> previous_ts == all[index - 1].timestamp,
            ticks@ == all.subrange(from as int, index as int),
        decreases to - index,
    {
        let tick = read_tick(raw, index);
        assert(tick == all[index as int]);
        if index > 0 && tick.timestamp < previous_ts {
            assert(!ordered(all));
            return Err(Error::UnorderedTicks);
        }
        proof {
            lemma_ordered_grows(all, index as int);
            assert(all.subrange(from as int, index + 1) =~= all.subrange(
                from as int,
                index as int,
            ).push(tick));
        }
        previous_ts = tick.timestamp;
        ticks.push(tick);
        index += 1;
    }
    Ok(ticks)
}

/// Compresses ticks and appends the frame.
fn push_frame(output: &mut Vec<u8>, ticks: &Vec<Tick>) -> (r: Result<(), Error>)
    requires
        frame_ticks(ticks@),
    ensures
        r is Ok,
        final(output)@ == old(output)@ + frame_bytes(ticks@),
{
    proof {
        law_written_headers_are_valid(ticks@);
    }
    let payload = encode_frame(ticks.as_slice())?;
    let header = FrameHeader {
        start_ts: ticks[0].timestamp,
        end_ts: ticks[ticks.len() - 1].timestamp,
        count: ticks.len() as u32,
        comp_len: payload.len() as u32,
    };
    let bytes = header.to_bytes();
    let ghost before = output@;
    output.extend_from_slice(bytes.as_slice());
    output.extend_from_slice(payload.as_slice());
    assert(output@ =~= before + frame_bytes(ticks@));
    Ok(())
}

/// One more frame of a batch.
proof fn lemma_batch_step(
    all: Seq<Tick>,
    before: Seq<u8>,
    output: Seq<u8>,
    from: int,
    to: int,
)
    requires
        0 <= from < to <= all.len(),
        to == (if all.len() - from > FRAME_TICK_COUNT {
            from + FRAME_TICK_COUNT
        } else {
            all.len() as int
        }),
        before + batch_bytes(all.skip(from)) == batch_bytes(all),
        output == before + frame_bytes(all.subrange(from, to)),
    ensures
        output + batch_bytes(all.skip(to)) == batch_bytes(all),
{
    let part = all.subrange(from, to);
    let rest = all.skip(from);
    let behind = batch_bytes(all.skip(to));
    if rest.len() <= FRAME_TICK_COUNT {
        assert(rest =~= part);
        assert(behind =~= Seq::<u8>::empty());
        assert(output + behind =~= batch_bytes(all));
    } else {
        assert(rest.take(FRAME_TICK_COUNT as int) =~= part);
        assert(rest.skip(FRAME_TICK_COUNT as int) =~= all.skip(to));
        assert(output + behind =~= before + (frame_bytes(part) + behind));
    }
}

/// A part of ticks in order is in order.
proof fn lemma_part_ordered(all: Seq<Tick>, from: int, to: int)
    requires
        0 <= from <= to <= all.len(),
        ordered(all.take(to)),
    ensures
        ordered(all.subrange(from, to)),
{
    let head = all.take(to);
    let part = all.subrange(from, to);
    assert forall|i: int, j: int| 0 <= i <= j < part.len() implies (#[trigger] part[i]).timestamp
        <= (#[trigger] part[j]).timestamp by {
        assert(part[i] == head[from + i] && part[j] == head[from + j]);
    }
}

/// Compresses a raw batch into frames.
pub fn encode_batch(raw: &[u8]) -> (r: Result<EncodedBatch, Error>)
    ensures
        raw@.len() == 0 || raw@.len() % 16 != 0 ==> r is Err && r->Err_0 == Error::PartialRecords,
        raw@.len() > 0 && raw@.len() % 16 == 0 && !ordered(raw_ticks(raw@)) ==> r is Err
            && r->Err_0 == Error::UnorderedTicks,
        raw@.len() > 0 && raw@.len() % 16 == 0 && ordered(raw_ticks(raw@)) ==> {
            &&& r is Ok
            &&& r->Ok_0.bytes@ == batch_bytes(raw_ticks(raw@))
            &&& r->Ok_0.first_ts == raw_ticks(raw@)[0].timestamp
            &&& r->Ok_0.last_ts == raw_ticks(raw@).last().timestamp
            &&& r->Ok_0.count == raw_ticks(raw@).len()
        },
{
    if raw.len() == 0 || raw.len() % TICK_SIZE != 0 {
        return Err(Error::PartialRecords);
    }
    let ghost all = raw_ticks(raw@);
    let count: usize = raw.len() / TICK_SIZE;
    let first_ts: u64 = read_tick(raw, 0).timestamp;
    let last_ts: u64 = read_tick(raw, count - 1).timestamp;
    let mut output: Vec<u8> = Vec::with_capacity(raw.len() / 4);
    let mut frame_start: usize = 0;
    proof {
        assert(all.skip(0) =~= all);
        assert(output@ + batch_bytes(all.skip(0)) =~= batch_bytes(all));
    }
    while frame_start < count
        invariant
            frame_start <= count,
            16 * count == raw.len(),
            all == raw_ticks(raw@),
            all.len() == count,
            count >= 1,
            ordered(all.take(frame_start as int)),
            output@ + batch_bytes(all.skip(frame_start as int)) == batch_bytes(all),
        decreases count - frame_start,
    {
        let frame_end: usize = if count - frame_start > FRAME_TICK_COUNT {
            frame_start + FRAME_TICK_COUNT
        } else {
            count
        };
        let ticks = match read_ticks(raw, frame_start, frame_end) {
            Ok(ticks) => ticks,
            Err(e) => {
                return Err(e);
            },
        };
        let ghost before = output@;
        proof {
            lemma_part_ordered(all, frame_start as int, frame_end as int);
        }
        push_frame(&mut output, &ticks)?;
        proof {
            lemma_batch_step(all, before, output@, frame_start as int, frame_end as int);
        }
        frame_start = frame_end;
    }
    proof {
        assert(all.take(count as int) =~= all);
        assert(all.skip(count as int).len() == 0);
        assert(output@ =~= batch_bytes(all));
    }
    Ok(EncodedBatch { bytes: output, first_ts, last_ts, count })
}

/// Ticks in order stay in order when the next is not older than the last.
proof fn lemma_ordered_grows(ticks: Seq<Tick>, n: int)
    requires
        0 <= n < ticks.len(),
        ordered(ticks.take(n)),
        n > 0 ==> ticks[n - 1].timestamp <= ticks[n].timestamp,
    ensures
        ordered(ticks.take(n + 1)),
{
    let shorter = ticks.take(n);
    let longer = ticks.take(n + 1);
    assert forall|i: int, j: int| 0 <= i <= j < longer.len() implies (
    #[trigger] longer[i]).timestamp <= (#[trigger] longer[j]).timestamp by {
        if i < n {
            assert(longer[i] == shorter[i]);
            assert(shorter[i].timestamp <= shorter[n - 1].timestamp);
            if j < n {
                assert(longer[j] == shorter[j]);
            }
        }
    }
}

/// How far a frame has been decoded.
pub struct Progress {
    /// The position behind the last tick.
    pub pos: int,
    /// The timestamp of the last tick.
    pub timestamp: u64,
    /// The price of the last tick.
    pub price_bits: u64,
    /// The time step that led to the last tick; 0 for the first tick.
    pub delta: int,
    /// The window in force.
    pub window: Window,
}

/// The time step to tick `index`, whose code stands at `pos`, and where that code
/// ends.
pub open spec fn step_at(bits: Seq<bool>, pos: int, index: int, previous: int) -> Result<
    (int, int),
    Error,
> {
    if index == 1 {
        match take_bits(bits, pos, 64) {
            Some(v) => Ok((v as int, pos + 64)),
            None => Err(Error::EndOfBits),
        }
    } else {
        match dod_at(bits, pos) {
            Some((change, end)) => if 0 <= previous + change <= u64::MAX {
                Ok((previous + change, end))
            } else {
                Err(Error::DeltaOverflow)
            },
            None => Err(Error::EndOfBits),
        }
    }
}

/// The tick that follows, and the progress behind it.
pub open spec fn next_tick(bits: Seq<bool>, index: int, at: Progress) -> Result<Progress, Error> {
    match step_at(bits, at.pos, index, at.delta) {
        Err(e) => Err(e),
        Ok((delta, pos)) => if at.timestamp + delta > u64::MAX {
            Err(Error::TimestampOverflow)
        } else {
            let read = xor_at(bits, pos, at.price_bits, at.window);
            match read.price {
                Err(e) => Err(e),
                Ok(price_bits) => Ok(
                    Progress {
                        pos: read.pos,
                        timestamp: (at.timestamp + delta) as u64,
                        price_bits,
                        delta,
                        window: read.window,
                    },
                ),
            }
        },
    }
}

/// The ticks from `index` on that a frame delivers, and how decoding ends. An
/// error ends it early; the ticks ahead of the error are delivered.
pub open spec fn decode_rest(
    bits: Seq<bool>,
    header: FrameHeader,
    index: int,
    at: Progress,
) -> (Seq<Tick>, Result<(), Error>)
    decreases header.count - index,
{
    if index >= header.count {
        (
            Seq::empty(),
            if at.timestamp != header.end_ts {
                Err(Error::EndTimestampMismatch)
            } else {
                check_padding(bits, at.pos)
            },
        )
    } else {
        match next_tick(bits, index, at) {
            Err(e) => (Seq::empty(), Err(e)),
            Ok(next) => {
                let (rest, end) = decode_rest(bits, header, index + 1, next);
                (
                    seq![Tick { timestamp: next.timestamp, price_bits: next.price_bits }] + rest,
                    end,
                )
            },
        }
    }
}

/// The progress behind the first tick, whose price stands ahead of everything
/// else and whose timestamp stands in the header.
pub open spec fn first_progress(bits: Seq<bool>, header: FrameHeader) -> Progress {
    Progress {
        pos: 64,
        timestamp: header.start_ts,
        price_bits: bits_value(bits.subrange(0, 64)) as u64,
        delta: 0,
        window: None,
    }
}

/// The ticks that a frame delivers, and how decoding ends.
pub open spec fn decoded(header: FrameHeader, payload: Seq<u8>) -> (Seq<Tick>, Result<(), Error>) {
    if !header_ok(header) {
        (Seq::empty(), Err(Error::InvalidFrameHeader))
    } else if payload.len() != header.comp_len {
        (Seq::empty(), Err(Error::PayloadLengthMismatch))
    } else {
        let bits = bytes_bits(payload);
        let first = first_progress(bits, header);
        let (rest, end) = decode_rest(bits, header, 1, first);
        (seq![Tick { timestamp: first.timestamp, price_bits: first.price_bits }] + rest, end)
    }
}

/// Decompresses one frame. The ticks are appended to `ticks` in order; on an
/// error, those ahead of it have been appended.
pub fn decode_frame(header: FrameHeader, payload: &[u8], ticks: &mut Vec<Tick>) -> (r: Result<
    (),
    Error,
>)
    ensures
        final(ticks)@ == old(ticks)@ + decoded(header, payload@).0,
        r == decoded(header, payload@).1,
{
    let ghost before = ticks@;
    match validate_header(header) {
        Err(e) => {
            assert(ticks@ =~= before + decoded(header, payload@).0);
            return Err(e);
        },
        Ok(_) => {},
    }
    if payload.len() != header.comp_len as usize {
        assert(ticks@ =~= before + decoded(header, payload@).0);
        return Err(Error::PayloadLengthMismatch);
    }
    let ghost bits = bytes_bits(payload@);
    let ghost all = decoded(header, payload@);
    let mut reader = BitReader::new(payload);
    let mut timestamp: u64 = header.start_ts;
    proof {
        lemma_bytes_bits_len(payload@);
        lemma2_to64_rest();
    }
    let mut price_bits: u64 = reader.read_bits(64)?;
    ticks.push(Tick { timestamp, price_bits });
    let mut previous_delta: u64 = 0;
    let mut xor_window: Option<(u8, u8)> = None;
    let mut index: u32 = 1;
    let ghost mut at = first_progress(bits, header);
    assert(ticks@ + decode_rest(bits, header, 1, at).0 =~= before + all.0);
    while index < header.count
        invariant
            1 <= index <= header.count,
            header_ok(header),
            reader.wf(),
            reader.bits() == bits,
            window_wf(xor_window),
            at == (Progress {
                pos: reader.pos(),
                timestamp,
                price_bits,
                delta: previous_delta as int,
                window: xor_window,
            }),
            all == decoded(header, payload@),
            ticks@ + decode_rest(bits, header, index as int, at).0 == before + all.0,
            decode_rest(bits, header, index as int, at).1 == all.1,
            before == old(ticks)@,
        decreases header.count - index,
    {
        let ghost step = next_tick(bits, index as int, at);
        assert(step is Err ==> ticks@ =~= before + all.0);
        let delta: u64 = if index == 1 {
            reader.read_bits(64)?
        } else {
            let change = read_delta_of_delta(&mut reader)?;
            let delta: i128 = previous_delta as i128 + change;
            if delta < 0 || delta > u64::MAX as i128 {
                return Err(Error::DeltaOverflow);
            }
            delta as u64
        };
        timestamp = match timestamp.checked_add(delta) {
            Some(sum) => sum,
            None => {
                return Err(Error::TimestampOverflow);
            },
        };
        previous_delta = delta;
        price_bits = read_xor(&mut reader, price_bits, &mut xor_window)?;
        let ghost sofar = ticks@;
        ticks.push(Tick { timestamp, price_bits });
        proof {
            let next = step->Ok_0;
            let rest = decode_rest(bits, header, index + 1, next).0;
            assert(ticks@ + rest =~= sofar + (seq![Tick { timestamp, price_bits }] + rest));
            at = next;
        }
        index += 1;
    }
    assert(ticks@ =~= before + all.0);
    if timestamp != header.end_ts {
        return Err(Error::EndTimestampMismatch);
    }
    reader.verify_padding()
}

/// The progress that a reader of the frame of `ticks` has made after `n` of them.
spec fn progress_after(ticks: Seq<Tick>, n: int) -> Progress {
    Progress {
        pos: coded(ticks, n).0.len() as int,
        timestamp: ticks[n - 1].timestamp,
        price_bits: ticks[n - 1].price_bits,
        delta: if n == 1 {
            0
        } else {
            delta(ticks, n - 1)
        },
        window: coded(ticks, n).1,
    }
}

/// Two codes that stand one behind the other are found where they stand.
proof fn lemma_two_parts(
    bits: Seq<bool>,
    head: Seq<bool>,
    first: Seq<bool>,
    second: Seq<bool>,
    upto: Seq<bool>,
)
    requires
        upto == head + first + second,
        upto.len() <= bits.len(),
        bits.subrange(0, upto.len() as int) == upto,
    ensures
        ({
            let pos = head.len() as int;
            let mid = pos + first.len();
            &&& mid + second.len() == upto.len()
            &&& bits.subrange(pos, mid) == first
            &&& bits.subrange(mid, mid + second.len()) == second
        }),
{
    let pos = head.len() as int;
    let mid = pos + first.len();
    let end = mid + second.len();
    assert(bits.subrange(pos, mid) =~= bits.subrange(0, end).subrange(pos, mid));
    assert(upto.subrange(pos, mid) =~= first);
    assert(bits.subrange(mid, end) =~= bits.subrange(0, end).subrange(mid, end));
    assert(upto.subrange(mid, end) =~= second);
}

/// The time step to tick `n` is read back.
proof fn lemma_step_at(ticks: Seq<Tick>, bits: Seq<bool>, pos: int, n: int)
    requires
        frame_ticks(ticks),
        1 <= n < ticks.len(),
        0 <= pos,
        pos + time_bits(ticks, n).len() <= bits.len(),
        bits.subrange(pos, pos + time_bits(ticks, n).len()) == time_bits(ticks, n),
    ensures
        step_at(
            bits,
            pos,
            n,
            if n == 1 {
                0
            } else {
                delta(ticks, n - 1)
            },
        ) == Ok::<(int, int), Error>((delta(ticks, n), pos + time_bits(ticks, n).len())),
{
    assert(ticks[n - 1].timestamp <= ticks[n].timestamp);
    if n == 1 {
        lemma2_to64_rest();
        lemma_value_bits_len(delta(ticks, 1) as nat, 64);
        lemma_take_field(bits, pos, delta(ticks, 1) as nat, 64);
    } else {
        assert(ticks[n - 2].timestamp <= ticks[n - 1].timestamp);
        lemma_dod_round_trip(bits, pos, delta(ticks, n) - delta(ticks, n - 1));
    }
}

/// One tick is read back.
proof fn lemma_next_tick(ticks: Seq<Tick>, bits: Seq<bool>, n: int)
    requires
        frame_ticks(ticks),
        1 <= n < ticks.len(),
        bits == padded(coded(ticks, ticks.len() as int).0),
    ensures
        next_tick(bits, n, progress_after(ticks, n)) == Ok::<Progress, Error>(
            progress_after(ticks, n + 1),
        ),
{
    let all = coded(ticks, ticks.len() as int).0;
    let (head, window) = coded(ticks, n);
    let upto = coded(ticks, n + 1).0;
    let time = time_bits(ticks, n);
    let previous = ticks[n - 1].price_bits;
    let current = ticks[n].price_bits;
    let price = xor_bits(previous, current, window);
    lemma_coded(ticks, n + 1, ticks.len() as int);
    assert(upto == head + time + price);
    assert(bits.subrange(0, upto.len() as int) =~= all.subrange(0, upto.len() as int));
    lemma_two_parts(bits, head, time, price, upto);
    let pos = head.len() as int;
    lemma_step_at(ticks, bits, pos, n);
    lemma_xor_round_trip(bits, pos + time.len(), previous, current, window);
    assert(ticks[n - 1].timestamp + delta(ticks, n) == ticks[n].timestamp);
}

/// All the ticks from `n` on are read back.
proof fn lemma_rest_round_trip(ticks: Seq<Tick>, bits: Seq<bool>, n: int)
    requires
        frame_ticks(ticks),
        1 <= n <= ticks.len(),
        bits == padded(coded(ticks, ticks.len() as int).0),
    ensures
        decode_rest(bits, header_for(ticks), n, progress_after(ticks, n)) == (
            ticks.skip(n),
            Ok::<(), Error>(()),
        ),
    decreases ticks.len() - n,
{
    let header = header_for(ticks);
    let at = progress_after(ticks, n);
    law_written_headers_are_valid(ticks);
    if n == ticks.len() {
        assert(ticks.skip(n) =~= Seq::<Tick>::empty());
        assert forall|j: int| at.pos <= j < bits.len() implies !bits[j] by {}
    } else {
        lemma_next_tick(ticks, bits, n);
        lemma_rest_round_trip(ticks, bits, n + 1);
        assert(ticks.skip(n) =~= seq![ticks[n]] + ticks.skip(n + 1));
    }
}

/// Decompressing a frame gives every bit of every tick that was compressed.
pub proof fn law_frame_round_trip(ticks: Seq<Tick>)
    requires
        frame_ticks(ticks),
    ensures
        decoded(header_for(ticks), frame_payload(ticks)) == (ticks, Ok::<(), Error>(())),
{
    let n = ticks.len() as int;
    let code = coded(ticks, n).0;
    let bits = padded(code);
    let first = value_bits(ticks[0].price_bits as nat, 64);
    law_written_headers_are_valid(ticks);
    lemma_bits_of_packed(code);
    lemma_coded(ticks, 1, n);
    lemma2_to64_rest();
    lemma_value_bits_len(ticks[0].price_bits as nat, 64);
    assert(bits.subrange(0, 64) =~= code.subrange(0, 64));
    lemma_value_of_bits(ticks[0].price_bits as nat, 64);
    lemma_rest_round_trip(ticks, bits, 1);
    assert(seq![ticks[0]] + ticks.skip(1) =~= ticks);
}

/// The ticks from `index` on come in time order behind `at`, and if decoding ends
/// well they are as many as announced and end when announced.
proof fn lemma_decoded_rest(bits: Seq<bool>, header: FrameHeader, index: int, at: Progress)
    requires
        1 <= index <= header.count,
    ensures
        ({
            let (ticks, end) = decode_rest(bits, header, index, at);
            &&& ordered(ticks)
            &&& forall|i: int|
                0 <= i < ticks.len() ==> at.timestamp <= (#[trigger] ticks[i]).timestamp
            &&& ticks.len() <= header.count - index
            &&& end is Ok ==> {
                &&& ticks.len() == header.count - index
                &&& header.end_ts == (if ticks.len() == 0 {
                    at.timestamp
                } else {
                    ticks.last().timestamp
                })
            }
        }),
    decreases header.count - index,
{
    if index < header.count {
        match next_tick(bits, index, at) {
            Err(_) => {},
            Ok(next) => {
                lemma_decoded_rest(bits, header, index + 1, next);
                let rest = decode_rest(bits, header, index + 1, next).0;
                let ticks = decode_rest(bits, header, index, at).0;
                assert forall|i: int| 0 < i < ticks.len() implies #[trigger] ticks[i] == rest[i
                    - 1] by {}
                assert(at.timestamp <= next.timestamp);
            },
        }
    }
}

/// Whatever bytes a frame is made of: its ticks come in time order and are no more
/// than announced; if decoding ends well they are as many as announced and start
/// and end when announced.
pub proof fn law_decoded_ticks(header: FrameHeader, payload: Seq<u8>)
    ensures
        ({
            let (ticks, end) = decoded(header, payload);
            &&& ordered(ticks)
            &&& ticks.len() <= header.count
            &&& end is Ok ==> {
                &&& ticks.len() == header.count
                &&& ticks.first().timestamp == header.start_ts
                &&& ticks.last().timestamp == header.end_ts
            }
        }),
{
    if header_ok(header) && payload.len() == header.comp_len {
        let bits = bytes_bits(payload);
        let first = first_progress(bits, header);
        lemma_decoded_rest(bits, header, 1, first);
        let rest = decode_rest(bits, header, 1, first).0;
        let ticks = decoded(header, payload).0;
        assert forall|i: int| 0 < i < ticks.len() implies #[trigger] ticks[i] == rest[i - 1] by {}
    }
}

/// A header has twenty-four bytes: the first timestamp, the last one, the number of
/// ticks, and the number of bytes behind it.
pub proof fn law_header_fields_have_their_place(h: FrameHeader)
    ensures
        header_bytes(h).len() == 24,
        le_value(header_bytes(h).subrange(0, 8)) == h.start_ts,
        le_value(header_bytes(h).subrange(8, 16)) == h.end_ts,
        le_value(header_bytes(h).subrange(16, 20)) == h.count,
        le_value(header_bytes(h).subrange(20, 24)) == h.comp_len,
{
    let s = header_bytes(h);
    lemma_byte_bounds();
    lemma_le_bytes_len(h.start_ts as nat, 8);
    lemma_le_bytes_len(h.end_ts as nat, 8);
    lemma_le_bytes_len(h.count as nat, 4);
    lemma_le_bytes_len(h.comp_len as nat, 4);
    lemma_value_of_bytes(h.start_ts as nat, 8);
    lemma_value_of_bytes(h.end_ts as nat, 8);
    lemma_value_of_bytes(h.count as nat, 4);
    lemma_value_of_bytes(h.comp_len as nat, 4);
    assert(s.subrange(0, 8) =~= le_bytes(h.start_ts as nat, 8));
    assert(s.subrange(8, 16) =~= le_bytes(h.end_ts as nat, 8));
    assert(s.subrange(16, 20) =~= le_bytes(h.count as nat, 4));
    assert(s.subrange(20, 24) =~= le_bytes(h.comp_len as nat, 4));
}

/// The code of a frame starts with the whole first price.
pub proof fn law_frames_start_with_a_price(ticks: Seq<Tick>)
    requires
        ticks.len() > 0,
    ensures
        coded(ticks, 1).0.len() == 64,
        bits_value(coded(ticks, 1).0) == ticks[0].price_bits,
{
    lemma2_to64_rest();
    lemma_value_bits_len(ticks[0].price_bits as nat, 64);
    lemma_value_of_bits(ticks[0].price_bits as nat, 64);
}

/// Each further tick adds its time and then its price to the code and changes nothing
/// ahead of that. The time of the second tick is the whole step; after that it is how
/// much longer the step is than the one before.
pub proof fn law_ticks_are_appended(ticks: Seq<Tick>, n: int)
    requires
        2 <= n <= ticks.len(),
        ordered(ticks),
    ensures
        ({
            let before = coded(ticks, n - 1).0;
            let after = coded(ticks, n).0;
            let window = coded(ticks, n - 1).1;
            let price = xor_bits(ticks[n - 2].price_bits, ticks[n - 1].price_bits, window);
            let time = after.subrange(before.len() as int, after.len() - price.len());
            &&& before.len() <= after.len() - price.len()
            &&& after.take(before.len() as int) == before
            &&& after.skip(after.len() - price.len()) == price
            &&& n == 2 ==> time.len() == 64 && bits_value(time) == ticks[1].timestamp
                - ticks[0].timestamp
            &&& n > 2 ==> time == dod_bits(
                ticks[n - 1].timestamp - 2 * ticks[n - 2].timestamp + ticks[n - 3].timestamp,
            )
        }),
{
    let before = coded(ticks, n - 1).0;
    let after = coded(ticks, n).0;
    let window = coded(ticks, n - 1).1;
    let price = xor_bits(ticks[n - 2].price_bits, ticks[n - 1].price_bits, window);
    let time = time_bits(ticks, n - 1);
    assert(after == before + time + price);
    assert(after.take(before.len() as int) =~= before);
    assert(after.skip(after.len() - price.len()) =~= price);
    assert(after.subrange(before.len() as int, after.len() - price.len()) =~= time);
    if n == 2 {
        assert(ticks[0].timestamp <= ticks[1].timestamp);
        lemma2_to64_rest();
        lemma_value_bits_len(delta(ticks, 1) as nat, 64);
        lemma_value_of_bits(delta(ticks, 1) as nat, 64);
    }
}

/// A batch is cut into frames of a thousand ticks and a last one with what is left: so
/// the frames of the first thousands stand ahead of the frames of the others.
pub proof fn law_batches_are_cut_into_thousands(a: Seq<Tick>, b: Seq<Tick>)
    requires
        a.len() % 1_000 == 0,
    ensures
        batch_bytes(a + b) == batch_bytes(a) + batch_bytes(b),
        1 <= b.len() <= 1_000 ==> batch_bytes(b) == header_bytes(header_for(b)) + frame_payload(b),
        b.len() == 0 ==> batch_bytes(b).len() == 0,
    decreases a.len(),
{
    let all = a + b;
    if a.len() == 0 {
        assert(all =~= b);
        assert(batch_bytes(a) + batch_bytes(b) =~= batch_bytes(b));
    } else {
        let first = a.take(1_000);
        let rest = a.skip(1_000);
        law_batches_are_cut_into_thousands(rest, b);
        assert(batch_bytes(a) == frame_bytes(first) + batch_bytes(rest)) by {
            if a.len() == 1_000 {
                assert(first =~= a);
                assert(batch_bytes(rest) =~= Seq::<u8>::empty());
                assert(frame_bytes(a) + batch_bytes(rest) =~= frame_bytes(a));
            }
        }
        if all.len() > 1_000 {
            assert(all.take(1_000) =~= first);
            assert(all.skip(1_000) =~= rest + b);
        } else {
            assert(all =~= a && first =~= a);
            assert(batch_bytes(b) =~= Seq::<u8>::empty());
            assert(batch_bytes(a) + batch_bytes(b) =~= batch_bytes(a));
        }
        assert(frame_bytes(first) + (batch_bytes(rest) + batch_bytes(b)) =~= frame_bytes(first)
            + batch_bytes(rest) + batch_bytes(b));
    }
}

/// A header tells of its frame the first and the last timestamp, the number of ticks, and
/// the number of bytes of their code: all its bits, eight to a byte.
pub proof fn law_headers_tell_of_their_frame(ticks: Seq<Tick>)
    requires
        frame_ticks(ticks),
    ensures
        header_for(ticks).start_ts == ticks[0].timestamp,
        header_for(ticks).end_ts == ticks[ticks.len() - 1].timestamp,
        header_for(ticks).count == ticks.len(),
        header_for(ticks).comp_len == (coded(ticks, ticks.len() as int).0.len() + 7) / 8,
{
    law_written_headers_are_valid(ticks);
    crate::bits::law_bits_stand_in_their_byte(coded(ticks, ticks.len() as int).0, 0);
}

/// Tick number `i` is not older than the one before it.
pub open spec fn not_older(ticks: Seq<Tick>, i: int) -> bool {
    ticks[i - 1].timestamp <= ticks[i].timestamp
}

/// Ticks are in time order just if none is older than the one before it.
pub proof fn law_order_is_between_neighbours(ticks: Seq<Tick>)
    ensures
        ordered(ticks) <==> forall|i: int| 1 <= i < ticks.len() ==> #[trigger] not_older(ticks, i),
{
    if forall|i: int| 1 <= i < ticks.len() ==> #[trigger] not_older(ticks, i) {
        assert forall|i: int, j: int| 0 <= i <= j < ticks.len() implies (
        #[trigger] ticks[i]).timestamp <= (#[trigger] ticks[j]).timestamp by {
            lemma_not_older(ticks, i, j);
        }
    }
}

proof fn lemma_not_older(ticks: Seq<Tick>, i: int, j: int)
    requires
        0 <= i <= j < ticks.len(),
        forall|k: int| 1 <= k < ticks.len() ==> #[trigger] not_older(ticks, k),
    ensures
        ticks[i].timestamp <= ticks[j].timestamp,
    decreases j - i,
{
    if i < j {
        lemma_not_older(ticks, i, j - 1);
        assert(not_older(ticks, j));
    }
}

/// A raw tick has sixteen bytes: its timestamp and then its price.
pub proof fn law_raw_ticks_have_two_words(raw: Seq<u8>, i: int)
    requires
        0 <= i < raw.len() / 16,
    ensures
        raw_ticks(raw).len() == raw.len() / 16,
        raw_ticks(raw)[i].timestamp == crate::protocol::word_at(raw, 2 * i),
        raw_ticks(raw)[i].price_bits == crate::protocol::word_at(raw, 2 * i + 1),
{
}

/// A frame is refused before any tick of it is read if its header is impossible, or if it
/// has another length than the header announces. Otherwise its first tick has the first
/// timestamp of the header and the price in the first eight bytes.
pub proof fn law_frames_are_checked_first(header: FrameHeader, payload: Seq<u8>)
    ensures
        ({
            let (ticks, end) = decoded(header, payload);
            let possible = 1 <= header.count <= 1_000 && header.start_ts <= header.end_ts && 8
                <= header.comp_len <= 24 * header.count + 16;
            &&& !possible ==> ticks.len() == 0 && end == Err::<(), Error>(Error::InvalidFrameHeader)
            &&& possible && payload.len() != header.comp_len ==> ticks.len() == 0 && end == Err::<
                (),
                Error,
            >(Error::PayloadLengthMismatch)
            &&& possible && payload.len() == header.comp_len ==> {
                &&& ticks.len() >= 1
                &&& ticks[0].timestamp == header.start_ts
                &&& value_bits(ticks[0].price_bits as nat, 64) == bytes_bits(payload.take(8))
            }
        }),
{
    if header_ok(header) && payload.len() == header.comp_len {
        let bits = bytes_bits(payload);
        let head = bits.subrange(0, 64);
        lemma_bytes_bits_len(payload);
        lemma2_to64_rest();
        crate::bits::lemma_bits_value_bound(head);
        crate::bits::lemma_bits_of_value(head);
        lemma_bytes_bits_take(payload, 8);
    }
}

proof fn lemma_bytes_bits_take(s: Seq<u8>, n: int)
    requires
        0 <= n <= s.len(),
    ensures
        bytes_bits(s.take(n)) == bytes_bits(s).subrange(0, 8 * n),
{
    lemma_bytes_bits_len(s);
    lemma_bytes_bits_len(s.take(n));
    assert forall|i: int| 0 <= i < 8 * n implies bytes_bits(s.take(n))[i] == bytes_bits(s)[i] by {
        crate::bits::lemma_bytes_bits_index(s, i);
        crate::bits::lemma_bytes_bits_index(s.take(n), i);
    }
    assert(bytes_bits(s.take(n)) =~= bytes_bits(s).subrange(0, 8 * n));
}

/// How the next tick of a frame is decoded. Once all ticks are there, the last one must
/// have the timestamp that the header announces, and only padding may be left. Before
/// that, the second tick takes a step of 64 bits and every later one a change of the step
/// before; a step must not be negative, and neither the step nor the timestamp that it
/// leads to may leave 64 bits. What cannot be decoded ends the frame with its error, and
/// the ticks ahead of it stay.
pub proof fn law_ticks_are_decoded_in_turn(
    bits: Seq<bool>,
    header: FrameHeader,
    index: int,
    at: Progress,
)
    requires
        index >= 1,
        0 <= at.pos <= bits.len(),
    ensures
        ({
            let (ticks, end) = decode_rest(bits, header, index, at);
            let all = index >= header.count;
            let whole = index == 1;
            let left = bits.len() - at.pos;
            let change = dod_at(bits, at.pos);
            let step = if whole {
                bits_value(bits.subrange(at.pos, at.pos + 64)) as int
            } else {
                at.delta + (change->0).0
            };
            let behind = if whole {
                at.pos + 64
            } else {
                (change->0).1
            };
            let cut = (whole && left < 64) || (!whole && change is None);
            let bad_step = !whole && !(0 <= step <= u64::MAX);
            let bad_time = at.timestamp + step > u64::MAX;
            let read = xor_at(bits, behind, at.price_bits, at.window);
            &&& all ==> ticks.len() == 0
            &&& all && at.timestamp != header.end_ts ==> end == Err::<(), Error>(
                Error::EndTimestampMismatch,
            )
            &&& all && at.timestamp == header.end_ts ==> end == check_padding(bits, at.pos)
            &&& !all && cut ==> ticks.len() == 0 && end == Err::<(), Error>(Error::EndOfBits)
            &&& !all && !cut && bad_step ==> ticks.len() == 0 && end == Err::<(), Error>(
                Error::DeltaOverflow,
            )
            &&& !all && !cut && !bad_step && bad_time ==> ticks.len() == 0 && end == Err::<
                (),
                Error,
            >(Error::TimestampOverflow)
            &&& !all && !cut && !bad_step && !bad_time && read.price is Err ==> ticks.len() == 0
                && end == Err::<(), Error>(read.price->Err_0)
            &&& !all && !cut && !bad_step && !bad_time && read.price is Ok ==> {
                let next = Progress {
                    pos: read.pos,
                    timestamp: (at.timestamp + step) as u64,
                    price_bits: read.price->Ok_0,
                    delta: step,
                    window: read.window,
                };
                &&& ticks.len() > 0
                &&& ticks[0].timestamp == at.timestamp + step
                &&& ticks[0].price_bits == read.price->Ok_0
                &&& ticks.drop_first() == decode_rest(bits, header, index + 1, next).0
                &&& end == decode_rest(bits, header, index + 1, next).1
            }
        }),
{
    let (ticks, end) = decode_rest(bits, header, index, at);
    if index < header.count {
        if let Ok(next) = next_tick(bits, index, at) {
            assert(ticks.drop_first() =~= decode_rest(bits, header, index + 1, next).0);
        }
    }
}

} // verus!
