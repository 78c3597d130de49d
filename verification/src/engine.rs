//! Queries: which frames and ticks a request covers, and the running statistics
//! of their prices.
use vstd::prelude::*;
use vstd::slice::slice_subrange;

use crate::compression::{decode_frame, decoded, law_decoded_ticks, FrameHeader};
use crate::error::Error;
use crate::price::{finite, is_finite, is_nan, less, price_lt, rank, INFINITY, NEG_INFINITY};
use crate::protocol::{wire_fields, QueryMetrics, Tick, SPARKLINE_SIZE};
use crate::storage::{entry_end, index_wf, FrameIndexEntry};

verus! {

/// Where halving the frames `low` to `high` leads, in search of the first that does
/// not end before `target_ts`.
pub open spec fn bisect(frames: Seq<FrameIndexEntry>, target_ts: u64, low: int, high: int) -> int
    decreases high - low,
{
    if low >= high {
        low
    } else {
        let mid = low + (high - low) / 2;
        if frames[mid].header.end_ts < target_ts {
            bisect(frames, target_ts, mid + 1, high)
        } else {
            bisect(frames, target_ts, low, mid)
        }
    }
}

/// Frames end one after the other.
pub open spec fn ends_sorted(frames: Seq<FrameIndexEntry>) -> bool {
    forall|i: int, j: int|
        0 <= i <= j < frames.len() ==> (#[trigger] frames[i]).header.end_ts <= (
        #[trigger] frames[j]).header.end_ts
}

/// The frames of an index end one after the other.
pub proof fn lemma_index_ends_sorted(frames: Seq<FrameIndexEntry>)
    requires
        index_wf(frames),
    ensures
        ends_sorted(frames),
{
    assert forall|i: int, j: int| 0 <= i <= j < frames.len() implies (
    #[trigger] frames[i]).header.end_ts <= (#[trigger] frames[j]).header.end_ts by {
        if i < j {
            assert(frames[i].header.end_ts <= frames[j].header.start_ts);
        }
    }
}

/// The first frame that does not end before `target_ts`, if frames end one after
/// the other; else where halving leads.
pub fn find_offset_since(frames: &[FrameIndexEntry], target_ts: u64) -> (r: usize)
    ensures
        r <= frames@.len(),
        r == bisect(frames@, target_ts, 0, frames@.len() as int),
        ends_sorted(frames@) ==> {
            &&& forall|i: int| 0 <= i < r ==> frames@[i].header.end_ts < target_ts
            &&& forall|i: int| r <= i < frames@.len() ==> frames@[i].header.end_ts >= target_ts
        },
{
    let mut low: usize = 0;
    let mut high: usize = frames.len();
    while low < high
        invariant
            low <= high <= frames@.len(),
            bisect(frames@, target_ts, low as int, high as int) == bisect(
                frames@,
                target_ts,
                0,
                frames@.len() as int,
            ),
            low > 0 ==> frames@[low - 1].header.end_ts < target_ts,
            high < frames@.len() ==> frames@[high as int].header.end_ts >= target_ts,
        decreases high - low,
    {
        let mid: usize = low + (high - low) / 2;
        if frames[mid].header.end_ts < target_ts {
            low = mid + 1;
        } else {
            high = mid;
        }
    }
    low
}

/// How many ticks the frames from `i` on hold.
pub open spec fn ticks_from(frames: Seq<FrameIndexEntry>, i: int) -> int
    decreases frames.len() - i,
{
    if i >= frames.len() {
        0
    } else {
        frames[i].header.count + ticks_from(frames, i + 1)
    }
}

/// The last frame ahead of `i` from which on there are at least `minimum` ticks; the
/// first frame, if there are not that many.
pub open spec fn trailing_start(frames: Seq<FrameIndexEntry>, minimum: int, i: int) -> int
    decreases i,
{
    if i <= 0 {
        0
    } else if ticks_from(frames, i - 1) >= minimum {
        i - 1
    } else {
        trailing_start(frames, minimum, i - 1)
    }
}

/// The last frame from which on there are at least `minimum_ticks` ticks; the first
/// frame, if there are not that many.
pub fn trailing_frame_index(frames: &[FrameIndexEntry], minimum_ticks: u64) -> (r: usize)
    requires
        ticks_from(frames@, 0) <= u64::MAX || minimum_ticks + u32::MAX <= u64::MAX,
    ensures
        r == trailing_start(frames@, minimum_ticks as int, frames@.len() as int),
        frames@.len() == 0 || ticks_from(frames@, 0) < minimum_ticks ==> r == 0,
        frames@.len() > 0 && ticks_from(frames@, 0) >= minimum_ticks ==> {
            &&& r < frames@.len()
            &&& ticks_from(frames@, r as int) >= minimum_ticks
            &&& forall|j: int| r < j < frames@.len() ==> ticks_from(frames@, j) < minimum_ticks
        },
{
    let mut ticks: u64 = 0;
    let mut index: usize = frames.len();
    while index > 0
        invariant
            index <= frames@.len(),
            ticks_from(frames@, 0) <= u64::MAX || minimum_ticks + u32::MAX <= u64::MAX,
            ticks == ticks_from(frames@, index as int),
            index < frames@.len() ==> ticks < minimum_ticks,
            forall|j: int| index <= j < frames@.len() ==> ticks_from(frames@, j) < minimum_ticks,
            trailing_start(frames@, minimum_ticks as int, index as int) == trailing_start(
                frames@,
                minimum_ticks as int,
                frames@.len() as int,
            ),
        decreases index,
    {
        index -= 1;
        proof {
            lemma_ticks_from(frames@, 0, index as int);
        }
        ticks = ticks + frames[index].header.count as u64;
        if ticks >= minimum_ticks {
            return index;
        }
    }
    0
}

/// The frames that are read in the end hold the minimum of ticks, or are all there
/// are, and no later frame would do.
pub proof fn law_trailing_frames(frames: Seq<FrameIndexEntry>, minimum: int)
    requires
        frames.len() > 0,
        minimum > 0,
    ensures
        ({
            let start = trailing_start(frames, minimum, frames.len() as int);
            &&& 0 <= start < frames.len()
            &&& start > 0 ==> ticks_from(frames, start) >= minimum
            &&& forall|j: int| start < j <= frames.len() ==> ticks_from(frames, j) < minimum
        }),
{
    lemma_trailing(frames, minimum, frames.len() as int);
}

proof fn lemma_trailing(frames: Seq<FrameIndexEntry>, minimum: int, i: int)
    requires
        minimum > 0,
        0 <= i <= frames.len(),
        forall|j: int| i <= j <= frames.len() ==> ticks_from(frames, j) < minimum,
    ensures
        ({
            let start = trailing_start(frames, minimum, i);
            &&& 0 <= start <= i
            &&& i > 0 ==> start < i
            &&& start > 0 ==> ticks_from(frames, start) >= minimum
            &&& forall|j: int| start < j <= frames.len() ==> ticks_from(frames, j) < minimum
        }),
    decreases i,
{
    if i > 0 && ticks_from(frames, i - 1) < minimum {
        lemma_trailing(frames, minimum, i - 1);
    }
}

/// Requests up to a day are spans back from the last tick; this many microseconds.
pub const DAY_MICROS: u64 = 86_400_000_000;

/// The span that stands in for a request that starts after the last tick.
pub const MINUTE_MICROS: u64 = 60_000_000;

/// How many ticks an answer is based on at least, where there are that many.
pub const MINIMUM_TICKS: u64 = 10_000;

/// `a - b`, but not below zero.
pub open spec fn less_by(a: u64, b: u64) -> u64 {
    if a < b {
        0
    } else {
        (a - b) as u64
    }
}

/// The time from which on ticks are asked for: everything for 0, a span back from
/// the last tick for up to a day, the last minute for a time after the last tick,
/// else the time itself.
pub open spec fn target_of(since_ts: u64, latest_ts: u64) -> u64 {
    if since_ts == 0 {
        0
    } else if since_ts <= DAY_MICROS {
        less_by(latest_ts, since_ts)
    } else if since_ts > latest_ts {
        less_by(latest_ts, MINUTE_MICROS)
    } else {
        since_ts
    }
}

/// Resolves the time that a request names.
pub fn resolve_target(since_ts: u64, latest_ts: u64) -> (r: u64)
    ensures
        r == target_of(since_ts, latest_ts),
{
    if since_ts == 0 {
        0
    } else if since_ts <= DAY_MICROS {
        latest_ts.saturating_sub(since_ts)
    } else if since_ts > latest_ts {
        latest_ts.saturating_sub(MINUTE_MICROS)
    } else {
        since_ts
    }
}

/// What a query reads: the frames from `start` on, and of them the ticks that are
/// not older than `floor`.
#[derive(Debug, Clone, Copy, PartialEq, Eq, Structural)]
pub struct QueryPlan {
    pub start: usize,
    pub floor: u64,
}

/// The plan of a query. Where the requested time leaves fewer frames than hold the
/// minimum of ticks, the frames that hold it are read in full instead. There is
/// nothing to read if there are no frames.
pub open spec fn plan_of(frames: Seq<FrameIndexEntry>, since_ts: u64) -> Option<QueryPlan> {
    if frames.len() == 0 {
        None
    } else {
        let target = target_of(since_ts, frames.last().header.end_ts);
        let requested = bisect(frames, target, 0, frames.len() as int);
        let trailing = trailing_start(frames, MINIMUM_TICKS as int, frames.len() as int);
        if requested >= trailing && requested > 0 {
            Some(QueryPlan { start: trailing as usize, floor: 0 })
        } else {
            Some(QueryPlan { start: requested as usize, floor: target })
        }
    }
}

/// Plans a query.
pub fn plan_query(frames: &Vec<FrameIndexEntry>, since_ts: u64) -> (r: Option<QueryPlan>)
    ensures
        r == plan_of(frames@, since_ts),
        r matches Some(plan) ==> plan.start < frames@.len(),
{
    if frames.len() == 0 {
        return None;
    }
    let latest_ts: u64 = frames[frames.len() - 1].header.end_ts;
    let target_ts: u64 = resolve_target(since_ts, latest_ts);
    let requested: usize = find_offset_since(frames.as_slice(), target_ts);
    let trailing: usize = trailing_frame_index(frames.as_slice(), MINIMUM_TICKS);
    proof {
        law_trailing_frames(frames@, MINIMUM_TICKS as int);
    }
    if requested >= trailing && requested > 0 {
        Some(QueryPlan { start: trailing, floor: 0 })
    } else {
        Some(QueryPlan { start: requested, floor: target_ts })
    }
}

/// The prices of the ticks that are not older than `floor`.
pub open spec fn prices_since(ticks: Seq<Tick>, floor: u64) -> Seq<u64>
    decreases ticks.len(),
{
    if ticks.len() == 0 {
        Seq::empty()
    } else {
        let rest = prices_since(ticks.drop_last(), floor);
        if ticks.last().timestamp >= floor {
            rest.push(ticks.last().price_bits)
        } else {
            rest
        }
    }
}

/// Decompresses a frame and appends the prices of the ticks that are not older
/// than `floor`; on an error, of those ahead of it.
pub fn collect_frame(header: FrameHeader, payload: &[u8], floor: u64, prices: &mut Vec<u64>) -> (r:
    Result<(), Error>)
    ensures
        final(prices)@ == old(prices)@ + prices_since(decoded(header, payload@).0, floor),
        final(prices)@ == old(prices)@ + decoded(header, payload@).0.filter(
            |t: Tick| t.timestamp >= floor,
        ).map_values(|t: Tick| t.price_bits),
        r == decoded(header, payload@).1,
{
    let ghost before = prices@;
    let mut ticks: Vec<Tick> = Vec::new();
    let r = decode_frame(header, payload, &mut ticks);
    assert(ticks@ =~= decoded(header, payload@).0);
    let mut i: usize = 0;
    assert(prices@ =~= before + prices_since(ticks@.take(0), floor));
    while i < ticks.len()
        invariant
            i <= ticks@.len(),
            prices@ == before + prices_since(ticks@.take(i as int), floor),
        decreases ticks@.len() - i,
    {
        let tick = ticks[i];
        assert(ticks@.take(i + 1).drop_last() =~= ticks@.take(i as int));
        if tick.timestamp >= floor {
            prices.push(tick.price_bits);
        }
        i += 1;
        assert(prices@ =~= before + prices_since(ticks@.take(i as int), floor));
    }
    assert(ticks@.take(i as int) =~= ticks@);
    proof {
        law_prices_are_those_from_the_floor_on(ticks@, floor);
    }
    r
}

/// The prices that a query reads from the frames from `i` on, in a file whose
/// contents are `bytes`.
pub open spec fn prices_from(
    bytes: Seq<u8>,
    frames: Seq<FrameIndexEntry>,
    i: int,
    floor: u64,
) -> Result<Seq<u64>, Error>
    decreases frames.len() - i,
{
    if i >= frames.len() {
        Ok(Seq::empty())
    } else if entry_end(frames[i]) > bytes.len() {
        Err(Error::EndOfFile)
    } else {
        let (ticks, end) = decoded(
            frames[i].header,
            bytes.subrange(frames[i].payload_offset as int, entry_end(frames[i])),
        );
        match end {
            Err(e) => Err(e),
            Ok(_) => match prices_from(bytes, frames, i + 1, floor) {
                Err(e) => Err(e),
                Ok(rest) => Ok(prices_since(ticks, floor) + rest),
            },
        }
    }
}

/// The prices that a query selects.
pub open spec fn selected(bytes: Seq<u8>, frames: Seq<FrameIndexEntry>, since_ts: u64) -> Result<
    Seq<u64>,
    Error,
> {
    match plan_of(frames, since_ts) {
        None => Ok(Seq::empty()),
        Some(plan) => prices_from(bytes, frames, plan.start as int, plan.floor),
    }
}

/// The last prices of a query, for a small chart.
pub struct Sparkline {
    ring: [u64; SPARKLINE_SIZE],
    /// Where the next price goes.
    next: usize,
    len: usize,
}

/// The last `n` of a sequence, or all of it.
pub open spec fn last_of(s: Seq<u64>, n: int) -> Seq<u64> {
    if s.len() <= n {
        s
    } else {
        s.skip(s.len() - n)
    }
}

impl Sparkline {
    /// The positions lie inside the ring.
    pub closed spec fn wf(self) -> bool {
        self.next < SPARKLINE_SIZE && self.len <= SPARKLINE_SIZE
    }

    /// The prices that are kept, oldest first.
    pub closed spec fn kept(self) -> Seq<u64> {
        Seq::new(
            self.len as nat,
            |i: int|
                self.ring@[(self.next + SPARKLINE_SIZE - self.len + i) % (SPARKLINE_SIZE as int)],
        )
    }

    /// No prices.
    pub fn new() -> (r: Self)
        ensures
            r.wf(),
            r.kept() == Seq::<u64>::empty(),
    {
        let r = Sparkline { ring: [0u64; SPARKLINE_SIZE], next: 0, len: 0 };
        assert(r.kept() =~= Seq::<u64>::empty());
        r
    }

    /// Adds a price; the oldest makes room.
    pub fn push(&mut self, price_bits: u64)
        requires
            old(self).wf(),
        ensures
            final(self).wf(),
            final(self).kept() == last_of(old(self).kept().push(price_bits), SPARKLINE_SIZE as int),
    {
        let ghost before = self.kept();
        self.ring[self.next] = price_bits;
        self.next = (self.next + 1) % SPARKLINE_SIZE;
        if self.len < SPARKLINE_SIZE {
            self.len += 1;
        }
        assert(self.kept() =~= last_of(before.push(price_bits), SPARKLINE_SIZE as int));
    }

    /// Puts the prices that are kept into a snapshot.
    pub fn fill(&self, metrics: &mut QueryMetrics)
        requires
            self.wf(),
        ensures
            wire_fields(*final(metrics)) == wire_fields(*old(metrics)),
            final(metrics).sparkline_len == self.kept().len(),
            self.kept().len() <= SPARKLINE_SIZE,
            final(metrics).sparkline@ == self.kept() + old(metrics).sparkline@.skip(
                self.kept().len() as int,
            ),
    {
        let ghost before = metrics.sparkline@;
        let mut line: [u64; SPARKLINE_SIZE] = metrics.sparkline;
        let mut i: usize = 0;
        while i < self.len
            invariant
                self.wf(),
                i <= self.len,
                before.len() == SPARKLINE_SIZE,
                forall|j: int| 0 <= j < i ==> line@[j] == self.kept()[j],
                forall|j: int| i <= j < SPARKLINE_SIZE ==> line@[j] == before[j],
            decreases self.len - i,
        {
            line[i] = self.ring[(self.next + SPARKLINE_SIZE - self.len + i) % SPARKLINE_SIZE];
            i += 1;
        }
        metrics.sparkline = line;
        metrics.sparkline_len = self.len;
        assert(metrics.sparkline@ =~= self.kept() + before.skip(self.len as int));
        assert(wire_fields(*metrics) =~= wire_fields(*old(metrics)));
    }
}

/// The bit pattern of one billionth, below which a spread counts as none.
pub const SPREAD_FLOOR: u64 = 0x3e11_2e0b_e826_d695;

/// Running statistics of prices in one pass. Every field but the count is the bit
/// pattern of a double.
#[derive(Debug, Clone, Copy, PartialEq, Eq, Structural)]
pub struct QuantAccumulator {
    pub count: u64,
    pub open: u64,
    pub high: u64,
    pub low: u64,
    pub close: u64,
    /// The mean so far.
    pub mean: u64,
    /// The sum of squared distances from the mean so far.
    pub m2: u64,
    /// The highest price so far.
    pub peak_price: u64,
    /// The largest fall from the highest price so far, as a part of that price.
    pub max_drawdown: u64,
}

/// What floating-point arithmetic gives for a price that comes in, from the state
/// ahead of it.
#[derive(Debug, Clone, Copy, PartialEq, Eq, Structural)]
pub struct StepArith {
    /// The mean with the price taken in.
    pub mean: u64,
    /// The sum of squared distances with the price taken in.
    pub m2: u64,
    /// How far the price lies below the highest price, as a part of that price.
    pub drawdown: u64,
}

/// What floating-point arithmetic gives for the prices taken in as a whole.
#[derive(Debug, Clone, Copy, PartialEq, Eq, Structural)]
pub struct Spread {
    pub variance: u64,
    pub std_dev: u64,
    pub z_score: u64,
    pub upper_bollinger: u64,
    pub lower_bollinger: u64,
}

/// The statistics of no prices.
pub open spec fn no_prices() -> QuantAccumulator {
    QuantAccumulator {
        count: 0,
        open: 0,
        high: NEG_INFINITY,
        low: INFINITY,
        close: 0,
        mean: 0,
        m2: 0,
        peak_price: NEG_INFINITY,
        max_drawdown: 0,
    }
}

/// The statistics once a price is taken in. A price that is not finite changes
/// nothing.
pub open spec fn taken_in(a: QuantAccumulator, price: u64, arith: StepArith) -> QuantAccumulator {
    if !is_finite(price) {
        a
    } else {
        QuantAccumulator {
            count: (a.count + 1) as u64,
            open: if a.count == 0 {
                price
            } else {
                a.open
            },
            high: if price_lt(a.high, price) {
                price
            } else {
                a.high
            },
            low: if price_lt(price, a.low) {
                price
            } else {
                a.low
            },
            close: price,
            mean: arith.mean,
            m2: arith.m2,
            peak_price: if price_lt(a.peak_price, price) {
                price
            } else {
                a.peak_price
            },
            max_drawdown: if !price_lt(a.peak_price, price) && price_lt(0, a.peak_price)
                && price_lt(a.max_drawdown, arith.drawdown) {
                arith.drawdown
            } else {
                a.max_drawdown
            },
        }
    }
}

/// The numbers of a snapshot; all zero if there are no prices.
pub open spec fn snapshot(a: QuantAccumulator, spread: Spread) -> Seq<u64> {
    if a.count == 0 {
        Seq::new(12, |i: int| 0u64)
    } else {
        seq![
            a.count,
            a.open,
            a.high,
            a.low,
            a.close,
            a.mean,
            spread.variance,
            spread.std_dev,
            spread.z_score,
            spread.upper_bollinger,
            spread.lower_bollinger,
            a.max_drawdown,
        ]
    }
}

impl Default for QuantAccumulator {
    fn default() -> (r: Self)
        ensures
            r == no_prices(),
    {
        QuantAccumulator::new()
    }
}

impl QuantAccumulator {
    /// The statistics of no prices.
    pub fn new() -> (r: Self)
        ensures
            r == no_prices(),
    {
        QuantAccumulator {
            count: 0,
            open: 0,
            high: NEG_INFINITY,
            low: INFINITY,
            close: 0,
            mean: 0,
            m2: 0,
            peak_price: NEG_INFINITY,
            max_drawdown: 0,
        }
    }

    /// Takes a price in.
    pub fn update(&mut self, price: u64, arith: StepArith)
        requires
            is_finite(price) ==> old(self).count < u64::MAX,
        ensures
            *final(self) == taken_in(*old(self), price, arith),
            is_finite(price) ==> {
                &&& final(self).count == old(self).count + 1
                &&& final(self).close == price
                &&& final(self).mean == arith.mean
                &&& final(self).m2 == arith.m2
                &&& old(self).count > 0 ==> final(self).open == old(self).open
                &&& old(self).count == 0 ==> final(self).open == price
            },
            !is_finite(price) ==> *final(self) == *old(self),
    {
        if !finite(price) {
            return ;
        }
        if self.count == 0 {
            self.open = price;
        }
        self.count = self.count + 1;
        self.close = price;
        if less(self.high, price) {
            self.high = price;
        }
        if less(price, self.low) {
            self.low = price;
        }
        self.mean = arith.mean;
        self.m2 = arith.m2;
        if less(self.peak_price, price) {
            self.peak_price = price;
        } else if less(0, self.peak_price) {
            if less(self.max_drawdown, arith.drawdown) {
                self.max_drawdown = arith.drawdown;
            }
        }
    }

    /// The variance, given the sum of squared distances divided by one less than
    /// the count. Fewer than two prices have none.
    pub fn sample_variance(&self, quotient: u64) -> (r: u64)
        ensures
            r == (if self.count < 2 {
                0
            } else {
                quotient
            }),
    {
        if self.count < 2 {
            0
        } else {
            quotient
        }
    }

    /// The distance of the last price from the mean in standard deviations, given
    /// their quotient. Where there is hardly any deviation it is zero.
    pub fn z_score(&self, std_dev: u64, quotient: u64) -> (r: u64)
        ensures
            r == (if price_lt(SPREAD_FLOOR, std_dev) {
                quotient
            } else {
                0
            }),
            std_dev <= 0x3e11_2e0b_e826_d695 || std_dev > 0x7ff0_0000_0000_0000 ==> r == 0,
            0x3e11_2e0b_e826_d695 < std_dev <= 0x7ff0_0000_0000_0000 ==> r == quotient,
    {
        if less(SPREAD_FLOOR, std_dev) {
            quotient
        } else {
            0
        }
    }

    /// A snapshot of the statistics.
    pub fn finalize(&self, spread: Spread) -> (m: QueryMetrics)
        ensures
            wire_fields(m) == snapshot(*self, spread),
            self.count > 0 ==> {
                &&& m.count == self.count
                &&& m.open == self.open
                &&& m.high == self.high
                &&& m.low == self.low
                &&& m.close == self.close
                &&& m.mean == self.mean
                &&& m.variance == spread.variance
                &&& m.std_dev == spread.std_dev
                &&& m.z_score == spread.z_score
                &&& m.upper_bollinger == spread.upper_bollinger
                &&& m.lower_bollinger == spread.lower_bollinger
                &&& m.max_drawdown == self.max_drawdown
            },
            m.sparkline@ == Seq::new(SPARKLINE_SIZE as nat, |i: int| 0u64),
            m.sparkline_len == 0,
    {
        if self.count == 0 {
            return QueryMetrics::empty();
        }
        let m = QueryMetrics {
            count: self.count,
            open: self.open,
            high: self.high,
            low: self.low,
            close: self.close,
            mean: self.mean,
            variance: spread.variance,
            std_dev: spread.std_dev,
            z_score: spread.z_score,
            upper_bollinger: spread.upper_bollinger,
            lower_bollinger: spread.lower_bollinger,
            max_drawdown: self.max_drawdown,
            sparkline: [0u64; SPARKLINE_SIZE],
            sparkline_len: 0,
        };
        assert(m.sparkline@ =~= Seq::new(SPARKLINE_SIZE as nat, |i: int| 0u64));
        m
    }
}

/// The statistics of prices that are taken in one after the other.
pub open spec fn accumulated(steps: Seq<(u64, StepArith)>) -> QuantAccumulator
    decreases steps.len(),
{
    if steps.len() == 0 {
        no_prices()
    } else {
        taken_in(accumulated(steps.drop_last()), steps.last().0, steps.last().1)
    }
}

/// The prices among them that are finite.
pub open spec fn finite_prices(steps: Seq<(u64, StepArith)>) -> Seq<u64>
    decreases steps.len(),
{
    if steps.len() == 0 {
        Seq::empty()
    } else if is_finite(steps.last().0) {
        finite_prices(steps.drop_last()).push(steps.last().0)
    } else {
        finite_prices(steps.drop_last())
    }
}

/// The prices that were taken in.
pub open spec fn step_prices(steps: Seq<(u64, StepArith)>) -> Seq<u64> {
    Seq::new(steps.len(), |i: int| steps[i].0)
}

/// Each step from `from` on used what `arith` gave for the state ahead of it.
pub open spec fn computed_by<F: Fn(QuantAccumulator, u64) -> StepArith>(
    arith: F,
    steps: Seq<(u64, StepArith)>,
    from: int,
) -> bool {
    forall|i: int|
        from <= i < steps.len() ==> call_ensures(
            arith,
            (accumulated(steps.take(i)), steps[i].0),
            (#[trigger] steps[i]).1,
        )
}

/// A query under way: the statistics and the last prices of what was read so far.
pub struct MetricsQuery {
    floor: u64,
    stats: QuantAccumulator,
    line: Sparkline,
    steps: Ghost<Seq<(u64, StepArith)>>,
}

impl MetricsQuery {
    /// Ticks older than this are left out.
    pub closed spec fn floor(self) -> u64 {
        self.floor
    }

    /// The prices that were taken in, with what the arithmetic gave for each.
    pub closed spec fn steps(self) -> Seq<(u64, StepArith)> {
        self.steps@
    }

    /// The statistics and the last prices are those of what was taken in.
    pub closed spec fn wf(self) -> bool {
        &&& self.line.wf()
        &&& self.stats == accumulated(self.steps())
        &&& self.stats.count <= self.steps().len()
        &&& self.line.kept() == last_of(step_prices(self.steps()), SPARKLINE_SIZE as int)
    }

    /// A query that has read nothing.
    pub fn new(floor: u64) -> (r: Self)
        ensures
            r.wf(),
            r.floor() == floor,
            r.steps() == Seq::<(u64, StepArith)>::empty(),
    {
        let r = MetricsQuery {
            floor,
            stats: QuantAccumulator::new(),
            line: Sparkline::new(),
            steps: Ghost(Seq::empty()),
        };
        assert(step_prices(r.steps()) =~= Seq::<u64>::empty());
        r
    }

    /// Takes a price in.
    pub fn take_in<F: Fn(QuantAccumulator, u64) -> StepArith>(&mut self, price: u64, arith: &F)
        requires
            old(self).wf(),
            old(self).steps().len() < u64::MAX,
            forall|a: QuantAccumulator, p: u64| call_requires(*arith, (a, p)),
        ensures
            final(self).wf(),
            final(self).floor() == old(self).floor(),
            final(self).steps().len() == old(self).steps().len() + 1,
            final(self).steps().drop_last() == old(self).steps(),
            final(self).steps().last().0 == price,
            computed_by(*arith, final(self).steps(), old(self).steps().len() as int),
    {
        let ghost before = self.steps();
        let ghost prices = step_prices(before);
        let given = arith(self.stats, price);
        self.stats.update(price, given);
        self.line.push(price);
        self.steps = Ghost(before.push((price, given)));
        proof {
            let steps = self.steps();
            assert(steps.drop_last() =~= before);
            assert(steps.take(before.len() as int) =~= before);
            let n = SPARKLINE_SIZE as int;
            assert(step_prices(steps) =~= prices.push(price));
            assert(last_of(last_of(prices, n).push(price), n) =~= last_of(prices.push(price), n));
        }
    }

    /// Reads one frame: takes in the prices of its ticks that are not too old. On an
    /// error, of those ahead of it.
    pub fn read_frame<F: Fn(QuantAccumulator, u64) -> StepArith>(
        &mut self,
        header: FrameHeader,
        payload: &[u8],
        arith: &F,
    ) -> (r: Result<(), Error>)
        requires
            old(self).wf(),
            old(self).steps().len() + header.count <= u64::MAX,
            forall|a: QuantAccumulator, p: u64| call_requires(*arith, (a, p)),
        ensures
            final(self).wf(),
            final(self).floor() == old(self).floor(),
            r == decoded(header, payload@).1,
            old(self).steps().is_prefix_of(final(self).steps()),
            final(self).steps().len() <= old(self).steps().len() + header.count,
            step_prices(final(self).steps()) == step_prices(old(self).steps()) + prices_since(
                decoded(header, payload@).0,
                old(self).floor(),
            ),
            computed_by(*arith, final(self).steps(), old(self).steps().len() as int),
    {
        let mut prices: Vec<u64> = Vec::new();
        let r = collect_frame(header, payload, self.floor, &mut prices);
        proof {
            law_decoded_ticks(header, payload@);
            lemma_prices_len(decoded(header, payload@).0, self.floor);
        }
        assert(prices@ =~= prices_since(decoded(header, payload@).0, self.floor));
        let ghost before = self.steps();
        let mut i: usize = 0;
        assert(prices@.take(0) =~= Seq::<u64>::empty());
        assert(step_prices(self.steps()) =~= step_prices(before) + prices@.take(0));
        while i < prices.len()
            invariant
                i <= prices@.len() <= header.count,
                self.wf(),
                self.floor() == old(self).floor(),
                before.len() + header.count <= u64::MAX,
                self.steps().len() == before.len() + i,
                before.is_prefix_of(self.steps()),
                step_prices(self.steps()) == step_prices(before) + prices@.take(i as int),
                computed_by(*arith, self.steps(), before.len() as int),
                forall|a: QuantAccumulator, p: u64| call_requires(*arith, (a, p)),
            decreases prices@.len() - i,
        {
            let ghost sofar = self.steps();
            self.take_in(prices[i], arith);
            proof {
                lemma_step_added(*arith, before, sofar, self.steps(), prices@, i as int);
            }
            i += 1;
        }
        assert(prices@.take(i as int) =~= prices@);
        r
    }

    /// The snapshot of what was read.
    pub fn finish<G: Fn(QuantAccumulator) -> Spread>(&self, spread: &G) -> (m: QueryMetrics)
        requires
            self.wf(),
            forall|a: QuantAccumulator| call_requires(*spread, (a,)),
        ensures
            exists|given: Spread|
                #![trigger snapshot(accumulated(self.steps()), given)]
                call_ensures(*spread, (accumulated(self.steps()),), given) && wire_fields(m)
                    == snapshot(accumulated(self.steps()), given),
            charts(m, step_prices(self.steps())),
    {
        let given = spread(self.stats);
        let mut m = self.stats.finalize(given);
        assert(wire_fields(m) == snapshot(accumulated(self.steps()), given));
        let ghost zeros = m.sparkline@;
        self.line.fill(&mut m);
        proof {
            let line = self.line.kept();
            assert(m.sparkline@.take(line.len() as int) =~= line);
            assert forall|i: int| line.len() <= i < SPARKLINE_SIZE implies m.sparkline@[i]
                == 0 by {
                assert(m.sparkline@[i] == zeros.skip(line.len() as int)[i - line.len()]);
            }
        }
        m
    }
}

/// One more step with the same arithmetic.
proof fn lemma_step_added<F: Fn(QuantAccumulator, u64) -> StepArith>(
    arith: F,
    before: Seq<(u64, StepArith)>,
    sofar: Seq<(u64, StepArith)>,
    steps: Seq<(u64, StepArith)>,
    prices: Seq<u64>,
    i: int,
)
    requires
        before.is_prefix_of(sofar),
        0 <= i < prices.len(),
        steps.len() == sofar.len() + 1,
        steps.drop_last() == sofar,
        steps.last().0 == prices[i],
        step_prices(sofar) == step_prices(before) + prices.take(i),
        computed_by(arith, sofar, before.len() as int),
        computed_by(arith, steps, sofar.len() as int),
    ensures
        before.is_prefix_of(steps),
        step_prices(steps) == step_prices(before) + prices.take(i + 1),
        computed_by(arith, steps, before.len() as int),
{
    assert forall|k: int| 0 <= k < sofar.len() implies #[trigger] steps[k] == sofar[k] by {
        assert(steps.drop_last()[k] == steps[k]);
    }
    assert(before =~= steps.take(before.len() as int)) by {
        assert(before =~= sofar.take(before.len() as int));
    }
    assert forall|k: int| before.len() <= k < steps.len() implies call_ensures(
        arith,
        (accumulated(steps.take(k)), steps[k].0),
        (#[trigger] steps[k]).1,
    ) by {
        if k < sofar.len() {
            assert(steps[k] == sofar[k]);
            assert(steps.take(k) =~= sofar.take(k));
        }
    }
    assert(step_prices(steps) =~= step_prices(sofar).push(prices[i]));
    assert(prices.take(i + 1) =~= prices.take(i).push(prices[i]));
    assert(step_prices(steps) =~= step_prices(before) + prices.take(i + 1));
}

/// A snapshot whose small chart shows the last of the prices.
pub open spec fn charts(m: QueryMetrics, prices: Seq<u64>) -> bool {
    let line = last_of(prices, SPARKLINE_SIZE as int);
    &&& m.sparkline_len == line.len()
    &&& m.sparkline@.take(line.len() as int) == line
    &&& forall|i: int| line.len() <= i < SPARKLINE_SIZE ==> m.sparkline@[i] == 0
}

/// No more prices than ticks.
proof fn lemma_prices_len(ticks: Seq<Tick>, floor: u64)
    ensures
        prices_since(ticks, floor).len() <= ticks.len(),
    decreases ticks.len(),
{
    if ticks.len() > 0 {
        lemma_prices_len(ticks.drop_last(), floor);
    }
}

/// A snapshot of the prices that a query selects, in a file whose contents are
/// `bytes` and whose index is `frames`. The floating-point arithmetic is handed in:
/// `arith` for each price, `spread` for the whole.
pub fn compute_metrics_query<
    F: Fn(QuantAccumulator, u64) -> StepArith,
    G: Fn(QuantAccumulator) -> Spread,
>(bytes: &[u8], frames: &Vec<FrameIndexEntry>, since_ts: u64, arith: &F, spread: &G) -> (r: Result<
    QueryMetrics,
    Error,
>)
    requires
        ticks_from(frames@, 0) <= u64::MAX,
        forall|a: QuantAccumulator, p: u64| call_requires(*arith, (a, p)),
        forall|a: QuantAccumulator| call_requires(*spread, (a,)),
    ensures
        match selected(bytes@, frames@, since_ts) {
            Err(e) => r is Err && r->Err_0 == e,
            Ok(prices) => {
                &&& r is Ok
                &&& charts(r->Ok_0, prices)
                &&& exists|steps: Seq<(u64, StepArith)>, given: Spread|
                    #![trigger snapshot(accumulated(steps), given)]
                    {
                        &&& step_prices(steps) == prices
                        &&& computed_by(*arith, steps, 0)
                        &&& call_ensures(*spread, (accumulated(steps),), given)
                        &&& wire_fields(r->Ok_0) == snapshot(accumulated(steps), given)
                    }
            },
        },
{
    let ghost goal = selected(bytes@, frames@, since_ts);
    let (start, floor) = match plan_query(frames, since_ts) {
        Some(plan) => (plan.start, plan.floor),
        None => (frames.len(), 0),
    };
    let mut query = MetricsQuery::new(floor);
    let mut i: usize = start;
    proof {
        lemma_ticks_from(frames@, 0, i as int);
        assert(step_prices(query.steps()) =~= Seq::<u64>::empty());
        assert(goal matches Ok(all) ==> step_prices(query.steps()) + all =~= all);
    }
    while i < frames.len()
        invariant
            i <= frames@.len(),
            query.wf(),
            query.floor() == floor,
            query.steps().len() + ticks_from(frames@, i as int) <= u64::MAX,
            goal_left(goal, step_prices(query.steps()), bytes@, frames@, i as int, floor),
            computed_by(*arith, query.steps(), 0),
            goal == selected(bytes@, frames@, since_ts),
            forall|a: QuantAccumulator, p: u64| call_requires(*arith, (a, p)),
        decreases frames@.len() - i,
    {
        let ghost before = query.steps();
        proof {
            lemma_ticks_from(frames@, i + 1, frames@.len() as int);
        }
        let read = read_entry(&mut query, bytes, frames[i], arith);
        proof {
            lemma_computed_longer(*arith, before, query.steps());
            lemma_goal_step(
                goal,
                step_prices(before),
                step_prices(query.steps()),
                bytes@,
                frames@,
                i as int,
                floor,
            );
        }
        match read {
            Ok(_) => {},
            Err(e) => {
                return Err(e);
            },
        }
        i += 1;
    }
    assert(goal matches Ok(all) ==> all =~= step_prices(query.steps()));
    Ok(query.finish(spread))
}

/// What is read of a file whose contents are `bytes` where an entry points: the
/// prices, and how it ends.
pub open spec fn entry_prices(bytes: Seq<u8>, entry: FrameIndexEntry, floor: u64) -> (
    Seq<u64>,
    Result<(), Error>,
) {
    if entry_end(entry) > bytes.len() {
        (Seq::empty(), Err(Error::EndOfFile))
    } else {
        let (ticks, end) = decoded(
            entry.header,
            bytes.subrange(entry.payload_offset as int, entry_end(entry)),
        );
        (prices_since(ticks, floor), end)
    }
}

/// Reads the frame that an entry points to.
fn read_entry<F: Fn(QuantAccumulator, u64) -> StepArith>(
    query: &mut MetricsQuery,
    bytes: &[u8],
    entry: FrameIndexEntry,
    arith: &F,
) -> (r: Result<(), Error>)
    requires
        old(query).wf(),
        old(query).steps().len() + entry.header.count <= u64::MAX,
        forall|a: QuantAccumulator, p: u64| call_requires(*arith, (a, p)),
    ensures
        final(query).wf(),
        final(query).floor() == old(query).floor(),
        r == entry_prices(bytes@, entry, old(query).floor()).1,
        old(query).steps().is_prefix_of(final(query).steps()),
        final(query).steps().len() <= old(query).steps().len() + entry.header.count,
        step_prices(final(query).steps()) == step_prices(old(query).steps()) + entry_prices(
            bytes@,
            entry,
            old(query).floor(),
        ).0,
        computed_by(*arith, final(query).steps(), old(query).steps().len() as int),
{
    let len: u64 = bytes.len() as u64;
    if entry.payload_offset > len || entry.header.comp_len as u64 > len - entry.payload_offset {
        assert(step_prices(query.steps()) + Seq::<u64>::empty() =~= step_prices(query.steps()));
        assert(query.steps().take(query.steps().len() as int) =~= query.steps());
        return Err(Error::EndOfFile);
    }
    let from: usize = entry.payload_offset as usize;
    let to: usize = from + entry.header.comp_len as usize;
    query.read_frame(entry.header, slice_subrange(bytes, from, to), arith)
}

/// What is read from frame `i` on is all that is missing.
spec fn goal_left(
    goal: Result<Seq<u64>, Error>,
    sofar: Seq<u64>,
    bytes: Seq<u8>,
    frames: Seq<FrameIndexEntry>,
    i: int,
    floor: u64,
) -> bool {
    match (goal, prices_from(bytes, frames, i, floor)) {
        (Ok(all), Ok(rest)) => all == sofar + rest,
        (Err(e), Err(f)) => e == f,
        _ => false,
    }
}

proof fn lemma_goal_step(
    goal: Result<Seq<u64>, Error>,
    sofar: Seq<u64>,
    longer: Seq<u64>,
    bytes: Seq<u8>,
    frames: Seq<FrameIndexEntry>,
    i: int,
    floor: u64,
)
    requires
        0 <= i < frames.len(),
        goal_left(goal, sofar, bytes, frames, i, floor),
        longer == sofar + entry_prices(bytes, frames[i], floor).0,
    ensures
        match entry_prices(bytes, frames[i], floor).1 {
            Ok(_) => goal_left(goal, longer, bytes, frames, i + 1, floor),
            Err(e) => goal == Err::<Seq<u64>, Error>(e),
        },
{
    let part = entry_prices(bytes, frames[i], floor).0;
    match (entry_prices(bytes, frames[i], floor).1, prices_from(bytes, frames, i + 1, floor)) {
        (Ok(_), Ok(rest)) => {
            assert(sofar + (part + rest) =~= longer + rest);
        },
        _ => {},
    }
}

/// Later frames hold no fewer than no ticks.
proof fn lemma_ticks_from(frames: Seq<FrameIndexEntry>, i: int, j: int)
    requires
        0 <= i <= j <= frames.len(),
    ensures
        0 <= ticks_from(frames, j) <= ticks_from(frames, i),
    decreases frames.len() - i,
{
    if i < j {
        lemma_ticks_from(frames, i + 1, j);
    } else if i < frames.len() {
        lemma_ticks_from(frames, i + 1, frames.len() as int);
        lemma_ticks_from(frames, i + 1, i + 1);
    }
}

/// Steps that continue others with the same arithmetic.
proof fn lemma_computed_longer<F: Fn(QuantAccumulator, u64) -> StepArith>(
    arith: F,
    shorter: Seq<(u64, StepArith)>,
    steps: Seq<(u64, StepArith)>,
)
    requires
        shorter.is_prefix_of(steps),
        computed_by(arith, shorter, 0),
        computed_by(arith, steps, shorter.len() as int),
    ensures
        computed_by(arith, steps, 0),
{
    assert forall|i: int| 0 <= i < steps.len() implies call_ensures(
        arith,
        (accumulated(steps.take(i)), steps[i].0),
        (#[trigger] steps[i]).1,
    ) by {
        if i < shorter.len() {
            assert(steps[i] == shorter[i]);
            assert(steps.take(i) =~= shorter.take(i));
        }
    }
}

/// Whatever the arithmetic gives: the finite prices are counted, the first and the
/// last of them are the opening and the closing price, the highest and the lowest
/// are among them and bound them all, and the highest is the peak.
pub proof fn law_open_high_low_close(steps: Seq<(u64, StepArith)>)
    requires
        steps.len() <= u64::MAX,
    ensures
        ({
            let a = accumulated(steps);
            let prices = finite_prices(steps);
            &&& a.count == prices.len()
            &&& prices.len() <= steps.len()
            &&& a.peak_price == a.high
            &&& prices.len() > 0 ==> {
                &&& a.open == prices.first()
                &&& a.close == prices.last()
                &&& prices.contains(a.high)
                &&& prices.contains(a.low)
            }
            &&& forall|i: int|
                0 <= i < prices.len() ==> rank(a.low) <= #[trigger] rank(prices[i]) <= rank(a.high)
        }),
    decreases steps.len(),
{
    if steps.len() > 0 {
        let shorter = steps.drop_last();
        law_open_high_low_close(shorter);
        lemma_extremes(shorter);
        let before = accumulated(shorter);
        let old_prices = finite_prices(shorter);
        let a = accumulated(steps);
        let prices = finite_prices(steps);
        let price = steps.last().0;
        if is_finite(price) {
            let n = old_prices.len() as int;
            assert(prices[n] == price);
            assert forall|i: int| 0 <= i < n implies prices[i] == old_prices[i] by {}
            if old_prices.len() > 0 {
                let h = choose|i: int| 0 <= i < n && old_prices[i] == before.high;
                let l = choose|i: int| 0 <= i < n && old_prices[i] == before.low;
                assert(prices[h] == before.high && prices[l] == before.low);
            }
            assert(prices.contains(price));
            assert forall|i: int| 0 <= i < prices.len() implies rank(a.low) <= #[trigger] rank(
                prices[i],
            ) <= rank(a.high) by {
                if i < n {
                    assert(rank(before.low) <= rank(old_prices[i]) <= rank(before.high));
                }
            }
        }
    }
}

/// The highest and the lowest price always compare, and a finite price lies between
/// the infinities.
proof fn lemma_extremes(steps: Seq<(u64, StepArith)>)
    ensures
        !is_nan(accumulated(steps).high),
        !is_nan(accumulated(steps).low),
        finite_prices(steps).len() == 0 ==> accumulated(steps) == no_prices(),
    decreases steps.len(),
{
    if steps.len() > 0 {
        lemma_extremes(steps.drop_last());
    }
}

/// Step `i` is a fall: a finite price that is not above the highest so far, which is
/// positive, by a part that is a number.
pub open spec fn is_fall(steps: Seq<(u64, StepArith)>, i: int) -> bool {
    let peak = accumulated(steps.take(i)).peak_price;
    &&& is_finite(steps[i].0)
    &&& !price_lt(peak, steps[i].0)
    &&& price_lt(0, peak)
    &&& !is_nan(steps[i].1.drawdown)
}

/// Whatever the arithmetic gives: the largest fall is zero or that of some step, and
/// no fall is larger.
pub proof fn law_largest_fall(steps: Seq<(u64, StepArith)>)
    ensures
        ({
            let largest = accumulated(steps).max_drawdown;
            &&& largest == 0 || exists|i: int|
                0 <= i < steps.len() && is_fall(steps, i) && steps[i].1.drawdown == largest
            &&& forall|i: int|
                0 <= i < steps.len() && #[trigger] is_fall(steps, i) ==> rank(steps[i].1.drawdown)
                    <= rank(largest)
            &&& !is_nan(largest)
        }),
    decreases steps.len(),
{
    if steps.len() > 0 {
        let shorter = steps.drop_last();
        let n = shorter.len() as int;
        law_largest_fall(shorter);
        let before = accumulated(shorter).max_drawdown;
        let largest = accumulated(steps).max_drawdown;
        assert(steps.take(n) =~= shorter);
        assert forall|i: int| 0 <= i < n implies #[trigger] is_fall(steps, i) == is_fall(
            shorter,
            i,
        ) by {
            assert(steps.take(i) =~= shorter.take(i));
        }
        if largest == before && before != 0 {
            let i = choose|i: int|
                0 <= i < n && is_fall(shorter, i) && shorter[i].1.drawdown == before;
            assert(is_fall(steps, i) && steps[i].1.drawdown == largest);
        } else if largest != before {
            assert(is_fall(steps, n) && steps[n].1.drawdown == largest);
        }
    }
}

/// The prices that a frame contributes are those of exactly the ticks that are not
/// older than `floor`, in order. In particular all of them, if none is older.
pub proof fn law_prices_are_those_from_the_floor_on(ticks: Seq<Tick>, floor: u64)
    ensures
        prices_since(ticks, floor) == ticks.filter(|t: Tick| t.timestamp >= floor).map_values(
            |t: Tick| t.price_bits,
        ),
        (forall|i: int| 0 <= i < ticks.len() ==> (#[trigger] ticks[i]).timestamp >= floor)
            ==> prices_since(ticks, floor) == Seq::new(
            ticks.len(),
            |i: int| ticks[i].price_bits,
        ),
    decreases ticks.len(),
{
    reveal(Seq::filter);
    let recent = |t: Tick| t.timestamp >= floor;
    let price = |t: Tick| t.price_bits;
    if ticks.len() > 0 {
        let front = ticks.drop_last();
        law_prices_are_those_from_the_floor_on(front, floor);
        assert(prices_since(ticks, floor) =~= ticks.filter(recent).map_values(price));
        if forall|i: int| 0 <= i < ticks.len() ==> (#[trigger] ticks[i]).timestamp >= floor {
            assert forall|i: int| 0 <= i < front.len() implies (
            #[trigger] front[i]).timestamp >= floor by {
                assert(front[i] == ticks[i]);
            }
            assert(ticks[ticks.len() - 1].timestamp >= floor);
            assert(prices_since(ticks, floor) =~= Seq::new(
                ticks.len(),
                |i: int| ticks[i].price_bits,
            ));
        }
    } else {
        assert(prices_since(ticks, floor) =~= ticks.filter(recent).map_values(price));
        assert(prices_since(ticks, floor) =~= Seq::new(
            ticks.len(),
            |i: int| ticks[i].price_bits,
        ));
    }
}

/// After a finite price the mean and the sum of squared distances are those that the
/// arithmetic gave for it, whatever price came before; a price that is not finite
/// leaves everything as it was.
pub proof fn law_every_finite_price_moves_the_mean(steps: Seq<(u64, StepArith)>)
    requires
        steps.len() > 0,
    ensures
        is_finite(steps.last().0) ==> accumulated(steps).mean == steps.last().1.mean
            && accumulated(steps).m2 == steps.last().1.m2,
        !is_finite(steps.last().0) ==> accumulated(steps) == accumulated(steps.drop_last()),
{
}

/// Each frame adds its own count to the ticks from it on, and there are none behind
/// the last.
pub proof fn law_ticks_are_counted(frames: Seq<FrameIndexEntry>, i: int)
    ensures
        0 <= i < frames.len() ==> ticks_from(frames, i) - ticks_from(frames, i + 1)
            == frames[i].header.count,
        ticks_from(frames, frames.len() as int) == 0,
{
}

/// A request for everything starts at 0; one for a span of up to a day starts that span
/// ahead of the last tick; one for a time after the last tick starts a minute ahead of
/// it; any other starts at the time it names. Nothing starts ahead of 0.
pub proof fn law_requested_times(since_ts: u64, latest_ts: u64)
    ensures
        ({
            let target = target_of(since_ts, latest_ts);
            let day = 86_400_000_000int;
            &&& target <= latest_ts
            &&& since_ts == 0 ==> target == 0
            &&& 0 < since_ts <= day && since_ts <= latest_ts ==> target + since_ts == latest_ts
            &&& 0 < since_ts <= day && since_ts > latest_ts ==> target == 0
            &&& since_ts > day && since_ts <= latest_ts ==> target == since_ts
            &&& since_ts > day && since_ts > latest_ts && latest_ts >= 60_000_000 ==> target
                + 60_000_000 == latest_ts
            &&& since_ts > day && latest_ts < 60_000_000 ==> target == 0
        }),
{
}

/// The small chart holds the last fifty prices, or all if there are fewer, oldest
/// first, and zeros behind them.
pub proof fn law_small_chart_shows_the_last_prices(m: QueryMetrics, prices: Seq<u64>)
    requires
        charts(m, prices),
    ensures
        ({
            let n = prices.len() as int;
            let k = if n < 50 {
                n
            } else {
                50
            };
            &&& m.sparkline_len == k
            &&& forall|i: int| 0 <= i < k ==> #[trigger] m.sparkline@[i] == prices[n - k + i]
            &&& forall|i: int| k <= i < 50 ==> #[trigger] m.sparkline@[i] == 0
        }),
{
    let line = last_of(prices, SPARKLINE_SIZE as int);
    assert forall|i: int| 0 <= i < line.len() implies #[trigger] m.sparkline@[i] == line[i] by {
        assert(m.sparkline@.take(line.len() as int)[i] == m.sparkline@[i]);
    }
}

/// A window over prices keeps the last of them in order.
pub proof fn law_windows_keep_the_last(s: Seq<u64>, n: int)
    requires
        0 <= n,
    ensures
        last_of(s, n).len() == (if s.len() < n {
            s.len() as int
        } else {
            n
        }),
        forall|i: int|
            0 <= i < last_of(s, n).len() ==> #[trigger] last_of(s, n)[i] == s[s.len() - last_of(
                s,
                n,
            ).len() + i],
{
}

} // verus!
