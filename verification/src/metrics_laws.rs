//! What the statistics of a query are, in terms of the prices it takes in.
use vstd::prelude::*;
use vstd::std_specs::cmp::PartialEqSpec;

use crate::engine::{
    accumulated, bisect, computed_by, finite_prices, law_open_high_low_close, law_trailing_frames,
    lemma_index_ends_sorted, plan_of, snapshot, step_prices, target_of, ticks_from, trailing_start,
    QuantAccumulator, Spread, StepArith,
};
use crate::price::{is_finite, is_nan, price_eq, price_lt, rank};
use crate::protocol::{wire_fields, QueryMetrics, Tick};
use crate::query_laws::lemma_bisect;
use crate::storage::{index_wf, FrameIndexEntry};

verus! {

/// The prices that count are those that are finite, in order.
pub proof fn law_finite_prices_count(steps: Seq<(u64, StepArith)>)
    ensures
        finite_prices(steps) == step_prices(steps).filter(|p: u64| is_finite(p)),
        forall|i: int| 0 <= i < finite_prices(steps).len() ==> is_finite(
            #[trigger] finite_prices(steps)[i],
        ),
    decreases steps.len(),
{
    reveal(Seq::filter);
    let prices = step_prices(steps);
    let test = |p: u64| is_finite(p);
    if steps.len() > 0 {
        let front = steps.drop_last();
        law_finite_prices_count(front);
        assert(prices.drop_last() =~= step_prices(front));
        assert(finite_prices(steps) =~= prices.filter(test));
        assert forall|i: int| 0 <= i < finite_prices(steps).len() implies is_finite(
            #[trigger] finite_prices(steps)[i],
        ) by {
            if i < finite_prices(front).len() {
                assert(finite_prices(steps)[i] == finite_prices(front)[i]);
            }
        }
    } else {
        assert(finite_prices(steps) =~= prices.filter(test));
    }
}

/// `k` is the first of some prices that none is above.
pub open spec fn first_highest(prices: Seq<u64>, k: int) -> bool {
    &&& 0 <= k < prices.len()
    &&& forall|i: int| 0 <= i < k ==> price_lt(#[trigger] prices[i], prices[k])
    &&& forall|i: int| 0 <= i < prices.len() ==> !price_lt(prices[k], #[trigger] prices[i])
}

/// `k` is the first of some prices that none is below.
pub open spec fn first_lowest(prices: Seq<u64>, k: int) -> bool {
    &&& 0 <= k < prices.len()
    &&& forall|i: int| 0 <= i < k ==> price_lt(prices[k], #[trigger] prices[i])
    &&& forall|i: int| 0 <= i < prices.len() ==> !price_lt(#[trigger] prices[i], prices[k])
}

/// The highest and the lowest price are the first of their value to have come: no finite
/// price is above the one or below the other.
pub proof fn law_extremes_come_first(steps: Seq<(u64, StepArith)>)
    requires
        steps.len() <= u64::MAX,
        finite_prices(steps).len() > 0,
    ensures
        exists|k: int|
            #[trigger] first_highest(finite_prices(steps), k) && finite_prices(steps)[k]
                == accumulated(steps).high,
        exists|k: int|
            #[trigger] first_lowest(finite_prices(steps), k) && finite_prices(steps)[k]
                == accumulated(steps).low,
    decreases steps.len(),
{
    let prices = finite_prices(steps);
    let a = accumulated(steps);
    let front = steps.drop_last();
    let before = finite_prices(front);
    let b = accumulated(front);
    let p = steps.last().0;
    law_open_high_low_close(steps);
    law_open_high_low_close(front);
    law_finite_prices_count(steps);
    law_finite_prices_count(front);
    let n = before.len() as int;
    if !is_finite(p) {
        law_extremes_come_first(front);
    } else if n == 0 {
        lemma_starts_outside(front);
        assert(prices[0] == p);
        assert(first_highest(prices, 0));
        assert(first_lowest(prices, 0));
    } else {
        law_extremes_come_first(front);
        let high = choose|k: int| #[trigger] first_highest(before, k) && before[k] == b.high;
        let low = choose|k: int| #[trigger] first_lowest(before, k) && before[k] == b.low;
        assert forall|i: int| 0 <= i < n implies prices[i] == before[i] by {}
        assert(prices[n] == p);
        assert forall|i: int| 0 <= i < n implies is_finite(#[trigger] prices[i]) && rank(b.low)
            <= rank(prices[i]) <= rank(b.high) by {
            assert(rank(b.low) <= rank(before[i]) <= rank(b.high));
        }
        assert(is_finite(b.high) && is_finite(b.low));
        if price_lt(b.high, p) {
            assert(first_highest(prices, n));
        } else {
            assert forall|i: int| 0 <= i < high implies price_lt(
                #[trigger] prices[i],
                prices[high],
            ) by {
                assert(price_lt(before[i], before[high]));
            }
            assert(first_highest(prices, high));
        }
        if price_lt(p, b.low) {
            assert(first_lowest(prices, n));
        } else {
            assert forall|i: int| 0 <= i < low implies price_lt(
                prices[low],
                #[trigger] prices[i],
            ) by {
                assert(price_lt(before[low], before[i]));
            }
            assert(first_lowest(prices, low));
        }
    }
}

/// As long as no finite price has come, the extremes are the infinities.
proof fn lemma_starts_outside(steps: Seq<(u64, StepArith)>)
    requires
        finite_prices(steps).len() == 0,
    ensures
        accumulated(steps) == accumulated(Seq::empty()),
    decreases steps.len(),
{
    if steps.len() > 0 {
        lemma_starts_outside(steps.drop_last());
    } else {
        assert(steps =~= Seq::empty());
    }
}

/// Without prices, everything is zero, but for the extremes, which every price passes.
pub proof fn law_accumulation_starts_empty(price: u64)
    ensures
        ({
            let a = accumulated(Seq::empty());
            &&& a.count == 0 && a.open == 0 && a.close == 0
            &&& a.mean == 0 && a.m2 == 0 && a.max_drawdown == 0
            &&& is_finite(price) ==> price_lt(a.high, price) && price_lt(price, a.low) && price_lt(
                a.peak_price,
                price,
            )
        }),
{
}

/// A price takes part in the largest fall only if it is not above the highest price
/// before it and that was above zero, and only if its fall is larger than all before.
pub proof fn law_falls_replace_smaller_ones(steps: Seq<(u64, StepArith)>)
    requires
        steps.len() > 0,
    ensures
        ({
            let before = accumulated(steps.drop_last());
            let after = accumulated(steps);
            let (price, arith) = steps.last();
            let falls = is_finite(price) && !price_lt(before.peak_price, price) && price_lt(
                0,
                before.peak_price,
            ) && price_lt(before.max_drawdown, arith.drawdown);
            &&& falls ==> after.max_drawdown == arith.drawdown
            &&& !falls ==> after.max_drawdown == before.max_drawdown
        }),
{
}

/// A snapshot of no prices is all zeros. Any other has the numbers of the prices taken
/// in, with the spread that was computed for them.
pub proof fn law_snapshots_show_the_numbers(a: QuantAccumulator, spread: Spread)
    ensures
        ({
            let s = snapshot(a, spread);
            &&& s.len() == 12
            &&& a.count == 0 ==> forall|i: int| 0 <= i < 12 ==> #[trigger] s[i] == 0
            &&& a.count > 0 ==> {
                &&& s[0] == a.count && s[1] == a.open && s[2] == a.high && s[3] == a.low
                &&& s[4] == a.close && s[5] == a.mean && s[6] == spread.variance
                &&& s[7] == spread.std_dev && s[8] == spread.z_score
                &&& s[9] == spread.upper_bollinger && s[10] == spread.lower_bollinger
                &&& s[11] == a.max_drawdown
            }
        }),
{
}

proof fn lemma_later_frames_hold_fewer(frames: Seq<FrameIndexEntry>, i: int, j: int)
    requires
        0 <= i <= j,
    ensures
        ticks_from(frames, j) <= ticks_from(frames, i),
        ticks_from(frames, j) >= 0,
    decreases frames.len() - i + j - i,
{
    if i < j && i < frames.len() {
        lemma_later_frames_hold_fewer(frames, i + 1, j);
    } else if j < frames.len() {
        lemma_later_frames_hold_fewer(frames, j + 1, j + 1);
    }
}

/// Where a query starts to read. Let `first` be the first frame that reaches up to the
/// time asked for. The query starts there and leaves out older ticks, if that is the
/// first frame of all or if the frames behind it hold ten thousand ticks. Otherwise it
/// takes all ticks of as few of the last frames as hold ten thousand.
pub proof fn law_plans_read_enough(frames: Seq<FrameIndexEntry>, since_ts: u64, first: int)
    requires
        index_wf(frames),
        frames.len() <= usize::MAX,
        0 <= first <= frames.len(),
        forall|i: int|
            0 <= i < first ==> (#[trigger] frames[i]).header.end_ts < target_of(
                since_ts,
                frames.last().header.end_ts,
            ),
        forall|i: int|
            first <= i < frames.len() ==> (#[trigger] frames[i]).header.end_ts >= target_of(
                since_ts,
                frames.last().header.end_ts,
            ),
    ensures
        frames.len() == 0 ==> plan_of(frames, since_ts) is None,
        frames.len() > 0 ==> {
            let target = target_of(since_ts, frames.last().header.end_ts);
            let plan = plan_of(frames, since_ts)->0;
            let start = plan.start as int;
            &&& plan_of(frames, since_ts) is Some
            &&& first == 0 || ticks_from(frames, first + 1) >= 10_000 ==> start == first
                && plan.floor == target
            &&& first > 0 && ticks_from(frames, first + 1) < 10_000 ==> {
                &&& plan.floor == 0
                &&& start < frames.len()
                &&& start == 0 || ticks_from(frames, start) >= 10_000
                &&& ticks_from(frames, start + 1) < 10_000
            }
        },
{
    if frames.len() > 0 {
        let n = frames.len() as int;
        let target = target_of(since_ts, frames.last().header.end_ts);
        let requested = bisect(frames, target, 0, n);
        let trailing = trailing_start(frames, 10_000, n);
        lemma_index_ends_sorted(frames);
        lemma_bisect(frames, target, 0, n);
        if requested < first {
            assert(frames[requested].header.end_ts < target);
        }
        if first < requested {
            assert(frames[first].header.end_ts >= target);
        }
        assert(requested == first);
        law_trailing_frames(frames, 10_000);
        if first >= trailing {
            if first + 1 <= n {
                assert(ticks_from(frames, first + 1) < 10_000);
            } else {
                assert(ticks_from(frames, first + 1) == 0);
            }
        } else {
            lemma_later_frames_hold_fewer(frames, first + 1, trailing);
        }
        if trailing + 1 <= n {
            assert(ticks_from(frames, trailing + 1) < 10_000);
        }
    }
}

/// The arithmetic is asked about each price once, in order, with what the prices before
/// it have led to.
pub proof fn law_arithmetic_sees_what_came_before<
    F: Fn(QuantAccumulator, u64) -> StepArith,
>(arith: F, steps: Seq<(u64, StepArith)>, i: int)
    requires
        computed_by(arith, steps, 0),
        0 <= i < steps.len(),
    ensures
        step_prices(steps).len() == steps.len(),
        step_prices(steps)[i] == steps[i].0,
        call_ensures(arith, (accumulated(steps.take(i)), steps[i].0), steps[i].1),
{
}

/// Two ticks are equal just if their timestamps are and their prices have the same value;
/// so a tick whose price is no number does not even equal itself.
pub proof fn law_ticks_compare_by_value(a: Tick, b: Tick)
    ensures
        a.eq_spec(&b) <==> a.timestamp == b.timestamp && price_eq(a.price_bits, b.price_bits),
        a.eq_spec(&b) == b.eq_spec(&a),
        a.eq_spec(&a) <==> !is_nan(a.price_bits),
{
}

/// Two snapshots are equal just if their counts are, and all their prices have the same
/// values, those of the small chart included.
pub proof fn law_snapshots_compare_by_value(a: QueryMetrics, b: QueryMetrics)
    ensures
        a.eq_spec(&b) <==> {
            &&& a.count == b.count
            &&& a.sparkline_len == b.sparkline_len
            &&& forall|i: int|
                1 <= i < 12 ==> price_eq(#[trigger] wire_fields(a)[i], wire_fields(b)[i])
            &&& forall|i: int| 0 <= i < 50 ==> price_eq(#[trigger] a.sparkline@[i], b.sparkline@[i])
        },
{
    let x = wire_fields(a);
    let y = wire_fields(b);
    assert(x[1] == a.open && x[2] == a.high && x[3] == a.low && x[4] == a.close && x[5] == a.mean
        && x[6] == a.variance && x[7] == a.std_dev && x[8] == a.z_score && x[9] == a.upper_bollinger
        && x[10] == a.lower_bollinger && x[11] == a.max_drawdown);
    assert(y[1] == b.open && y[2] == b.high && y[3] == b.low && y[4] == b.close && y[5] == b.mean
        && y[6] == b.variance && y[7] == b.std_dev && y[8] == b.z_score && y[9] == b.upper_bollinger
        && y[10] == b.lower_bollinger && y[11] == b.max_drawdown);
}

} // verus!
