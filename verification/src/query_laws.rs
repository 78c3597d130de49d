//! What a query over a partition file reads.
use vstd::prelude::*;

use crate::compression::{decoded, law_decoded_ticks, ordered};
use crate::durability::{
    all_ticks, index_of, law_history_round_trip, law_scan_of_log, log_of, stored_ticks,
};
use crate::engine::{
    bisect, ends_sorted, law_trailing_frames, lemma_index_ends_sorted, prices_from, prices_since,
    selected, target_of, ticks_from, trailing_start, MINIMUM_TICKS,
};
use crate::error::Error;
use crate::protocol::Tick;
use crate::storage::{entry_end, index_wf, FrameIndexEntry};

verus! {

/// The prices of ticks that stand one behind the other.
proof fn lemma_prices_concat(a: Seq<Tick>, b: Seq<Tick>, floor: u64)
    ensures
        prices_since(a + b, floor) == prices_since(a, floor) + prices_since(b, floor),
    decreases b.len(),
{
    if b.len() == 0 {
        assert(a + b =~= a);
        assert(prices_since(a, floor) + prices_since(b, floor) =~= prices_since(a, floor));
    } else {
        lemma_prices_concat(a, b.drop_last(), floor);
        assert((a + b).drop_last() =~= a + b.drop_last());
        assert(prices_since(a + b, floor) =~= prices_since(a, floor) + prices_since(b, floor));
    }
}

/// Reading frames and then leaving out old ticks, or leaving them out frame by
/// frame, is the same.
proof fn lemma_prices_of_stored(bytes: Seq<u8>, frames: Seq<FrameIndexEntry>, i: int, floor: u64)
    requires
        0 <= i <= frames.len(),
    ensures
        prices_from(bytes, frames, i, floor) == (match stored_ticks(bytes, frames, i) {
            Ok(ticks) => Ok::<Seq<u64>, Error>(prices_since(ticks, floor)),
            Err(e) => Err(e),
        }),
    decreases frames.len() - i,
{
    if i < frames.len() && entry_end(frames[i]) <= bytes.len() {
        lemma_prices_of_stored(bytes, frames, i + 1, floor);
        let (ticks, end) = decoded(
            frames[i].header,
            bytes.subrange(frames[i].payload_offset as int, entry_end(frames[i])),
        );
        match (end, stored_ticks(bytes, frames, i + 1)) {
            (Ok(_), Ok(rest)) => {
                lemma_prices_concat(ticks, rest, floor);
            },
            _ => {},
        }
    }
}

/// Ticks that are all older than `floor` have no part in a query from then on.
proof fn lemma_no_prices(ticks: Seq<Tick>, floor: u64)
    requires
        forall|i: int| 0 <= i < ticks.len() ==> (#[trigger] ticks[i]).timestamp < floor,
    ensures
        prices_since(ticks, floor) == Seq::<u64>::empty(),
    decreases ticks.len(),
{
    if ticks.len() > 0 {
        lemma_no_prices(ticks.drop_last(), floor);
    }
}

/// With no floor every tick takes part.
proof fn lemma_all_prices(ticks: Seq<Tick>)
    ensures
        prices_since(ticks, 0) == Seq::new(ticks.len(), |i: int| ticks[i].price_bits),
    decreases ticks.len(),
{
    let all = Seq::new(ticks.len(), |i: int| ticks[i].price_bits);
    if ticks.len() > 0 {
        lemma_all_prices(ticks.drop_last());
    }
    assert(prices_since(ticks, 0) =~= all);
}

/// If a whole file can be read, so can its frames from `i` on; they hold the last of
/// its ticks. What the frames ahead of `i` hold is older than `floor` if they end
/// before it.
proof fn lemma_stored_suffix(
    bytes: Seq<u8>,
    frames: Seq<FrameIndexEntry>,
    i: int,
    j: int,
    floor: u64,
)
    requires
        0 <= i <= j <= frames.len(),
        stored_ticks(bytes, frames, i) is Ok,
    ensures
        ({
            let all = stored_ticks(bytes, frames, i)->Ok_0;
            let last = stored_ticks(bytes, frames, j)->Ok_0;
            &&& stored_ticks(bytes, frames, j) is Ok
            &&& last.len() == ticks_from(frames, j)
            &&& last.len() <= all.len()
            &&& last == all.skip(all.len() - last.len())
            &&& (forall|k: int| i <= k < j ==> (#[trigger] frames[k]).header.end_ts < floor)
                ==> prices_since(all, floor) == prices_since(last, floor)
        }),
    decreases frames.len() - i,
{
    let all = stored_ticks(bytes, frames, i)->Ok_0;
    if i == frames.len() {
        assert(all.skip(0) =~= all);
    } else {
        let payload = bytes.subrange(frames[i].payload_offset as int, entry_end(frames[i]));
        let (ticks, end) = decoded(frames[i].header, payload);
        let rest = stored_ticks(bytes, frames, i + 1)->Ok_0;
        law_decoded_ticks(frames[i].header, payload);
        assert(all == ticks + rest);
        if i == j {
            lemma_stored_suffix(bytes, frames, i + 1, i + 1, floor);
            assert(all.skip(0) =~= all);
        } else {
            lemma_stored_suffix(bytes, frames, i + 1, j, floor);
            let last = stored_ticks(bytes, frames, j)->Ok_0;
            assert(all.skip(all.len() - last.len()) =~= rest.skip(rest.len() - last.len()));
            if forall|k: int| i <= k < j ==> (#[trigger] frames[k]).header.end_ts < floor {
                assert(frames[i].header.end_ts < floor);
                assert forall|k: int| 0 <= k < ticks.len() implies (
                #[trigger] ticks[k]).timestamp < floor by {
                    assert(ticks[k].timestamp <= ticks[ticks.len() - 1].timestamp);
                }
                lemma_no_prices(ticks, floor);
                lemma_prices_concat(ticks, rest, floor);
                assert(prices_since(all, floor) =~= prices_since(rest, floor));
            }
        }
    }
}

/// Halving ends inside the range, and in front of the first frame that does not end
/// before the time that is sought.
pub proof fn lemma_bisect(frames: Seq<FrameIndexEntry>, target_ts: u64, low: int, high: int)
    requires
        0 <= low <= high <= frames.len(),
        ends_sorted(frames),
        forall|i: int| 0 <= i < low ==> (#[trigger] frames[i]).header.end_ts < target_ts,
        forall|i: int|
            high <= i < frames.len() ==> (#[trigger] frames[i]).header.end_ts >= target_ts,
    ensures
        ({
            let r = bisect(frames, target_ts, low, high);
            &&& low <= r <= high
            &&& forall|i: int| 0 <= i < r ==> (#[trigger] frames[i]).header.end_ts < target_ts
            &&& forall|i: int|
                r <= i < frames.len() ==> (#[trigger] frames[i]).header.end_ts >= target_ts
        }),
    decreases high - low,
{
    if low < high {
        let mid = low + (high - low) / 2;
        if frames[mid].header.end_ts < target_ts {
            lemma_bisect(frames, target_ts, mid + 1, high);
        } else {
            lemma_bisect(frames, target_ts, low, mid);
        }
    }
}

/// A query of a file that can be read never fails. It selects the prices of all
/// ticks from the requested time on; or, where the frames that hold them are no
/// more than are needed for the minimum of ticks, the prices of the last frames as a
/// whole, which then are at least that many and hold all the requested ones.
pub proof fn law_query_selects(
    bytes: Seq<u8>,
    frames: Seq<FrameIndexEntry>,
    since_ts: u64,
    all: Seq<Tick>,
)
    requires
        index_wf(frames),
        frames.len() > 0,
        frames.len() <= usize::MAX,
        stored_ticks(bytes, frames, 0) == Ok::<Seq<Tick>, Error>(all),
    ensures
        ({
            let target = target_of(since_ts, frames.last().header.end_ts);
            let requested = bisect(frames, target, 0, frames.len() as int);
            let trailing = trailing_start(frames, MINIMUM_TICKS as int, frames.len() as int);
            let last = all.skip(all.len() - ticks_from(frames, trailing));
            if requested >= trailing && requested > 0 {
                &&& selected(bytes, frames, since_ts) == Ok::<Seq<u64>, Error>(
                    Seq::new(last.len(), |i: int| last[i].price_bits),
                )
                &&& last.len() >= MINIMUM_TICKS || last == all
                &&& prices_since(last, target) == prices_since(all, target)
            } else {
                selected(bytes, frames, since_ts) == Ok::<Seq<u64>, Error>(
                    prices_since(all, target),
                )
            }
        }),
{
    let target = target_of(since_ts, frames.last().header.end_ts);
    let requested = bisect(frames, target, 0, frames.len() as int);
    let trailing = trailing_start(frames, MINIMUM_TICKS as int, frames.len() as int);
    lemma_index_ends_sorted(frames);
    lemma_bisect(frames, target, 0, frames.len() as int);
    law_trailing_frames(frames, MINIMUM_TICKS as int);
    if requested >= trailing && requested > 0 {
        lemma_stored_suffix(bytes, frames, 0, trailing, target);
        lemma_prices_of_stored(bytes, frames, trailing, 0);
        let last = stored_ticks(bytes, frames, trailing)->Ok_0;
        lemma_all_prices(last);
        assert(all.skip(0) =~= all);
    } else {
        lemma_stored_suffix(bytes, frames, 0, requested, target);
        lemma_prices_of_stored(bytes, frames, requested, target);
    }
}

/// A query that names no time selects the price of every stored tick.
pub proof fn law_query_of_everything(
    bytes: Seq<u8>,
    frames: Seq<FrameIndexEntry>,
    all: Seq<Tick>,
)
    requires
        index_wf(frames),
        frames.len() <= usize::MAX,
        stored_ticks(bytes, frames, 0) == Ok::<Seq<Tick>, Error>(all),
    ensures
        selected(bytes, frames, 0) == Ok::<Seq<u64>, Error>(
            Seq::new(all.len(), |i: int| all[i].price_bits),
        ),
{
    lemma_all_prices(all);
    if frames.len() > 0 {
        lemma_index_ends_sorted(frames);
        lemma_bisect(frames, 0, 0, frames.len() as int);
        law_query_selects(bytes, frames, 0, all);
    } else {
        assert(all =~= Seq::<Tick>::empty());
        assert(Seq::<u64>::empty() =~= Seq::new(all.len(), |i: int| all[i].price_bits));
    }
}

/// However many batches are stored in time order, a query that names no time selects
/// the price of each of their ticks, bit by bit and in order.
pub proof fn law_every_stored_price_is_selected(batches: Seq<Seq<Tick>>)
    requires
        forall|i: int| 0 <= i < batches.len() ==> (#[trigger] batches[i]).len() > 0,
        ordered(all_ticks(batches)),
        log_of(batches).len() <= u64::MAX,
        index_of(log_of(batches)).len() <= usize::MAX,
    ensures
        ({
            let ticks = all_ticks(batches);
            selected(log_of(batches), index_of(log_of(batches)), 0) == Ok::<Seq<u64>, Error>(
                Seq::new(ticks.len(), |i: int| ticks[i].price_bits),
            )
        }),
{
    law_history_round_trip(batches);
    law_scan_of_log(log_of(batches));
    law_query_of_everything(
        log_of(batches),
        index_of(log_of(batches)),
        all_ticks(batches),
    );
}

} // verus!
