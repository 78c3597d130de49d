//! A self-test of the repair: bytes that belong to no frame are put behind a
//! partition file, and what is left after the repair is judged.
use vstd::prelude::*;

use crate::compression::FRAME_HEADER_SIZE;
use crate::durability::{is_log, law_recovery_keeps_whole_frames};
use crate::error::Error;
use crate::price::{finite, is_finite, less, price_lt};
use crate::protocol::QueryMetrics;
use crate::storage::recovered;

verus! {

/// How many ticks the self-test stores.
pub const TOTAL_TICKS: u64 = 1_000_000;

/// How many bytes the self-test puts behind them.
pub const GARBAGE_LEN: usize = 11;

/// The bytes that the self-test puts behind the file.
pub open spec fn garbage_bytes() -> Seq<u8> {
    seq![0xDEu8, 0xAD, 0xBE, 0xEF, 0x01, 0x02, 0x03, 0x04, 0xAA, 0xBB, 0xCC]
}

/// The bytes that the self-test puts behind the file.
pub fn garbage() -> (r: [u8; GARBAGE_LEN])
    ensures
        r@ == garbage_bytes(),
{
    let r: [u8; GARBAGE_LEN] = [
        0xDE, 0xAD, 0xBE, 0xEF, 0x01, 0x02, 0x03, 0x04, 0xAA, 0xBB, 0xCC,
    ];
    assert(r@ =~= garbage_bytes());
    r
}

/// Judges the self-test: the file must be as long as it was, all ticks must be
/// there, and their statistics must make sense.
pub fn passes(recovered_len: u64, baseline_len: u64, metrics: &QueryMetrics) -> (r: bool)
    ensures
        r <==> {
            &&& recovered_len == baseline_len
            &&& metrics.count == TOTAL_TICKS
            &&& is_finite(metrics.mean)
            &&& is_finite(metrics.std_dev)
            &&& price_lt(0, metrics.std_dev)
        },
        r ==> metrics.count == 1_000_000,
{
    recovered_len == baseline_len && metrics.count == TOTAL_TICKS && finite(metrics.mean) && finite(
        metrics.std_dev,
    ) && less(0, metrics.std_dev)
}

/// The repair takes away just the bytes that the self-test put behind a file of whole
/// frames.
pub proof fn law_garbage_is_dropped(log: Seq<u8>)
    requires
        is_log(log),
    ensures
        recovered(log + garbage_bytes(), false) == Ok::<int, Error>(log.len() as int),
{
    assert(garbage_bytes().len() < FRAME_HEADER_SIZE);
    law_recovery_keeps_whole_frames(log, garbage_bytes());
}

} // verus!
