//! What holds of a partition file as a whole: what a repair keeps, that an index
//! kept up to date is the one a scan finds, and that every stored tick is read
//! back.
use vstd::prelude::*;

use crate::compression::{
    batch_bytes, decoded, frame_bytes, frame_payload, frame_ticks, header_bytes, header_for,
    header_ok, law_frame_round_trip, law_header_round_trip, law_written_headers_are_valid, ordered,
    FRAME_HEADER_SIZE, FRAME_TICK_COUNT,
};
use crate::error::Error;
use crate::protocol::Tick;
use crate::storage::{
    entries_from, entry_end, entry_for, frame_at, frame_end, header_at, index_end, index_tail,
    index_wf, recovered, scanned, walk, FrameIndexEntry,
};

verus! {

/// A file that consists of whole frames in time order.
pub open spec fn is_log(bytes: Seq<u8>) -> bool {
    walk(bytes, 0, None).0 == bytes.len()
}

/// When the last frame of a file ends.
pub open spec fn log_tail(bytes: Seq<u8>) -> Option<u64> {
    walk(bytes, 0, None).1
}

pub proof fn lemma_walk_bounds(bytes: Seq<u8>, offset: int, previous_end: Option<u64>)
    requires
        0 <= offset <= bytes.len(),
    ensures
        offset <= walk(bytes, offset, previous_end).0 <= bytes.len(),
    decreases bytes.len() - offset,
{
    if frame_at(bytes, offset, previous_end) {
        let header = header_at(bytes, offset);
        lemma_walk_bounds(bytes, frame_end(offset, header), Some(header.end_ts));
    }
}

/// A walk that covers the front of a file goes on behind it.
proof fn lemma_walk_extend(a: Seq<u8>, b: Seq<u8>, offset: int, previous_end: Option<u64>)
    requires
        0 <= offset <= a.len(),
        walk(a, offset, previous_end).0 == a.len(),
    ensures
        walk(a + b, offset, previous_end) == walk(
            a + b,
            a.len() as int,
            walk(a, offset, previous_end).1,
        ),
    decreases a.len() - offset,
{
    if offset < a.len() {
        assert(frame_at(a, offset, previous_end));
        let header = header_at(a, offset);
        assert((a + b).subrange(offset, offset + FRAME_HEADER_SIZE) =~= a.subrange(
            offset,
            offset + FRAME_HEADER_SIZE,
        ));
        lemma_walk_extend(a, b, frame_end(offset, header), Some(header.end_ts));
    }
}

/// What stands ahead of a walk does not matter to it.
proof fn lemma_walk_shift(a: Seq<u8>, b: Seq<u8>, offset: int, previous_end: Option<u64>)
    requires
        0 <= offset <= b.len(),
    ensures
        walk(a + b, a.len() + offset, previous_end) == (
            a.len() + walk(b, offset, previous_end).0,
            walk(b, offset, previous_end).1,
        ),
    decreases b.len() - offset,
{
    if offset + FRAME_HEADER_SIZE <= b.len() {
        assert((a + b).subrange(a.len() + offset, a.len() + offset + FRAME_HEADER_SIZE)
            =~= b.subrange(offset, offset + FRAME_HEADER_SIZE));
        if frame_at(b, offset, previous_end) {
            let header = header_at(b, offset);
            lemma_walk_shift(a, b, frame_end(offset, header), Some(header.end_ts));
        }
    }
}

/// Cutting a file off where a walk ends does not change the walk.
proof fn lemma_walk_prefix(bytes: Seq<u8>, offset: int, previous_end: Option<u64>)
    requires
        0 <= offset <= bytes.len(),
    ensures
        walk(bytes.take(walk(bytes, offset, previous_end).0), offset, previous_end) == walk(
            bytes,
            offset,
            previous_end,
        ),
    decreases bytes.len() - offset,
{
    let n = walk(bytes, offset, previous_end).0;
    lemma_walk_bounds(bytes, offset, previous_end);
    if frame_at(bytes, offset, previous_end) {
        let header = header_at(bytes, offset);
        let next = frame_end(offset, header);
        lemma_walk_bounds(bytes, next, Some(header.end_ts));
        assert(bytes.take(n).subrange(offset, offset + FRAME_HEADER_SIZE) =~= bytes.subrange(
            offset,
            offset + FRAME_HEADER_SIZE,
        ));
        lemma_walk_prefix(bytes, next, Some(header.end_ts));
    }
}

/// A whole frame, whatever stands behind it.
proof fn lemma_frame_first(ticks: Seq<Tick>, rest: Seq<u8>, previous_end: Option<u64>)
    requires
        frame_ticks(ticks),
        previous_end matches Some(end) ==> end <= ticks[0].timestamp,
    ensures
        header_at(frame_bytes(ticks) + rest, 0) == header_for(ticks),
        frame_at(frame_bytes(ticks) + rest, 0, previous_end),
        frame_end(0, header_for(ticks)) == frame_bytes(ticks).len(),
        (frame_bytes(ticks) + rest).subrange(
            FRAME_HEADER_SIZE as int,
            frame_bytes(ticks).len() as int,
        ) == frame_payload(ticks),
{
    let header = header_for(ticks);
    let bytes = frame_bytes(ticks) + rest;
    law_written_headers_are_valid(ticks);
    law_header_round_trip(header, Seq::new(24, |i: int| 0u8));
    assert(bytes.subrange(0, FRAME_HEADER_SIZE as int) =~= header_bytes(header));
    assert(bytes.subrange(FRAME_HEADER_SIZE as int, frame_bytes(ticks).len() as int)
        =~= frame_payload(ticks));
}

/// A batch that was compressed consists of whole frames in time order, from its
/// first to its last tick.
pub proof fn law_batches_are_logs(ticks: Seq<Tick>, previous_end: Option<u64>)
    requires
        ticks.len() > 0,
        ordered(ticks),
        previous_end matches Some(end) ==> end <= ticks[0].timestamp,
    ensures
        walk(batch_bytes(ticks), 0, previous_end) == (
            batch_bytes(ticks).len() as int,
            Some(ticks.last().timestamp),
        ),
    decreases ticks.len(),
{
    let empty = Seq::<u8>::empty();
    if ticks.len() <= FRAME_TICK_COUNT {
        let bytes = frame_bytes(ticks);
        lemma_frame_first(ticks, empty, previous_end);
        assert(bytes + empty =~= bytes);
        let end = Some(ticks.last().timestamp);
        assert(walk(bytes, bytes.len() as int, end) == (bytes.len() as int, end));
    } else {
        let n = FRAME_TICK_COUNT as int;
        let first = ticks.take(n);
        let rest = ticks.skip(n);
        lemma_take_skip_ordered(ticks, n);
        let bytes = frame_bytes(first);
        lemma_frame_first(first, batch_bytes(rest), previous_end);
        assert(first.last() == ticks[n - 1]);
        assert(rest[0] == ticks[n]);
        assert(ticks[n - 1].timestamp <= ticks[n].timestamp);
        law_batches_are_logs(rest, Some(first.last().timestamp));
        lemma_walk_shift(bytes, batch_bytes(rest), 0, Some(first.last().timestamp));
        assert(rest.last() == ticks.last());
    }
}

proof fn lemma_take_skip_ordered(ticks: Seq<Tick>, n: int)
    requires
        ordered(ticks),
        0 <= n <= ticks.len(),
    ensures
        ordered(ticks.take(n)),
        ordered(ticks.skip(n)),
{
    let a = ticks.take(n);
    let b = ticks.skip(n);
    assert forall|i: int, j: int| 0 <= i <= j < a.len() implies (#[trigger] a[i]).timestamp <= (
    #[trigger] a[j]).timestamp by {
        assert(a[i] == ticks[i] && a[j] == ticks[j]);
    }
    assert forall|i: int, j: int| 0 <= i <= j < b.len() implies (#[trigger] b[i]).timestamp <= (
    #[trigger] b[j]).timestamp by {
        assert(b[i] == ticks[n + i] && b[j] == ticks[n + j]);
    }
}

/// A file of whole frames stays one when a batch that does not start before its end
/// is appended.
pub proof fn law_append_keeps_log(bytes: Seq<u8>, ticks: Seq<Tick>)
    requires
        is_log(bytes),
        ticks.len() > 0,
        ordered(ticks),
        log_tail(bytes) matches Some(end) ==> end <= ticks[0].timestamp,
    ensures
        is_log(bytes + batch_bytes(ticks)),
        log_tail(bytes + batch_bytes(ticks)) == Some(ticks.last().timestamp),
{
    let tail = log_tail(bytes);
    law_batches_are_logs(ticks, tail);
    lemma_walk_extend(bytes, batch_bytes(ticks), 0, None);
    lemma_walk_shift(bytes, batch_bytes(ticks), 0, tail);
}

/// A repair keeps a front part of the file, that part is whole, and a second repair
/// changes nothing.
pub proof fn law_recovery_is_idempotent(bytes: Seq<u8>, len: int)
    requires
        recovered(bytes, false) == Ok::<int, Error>(len),
    ensures
        0 <= len <= bytes.len(),
        is_log(bytes.take(len)),
        recovered(bytes.take(len), false) == Ok::<int, Error>(len),
{
    lemma_walk_bounds(bytes, 0, None);
    lemma_walk_prefix(bytes, 0, None);
    let kept = bytes.take(len);
    if kept.len() >= FRAME_HEADER_SIZE {
        assert(kept.subrange(0, FRAME_HEADER_SIZE as int) =~= bytes.subrange(
            0,
            FRAME_HEADER_SIZE as int,
        ));
    }
}

/// A repair never cuts into whole frames: whatever was torn off or scribbled behind
/// them, they stay. With fewer bytes behind them than a header has, exactly they
/// stay.
pub proof fn law_recovery_keeps_whole_frames(log: Seq<u8>, tail: Seq<u8>)
    requires
        is_log(log),
        log.len() > 0 || tail.len() < FRAME_HEADER_SIZE,
    ensures
        recovered(log + tail, false) is Ok,
        recovered(log + tail, false)->Ok_0 >= log.len(),
        tail.len() < FRAME_HEADER_SIZE ==> recovered(log + tail, false)->Ok_0 == log.len(),
{
    let all = log + tail;
    lemma_walk_extend(log, tail, 0, None);
    lemma_walk_bounds(all, log.len() as int, log_tail(log));
    if log.len() > 0 {
        assert(frame_at(log, 0, None));
        assert(all.subrange(0, FRAME_HEADER_SIZE as int) =~= log.subrange(
            0,
            FRAME_HEADER_SIZE as int,
        ));
    }
}

/// How many ticks of a batch stand in whole frames, if only the first `len` bytes of
/// the batch were written.
pub open spec fn whole_ticks(ticks: Seq<Tick>, len: int) -> int
    decreases ticks.len(),
{
    if ticks.len() == 0 {
        0
    } else if ticks.len() <= FRAME_TICK_COUNT {
        if frame_bytes(ticks).len() <= len {
            ticks.len() as int
        } else {
            0
        }
    } else {
        let first = frame_bytes(ticks.take(FRAME_TICK_COUNT as int)).len();
        if first <= len {
            FRAME_TICK_COUNT + whole_ticks(ticks.skip(FRAME_TICK_COUNT as int), len - first)
        } else {
            0
        }
    }
}

/// A frame of which only a part was written is not taken for a frame.
proof fn lemma_torn_frame(ticks: Seq<Tick>, rest: Seq<u8>, len: int, previous_end: Option<u64>)
    requires
        frame_ticks(ticks),
        0 <= len < frame_bytes(ticks).len(),
    ensures
        walk((frame_bytes(ticks) + rest).take(len), 0, previous_end) == (0int, previous_end),
{
    let bytes = (frame_bytes(ticks) + rest).take(len);
    law_written_headers_are_valid(ticks);
    law_header_round_trip(header_for(ticks), Seq::new(24, |i: int| 0u8));
    if len >= FRAME_HEADER_SIZE {
        assert(bytes.subrange(0, FRAME_HEADER_SIZE as int) =~= header_bytes(header_for(ticks)));
    }
}

/// A walk over a batch of which only the first `len` bytes were written covers the
/// frames that are whole.
proof fn lemma_torn_batch(ticks: Seq<Tick>, len: int, previous_end: Option<u64>)
    requires
        ticks.len() > 0,
        ordered(ticks),
        previous_end matches Some(end) ==> end <= ticks[0].timestamp,
        0 <= len <= batch_bytes(ticks).len(),
    ensures
        ({
            let m = whole_ticks(ticks, len);
            let kept = walk(batch_bytes(ticks).take(len), 0, previous_end).0;
            &&& 0 <= m <= ticks.len()
            &&& 0 <= kept <= len
            &&& batch_bytes(ticks).take(kept) == batch_bytes(ticks.take(m))
        }),
    decreases ticks.len(),
{
    let all = batch_bytes(ticks);
    let torn = all.take(len);
    let empty = Seq::<u8>::empty();
    lemma_walk_bounds(torn, 0, previous_end);
    assert(all.take(0) =~= batch_bytes(ticks.take(0)));
    if ticks.len() <= FRAME_TICK_COUNT {
        assert(all + empty =~= all);
        if all.len() <= len {
            law_batches_are_logs(ticks, previous_end);
            assert(torn =~= all);
            assert(ticks.take(ticks.len() as int) =~= ticks);
            assert(all.take(all.len() as int) =~= all);
        } else {
            lemma_torn_frame(ticks, empty, len, previous_end);
        }
    } else {
        let n = FRAME_TICK_COUNT as int;
        let first = ticks.take(n);
        let rest = ticks.skip(n);
        let head = frame_bytes(first);
        lemma_take_skip_ordered(ticks, n);
        if head.len() <= len {
            let behind = batch_bytes(rest).take(len - head.len());
            assert(torn =~= head + behind);
            lemma_frame_first(first, behind, previous_end);
            assert(first.last() == ticks[n - 1]);
            assert(rest[0] == ticks[n]);
            assert(ticks[n - 1].timestamp <= ticks[n].timestamp);
            let end = Some(first.last().timestamp);
            lemma_walk_shift(head, behind, 0, end);
            lemma_torn_batch(rest, len - head.len(), end);
            let m = whole_ticks(rest, len - head.len());
            let kept = walk(behind, 0, end).0;
            let some = ticks.take(n + m);
            assert(all.take(head.len() + kept) =~= head + batch_bytes(rest).take(kept));
            if m == 0 {
                assert(some =~= first);
                assert(rest.take(0).len() == 0);
                assert(head + batch_bytes(rest.take(0)) =~= head);
            } else {
                assert(some.take(n) =~= first);
                assert(some.skip(n) =~= rest.take(m));
            }
        } else {
            lemma_torn_frame(first, batch_bytes(rest), len, previous_end);
        }
    }
}

/// After an append that was cut short anywhere, a repair leaves what was stored
/// before and, of the batch, the ticks whose frames were written in full.
pub proof fn law_torn_append(log: Seq<u8>, ticks: Seq<Tick>, written: int)
    requires
        is_log(log),
        ticks.len() > 0,
        ordered(ticks),
        log_tail(log) matches Some(end) ==> end <= ticks[0].timestamp,
        0 <= written <= batch_bytes(ticks).len(),
    ensures
        ({
            let file = log + batch_bytes(ticks).take(written);
            let m = whole_ticks(ticks, written);
            &&& 0 <= m <= ticks.len()
            &&& recovered(file, false) is Ok
            &&& file.take(recovered(file, false)->Ok_0) == log + batch_bytes(ticks.take(m))
        }),
{
    let torn = batch_bytes(ticks).take(written);
    let file = log + torn;
    let tail = log_tail(log);
    lemma_torn_batch(ticks, written, tail);
    lemma_walk_extend(log, torn, 0, None);
    lemma_walk_shift(log, torn, 0, tail);
    let kept = walk(torn, 0, tail).0;
    let m = whole_ticks(ticks, written);
    assert(file.take(log.len() + kept) =~= log + batch_bytes(ticks).take(kept));
    if log.len() > 0 {
        assert(frame_at(log, 0, None));
        assert(file.subrange(0, FRAME_HEADER_SIZE as int) =~= log.subrange(
            0,
            FRAME_HEADER_SIZE as int,
        ));
    } else {
        assert(file =~= torn);
        if file.len() >= FRAME_HEADER_SIZE {
            lemma_batch_header(ticks);
            assert(file.subrange(0, FRAME_HEADER_SIZE as int) =~= batch_bytes(ticks).subrange(
                0,
                FRAME_HEADER_SIZE as int,
            ));
        }
    }
}

/// A batch starts with a header that is accepted.
proof fn lemma_batch_header(ticks: Seq<Tick>)
    requires
        ticks.len() > 0,
        ordered(ticks),
    ensures
        header_ok(header_at(batch_bytes(ticks), 0)),
{
    let empty = Seq::<u8>::empty();
    if ticks.len() <= FRAME_TICK_COUNT {
        lemma_frame_first(ticks, empty, None);
        assert(frame_bytes(ticks) + empty =~= frame_bytes(ticks));
    } else {
        lemma_take_skip_ordered(ticks, FRAME_TICK_COUNT as int);
        lemma_frame_first(
            ticks.take(FRAME_TICK_COUNT as int),
            batch_bytes(ticks.skip(FRAME_TICK_COUNT as int)),
            None,
        );
    }
}

/// What stands ahead of appended bytes only moves their entries.
proof fn lemma_entries_shift(a: Seq<u8>, b: Seq<u8>, offset: int, base: int)
    requires
        0 <= offset <= b.len(),
    ensures
        entries_from(a + b, a.len() + offset, base) == entries_from(b, offset, base + a.len()),
    decreases b.len() - offset,
{
    if offset + FRAME_HEADER_SIZE <= b.len() {
        assert((a + b).subrange(a.len() + offset, a.len() + offset + FRAME_HEADER_SIZE)
            =~= b.subrange(offset, offset + FRAME_HEADER_SIZE));
        let header = header_at(b, offset);
        if frame_end(offset, header) <= b.len() {
            lemma_entries_shift(a, b, frame_end(offset, header), base);
        }
    }
}

/// The entries of a file and of what is appended to it stand one behind the other.
proof fn lemma_entries_concat(a: Seq<u8>, b: Seq<u8>, offset: int, previous_end: Option<u64>)
    requires
        0 <= offset <= a.len(),
        walk(a, offset, previous_end).0 == a.len(),
    ensures
        entries_from(a + b, offset, 0) == entries_from(a, offset, 0) + entries_from(
            b,
            0,
            a.len() as int,
        ),
    decreases a.len() - offset,
{
    if offset < a.len() {
        assert(frame_at(a, offset, previous_end));
        let header = header_at(a, offset);
        assert((a + b).subrange(offset, offset + FRAME_HEADER_SIZE) =~= a.subrange(
            offset,
            offset + FRAME_HEADER_SIZE,
        ));
        let next = frame_end(offset, header);
        lemma_entries_concat(a, b, next, Some(header.end_ts));
        assert(entries_from(a + b, offset, 0) =~= entries_from(a, offset, 0) + entries_from(
            b,
            0,
            a.len() as int,
        ));
    } else {
        lemma_entries_shift(a, b, 0, 0);
        assert(entries_from(a, offset, 0) =~= Seq::<FrameIndexEntry>::empty());
        assert(entries_from(a + b, offset, 0) =~= entries_from(a, offset, 0) + entries_from(
            b,
            0,
            a.len() as int,
        ));
    }
}

/// A scan of whole frames finds each of them, and the index it builds is sound.
proof fn lemma_scan(bytes: Seq<u8>, found: Seq<FrameIndexEntry>)
    requires
        index_wf(found),
        index_end(found) <= bytes.len() <= u64::MAX,
        walk(bytes, index_end(found), index_tail(found)).0 == bytes.len(),
    ensures
        ({
            let offset = index_end(found);
            let rest = entries_from(bytes, offset, 0);
            &&& scanned(bytes, offset, index_tail(found)) == Ok::<Seq<FrameIndexEntry>, Error>(rest)
            &&& index_wf(found + rest)
            &&& index_end(found + rest) == bytes.len()
            &&& index_tail(found + rest) == walk(bytes, offset, index_tail(found)).1
        }),
    decreases bytes.len() - index_end(found),
{
    let offset = index_end(found);
    let rest = entries_from(bytes, offset, 0);
    if found.len() > 0 {
        assert(entry_end(found.last()) == offset);
    }
    if offset < bytes.len() {
        assert(frame_at(bytes, offset, index_tail(found)));
        let header = header_at(bytes, offset);
        let entry = entry_for(offset, header);
        crate::storage::lemma_index_grows(found, header);
        let longer = found.push(entry);
        lemma_scan(bytes, longer);
        assert(found + rest =~= longer + entries_from(bytes, frame_end(offset, header), 0));
    } else {
        assert(rest =~= Seq::<FrameIndexEntry>::empty());
        assert(found + rest =~= found);
    }
}

/// The index of a file of whole frames.
pub open spec fn index_of(bytes: Seq<u8>) -> Seq<FrameIndexEntry> {
    entries_from(bytes, 0, 0)
}

/// A scan of a file of whole frames succeeds, and its index fills the file.
pub proof fn law_scan_of_log(log: Seq<u8>)
    requires
        is_log(log),
        log.len() <= u64::MAX,
    ensures
        scanned(log, 0, None) == Ok::<Seq<FrameIndexEntry>, Error>(index_of(log)),
        index_wf(index_of(log)),
        index_end(index_of(log)) == log.len(),
        index_tail(index_of(log)) == log_tail(log),
{
    let none = Seq::<FrameIndexEntry>::empty();
    lemma_scan(log, none);
    assert(none + index_of(log) =~= index_of(log));
}

/// An index that takes note of each appended batch is the one that a scan of the
/// file would find.
pub proof fn law_index_stays_current(log: Seq<u8>, ticks: Seq<Tick>)
    requires
        is_log(log),
        ticks.len() > 0,
        ordered(ticks),
        log_tail(log) matches Some(end) ==> end <= ticks[0].timestamp,
        log.len() + batch_bytes(ticks).len() <= u64::MAX,
    ensures
        walk(batch_bytes(ticks), 0, index_tail(index_of(log))).0 == batch_bytes(ticks).len(),
        scanned(log + batch_bytes(ticks), 0, None) == Ok::<Seq<FrameIndexEntry>, Error>(
            index_of(log) + entries_from(batch_bytes(ticks), 0, index_end(index_of(log))),
        ),
{
    law_scan_of_log(log);
    law_batches_are_logs(ticks, log_tail(log));
    law_append_keeps_log(log, ticks);
    law_scan_of_log(log + batch_bytes(ticks));
    lemma_entries_concat(log, batch_bytes(ticks), 0, None);
}

/// The ticks in the frames from `i` on, in a file whose contents are `bytes`.
pub open spec fn stored_ticks(bytes: Seq<u8>, frames: Seq<FrameIndexEntry>, i: int) -> Result<
    Seq<Tick>,
    Error,
>
    decreases frames.len() - i,
{
    if i >= frames.len() {
        Ok(Seq::empty())
    } else if entry_end(frames[i]) > bytes.len() {
        Err(Error::EndOfFile)
    } else {
        let (ticks, end) = decoded(
            frames[i].header,
            bytes.subrange(frames[i].payload_offset as int, entry_end(frames[i])),
        );
        match end {
            Err(e) => Err(e),
            Ok(_) => match stored_ticks(bytes, frames, i + 1) {
                Err(e) => Err(e),
                Ok(rest) => Ok(ticks + rest),
            },
        }
    }
}

/// Indexed frames lie inside the part of the file that the index covers.
proof fn lemma_entry_inside(index: Seq<FrameIndexEntry>, i: int)
    requires
        index_wf(index),
        0 <= i < index.len(),
    ensures
        entry_end(index[i]) <= index_end(index),
    decreases index.len() - i,
{
    if i < index.len() - 1 {
        lemma_entry_inside(index, i + 1);
        assert(crate::storage::linked(index, i + 1));
    }
}

/// The entries of a frame and of what stands behind it.
proof fn lemma_entries_first(ticks: Seq<Tick>, behind: Seq<u8>, base: int)
    requires
        frame_ticks(ticks),
    ensures
        entries_from(frame_bytes(ticks) + behind, 0, base) == seq![
            entry_for(base, header_for(ticks)),
        ] + entries_from(behind, 0, base + frame_bytes(ticks).len()),
{
    lemma_frame_first(ticks, behind, None);
    lemma_entries_shift(frame_bytes(ticks), behind, 0, base);
}

/// A frame in the middle of a file is read back.
proof fn lemma_frame_read(before: Seq<u8>, ticks: Seq<Tick>, behind: Seq<u8>)
    requires
        frame_ticks(ticks),
        before.len() + frame_bytes(ticks).len() <= u64::MAX,
    ensures
        ({
            let file = before + (frame_bytes(ticks) + behind);
            let entry = entry_for(before.len() as int, header_for(ticks));
            &&& entry_end(entry) == before.len() + frame_bytes(ticks).len()
            &&& decoded(
                entry.header,
                file.subrange(entry.payload_offset as int, entry_end(entry)),
            ) == (ticks, Ok::<(), Error>(()))
        }),
{
    let base = before.len() as int;
    let head = frame_bytes(ticks);
    let file = before + (head + behind);
    lemma_frame_first(ticks, behind, None);
    law_written_headers_are_valid(ticks);
    assert(file.subrange(base + FRAME_HEADER_SIZE, base + head.len()) =~= (head + behind).subrange(
        FRAME_HEADER_SIZE as int,
        head.len() as int,
    ));
    law_frame_round_trip(ticks);
}

/// A frame that is read back comes ahead of what the later frames give.
proof fn lemma_stored_step(
    file: Seq<u8>,
    frames: Seq<FrameIndexEntry>,
    i: int,
    mine: Seq<Tick>,
    rest: Seq<Tick>,
)
    requires
        0 <= i < frames.len(),
        entry_end(frames[i]) <= file.len(),
        decoded(
            frames[i].header,
            file.subrange(frames[i].payload_offset as int, entry_end(frames[i])),
        ) == (mine, Ok::<(), Error>(())),
        stored_ticks(file, frames, i + 1) == Ok::<Seq<Tick>, Error>(rest),
    ensures
        stored_ticks(file, frames, i) == Ok::<Seq<Tick>, Error>(mine + rest),
{
}

/// How a batch splits into its first frame and the rest.
proof fn lemma_batch_split(ticks: Seq<Tick>) -> (parts: (Seq<Tick>, Seq<Tick>))
    requires
        ticks.len() > 0,
        ordered(ticks),
    ensures
        frame_ticks(parts.0),
        ordered(parts.1),
        parts.1.len() < ticks.len(),
        parts.0 + parts.1 == ticks,
        batch_bytes(ticks) == frame_bytes(parts.0) + batch_bytes(parts.1),
{
    let n = if ticks.len() <= FRAME_TICK_COUNT {
        ticks.len() as int
    } else {
        FRAME_TICK_COUNT as int
    };
    let first = ticks.take(n);
    let rest = ticks.skip(n);
    lemma_take_skip_ordered(ticks, n);
    assert(first + rest =~= ticks);
    if ticks.len() <= FRAME_TICK_COUNT {
        assert(first =~= ticks);
        assert(batch_bytes(rest) =~= Seq::<u8>::empty());
        assert(frame_bytes(first) + batch_bytes(rest) =~= frame_bytes(first));
    }
    (first, rest)
}

/// Every tick of a batch is read back from the frames it was compressed into.
proof fn lemma_batch_stored(before: Seq<u8>, ticks: Seq<Tick>, index: Seq<FrameIndexEntry>)
    requires
        ordered(ticks),
        before.len() + batch_bytes(ticks).len() <= u64::MAX,
    ensures
        stored_ticks(
            before + batch_bytes(ticks),
            index + entries_from(batch_bytes(ticks), 0, before.len() as int),
            index.len() as int,
        ) == Ok::<Seq<Tick>, Error>(ticks),
    decreases ticks.len(),
{
    let base = before.len() as int;
    let file = before + batch_bytes(ticks);
    let frames = index + entries_from(batch_bytes(ticks), 0, base);
    if ticks.len() == 0 {
        assert(ticks =~= Seq::<Tick>::empty());
    } else {
        let (first, rest) = lemma_batch_split(ticks);
        let head = frame_bytes(first);
        let behind = batch_bytes(rest);
        let entry = entry_for(base, header_for(first));
        lemma_entries_first(first, behind, base);
        lemma_frame_read(before, first, behind);
        lemma_batch_stored(before + head, rest, index.push(entry));
        assert(file =~= (before + head) + behind);
        assert(frames =~= index.push(entry) + entries_from(behind, 0, base + head.len()));
        lemma_stored_step(file, frames, index.len() as int, first, rest);
    }
}

/// What is appended to a file does not change what is read from the frames ahead of
/// it.
proof fn lemma_stored_concat(
    log: Seq<u8>,
    batch: Seq<u8>,
    index: Seq<FrameIndexEntry>,
    more: Seq<FrameIndexEntry>,
    i: int,
    ticks: Seq<Tick>,
)
    requires
        0 <= i <= index.len(),
        forall|j: int| 0 <= j < index.len() ==> entry_end(#[trigger] index[j]) <= log.len(),
        stored_ticks(log + batch, index + more, index.len() as int) == Ok::<Seq<Tick>, Error>(
            ticks,
        ),
    ensures
        stored_ticks(log + batch, index + more, i) == (match stored_ticks(log, index, i) {
            Ok(older) => Ok::<Seq<Tick>, Error>(older + ticks),
            Err(e) => Err(e),
        }),
    decreases index.len() - i,
{
    if i < index.len() {
        lemma_stored_concat(log, batch, index, more, i + 1, ticks);
        let from = index[i].payload_offset as int;
        let to = entry_end(index[i]);
        assert(to <= log.len());
        assert((index + more)[i] == index[i]);
        assert((log + batch).subrange(from, to) =~= log.subrange(from, to));
        let mine = decoded(index[i].header, log.subrange(from, to)).0;
        match stored_ticks(log, index, i + 1) {
            Ok(older) => {
                assert(mine + (older + ticks) =~= (mine + older) + ticks);
            },
            Err(_) => {},
        }
    } else {
        assert(Seq::<Tick>::empty() + ticks =~= ticks);
    }
}

/// Reading a file gives what it held before a batch was appended and then, bit by
/// bit, the ticks of the batch.
pub proof fn law_store_round_trip(log: Seq<u8>, ticks: Seq<Tick>)
    requires
        is_log(log),
        ticks.len() > 0,
        ordered(ticks),
        log_tail(log) matches Some(end) ==> end <= ticks[0].timestamp,
        log.len() + batch_bytes(ticks).len() <= u64::MAX,
    ensures
        stored_ticks(log + batch_bytes(ticks), index_of(log + batch_bytes(ticks)), 0) == (
        match stored_ticks(log, index_of(log), 0) {
            Ok(older) => Ok::<Seq<Tick>, Error>(older + ticks),
            Err(e) => Err(e),
        }),
        log.len() == 0 ==> stored_ticks(batch_bytes(ticks), index_of(batch_bytes(ticks)), 0) == Ok::<
            Seq<Tick>,
            Error,
        >(ticks),
{
    let batch = batch_bytes(ticks);
    let index = index_of(log);
    let more = entries_from(batch, 0, log.len() as int);
    law_scan_of_log(log);
    lemma_entries_concat(log, batch, 0, None);
    lemma_batch_stored(log, ticks, index);
    assert forall|j: int| 0 <= j < index.len() implies entry_end(#[trigger] index[j])
        <= log.len() by {
        lemma_entry_inside(index, j);
    }
    lemma_stored_concat(log, batch, index, more, 0, ticks);
    if log.len() == 0 {
        assert(log + batch =~= batch);
        assert(index =~= Seq::<FrameIndexEntry>::empty());
        assert(Seq::<Tick>::empty() + ticks =~= ticks);
    }
}

/// The file that results when batches are appended to an empty file.
pub open spec fn log_of(batches: Seq<Seq<Tick>>) -> Seq<u8>
    decreases batches.len(),
{
    if batches.len() == 0 {
        Seq::empty()
    } else {
        log_of(batches.drop_last()) + batch_bytes(batches.last())
    }
}

/// The ticks of all batches, one behind the other.
pub open spec fn all_ticks(batches: Seq<Seq<Tick>>) -> Seq<Tick>
    decreases batches.len(),
{
    if batches.len() == 0 {
        Seq::empty()
    } else {
        all_ticks(batches.drop_last()) + batches.last()
    }
}

/// However many batches are stored in time order, the file consists of whole frames,
/// a repair leaves it alone, a scan succeeds, and reading gives every tick back, bit
/// by bit and in order.
pub proof fn law_history_round_trip(batches: Seq<Seq<Tick>>)
    requires
        forall|i: int| 0 <= i < batches.len() ==> (#[trigger] batches[i]).len() > 0,
        ordered(all_ticks(batches)),
        log_of(batches).len() <= u64::MAX,
    ensures
        ({
            let log = log_of(batches);
            let ticks = all_ticks(batches);
            &&& is_log(log)
            &&& log_tail(log) == (if ticks.len() == 0 {
                None
            } else {
                Some(ticks.last().timestamp)
            })
            &&& recovered(log, false) == Ok::<int, Error>(log.len() as int)
            &&& scanned(log, 0, None) == Ok::<Seq<FrameIndexEntry>, Error>(index_of(log))
            &&& stored_ticks(log, index_of(log), 0) == Ok::<Seq<Tick>, Error>(ticks)
        }),
    decreases batches.len(),
{
    let log = log_of(batches);
    let none = Seq::<u8>::empty();
    if batches.len() > 0 {
        let older = batches.drop_last();
        let batch = batches.last();
        let before = all_ticks(older);
        let ticks = all_ticks(batches);
        let n = before.len() as int;
        lemma_take_skip_ordered(ticks, n);
        assert(ticks.take(n) =~= before);
        assert(ticks.skip(n) =~= batch);
        assert forall|i: int| 0 <= i < older.len() implies (#[trigger] older[i]).len() > 0 by {
            assert(older[i] == batches[i]);
        }
        assert(batch == batches[batches.len() - 1]);
        law_history_round_trip(older);
        if n > 0 {
            assert(before.last() == ticks[n - 1]);
            assert(batch[0] == ticks[n]);
            assert(ticks[n - 1].timestamp <= ticks[n].timestamp);
        }
        law_append_keeps_log(log_of(older), batch);
        law_store_round_trip(log_of(older), batch);
    } else {
        assert(log =~= none);
        assert(index_of(none) =~= Seq::<FrameIndexEntry>::empty());
    }
    law_scan_of_log(log);
    if log.len() > 0 {
        law_recovery_keeps_whole_frames(log, none);
        assert(log + none =~= log);
    }
}

} // verus!
