//! How a batch gets into its partition: the decisions ahead of and behind the write.
use vstd::prelude::*;

use crate::compression::{batch_bytes, encode_batch, ordered, raw_ticks, EncodedBatch};
use crate::durability::{
    index_of, is_log, law_append_keeps_log, law_batches_are_logs, law_index_stays_current,
    law_recovery_keeps_whole_frames, law_scan_of_log, law_store_round_trip, log_tail, stored_ticks,
};
use crate::error::Error;
use crate::protocol::Tick;
use crate::storage::{
    entries_from, index_end, index_tail, index_wf, scan_frame_index, FrameIndexEntry,
    IngestBatchTask, StorageEngine,
};

verus! {

/// A batch that holds these ticks.
pub open spec fn batch_holds(batch: EncodedBatch, ticks: Seq<Tick>) -> bool {
    &&& ticks.len() > 0
    &&& ordered(ticks)
    &&& batch.bytes@ == batch_bytes(ticks)
    &&& batch.first_ts == ticks[0].timestamp
    &&& batch.last_ts == ticks.last().timestamp
    &&& batch.count == ticks.len()
}

/// A batch as compression makes it.
pub open spec fn is_batch(batch: EncodedBatch) -> bool {
    exists|ticks: Seq<Tick>| #[trigger] batch_holds(batch, ticks)
}

/// What is to be done about a batch.
pub enum Append {
    /// Its bytes are to be written to the partition's file at `offset`, which is the
    /// file's end.
    Write { slot: usize, offset: u64 },
    /// It starts before the partition ends. Nothing is to be written; the file is to
    /// be repaired.
    Conflict { slot: usize },
}

/// Decides about a batch for a symbol's partition. A batch that is refused costs the
/// partition its loaded index.
pub fn begin_append(
    engine: &mut StorageEngine,
    symbol: &[u8; 8],
    batch: &EncodedBatch,
    on_disk: Option<Vec<FrameIndexEntry>>,
) -> (r: Append)
    requires
        old(engine).wf(),
        on_disk matches Some(index) ==> index_wf(index@),
    ensures
        final(engine).wf(),
        final(engine).data_dir() == old(engine).data_dir(),
        final(engine).partitions() == (if old(engine).partitions().contains(symbol@) {
            old(engine).partitions()
        } else {
            old(engine).partitions().push(symbol@)
        }),
        ({
            let slot = match r {
                Append::Write { slot, .. } => slot,
                Append::Conflict { slot } => slot,
            };
            let index = if old(engine).loaded(slot as int) {
                old(engine).indices()[slot as int]->0
            } else {
                match on_disk {
                    Some(index) => index@,
                    None => Seq::<FrameIndexEntry>::empty(),
                }
            };
            let conflict = match index_tail(index) {
                Some(tail) => batch.first_ts < tail,
                None => false,
            };
            &&& slot < final(engine).partitions().len()
            &&& final(engine).partitions()[slot as int] == symbol@
            &&& forall|i: int|
                0 <= i < old(engine).indices().len() && i != slot
                    ==> final(engine).indices()[i] == old(engine).indices()[i]
            &&& r is Conflict <==> conflict
            &&& conflict ==> final(engine).indices()[slot as int] is None
            &&& !conflict ==> final(engine).indices()[slot as int] == Some(index)
            &&& r matches Append::Write { offset, .. } ==> offset == index_end(index)
        }),
{
    let slot: usize = engine.get_frame_index(symbol, on_disk);
    match engine.accept_batch(slot, batch) {
        Ok(offset) => Append::Write { slot, offset },
        Err(_) => {
            engine.forget_index(slot);
            Append::Conflict { slot }
        },
    }
}

/// Takes note of how the write of a batch went: if it was stored, the index grows by
/// its frames and then ends with its last tick; if not, the index is dropped.
pub fn end_append(engine: &mut StorageEngine, slot: usize, batch: &EncodedBatch, stored: bool)
    requires
        old(engine).wf(),
        old(engine).loaded(slot as int),
        is_batch(*batch),
        index_tail(old(engine).indices()[slot as int]->0) matches Some(tail) ==> tail
            <= batch.first_ts,
        index_end(old(engine).indices()[slot as int]->0) + batch.bytes.len() <= u64::MAX,
    ensures
        final(engine).wf(),
        final(engine).data_dir() == old(engine).data_dir(),
        final(engine).partitions() == old(engine).partitions(),
        !stored ==> final(engine).indices() == old(engine).indices().update(slot as int, None),
        stored ==> {
            let index = old(engine).indices()[slot as int]->0;
            let longer = index + entries_from(batch.bytes@, 0, index_end(index));
            &&& final(engine).indices() == old(engine).indices().update(slot as int, Some(longer))
            &&& index_end(longer) == index_end(index) + batch.bytes@.len()
            &&& index_tail(longer) == Some(batch.last_ts)
        },
{
    if stored {
        let ghost index = engine.indices()[slot as int]->0;
        let ghost ticks = choose|ticks: Seq<Tick>| #[trigger] batch_holds(*batch, ticks);
        proof {
            law_batches_are_logs(ticks, index_tail(index));
        }
        engine.commit_batch(slot, batch.bytes.as_slice());
    } else {
        engine.forget_index(slot);
    }
}

/// Why raw ticks are refused by a partition that ends at `tail`, if they are.
pub open spec fn refusal(tail: Option<u64>, payload: Seq<u8>) -> Option<Error> {
    if payload.len() == 0 || payload.len() % 16 != 0 {
        Some(Error::PartialRecords)
    } else if !ordered(raw_ticks(payload)) {
        Some(Error::UnorderedTicks)
    } else if tail matches Some(end) && raw_ticks(payload)[0].timestamp < end {
        Some(Error::BatchPrecedesTail)
    } else {
        None
    }
}

/// What is answered to raw ticks.
pub open spec fn answer(tail: Option<u64>, payload: Seq<u8>) -> Result<(), Error> {
    match refusal(tail, payload) {
        None => Ok(()),
        Some(e) => Err(e),
    }
}

/// The ticks that are stored: all of them, or none if they are refused.
pub open spec fn accepted(tail: Option<u64>, payload: Seq<u8>) -> Seq<Tick> {
    if refusal(tail, payload) is None {
        raw_ticks(payload)
    } else {
        Seq::empty()
    }
}

/// A partition's file once raw ticks were handed to it.
pub open spec fn file_after(file: Seq<u8>, payload: Seq<u8>) -> Seq<u8> {
    file + batch_bytes(accepted(log_tail(file), payload))
}

/// The loaded index of a symbol's partition, if there is one, is that of its file.
pub open spec fn in_step(engine: StorageEngine, symbol: Seq<u8>, file: Seq<u8>) -> bool {
    forall|slot: int|
        #[trigger] engine.loaded(slot) && engine.partitions()[slot] == symbol
            ==> engine.indices()[slot]->0 == index_of(file)
}

/// Stores a batch in a partition whose file is held in memory. A batch that is refused
/// changes nothing in the file.
pub fn store_batch(
    engine: &mut StorageEngine,
    file: &mut Vec<u8>,
    task: &IngestBatchTask,
) -> (r: Result<(), Error>)
    requires
        old(engine).wf(),
        is_log(old(file)@),
        in_step(*old(engine), task.symbol@, old(file)@),
        file_after(old(file)@, task.payload@).len() <= usize::MAX,
    ensures
        final(engine).wf(),
        final(engine).data_dir() == old(engine).data_dir(),
        is_log(final(file)@),
        in_step(*final(engine), task.symbol@, final(file)@),
        forall|slot: int|
            0 <= slot < old(engine).partitions().len() && old(engine).partitions()[slot]
                != task.symbol@ ==> final(engine).partitions()[slot] == old(
                engine
            ).partitions()[slot] && final(engine).indices()[slot] == old(engine).indices()[slot],
        final(file)@ == file_after(old(file)@, task.payload@),
        r == answer(log_tail(old(file)@), task.payload@),
{
    let ghost before = file@;
    let ghost ticks = raw_ticks(task.payload@);
    let batch = match encode_batch(task.payload.as_slice()) {
        Ok(batch) => batch,
        Err(e) => {
            assert(file@ =~= file_after(before, task.payload@));
            return Err(e);
        },
    };
    proof {
        assert(file.len() <= usize::MAX);
        law_scan_of_log(before);
        assert(batch_holds(batch, ticks));
    }
    let on_disk: Option<Vec<FrameIndexEntry>> = if engine.has_frame_index(&task.symbol) {
        None
    } else {
        match scan_frame_index(file.as_slice()) {
            Ok(index) => Some(index),
            Err(_) => None,
        }
    };
    let next = begin_append(engine, &task.symbol, &batch, on_disk);
    let ghost mid = *engine;
    match next {
        Append::Write { slot, .. } => {
            assert(mid.indices()[slot as int] == Some(index_of(before)));
            assert(mid.loaded(slot as int));
            file.extend_from_slice(batch.bytes.as_slice());
            proof {
                assert(file@ =~= before + batch_bytes(ticks));
                law_append_keeps_log(before, ticks);
                law_index_stays_current(before, ticks);
                law_scan_of_log(before + batch_bytes(ticks));
            }
            end_append(engine, slot, &batch, true);
            assert forall|s: int|
                #[trigger] engine.loaded(s) && engine.partitions()[s]
                    == task.symbol@ implies engine.indices()[s]->0 == index_of(file@) by {
                assert(s == slot);
            }
            Ok(())
        },
        Append::Conflict { slot } => {
            proof {
                assert(before.len() > 0);
                law_recovery_keeps_whole_frames(before, Seq::empty());
                assert(before + Seq::<u8>::empty() =~= before);
            }
            if let Ok(len) = StorageEngine::recover_file(file.as_slice(), false) {
                file.truncate(len as usize);
            }
            assert(file@ =~= before);
            assert(file@ =~= file_after(before, task.payload@));
            assert forall|s: int|
                #[trigger] engine.loaded(s) && engine.partitions()[s]
                    == task.symbol@ implies engine.indices()[s]->0 == index_of(file@) by {
                assert(s == slot);
            }
            Err(Error::BatchPrecedesTail)
        },
    }
}

/// A partition's file once several payloads were handed to it, one after the other.
pub open spec fn file_after_all(file: Seq<u8>, payloads: Seq<Seq<u8>>) -> Seq<u8>
    decreases payloads.len(),
{
    if payloads.len() == 0 {
        file
    } else {
        file_after(file_after_all(file, payloads.drop_last()), payloads.last())
    }
}

/// What is answered to several payloads, one after the other.
pub open spec fn answers(file: Seq<u8>, payloads: Seq<Seq<u8>>) -> Seq<Result<(), Error>>
    decreases payloads.len(),
{
    if payloads.len() == 0 {
        Seq::empty()
    } else {
        let front = payloads.drop_last();
        answers(file, front).push(
            answer(log_tail(file_after_all(file, front)), payloads.last()),
        )
    }
}

/// The last timestamp that is stored once several payloads were handed over, to a
/// partition that ended at `tail`.
pub open spec fn tail_after_all(tail: Option<u64>, payloads: Seq<Seq<u8>>) -> Option<u64>
    decreases payloads.len(),
{
    if payloads.len() == 0 {
        tail
    } else {
        let end = tail_after_all(tail, payloads.drop_last());
        if refusal(end, payloads.last()) is None {
            Some(raw_ticks(payloads.last()).last().timestamp)
        } else {
            end
        }
    }
}

/// The frames of the accepted payloads, one batch behind the other.
pub open spec fn accepted_bytes(tail: Option<u64>, payloads: Seq<Seq<u8>>) -> Seq<u8>
    decreases payloads.len(),
{
    if payloads.len() == 0 {
        Seq::empty()
    } else {
        let front = payloads.drop_last();
        accepted_bytes(tail, front) + batch_bytes(
            accepted(tail_after_all(tail, front), payloads.last()),
        )
    }
}

/// The ticks of the accepted payloads, one behind the other.
pub open spec fn accepted_ticks(tail: Option<u64>, payloads: Seq<Seq<u8>>) -> Seq<Tick>
    decreases payloads.len(),
{
    if payloads.len() == 0 {
        Seq::empty()
    } else {
        let front = payloads.drop_last();
        accepted_ticks(tail, front) + accepted(tail_after_all(tail, front), payloads.last())
    }
}

/// What a file holds after one more payload: what it held before, and the ticks if
/// they were accepted.
proof fn lemma_file_after(file: Seq<u8>, payload: Seq<u8>)
    requires
        is_log(file),
    ensures
        is_log(file_after(file, payload)),
        log_tail(file_after(file, payload)) == (if refusal(log_tail(file), payload) is None {
            Some(raw_ticks(payload).last().timestamp)
        } else {
            log_tail(file)
        }),
        refusal(log_tail(file), payload) is Some ==> file_after(file, payload) == file,
        file_after(file, payload).len() <= u64::MAX ==> stored_ticks(
            file_after(file, payload),
            index_of(file_after(file, payload)),
            0,
        ) == (match stored_ticks(file, index_of(file), 0) {
            Ok(older) => Ok::<Seq<Tick>, Error>(older + accepted(log_tail(file), payload)),
            Err(e) => Err(e),
        }),
{
    let ticks = raw_ticks(payload);
    if refusal(log_tail(file), payload) is None {
        law_append_keeps_log(file, ticks);
        if file_after(file, payload).len() <= u64::MAX {
            law_store_round_trip(file, ticks);
        }
    } else {
        assert(file_after(file, payload) =~= file);
        match stored_ticks(file, index_of(file), 0) {
            Ok(older) => {
                assert(older + accepted(log_tail(file), payload) =~= older);
            },
            Err(_) => {},
        }
    }
}

/// Whatever payloads are handed to a partition, one after the other: each gets one
/// answer, in order; one is stored if and only if it consists of whole records in time
/// order and does not start before the last timestamp that is stored so far; one that
/// is refused changes nothing, and the next is taken all the same. In the end the file
/// is what it was, followed by the frames of the stored payloads in order, and reading
/// it gives the ticks that it held and then theirs.
pub proof fn law_tasks_in_sequence(file: Seq<u8>, payloads: Seq<Seq<u8>>)
    requires
        is_log(file),
    ensures
        ({
            let tail = log_tail(file);
            let after = file_after_all(file, payloads);
            &&& after == file + accepted_bytes(tail, payloads)
            &&& is_log(after)
            &&& log_tail(after) == tail_after_all(tail, payloads)
            &&& answers(file, payloads).len() == payloads.len()
            &&& forall|i: int|
                0 <= i < payloads.len() ==> #[trigger] answers(file, payloads)[i] == answer(
                    tail_after_all(tail, payloads.take(i)),
                    payloads[i],
                )
            &&& forall|i: int|
                0 <= i < payloads.len() && #[trigger] answers(file, payloads)[i] is Err
                    ==> file_after_all(file, payloads.take(i + 1)) == file_after_all(
                    file,
                    payloads.take(i),
                )
            &&& after.len() <= u64::MAX ==> stored_ticks(after, index_of(after), 0) == (
            match stored_ticks(file, index_of(file), 0) {
                Ok(older) => Ok::<Seq<Tick>, Error>(older + accepted_ticks(tail, payloads)),
                Err(e) => Err(e),
            })
        }),
    decreases payloads.len(),
{
    let tail = log_tail(file);
    if payloads.len() == 0 {
        assert(file + accepted_bytes(tail, payloads) =~= file);
        match stored_ticks(file, index_of(file), 0) {
            Ok(older) => {
                assert(older + accepted_ticks(tail, payloads) =~= older);
            },
            Err(_) => {},
        }
    } else {
        let front = payloads.drop_last();
        let n = front.len() as int;
        let before = file_after_all(file, front);
        let after = file_after_all(file, payloads);
        law_tasks_in_sequence(file, front);
        lemma_file_after(before, payloads.last());
        assert(after =~= file + accepted_bytes(tail, payloads));
        assert(payloads.take(n) =~= front);
        assert(payloads.take(n + 1) =~= payloads);
        assert forall|i: int| 0 <= i < payloads.len() implies #[trigger] answers(
            file,
            payloads,
        )[i] == answer(tail_after_all(tail, payloads.take(i)), payloads[i]) by {
            if i < n {
                assert(front.take(i) =~= payloads.take(i));
                assert(answers(file, front)[i] == answers(file, payloads)[i]);
            }
        }
        assert forall|i: int|
            0 <= i < payloads.len() && #[trigger] answers(file, payloads)[i] is Err implies
        file_after_all(file, payloads.take(i + 1)) == file_after_all(
            file,
            payloads.take(i),
        ) by {
            if i < n {
                assert(front.take(i) =~= payloads.take(i));
                assert(front.take(i + 1) =~= payloads.take(i + 1));
                assert(answers(file, front)[i] == answers(file, payloads)[i]);
            }
        }
        if after.len() <= u64::MAX {
            match stored_ticks(file, index_of(file), 0) {
                Ok(older) => {
                    let more = accepted(tail_after_all(tail, front), payloads.last());
                    assert((older + accepted_ticks(tail, front)) + more =~= older
                        + accepted_ticks(tail, payloads));
                },
                Err(_) => {},
            }
        }
    }
}

} // verus!
