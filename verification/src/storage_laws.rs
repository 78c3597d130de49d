//! What is kept of a partition file, what is refused, and why.
use vstd::prelude::*;

use crate::client_ingest::{law_raw_round_trip, raw_bytes};
use crate::compression::{
    batch_bytes, decoded, law_order_is_between_neighbours, not_older, ordered, raw_ticks,
    FrameHeader, FRAME_HEADER_SIZE,
};
use crate::durability::{index_of, is_log, lemma_walk_bounds, log_tail};
use crate::engine::prices_from;
use crate::error::Error;
use crate::protocol::{symbol_name, Tick};
use crate::storage::{
    entries_from, entry_end, frame_at, frame_end, header_at, index_end, index_step, index_tail,
    index_wf, inside, joined, partition_path, recovered, scanned, walk, FrameIndexEntry,
};
use crate::text::ascii_text;
use crate::worker::{accepted, answer, file_after};

verus! {

/// A walk stops only where no whole frame follows.
proof fn lemma_walk_stops(bytes: Seq<u8>, offset: int, previous_end: Option<u64>)
    requires
        0 <= offset <= bytes.len(),
    ensures
        ({
            let (n, tail) = walk(bytes, offset, previous_end);
            !frame_at(bytes, n, tail)
        }),
    decreases bytes.len() - offset,
{
    if frame_at(bytes, offset, previous_end) {
        let header = header_at(bytes, offset);
        lemma_walk_stops(bytes, frame_end(offset, header), Some(header.end_ts));
    }
}

/// A repair keeps all that can be kept: behind what it keeps there is no room for a
/// header, or an impossible header, or a frame that is older than the one before, or one
/// that is not there to its end.
pub proof fn law_recovery_keeps_all_it_can(bytes: Seq<u8>, raw_extension: bool, len: int)
    requires
        recovered(bytes, raw_extension) == Ok::<int, Error>(len),
    ensures
        ({
            let next = header_at(bytes, len);
            ||| bytes.len() - len < 24
            ||| !(1 <= next.count <= 1_000)
            ||| next.start_ts > next.end_ts
            ||| !(8 <= next.comp_len <= 24 * next.count + 16)
            ||| log_tail(bytes) matches Some(end) && next.start_ts < end
            ||| bytes.len() - len - 24 < next.comp_len
        }),
        bytes.len() < 24 ==> len == 0,
{
    lemma_walk_bounds(bytes, 0, None);
    lemma_walk_stops(bytes, 0, None);
}

/// A repair refuses a file that looks like one raw record, where such files are known to
/// lie about, and a file that has room for a header but does not start with one. It
/// refuses no other.
pub proof fn law_recovery_refuses_other_formats(bytes: Seq<u8>, raw_extension: bool)
    ensures
        ({
            let r = recovered(bytes, raw_extension);
            let first = header_at(bytes, 0);
            let possible = 1 <= first.count <= 1_000 && first.start_ts <= first.end_ts && 8
                <= first.comp_len <= 24 * first.count + 16;
            &&& bytes.len() == 16 && raw_extension ==> r == Err::<int, Error>(Error::LegacyFile)
            &&& bytes.len() >= 24 && !possible ==> r == Err::<int, Error>(
                Error::UnrecognizedFormat,
            )
            &&& bytes.len() >= 24 && possible ==> r is Ok
            &&& bytes.len() < 24 && !(bytes.len() == 16 && raw_extension) ==> r == Ok::<int, Error>(
                0,
            )
        }),
{
}

/// A scan of a file goes through the whole frames in front, and then on.
proof fn lemma_scan_extend(log: Seq<u8>, tail: Seq<u8>, offset: int, previous_end: Option<u64>)
    requires
        0 <= offset <= log.len(),
        walk(log, offset, previous_end).0 == log.len(),
        log.len() + tail.len() <= u64::MAX,
    ensures
        scanned(log + tail, offset, previous_end) == (match scanned(
            log + tail,
            log.len() as int,
            walk(log, offset, previous_end).1,
        ) {
            Ok(rest) => Ok::<Seq<FrameIndexEntry>, Error>(entries_from(log, offset, 0) + rest),
            Err(e) => Err(e),
        }),
    decreases log.len() - offset,
{
    let all = log + tail;
    if frame_at(log, offset, previous_end) {
        let header = header_at(log, offset);
        let next = frame_end(offset, header);
        assert(all.subrange(offset, offset + FRAME_HEADER_SIZE) =~= log.subrange(
            offset,
            offset + FRAME_HEADER_SIZE,
        ));
        lemma_scan_extend(log, tail, next, Some(header.end_ts));
        match scanned(all, log.len() as int, walk(log, offset, previous_end).1) {
            Ok(rest) => {
                let one = seq![crate::storage::entry_for(offset, header)];
                assert(one + (entries_from(log, next, 0) + rest) =~= one + entries_from(
                    log,
                    next,
                    0,
                ) + rest);
            },
            Err(_) => {},
        }
    } else {
        assert(entries_from(log, offset, 0) =~= Seq::<FrameIndexEntry>::empty());
        match scanned(all, offset, previous_end) {
            Ok(rest) => {
                assert(Seq::<FrameIndexEntry>::empty() + rest =~= rest);
            },
            Err(_) => {},
        }
    }
}

/// A scan of whole frames with something behind them. Less than a header, or a frame that
/// is not there to its end, is passed over. An impossible header, or a frame that is older
/// than the one before, is an error.
pub proof fn law_scans_of_what_follows_a_log(log: Seq<u8>, tail: Seq<u8>)
    requires
        is_log(log),
        log.len() + tail.len() <= u64::MAX,
    ensures
        ({
            let r = scanned(log + tail, 0, None);
            let next = header_at(tail, 0);
            let possible = 1 <= next.count <= 1_000 && next.start_ts <= next.end_ts && 8
                <= next.comp_len <= 24 * next.count + 16;
            let older = log_tail(log) matches Some(end) && next.start_ts < end;
            &&& tail.len() < 24 ==> r == Ok::<Seq<FrameIndexEntry>, Error>(index_of(log))
            &&& tail.len() >= 24 && !possible ==> r == Err::<Seq<FrameIndexEntry>, Error>(
                Error::InvalidFrameHeader,
            )
            &&& tail.len() >= 24 && possible && older ==> r == Err::<Seq<FrameIndexEntry>, Error>(
                Error::UnorderedFrames,
            )
            &&& tail.len() >= 24 && possible && !older && log.len() + 24 + next.comp_len
                <= u64::MAX && tail.len() < 24 + next.comp_len ==> r == Ok::<
                Seq<FrameIndexEntry>,
                Error,
            >(index_of(log))
            &&& tail.len() >= 24 && possible && !older && log.len() + 24 + next.comp_len > u64::MAX
                ==> r == Err::<Seq<FrameIndexEntry>, Error>(Error::FrameLengthOverflow)
        }),
{
    let all = log + tail;
    let n = log.len() as int;
    lemma_scan_extend(log, tail, 0, None);
    assert(index_of(log) + Seq::<FrameIndexEntry>::empty() =~= index_of(log));
    if tail.len() >= 24 {
        assert(all.subrange(n, n + FRAME_HEADER_SIZE) =~= tail.subrange(
            0,
            0 + FRAME_HEADER_SIZE,
        ));
    }
}

/// Reading frames ends with an error at the first one that the file does not hold to its
/// end or that cannot be decoded; until then the prices are those of the frames in order.
pub proof fn law_frames_are_read_in_order(
    bytes: Seq<u8>,
    frames: Seq<FrameIndexEntry>,
    i: int,
    floor: u64,
)
    requires
        0 <= i < frames.len(),
    ensures
        ({
            let r = prices_from(bytes, frames, i, floor);
            let rest = prices_from(bytes, frames, i + 1, floor);
            let here = frames[i].payload_offset as int;
            let end = here + frames[i].header.comp_len;
            let (ticks, read) = decoded(frames[i].header, bytes.subrange(here, end));
            &&& end > bytes.len() ==> r == Err::<Seq<u64>, Error>(Error::EndOfFile)
            &&& end <= bytes.len() && read is Err ==> r == Err::<Seq<u64>, Error>(read->Err_0)
            &&& end <= bytes.len() && read is Ok && rest is Err ==> r == rest
            &&& end <= bytes.len() && read is Ok && rest is Ok ==> r == Ok::<Seq<u64>, Error>(
                ticks.filter(|t: Tick| t.timestamp >= floor).map_values(|t: Tick| t.price_bits)
                    + rest->Ok_0,
            )
            &&& prices_from(bytes, frames, frames.len() as int, floor) == Ok::<Seq<u64>, Error>(
                Seq::empty(),
            )
        }),
{
    let here = frames[i].payload_offset as int;
    let end = here + frames[i].header.comp_len;
    crate::engine::law_prices_are_those_from_the_floor_on(
        decoded(frames[i].header, bytes.subrange(here, end)).0,
        floor,
    );
}

/// A name is put behind its directory with one slash between them. None is added where
/// the directory ends in one or is empty, and a name that starts with one stands alone.
pub proof fn law_paths_have_one_slash(dir: Seq<char>, name: Seq<char>)
    ensures
        name.len() > 0 && name[0] == '/' ==> joined(dir, name) == name,
        (name.len() == 0 || name[0] != '/') && dir.len() > 0 && dir.last() != '/' ==> joined(
            dir,
            name,
        ) == dir + seq!['/'] + name,
        (name.len() == 0 || name[0] != '/') && (dir.len() == 0 || dir.last() == '/') ==> joined(
            dir,
            name,
        ) == dir + name,
{
    assert(dir.push('/') =~= dir + seq!['/']);
}

/// The file of a symbol has its name, and an ending that all partition files have.
pub proof fn law_partition_files_are_named_after_symbols(dir: Seq<char>, symbol: Seq<u8>)
    requires
        symbol.len() > 0,
        symbol[0] != 0,
        symbol[0] != 47,
    ensures
        partition_path(dir, symbol) == inside(dir) + (ascii_text(symbol_name(symbol)) + seq![
            '.',
            'g',
            't',
            's',
        ]),
{
    reveal_strlit(".gts");
    crate::protocol::lemma_text_len(symbol);
    assert(".gts"@ =~= seq!['.', 'g', 't', 's']);
    let name = ascii_text(symbol_name(symbol)) + ".gts"@;
    assert(name[0] == symbol[0] as char);
}

/// Which batches are taken. A batch of raw ticks is taken just if it has any, none of
/// them is older than the one before it, and the first is not older than the last that is
/// stored. Anything that is not whole ticks is refused first.
pub proof fn law_which_batches_are_taken(tail: Option<u64>, payload: Seq<u8>)
    ensures
        ({
            let r = answer(tail, payload);
            let ticks = raw_ticks(payload);
            let whole = payload.len() > 0 && payload.len() % 16 == 0;
            let in_order = forall|i: int|
                1 <= i < ticks.len() ==> #[trigger] not_older(ticks, i);
            let late = tail matches Some(end) && ticks[0].timestamp < end;
            &&& !whole ==> r == Err::<(), Error>(Error::PartialRecords)
            &&& whole && !in_order ==> r == Err::<(), Error>(Error::UnorderedTicks)
            &&& whole && in_order && late ==> r == Err::<(), Error>(Error::BatchPrecedesTail)
            &&& whole && in_order && !late ==> r == Ok::<(), Error>(())
            &&& r is Ok ==> accepted(tail, payload) == ticks
            &&& r is Err ==> accepted(tail, payload).len() == 0
        }),
{
    law_order_is_between_neighbours(raw_ticks(payload));
}

/// Storing a batch only appends: the file keeps what it holds, and after a refusal it
/// holds nothing else. A batch of ticks that is taken is appended whole.
pub proof fn law_storing_only_appends(file: Seq<u8>, payload: Seq<u8>, ticks: Seq<Tick>)
    ensures
        file_after(file, payload).take(file.len() as int) == file,
        answer(log_tail(file), payload) is Err ==> file_after(file, payload) == file,
        ticks.len() > 0 && ordered(ticks) && (log_tail(file) matches Some(end) ==> end
            <= ticks[0].timestamp) ==> file_after(file, raw_bytes(ticks)) == file + batch_bytes(
            ticks,
        ) && answer(log_tail(file), raw_bytes(ticks)) is Ok,
{
    law_raw_round_trip(ticks);
    assert(file_after(file, payload).take(file.len() as int) =~= file);
    if answer(log_tail(file), payload) is Err {
        assert(batch_bytes(accepted(log_tail(file), payload)) =~= Seq::<u8>::empty());
        assert(file_after(file, payload) =~= file);
    }
}

/// Every entry of an index has the header that stands in the file at its offset, and its
/// payload stands right behind that.
pub proof fn law_entries_describe_the_file(bytes: Seq<u8>, offset: int, i: int)
    requires
        0 <= offset,
        bytes.len() <= u64::MAX,
        0 <= i < entries_from(bytes, offset, 0).len(),
    ensures
        ({
            let entry = entries_from(bytes, offset, 0)[i];
            &&& entry.header == header_at(bytes, entry.offset as int)
            &&& entry.payload_offset == entry.offset + 24
            &&& entry_end(entry) <= bytes.len()
            &&& i == 0 ==> entry.offset == offset
        }),
    decreases bytes.len() - offset,
{
    let header = header_at(bytes, offset);
    if i > 0 {
        law_entries_describe_the_file(bytes, frame_end(offset, header), i - 1);
    }
}

/// What becomes of a header that is read for an index. An impossible one, one that starts
/// before the last frame ends, and one whose frame would end past all offsets are errors,
/// in this order. A frame that is not there to its end adds nothing. Any other adds an
/// entry with its place.
pub proof fn law_headers_become_entries(
    len: int,
    offset: int,
    previous_end: Option<u64>,
    header: FrameHeader,
)
    requires
        0 <= offset <= len <= u64::MAX,
        offset + 24 <= len,
    ensures
        ({
            let r = index_step(len, offset, previous_end, header);
            let possible = 1 <= header.count <= 1_000 && header.start_ts <= header.end_ts && 8
                <= header.comp_len <= 24 * header.count + 16;
            let older = previous_end matches Some(end) && header.start_ts < end;
            let end = offset + 24 + header.comp_len;
            &&& !possible ==> r is Err && r->Err_0 == Error::InvalidFrameHeader
            &&& possible && older ==> r is Err && r->Err_0 == Error::UnorderedFrames
            &&& possible && !older && end > u64::MAX ==> r is Err && r->Err_0
                == Error::FrameLengthOverflow
            &&& possible && !older && len < end <= u64::MAX ==> r == Ok::<
                Option<FrameIndexEntry>,
                Error,
            >(None)
            &&& possible && !older && end <= len ==> r == Ok::<Option<FrameIndexEntry>, Error>(
                Some(
                    (FrameIndexEntry {
                        offset: offset as u64,
                        payload_offset: (offset + 24) as u64,
                        header,
                    }),
                ),
            )
        }),
{
}

/// The frames of an index stand one behind the other: each adds its header and its payload
/// to where the frames end. The last one tells when they end.
pub proof fn law_frames_add_up(index: Seq<FrameIndexEntry>)
    requires
        index_wf(index),
    ensures
        index.len() == 0 ==> index_end(index) == 0 && index_tail(index) is None,
        index.len() > 0 ==> {
            &&& index_end(index) == index_end(index.drop_last()) + 24
                + index.last().header.comp_len
            &&& index_tail(index) == Some(index.last().header.end_ts)
            &&& index.last().offset == index_end(index.drop_last())
        },
{
    if index.len() > 0 {
        assert(crate::storage::linked(index, index.len() - 1));
    }
}

} // verus!
