//! Partitions on disk: one file of frames per symbol, an index of those frames in
//! memory, and the repair of a file whose last write was cut short.
use vstd::prelude::*;

use vstd::string::StringExecFns;

use crate::compression::{
    header_of, header_ok, validate_header, EncodedBatch, FrameHeader, FRAME_HEADER_SIZE,
};
use crate::error::Error;
use crate::protocol::{
    law_symbols_are_normal, lemma_symbol_name, sanitized, symbol_name, symbol_to_string, text_len,
    TICK_SIZE,
};
use crate::text::{ascii_text, chars_of, utf8_lossy};

verus! {

/// Where a frame stands in its file.
#[derive(Debug, Clone, Copy, PartialEq, Eq, Structural)]
pub struct FrameIndexEntry {
    /// Where the header starts.
    pub offset: u64,
    /// Where the compressed bytes start.
    pub payload_offset: u64,
    pub header: FrameHeader,
}

/// The header that stands at `offset`.
pub open spec fn header_at(bytes: Seq<u8>, offset: int) -> FrameHeader {
    header_of(bytes.subrange(offset, offset + FRAME_HEADER_SIZE))
}

/// Where a frame with this header ends, if it starts at `offset`.
pub open spec fn frame_end(offset: int, header: FrameHeader) -> int {
    offset + FRAME_HEADER_SIZE + header.comp_len
}

/// A frame may stand behind one that ends at `previous_end`.
pub open spec fn follows(header: FrameHeader, previous_end: Option<u64>) -> bool {
    previous_end matches Some(end) ==> header.start_ts >= end
}

/// A whole frame that may stand behind one that ends at `previous_end` starts at
/// `offset`.
pub open spec fn frame_at(bytes: Seq<u8>, offset: int, previous_end: Option<u64>) -> bool {
    &&& offset + FRAME_HEADER_SIZE <= bytes.len()
    &&& header_ok(header_at(bytes, offset))
    &&& follows(header_at(bytes, offset), previous_end)
    &&& frame_end(offset, header_at(bytes, offset)) <= bytes.len()
}

/// Where a walk from frame to frame ends, and when the last frame ended.
pub open spec fn walk(bytes: Seq<u8>, offset: int, previous_end: Option<u64>) -> (int, Option<u64>)
    decreases bytes.len() - offset,
{
    if 0 <= offset && frame_at(bytes, offset, previous_end) {
        let header = header_at(bytes, offset);
        walk(bytes, frame_end(offset, header), Some(header.end_ts))
    } else {
        (offset, previous_end)
    }
}

/// What repairing a file gives: the length of its whole frames, or an error if it
/// holds something else. `raw_extension` tells whether the file's name marks it as
/// a file of uncompressed records.
pub open spec fn recovered(bytes: Seq<u8>, raw_extension: bool) -> Result<int, Error> {
    if bytes.len() == TICK_SIZE && raw_extension {
        Err(Error::LegacyFile)
    } else if bytes.len() >= FRAME_HEADER_SIZE && !header_ok(header_at(bytes, 0)) {
        Err(Error::UnrecognizedFormat)
    } else {
        Ok(walk(bytes, 0, None).0)
    }
}

/// A repair under way: how much of a file consists of whole frames.
pub struct Recovery {
    len: u64,
    offset: u64,
    previous_end: Option<u64>,
    done: bool,
}

impl Recovery {
    /// The length of the file.
    pub closed spec fn len(self) -> int {
        self.len as int
    }

    /// How far the whole frames seen so far reach.
    pub closed spec fn offset(self) -> int {
        self.offset as int
    }

    /// When the last whole frame ends.
    pub closed spec fn previous_end(self) -> Option<u64> {
        self.previous_end
    }

    /// A place was found from which no whole frame starts.
    pub closed spec fn done(self) -> bool {
        self.done
    }

    pub open spec fn wf(self) -> bool {
        self.offset() <= self.len()
    }

    /// Another header has to be read.
    pub open spec fn wants(self) -> bool {
        !self.done() && self.offset() + FRAME_HEADER_SIZE <= self.len()
    }

    /// Starts the repair of a file of `len` bytes.
    pub fn new(len: u64, raw_extension: bool) -> (r: Result<Self, Error>)
        ensures
            len == TICK_SIZE && raw_extension ==> r is Err && r->Err_0 == Error::LegacyFile,
            !(len == TICK_SIZE && raw_extension) ==> {
                &&& r is Ok
                &&& r->Ok_0.wf()
                &&& r->Ok_0.len() == len
                &&& r->Ok_0.offset() == 0
                &&& r->Ok_0.previous_end() is None
                &&& !r->Ok_0.done()
            },
    {
        if len == TICK_SIZE as u64 && raw_extension {
            return Err(Error::LegacyFile);
        }
        Ok(Recovery { len, offset: 0, previous_end: None, done: false })
    }

    /// Where the next header has to be read, if one is wanted.
    pub fn next_offset(&self) -> (r: Option<u64>)
        requires
            self.wf(),
        ensures
            self.wants() ==> r is Some && r->0 == self.offset(),
            !self.wants() ==> r is None,
    {
        if self.done || self.len - self.offset < FRAME_HEADER_SIZE as u64 {
            None
        } else {
            Some(self.offset)
        }
    }

    /// Takes in the header that was read.
    pub fn feed(&mut self, header: FrameHeader) -> (r: Result<(), Error>)
        requires
            old(self).wf(),
            old(self).wants(),
        ensures
            final(self).wf(),
            final(self).len() == old(self).len(),
            ({
                let valid = header_ok(header) && follows(header, old(self).previous_end());
                let end = frame_end(old(self).offset(), header);
                &&& !valid && old(self).offset() == 0 ==> {
                    &&& r is Err && r->Err_0 == Error::UnrecognizedFormat
                    &&& *final(self) == *old(self)
                }
                &&& valid || old(self).offset() != 0 ==> r is Ok
                &&& valid && end <= old(self).len() ==> {
                    &&& final(self).offset() == end
                    &&& final(self).previous_end() == Some(header.end_ts)
                    &&& !final(self).done()
                }
                &&& r is Ok && !(valid && end <= old(self).len()) ==> {
                    &&& final(self).offset() == old(self).offset()
                    &&& final(self).previous_end() == old(self).previous_end()
                    &&& final(self).done()
                }
            }),
    {
        let ordered: bool = match self.previous_end {
            Some(end) => header.start_ts >= end,
            None => true,
        };
        if validate_header(header).is_err() || !ordered {
            if self.offset == 0 {
                return Err(Error::UnrecognizedFormat);
            }
            self.done = true;
            return Ok(());
        }
        let room: u64 = self.len - self.offset - FRAME_HEADER_SIZE as u64;
        if header.comp_len as u64 > room {
            self.done = true;
            return Ok(());
        }
        self.offset = self.offset + FRAME_HEADER_SIZE as u64 + header.comp_len as u64;
        self.previous_end = Some(header.end_ts);
        Ok(())
    }

    /// How much of the file consists of whole frames.
    pub fn finish(&self) -> (r: u64)
        ensures
            r == self.offset(),
    {
        self.offset
    }
}

/// The index entry of a frame that starts at `offset`.
pub open spec fn entry_for(offset: int, header: FrameHeader) -> FrameIndexEntry {
    FrameIndexEntry {
        offset: offset as u64,
        payload_offset: (offset + FRAME_HEADER_SIZE) as u64,
        header,
    }
}

/// Where an indexed frame ends.
pub open spec fn entry_end(entry: FrameIndexEntry) -> int {
    entry.payload_offset + entry.header.comp_len
}

/// What indexing makes of a header at `offset` of a file of `len` bytes: the
/// frame's entry; nothing, if the file ends inside the frame; or an error.
pub open spec fn index_step(
    len: int,
    offset: int,
    previous_end: Option<u64>,
    header: FrameHeader,
) -> Result<Option<FrameIndexEntry>, Error> {
    if !header_ok(header) {
        Err(Error::InvalidFrameHeader)
    } else if !follows(header, previous_end) {
        Err(Error::UnorderedFrames)
    } else if frame_end(offset, header) > u64::MAX {
        Err(Error::FrameLengthOverflow)
    } else if frame_end(offset, header) > len {
        Ok(None)
    } else {
        Ok(Some(entry_for(offset, header)))
    }
}

/// The entries of the frames of a file from `offset` on.
pub open spec fn scanned(bytes: Seq<u8>, offset: int, previous_end: Option<u64>) -> Result<
    Seq<FrameIndexEntry>,
    Error,
>
    decreases bytes.len() - offset,
{
    if offset < 0 || offset + FRAME_HEADER_SIZE > bytes.len() {
        Ok(Seq::empty())
    } else {
        let header = header_at(bytes, offset);
        match index_step(bytes.len() as int, offset, previous_end, header) {
            Err(e) => Err(e),
            Ok(None) => Ok(Seq::empty()),
            Ok(Some(entry)) => match scanned(
                bytes,
                frame_end(offset, header),
                Some(header.end_ts),
            ) {
                Err(e) => Err(e),
                Ok(rest) => Ok(seq![entry] + rest),
            },
        }
    }
}

/// Each frame stands right behind the one ahead of it.
pub open spec fn linked(index: Seq<FrameIndexEntry>, i: int) -> bool {
    index[i].offset == (if i == 0 {
        0
    } else {
        entry_end(index[i - 1])
    })
}

/// Where the indexed frames end.
pub open spec fn index_end(index: Seq<FrameIndexEntry>) -> int {
    if index.len() == 0 {
        0
    } else {
        entry_end(index.last())
    }
}

/// When the last indexed frame ends.
pub open spec fn index_tail(index: Seq<FrameIndexEntry>) -> Option<u64> {
    if index.len() == 0 {
        None
    } else {
        Some(index.last().header.end_ts)
    }
}

/// An index of whole frames that fill a file from its start, in time order.
pub open spec fn index_wf(index: Seq<FrameIndexEntry>) -> bool {
    &&& forall|i: int| 0 <= i < index.len() ==> #[trigger] linked(index, i)
    &&& forall|i: int|
        0 <= i < index.len() ==> {
            &&& header_ok((#[trigger] index[i]).header)
            &&& index[i].payload_offset == index[i].offset + FRAME_HEADER_SIZE
            &&& entry_end(index[i]) <= u64::MAX
        }
    &&& forall|i: int, j: int|
        0 <= i < j < index.len() ==> (#[trigger] index[i]).header.end_ts <= (
        #[trigger] index[j]).header.start_ts
}

/// An index stays sound when a frame is added behind its last.
pub proof fn lemma_index_grows(index: Seq<FrameIndexEntry>, header: FrameHeader)
    requires
        index_wf(index),
        header_ok(header),
        follows(header, index_tail(index)),
        frame_end(index_end(index), header) <= u64::MAX,
    ensures
        index_wf(index.push(entry_for(index_end(index), header))),
        index_end(index.push(entry_for(index_end(index), header))) == frame_end(
            index_end(index),
            header,
        ),
        index_tail(index.push(entry_for(index_end(index), header))) == Some(header.end_ts),
{
    let entry = entry_for(index_end(index), header);
    let longer = index.push(entry);
    let n = index.len() as int;
    assert forall|i: int| 0 <= i < longer.len() implies #[trigger] linked(longer, i) by {
        if i < n {
            assert(linked(index, i));
        }
    }
    assert forall|i: int, j: int| 0 <= i < j < longer.len() implies (
    #[trigger] longer[i]).header.end_ts <= (#[trigger] longer[j]).header.start_ts by {
        if j == n {
            if i < n - 1 {
                assert(index[i].header.end_ts <= index[n - 1].header.start_ts);
            }
            assert(header_ok(index[n - 1].header));
        }
    }
}

/// An index under construction: the frames of a file that were found so far.
pub struct FrameScan {
    len: u64,
    done: bool,
    entries: Vec<FrameIndexEntry>,
}

impl FrameScan {
    /// The length of the file.
    pub closed spec fn len(self) -> int {
        self.len as int
    }

    /// The file was found to end inside a frame.
    pub closed spec fn done(self) -> bool {
        self.done
    }

    /// The frames found so far.
    pub closed spec fn entries(self) -> Seq<FrameIndexEntry> {
        self.entries@
    }

    pub open spec fn wf(self) -> bool {
        &&& index_wf(self.entries())
        &&& index_end(self.entries()) <= self.len()
    }

    /// Another header has to be read.
    pub open spec fn wants(self) -> bool {
        !self.done() && index_end(self.entries()) + FRAME_HEADER_SIZE <= self.len()
    }

    /// Starts an index of a file of `len` bytes.
    pub fn new(len: u64) -> (r: Self)
        ensures
            r.wf(),
            r.len() == len,
            !r.done(),
            r.entries() == Seq::<FrameIndexEntry>::empty(),
    {
        FrameScan { len, done: false, entries: Vec::new() }
    }

    /// Where the next header has to be read, if one is wanted.
    pub fn next_offset(&self) -> (r: Option<u64>)
        requires
            self.wf(),
        ensures
            self.wants() ==> r is Some && r->0 == index_end(self.entries()),
            !self.wants() ==> r is None,
    {
        let offset: u64 = end_of_index(&self.entries);
        if self.done || self.len - offset < FRAME_HEADER_SIZE as u64 {
            None
        } else {
            Some(offset)
        }
    }

    /// Takes in the header that was read.
    pub fn feed(&mut self, header: FrameHeader) -> (r: Result<(), Error>)
        requires
            old(self).wf(),
            old(self).wants(),
        ensures
            final(self).wf(),
            final(self).len() == old(self).len(),
            match index_step(
                old(self).len(),
                index_end(old(self).entries()),
                index_tail(old(self).entries()),
                header,
            ) {
                Err(e) => r == Err::<(), Error>(e) && *final(self) == *old(self),
                Ok(None) => {
                    &&& r is Ok
                    &&& final(self).done()
                    &&& final(self).entries() == old(self).entries()
                },
                Ok(Some(entry)) => {
                    &&& r is Ok
                    &&& !final(self).done()
                    &&& final(self).entries() == old(self).entries().push(entry)
                },
            },
    {
        let offset: u64 = end_of_index(&self.entries);
        validate_header(header)?;
        let ordered: bool = match tail_of_index(&self.entries) {
            Some(end) => header.start_ts >= end,
            None => true,
        };
        if !ordered {
            return Err(Error::UnorderedFrames);
        }
        let payload_offset: u64 = offset + FRAME_HEADER_SIZE as u64;
        let end: u64 = match payload_offset.checked_add(header.comp_len as u64) {
            Some(end) => end,
            None => {
                return Err(Error::FrameLengthOverflow);
            },
        };
        if end > self.len {
            self.done = true;
            return Ok(());
        }
        proof {
            lemma_index_grows(self.entries@, header);
        }
        self.entries.push(FrameIndexEntry { offset, payload_offset, header });
        Ok(())
    }

    /// The frames that were found.
    pub fn finish(self) -> (r: Vec<FrameIndexEntry>)
        requires
            self.wf(),
        ensures
            r@ == self.entries(),
            index_wf(r@),
    {
        self.entries
    }
}

/// Where the indexed frames end, which is where the next one goes.
pub fn end_of_index(index: &Vec<FrameIndexEntry>) -> (r: u64)
    requires
        index_wf(index@),
    ensures
        r == index_end(index@),
{
    if index.len() == 0 {
        0
    } else {
        let last = index[index.len() - 1];
        last.payload_offset + last.header.comp_len as u64
    }
}

/// When the last indexed frame ends.
pub fn tail_of_index(index: &Vec<FrameIndexEntry>) -> (r: Option<u64>)
    ensures
        r == index_tail(index@),
{
    if index.len() == 0 {
        None
    } else {
        Some(index[index.len() - 1].header.end_ts)
    }
}

/// The entries that a scan of `bytes` has still to find.
spec fn ahead(bytes: Seq<u8>, scan: FrameScan) -> Result<Seq<FrameIndexEntry>, Error> {
    if scan.done() {
        Ok(Seq::empty())
    } else {
        scanned(bytes, index_end(scan.entries()), index_tail(scan.entries()))
    }
}

/// Indexes the frames of a file whose contents are `bytes`.
pub fn scan_frame_index(bytes: &[u8]) -> (r: Result<Vec<FrameIndexEntry>, Error>)
    ensures
        match scanned(bytes@, 0, None) {
            Ok(entries) => r is Ok && r->Ok_0@ == entries && index_wf(entries),
            Err(e) => r is Err && r->Err_0 == e,
        },
{
    let mut scan = FrameScan::new(bytes.len() as u64);
    let ghost whole = scanned(bytes@, 0, None);
    assert(whole matches Ok(entries) ==> scan.entries() + entries =~= entries);
    loop
        invariant
            scan.wf(),
            scan.len() == bytes.len(),
            whole == scanned(bytes@, 0, None),
            match (whole, ahead(bytes@, scan)) {
                (Ok(entries), Ok(rest)) => entries == scan.entries() + rest,
                (Err(e), Err(f)) => e == f,
                _ => false,
            },
        ensures
            !scan.wants(),
        decreases
                bytes.len() - index_end(scan.entries()),
                (if scan.done() {
                    0int
                } else {
                    1int
                }),
    {
        let offset: u64 = match scan.next_offset() {
            Some(offset) => offset,
            None => {
                break ;
            },
        };
        let header = FrameHeader::read_at(bytes, offset as usize);
        let ghost before = scan.entries();
        scan.feed(header)?;
        proof {
            if !scan.done() {
                let end = frame_end(offset as int, header);
                lemma_index_grows(before, header);
                match scanned(bytes@, end, Some(header.end_ts)) {
                    Ok(rest) => {
                        assert(before + (seq![scan.entries().last()] + rest) =~= scan.entries()
                            + rest);
                    },
                    Err(_) => {},
                }
            } else {
                assert(before + Seq::<FrameIndexEntry>::empty() =~= before);
            }
        }
    }
    let found = scan.finish();
    assert(whole matches Ok(entries) ==> entries =~= found@);
    Ok(found)
}

/// The entries of the whole frames in `bytes` from `offset` on, if `bytes` is appended to
/// a file of `base` bytes.
pub open spec fn entries_from(bytes: Seq<u8>, offset: int, base: int) -> Seq<FrameIndexEntry>
    decreases bytes.len() - offset,
{
    if offset < 0 || offset + FRAME_HEADER_SIZE > bytes.len() || frame_end(
        offset,
        header_at(bytes, offset),
    ) > bytes.len() {
        Seq::empty()
    } else {
        let header = header_at(bytes, offset);
        seq![entry_for(base + offset, header)] + entries_from(
            bytes,
            frame_end(offset, header),
            base,
        )
    }
}

/// Adds to an index the frames that were appended to its file.
pub fn extend_index(index: &mut Vec<FrameIndexEntry>, bytes: &[u8])
    requires
        index_wf(old(index)@),
        walk(bytes@, 0, index_tail(old(index)@)).0 == bytes@.len(),
        index_end(old(index)@) + bytes@.len() <= u64::MAX,
    ensures
        index_wf(final(index)@),
        final(index)@ == old(index)@ + entries_from(bytes@, 0, index_end(old(index)@)),
        index_end(final(index)@) == index_end(old(index)@) + bytes@.len(),
        index_tail(final(index)@) == walk(bytes@, 0, index_tail(old(index)@)).1,
{
    let ghost before = index@;
    let ghost goal = walk(bytes@, 0, index_tail(index@));
    let base: u64 = end_of_index(index);
    let mut offset: usize = 0;
    while offset < bytes.len()
        invariant
            offset <= bytes.len(),
            index_wf(index@),
            base == index_end(before),
            base + bytes@.len() <= u64::MAX,
            index_end(index@) == base + offset,
            walk(bytes@, offset as int, index_tail(index@)) == goal,
            goal.0 == bytes@.len(),
            index@ + entries_from(bytes@, offset as int, base as int) == before + entries_from(
                bytes@,
                0,
                base as int,
            ),
        decreases bytes.len() - offset,
    {
        assert(frame_at(bytes@, offset as int, index_tail(index@)));
        let header = FrameHeader::read_at(bytes, offset);
        let entry = FrameIndexEntry {
            offset: base + offset as u64,
            payload_offset: base + offset as u64 + FRAME_HEADER_SIZE as u64,
            header,
        };
        let ghost sofar = index@;
        proof {
            lemma_index_grows(index@, header);
        }
        index.push(entry);
        proof {
            let rest = entries_from(bytes@, frame_end(offset as int, header), base as int);
            assert(index@ + rest =~= sofar + (seq![entry] + rest));
        }
        offset = offset + FRAME_HEADER_SIZE + header.comp_len as usize;
    }
    assert(index@ =~= before + entries_from(bytes@, 0, base as int));
}

/// How far a read of a range of a file has come, where each attempt may bring less
/// than was asked for.
pub struct ReadProgress {
    offset: u64,
    done: usize,
    len: usize,
}

impl ReadProgress {
    /// Where in the file the rest starts.
    pub closed spec fn offset(self) -> int {
        self.offset as int
    }

    /// How many bytes have come.
    pub closed spec fn done(self) -> int {
        self.done as int
    }

    /// How many bytes are to come in all.
    pub closed spec fn len(self) -> int {
        self.len as int
    }

    /// No more has come than was asked for, and the range lies inside a file.
    pub open spec fn wf(self) -> bool {
        self.done() <= self.len() && self.offset() + (self.len() - self.done()) <= u64::MAX
    }

    /// A read of which nothing has come.
    pub fn new(offset: u64, len: usize) -> (r: Self)
        requires
            offset + len <= u64::MAX,
        ensures
            r.wf(),
            r.offset() == offset,
            r.done() == 0,
            r.len() == len,
    {
        ReadProgress { offset, done: 0, len }
    }

    /// Where to go on reading, and how much has come; nothing if all has come.
    pub fn next(&self) -> (r: Option<(u64, usize)>)
        requires
            self.wf(),
        ensures
            match r {
                Some(at) => {
                    &&& at.0 == self.offset()
                    &&& at.1 == self.done()
                    &&& self.done() < self.len()
                },
                None => self.done() == self.len(),
            },
    {
        if self.done < self.len {
            Some((self.offset, self.done))
        } else {
            None
        }
    }

    /// Takes note of `n` more bytes. If none came, the file has ended.
    pub fn advance(&mut self, n: usize) -> (r: Result<(), Error>)
        requires
            old(self).wf(),
            old(self).done() + n <= old(self).len(),
        ensures
            final(self).wf(),
            final(self).len() == old(self).len(),
            final(self).done() == old(self).done() + n,
            final(self).offset() == old(self).offset() + n,
            r == (if n == 0 {
                Err::<(), Error>(Error::EndOfFile)
            } else {
                Ok(())
            }),
    {
        if n == 0 {
            return Err(Error::EndOfFile);
        }
        self.done = self.done + n;
        self.offset = self.offset + n as u64;
        Ok(())
    }
}

/// A directory and a name in it as one path, as Unix joins them: a name that
/// starts at the root stands alone, and no second separator is added.
pub open spec fn joined(dir: Seq<char>, name: Seq<char>) -> Seq<char> {
    if name.len() > 0 && name[0] == '/' {
        name
    } else if dir.len() > 0 && dir.last() != '/' {
        dir.push('/') + name
    } else {
        dir + name
    }
}

/// Joins a directory and a name in it.
pub fn join_path(dir: &str, name: &str) -> (r: String)
    ensures
        r@ == joined(dir@, name@),
{
    let dir_chars = chars_of(dir);
    let name_chars = chars_of(name);
    let mut r = String::new();
    if name_chars.len() > 0 && name_chars[0] == '/' {
        r.append(name);
        assert(r@ =~= name@);
        return r;
    }
    r.append(dir);
    if dir_chars.len() > 0 && dir_chars[dir_chars.len() - 1] != '/' {
        r.push('/');
    }
    r.append(name);
    assert(r@ =~= joined(dir@, name@));
    r
}

/// The path of the partition file of a symbol in ASCII.
pub open spec fn partition_path(dir: Seq<char>, symbol: Seq<u8>) -> Seq<char> {
    joined(dir, ascii_text(symbol_name(symbol)) + ".gts"@)
}

/// What stands ahead of the names of the files in a directory.
pub open spec fn inside(dir: Seq<char>) -> Seq<char> {
    if dir.len() > 0 && dir.last() != '/' {
        dir.push('/')
    } else {
        dir
    }
}

/// Symbols that were accepted as such have files of their own, and every file lies
/// in the data directory, not further down.
pub proof fn law_partition_files(
    dir: Seq<char>,
    a: Seq<u8>,
    b: Seq<u8>,
    raw_a: Seq<u8>,
    raw_b: Seq<u8>,
)
    requires
        sanitized(raw_a) == Ok::<Seq<u8>, Seq<char>>(a),
        sanitized(raw_b) == Ok::<Seq<u8>, Seq<char>>(b),
    ensures
        partition_path(dir, a) == partition_path(dir, b) <==> a == b,
        dir.is_prefix_of(partition_path(dir, a)),
        inside(dir).is_prefix_of(partition_path(dir, a)),
        forall|i: int|
            inside(dir).len() <= i < partition_path(dir, a).len() ==> partition_path(dir, a)[i]
                != '/',
{
    reveal_strlit(".gts");
    law_symbols_are_normal(raw_a, a);
    law_symbols_are_normal(raw_b, b);
    lemma_symbol_name(a);
    lemma_symbol_name(b);
    let x = ascii_text(symbol_name(a)) + ".gts"@;
    let y = ascii_text(symbol_name(b)) + ".gts"@;
    let prefix = inside(dir);
    assert(partition_path(dir, a) == prefix + x);
    assert(partition_path(dir, b) == prefix + y);
    assert((prefix + x).take(dir.len() as int) =~= dir);
    assert((prefix + x).take(prefix.len() as int) =~= prefix);
    assert forall|i: int| 0 <= i < x.len() implies x[i] != '/' by {
        if i < symbol_name(a).len() {
            assert(symbol_name(a)[i] != 47);
        }
    }
    if prefix + x == prefix + y {
        let n = prefix.len() as int;
        assert((prefix + x).skip(n) =~= x);
        assert((prefix + y).skip(n) =~= y);
        let m = symbol_name(a).len() as int;
        assert(symbol_name(b).len() == m);
        assert forall|i: int| 0 <= i < 8 implies a[i] == b[i] by {
            if i < m {
                assert(x[i] == y[i]);
                assert(symbol_name(a)[i] as char == symbol_name(b)[i] as char);
            }
        }
        assert(a =~= b);
    }
}

/// A batch that waits to be stored.
#[derive(Debug)]
pub struct IngestBatchTask {
    pub symbol: [u8; 8],
    /// Raw ticks, one after the other.
    pub payload: Vec<u8>,
}

/// The partitions of a store: which symbols have one, and the frame indices that
/// are loaded.
pub struct StorageEngine {
    data_dir: String,
    symbols: Vec<[u8; 8]>,
    indices: Vec<Option<Vec<FrameIndexEntry>>>,
}

impl StorageEngine {
    /// The directory of the partition files.
    pub closed spec fn data_dir(self) -> Seq<char> {
        self.data_dir@
    }

    /// The symbols that have a partition, in the order of their first use. A
    /// symbol's position here is its partition's number.
    pub closed spec fn partitions(self) -> Seq<Seq<u8>> {
        Seq::new(self.symbols@.len(), |i: int| self.symbols@[i]@)
    }

    /// The frame index of each partition, where it is loaded.
    pub closed spec fn indices(self) -> Seq<Option<Seq<FrameIndexEntry>>> {
        Seq::new(
            self.indices@.len(),
            |i: int|
                match self.indices@[i] {
                    Some(index) => Some(index@),
                    None => None,
                },
        )
    }

    /// Each partition has its own symbol, and every loaded index is sound.
    pub open spec fn wf(self) -> bool {
        &&& self.indices().len() == self.partitions().len()
        &&& forall|i: int, j: int|
            0 <= i < j < self.partitions().len() ==> self.partitions()[i] != self.partitions()[j]
        &&& forall|i: int|
            0 <= i < self.indices().len() ==> (#[trigger] self.indices()[i] matches Some(index)
                ==> index_wf(index))
    }

    /// A partition number that is in use, with its index loaded.
    pub open spec fn loaded(self, slot: int) -> bool {
        0 <= slot < self.indices().len() && self.indices()[slot] is Some
    }

    /// A store without partitions.
    pub fn new(data_dir: &str) -> (engine: Self)
        ensures
            engine.wf(),
            engine.data_dir() == data_dir@,
            engine.partitions() == Seq::<Seq<u8>>::empty(),
            engine.indices() == Seq::<Option<Seq<FrameIndexEntry>>>::empty(),
    {
        let mut dir = String::new();
        dir.append(data_dir);
        let engine = StorageEngine { data_dir: dir, symbols: Vec::new(), indices: Vec::new() };
        assert(engine.data_dir() =~= data_dir@);
        assert(engine.partitions() =~= Seq::<Seq<u8>>::empty());
        assert(engine.indices() =~= Seq::<Option<Seq<FrameIndexEntry>>>::empty());
        engine
    }

    /// The number of a symbol's partition, if it has one.
    fn find(&self, symbol: &[u8; 8]) -> (r: Option<usize>)
        ensures
            match r {
                Some(slot) => slot < self.partitions().len() && self.partitions()[slot as int]
                    == symbol@,
                None => !self.partitions().contains(symbol@),
            },
    {
        let mut i: usize = 0;
        while i < self.symbols.len()
            invariant
                i <= self.symbols@.len(),
                forall|k: int| 0 <= k < i ==> self.partitions()[k] != symbol@,
            decreases self.symbols@.len() - i,
        {
            let mut same: bool = true;
            let mut k: usize = 0;
            while k < 8
                invariant
                    k <= 8,
                    i < self.symbols@.len(),
                    same == (forall|m: int| 0 <= m < k ==> self.symbols@[i as int]@[m] == symbol@[m]),
                decreases 8 - k,
            {
                if self.symbols[i][k] != symbol[k] {
                    same = false;
                }
                k += 1;
            }
            if same {
                assert(self.symbols@[i as int]@ =~= symbol@);
                return Some(i);
            }
            i += 1;
        }
        None
    }

    /// The number of a symbol's partition. Whatever guards the partition goes by
    /// this number: one symbol always has the same, two symbols never share one.
    pub fn partition_lock(&mut self, symbol: &[u8; 8]) -> (slot: usize)
        requires
            old(self).wf(),
        ensures
            final(self).wf(),
            final(self).data_dir() == old(self).data_dir(),
            slot < final(self).partitions().len(),
            final(self).partitions()[slot as int] == symbol@,
            old(self).partitions().contains(symbol@) ==> final(self).partitions() == old(
                self
            ).partitions() && final(self).indices() == old(self).indices(),
            !old(self).partitions().contains(symbol@) ==> final(self).partitions() == old(
                self
            ).partitions().push(symbol@) && final(self).indices() == old(self).indices().push(None),
    {
        match self.find(symbol) {
            Some(slot) => slot,
            None => {
                let slot: usize = self.symbols.len();
                self.symbols.push(*symbol);
                self.indices.push(None);
                proof {
                    assert(self.partitions() =~= old(self).partitions().push(symbol@));
                    assert(self.indices() =~= old(self).indices().push(None));
                }
                slot
            },
        }
    }

    /// The path of a symbol's partition file.
    pub fn get_file_path(&self, symbol: &[u8; 8]) -> (r: String)
        ensures
            r@ == joined(self.data_dir(), utf8_lossy(symbol_name(symbol@)) + ".gts"@),
            (forall|i: int| 0 <= i < text_len(symbol@) ==> symbol@[i] < 128) ==> r@
                == partition_path(self.data_dir(), symbol@),
    {
        let mut name = symbol_to_string(symbol);
        name.append(".gts");
        join_path(self.data_dir.as_str(), name.as_str())
    }

    /// Whether the frame index of a symbol's partition is loaded.
    pub fn has_frame_index(&self, symbol: &[u8; 8]) -> (r: bool)
        requires
            self.wf(),
        ensures
            r <==> exists|slot: int|
                #[trigger] self.loaded(slot) && self.partitions()[slot] == symbol@,
    {
        match self.find(symbol) {
            Some(slot) => {
                let r = self.indices[slot].is_some();
                assert(r ==> self.loaded(slot as int));
                r
            },
            None => false,
        }
    }

    /// The number of a symbol's partition, with the frame index loaded. An index
    /// that is loaded already stays; else the one found on disk is taken, or an
    /// empty one if there is none.
    pub fn get_frame_index(
        &mut self,
        symbol: &[u8; 8],
        on_disk: Option<Vec<FrameIndexEntry>>,
    ) -> (slot: usize)
        requires
            old(self).wf(),
            on_disk matches Some(index) ==> index_wf(index@),
        ensures
            final(self).wf(),
            final(self).data_dir() == old(self).data_dir(),
            final(self).loaded(slot as int),
            final(self).partitions()[slot as int] == symbol@,
            final(self).partitions() == (if old(self).partitions().contains(symbol@) {
                old(self).partitions()
            } else {
                old(self).partitions().push(symbol@)
            }),
            forall|i: int|
                0 <= i < old(self).indices().len() && i != slot ==> final(self).indices()[i] == old(
                    self
                ).indices()[i],
            final(self).indices()[slot as int]->0 == (if old(self).loaded(slot as int) {
                old(self).indices()[slot as int]->0
            } else {
                match on_disk {
                    Some(index) => index@,
                    None => Seq::<FrameIndexEntry>::empty(),
                }
            }),
    {
        let slot: usize = self.partition_lock(symbol);
        let ghost mid = self.indices();
        if self.indices[slot].is_none() {
            let index: Vec<FrameIndexEntry> = match on_disk {
                Some(index) => index,
                None => Vec::new(),
            };
            let ghost found = index@;
            self.indices.set(slot, Some(index));
            proof {
                assert(self.indices() =~= mid.update(slot as int, Some(found)));
            }
        }
        slot
    }

    /// The frame index of a partition.
    pub fn frames(&self, slot: usize) -> (r: &Vec<FrameIndexEntry>)
        requires
            self.wf(),
            self.loaded(slot as int),
        ensures
            r@ == self.indices()[slot as int]->0,
            index_wf(r@),
    {
        assert(self.indices()[slot as int] is Some);
        self.indices[slot].as_ref().unwrap()
    }

    /// Decides whether a batch may be appended to a partition, and where it goes: it
    /// must not start before the last stored frame ends.
    pub fn accept_batch(&self, slot: usize, batch: &EncodedBatch) -> (r: Result<u64, Error>)
        requires
            self.wf(),
            self.loaded(slot as int),
        ensures
            match index_tail(self.indices()[slot as int]->0) {
                Some(tail) if batch.first_ts < tail => r is Err && r->Err_0
                    == Error::BatchPrecedesTail,
                _ => r is Ok && r->Ok_0 == index_end(self.indices()[slot as int]->0),
            },
    {
        let index = self.frames(slot);
        if let Some(tail) = tail_of_index(index) {
            if batch.first_ts < tail {
                return Err(Error::BatchPrecedesTail);
            }
        }
        Ok(end_of_index(index))
    }

    /// Takes note of a batch that was appended to a partition's file.
    pub fn commit_batch(&mut self, slot: usize, bytes: &[u8])
        requires
            old(self).wf(),
            old(self).loaded(slot as int),
            walk(bytes@, 0, index_tail(old(self).indices()[slot as int]->0)).0 == bytes@.len(),
            index_end(old(self).indices()[slot as int]->0) + bytes@.len() <= u64::MAX,
        ensures
            final(self).wf(),
            final(self).data_dir() == old(self).data_dir(),
            final(self).partitions() == old(self).partitions(),
            ({
                let index = old(self).indices()[slot as int]->0;
                let longer = index + entries_from(bytes@, 0, index_end(index));
                &&& final(self).indices() == old(self).indices().update(slot as int, Some(longer))
                &&& index_end(longer) == index_end(index) + bytes@.len()
                &&& index_tail(longer) == walk(bytes@, 0, index_tail(index)).1
            }),
    {
        assert(self.indices()[slot as int] is Some);
        let mut index: Vec<FrameIndexEntry> = Vec::new();
        let mut current: Option<Vec<FrameIndexEntry>> = None;
        std::mem::swap(&mut current, &mut self.indices[slot]);
        if let Some(found) = current {
            index = found;
        }
        extend_index(&mut index, bytes);
        let ghost longer = index@;
        self.indices.set(slot, Some(index));
        proof {
            assert(self.partitions() =~= old(self).partitions());
            assert(self.indices() =~= old(self).indices().update(slot as int, Some(longer)));
        }
    }

    /// Drops a partition's index, so that the next use loads it from disk.
    pub fn forget_index(&mut self, slot: usize)
        requires
            old(self).wf(),
            slot < old(self).indices().len(),
        ensures
            final(self).wf(),
            final(self).data_dir() == old(self).data_dir(),
            final(self).partitions() == old(self).partitions(),
            final(self).indices() == old(self).indices().update(slot as int, None),
    {
        self.indices.set(slot, None);
        proof {
            assert(self.partitions() =~= old(self).partitions());
            assert(self.indices() =~= old(self).indices().update(slot as int, None));
        }
    }

    /// Finds how much of a file whose contents are `bytes` consists of whole
    /// frames; the rest is to be cut off.
    pub fn recover_file(bytes: &[u8], raw_extension: bool) -> (r: Result<u64, Error>)
        ensures
            match recovered(bytes@, raw_extension) {
                Ok(len) => r is Ok && r->Ok_0 == len,
                Err(e) => r is Err && r->Err_0 == e,
            },
    {
        let mut repair = Recovery::new(bytes.len() as u64, raw_extension)?;
        let ghost goal = walk(bytes@, 0, None);
        loop
            invariant
                repair.wf(),
                repair.len() == bytes.len(),
                goal == walk(bytes@, 0, None),
                !(bytes@.len() == TICK_SIZE && raw_extension),
                repair.done() ==> goal.0 == repair.offset(),
                !repair.done() ==> goal == walk(bytes@, repair.offset(), repair.previous_end()),
                repair.offset() == 0 ==> repair.previous_end() is None,
                repair.offset() > 0 || repair.done() ==> bytes@.len() >= FRAME_HEADER_SIZE
                    && header_ok(header_at(bytes@, 0)),
                0 <= repair.offset(),
            ensures
                !repair.wants(),
            decreases
                    bytes.len() - repair.offset(),
                    (if repair.done() {
                        0int
                    } else {
                        1int
                    }),
        {
            let offset: u64 = match repair.next_offset() {
                Some(offset) => offset,
                None => {
                    break ;
                },
            };
            let header = FrameHeader::read_at(bytes, offset as usize);
            repair.feed(header)?;
        }
        Ok(repair.finish())
    }
}

} // verus!
