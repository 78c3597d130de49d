//! What can go wrong in the store, and how each case is reported.
use vstd::prelude::*;

verus! {

/// The broad class of an error, as an I/O layer reports it.
#[derive(Debug, Clone, Copy, PartialEq, Eq, Structural)]
pub enum ErrorKind {
    /// The caller handed over something unusable.
    InvalidInput,
    /// Stored or received data is malformed.
    InvalidData,
    /// Data ended before a value was complete.
    UnexpectedEof,
}

/// An error of the store.
#[derive(Debug, Clone, Copy, PartialEq, Eq, Structural)]
pub enum Error {
    /// A frame header holds an impossible count, time span or payload length.
    InvalidFrameHeader,
    /// More than 64 bits were to be written at once.
    WriteTooWide,
    /// More than 64 bits were to be read at once.
    ReadTooWide,
    /// The bits ran out inside a value.
    EndOfBits,
    /// A frame holds more than one byte's worth of unused bits.
    TrailingData,
    /// The unused bits at the end of a frame are not all zero.
    NonZeroPadding,
    /// A price refers to a bit window before any was set.
    MissingXorWindow,
    /// A price sets a bit window that is wider than a word.
    InvalidXorWindow,
    /// A tick is older than the tick before it.
    UnorderedTicks,
    /// A raw batch is empty or does not consist of whole records.
    PartialRecords,
    /// A payload has not the length that its header announces.
    PayloadLengthMismatch,
    /// A decoded time step is negative or does not fit in 64 bits.
    DeltaOverflow,
    /// A decoded timestamp does not fit in 64 bits.
    TimestampOverflow,
    /// The last decoded timestamp is not the one that the header announces.
    EndTimestampMismatch,
    /// A file looks like one uncompressed record.
    LegacyFile,
    /// A file does not start with a frame.
    UnrecognizedFormat,
    /// A frame starts before the frame ahead of it ends.
    UnorderedFrames,
    /// A frame would end past the largest file offset.
    FrameLengthOverflow,
    /// A batch starts before the end of what is stored.
    BatchPrecedesTail,
    /// A file ends ahead of bytes that its index announces.
    EndOfFile,
    /// A feed was asked to send no ticks per second.
    ZeroRate,
}

impl Error {
    /// The class that the error belongs to.
    pub open spec fn spec_kind(self) -> ErrorKind {
        match self {
            Error::WriteTooWide | Error::ReadTooWide | Error::UnorderedTicks
            | Error::PartialRecords | Error::BatchPrecedesTail
            | Error::ZeroRate => ErrorKind::InvalidInput,
            Error::EndOfBits | Error::PayloadLengthMismatch
            | Error::EndOfFile => ErrorKind::UnexpectedEof,
            _ => ErrorKind::InvalidData,
        }
    }

    /// The text that describes the error.
    pub open spec fn spec_message(self) -> Seq<char> {
        match self {
            Error::InvalidFrameHeader => "Invalid compressed frame header"@,
            Error::WriteTooWide => "Cannot write more than 64 bits"@,
            Error::ReadTooWide => "Cannot read more than 64 bits"@,
            Error::EndOfBits => "Compressed frame ended mid-value"@,
            Error::TrailingData => "Compressed frame has trailing data"@,
            Error::NonZeroPadding => "Compressed frame has non-zero padding"@,
            Error::MissingXorWindow => "Missing previous XOR window"@,
            Error::InvalidXorWindow => "Invalid XOR window"@,
            Error::UnorderedTicks => "Tick timestamps must be nondecreasing"@,
            Error::PartialRecords => "Raw tick batch must contain complete 16-byte records"@,
            Error::PayloadLengthMismatch => "Compressed frame payload length mismatch"@,
            Error::DeltaOverflow => "Decoded timestamp delta overflowed"@,
            Error::TimestampOverflow => "Decoded timestamp overflowed"@,
            Error::EndTimestampMismatch => "Compressed frame end timestamp mismatch"@,
            Error::LegacyFile => "Unrecognized 16-byte legacy raw-tick file; migration is required"@,
            Error::UnrecognizedFormat => "Unrecognized storage format; remove or migrate the legacy raw-tick file"@,
            Error::UnorderedFrames => "Frame timestamps are not ordered"@,
            Error::FrameLengthOverflow => "Compressed frame length overflowed"@,
            Error::BatchPrecedesTail => "Batch timestamps precede the existing partition tail"@,
            Error::EndOfFile => "Unexpected EOF during positional read"@,
            Error::ZeroRate => "target_tps must be greater than 0"@,
        }
    }

    /// The class that the error belongs to.
    pub fn kind(self) -> (kind: ErrorKind)
        ensures
            kind == self.spec_kind(),
    {
        match self {
            Error::WriteTooWide | Error::ReadTooWide | Error::UnorderedTicks
            | Error::PartialRecords | Error::BatchPrecedesTail
            | Error::ZeroRate => ErrorKind::InvalidInput,
            Error::EndOfBits | Error::PayloadLengthMismatch
            | Error::EndOfFile => ErrorKind::UnexpectedEof,
            _ => ErrorKind::InvalidData,
        }
    }

    /// The text that describes the error.
    pub fn message(self) -> (text: &'static str)
        ensures
            text@ == self.spec_message(),
    {
        match self {
            Error::InvalidFrameHeader => "Invalid compressed frame header",
            Error::WriteTooWide => "Cannot write more than 64 bits",
            Error::ReadTooWide => "Cannot read more than 64 bits",
            Error::EndOfBits => "Compressed frame ended mid-value",
            Error::TrailingData => "Compressed frame has trailing data",
            Error::NonZeroPadding => "Compressed frame has non-zero padding",
            Error::MissingXorWindow => "Missing previous XOR window",
            Error::InvalidXorWindow => "Invalid XOR window",
            Error::UnorderedTicks => "Tick timestamps must be nondecreasing",
            Error::PartialRecords => "Raw tick batch must contain complete 16-byte records",
            Error::PayloadLengthMismatch => "Compressed frame payload length mismatch",
            Error::DeltaOverflow => "Decoded timestamp delta overflowed",
            Error::TimestampOverflow => "Decoded timestamp overflowed",
            Error::EndTimestampMismatch => "Compressed frame end timestamp mismatch",
            Error::LegacyFile => "Unrecognized 16-byte legacy raw-tick file; migration is required",
            Error::UnrecognizedFormat => "Unrecognized storage format; remove or migrate the legacy raw-tick file",
            Error::UnorderedFrames => "Frame timestamps are not ordered",
            Error::FrameLengthOverflow => "Compressed frame length overflowed",
            Error::BatchPrecedesTail => "Batch timestamps precede the existing partition tail",
            Error::EndOfFile => "Unexpected EOF during positional read",
            Error::ZeroRate => "target_tps must be greater than 0",
        }
    }
}

/// What a caller handed over wrongly is told apart from data that ended too early, and
/// both from data that is malformed.
pub proof fn law_classes_of_errors(e: Error)
    ensures
        e.spec_kind() == ErrorKind::InvalidInput <==> {
            ||| e is WriteTooWide
            ||| e is ReadTooWide
            ||| e is UnorderedTicks
            ||| e is PartialRecords
            ||| e is BatchPrecedesTail
            ||| e is ZeroRate
        },
        e.spec_kind() == ErrorKind::UnexpectedEof <==> {
            ||| e is EndOfBits
            ||| e is PayloadLengthMismatch
            ||| e is EndOfFile
        },
{
}

/// No two errors are described by the same text.
pub proof fn law_messages_tell_errors_apart(a: Error, b: Error)
    requires
        a.spec_message() == b.spec_message(),
    ensures
        a == b,
{
    lemma_message(a);
    lemma_message(b);
}

/// The length of a message and one of its characters.
spec fn fingerprint(e: Error) -> (nat, char) {
    match e {
        Error::InvalidFrameHeader => (31, 'd'),
        Error::WriteTooWide => (30, ' '),
        Error::ReadTooWide => (29, 't'),
        Error::EndOfBits => (32, 'e'),
        Error::TrailingData => (34, 'h'),
        Error::NonZeroPadding => (37, 'h'),
        Error::MissingXorWindow => (27, 'X'),
        Error::InvalidXorWindow => (18, 'w'),
        Error::UnorderedTicks => (37, 'u'),
        Error::PartialRecords => (52, 's'),
        Error::PayloadLengthMismatch => (40, 'p'),
        Error::DeltaOverflow => (34, ' '),
        Error::TimestampOverflow => (28, ' '),
        Error::EndTimestampMismatch => (39, 'e'),
        Error::LegacyFile => (64, 'y'),
        Error::UnrecognizedFormat => (71, 'a'),
        Error::UnorderedFrames => (32, 'a'),
        Error::FrameLengthOverflow => (34, 'l'),
        Error::BatchPrecedesTail => (52, 'p'),
        Error::EndOfFile => (37, 'r'),
        Error::ZeroRate => (33, 'e'),
    }
}

proof fn lemma_message(e: Error)
    ensures
        (e.spec_message().len(), e.spec_message()[17]) == fingerprint(e),
{
    match e {
        Error::InvalidFrameHeader => {
            reveal_strlit("Invalid compressed frame header");
        },
        Error::WriteTooWide => {
            reveal_strlit("Cannot write more than 64 bits");
        },
        Error::ReadTooWide => {
            reveal_strlit("Cannot read more than 64 bits");
        },
        Error::EndOfBits => {
            reveal_strlit("Compressed frame ended mid-value");
        },
        Error::TrailingData => {
            reveal_strlit("Compressed frame has trailing data");
        },
        Error::NonZeroPadding => {
            reveal_strlit("Compressed frame has non-zero padding");
        },
        Error::MissingXorWindow => {
            reveal_strlit("Missing previous XOR window");
        },
        Error::InvalidXorWindow => {
            reveal_strlit("Invalid XOR window");
        },
        Error::UnorderedTicks => {
            reveal_strlit("Tick timestamps must be nondecreasing");
        },
        Error::PartialRecords => {
            reveal_strlit("Raw tick batch must contain complete 16-byte records");
        },
        Error::PayloadLengthMismatch => {
            reveal_strlit("Compressed frame payload length mismatch");
        },
        Error::DeltaOverflow => {
            reveal_strlit("Decoded timestamp delta overflowed");
        },
        Error::TimestampOverflow => {
            reveal_strlit("Decoded timestamp overflowed");
        },
        Error::EndTimestampMismatch => {
            reveal_strlit("Compressed frame end timestamp mismatch");
        },
        Error::LegacyFile => {
            reveal_strlit("Unrecognized 16-byte legacy raw-tick file; migration is required");
        },
        Error::UnrecognizedFormat => {
            reveal_strlit("Unrecognized storage format; remove or migrate the legacy raw-tick file");
        },
        Error::UnorderedFrames => {
            reveal_strlit("Frame timestamps are not ordered");
        },
        Error::FrameLengthOverflow => {
            reveal_strlit("Compressed frame length overflowed");
        },
        Error::BatchPrecedesTail => {
            reveal_strlit("Batch timestamps precede the existing partition tail");
        },
        Error::EndOfFile => {
            reveal_strlit("Unexpected EOF during positional read");
        },
        Error::ZeroRate => {
            reveal_strlit("target_tps must be greater than 0");
        },
    }
}

} // verus!
