//! Errors of DNS message handling.
use vstd::prelude::*;

verus! {

/// Why a DNS message was rejected.
#[derive(Debug, Clone, Copy, PartialEq, Eq, Structural)]
pub enum DnsError {
    /// The message ends too early.
    ShortPacket,
    /// The message is, or would grow, beyond 4096 bytes.
    LargePacket,
    /// The message does not hold exactly one question.
    NoQuestion,
    /// A compression pointer lacks its second byte.
    IncompleteOffset,
    /// A label length byte is 0x40 or more without being a pointer.
    LongLabel,
    /// A name runs past the end of the message.
    NameOutOfBounds,
    /// A name is longer than 256 bytes.
    NameTooLong,
    /// The data of a record runs past the end of the message.
    RecordTooLong,
    /// Bytes follow the last record.
    GarbageAfterPacket,
    /// ARCOUNT cannot grow further.
    TooManyAdditionalRecords,
    /// An OPT record would not fit within 4096 bytes.
    RecordWouldNotFit,
    /// The message holds two OPT records.
    DuplicateOpt,
    /// The OPT record's data length reaches past the message.
    EdnsOutOfRange,
    /// The OPT record's data cannot grow by the padding.
    EdnsTooLargeForPadding,
    /// The message is shorter than its header.
    PacketTooShort,
    /// A question lacks its type and class.
    IncompleteQuestion,
    /// A name reaches past the end of the message.
    NameBeyondPacket,
    /// A compression pointer lacks its second byte.
    IncompletePointer,
    /// A label reaches past the end of the message.
    LabelBeyondPacket,
    /// A record lacks its type, class, TTL or data length.
    IncompleteRecord,
    /// The data of a record reaches past the end of the message.
    RdataBeyondPacket,
}

/// The text of an error.
pub open spec fn dns_error_text(e: DnsError) -> Seq<char> {
    match e {
        DnsError::ShortPacket => "Short packet"@,
        DnsError::LargePacket => "Large packet"@,
        DnsError::NoQuestion => "No question"@,
        DnsError::IncompleteOffset => "Incomplete offset"@,
        DnsError::LongLabel => "Long label"@,
        DnsError::NameOutOfBounds => "Malformed packet with an out-of-bounds name"@,
        DnsError::NameTooLong => "Name too long"@,
        DnsError::RecordTooLong => "Record length would exceed packet length"@,
        DnsError::GarbageAfterPacket => "Garbage after packet"@,
        DnsError::TooManyAdditionalRecords => "Too many additional records"@,
        DnsError::RecordWouldNotFit => "Packet would be too large to add a new record"@,
        DnsError::DuplicateOpt => "Duplicate OPT RR found"@,
        DnsError::EdnsOutOfRange => "Out of range EDNS size"@,
        DnsError::EdnsTooLargeForPadding => "EDNS section too large for padding"@,
        DnsError::PacketTooShort => "DNS packet too short"@,
        DnsError::IncompleteQuestion => "Incomplete question"@,
        DnsError::NameBeyondPacket => "Name extends beyond packet"@,
        DnsError::IncompletePointer => "Incomplete compression pointer"@,
        DnsError::LabelBeyondPacket => "Label extends beyond packet"@,
        DnsError::IncompleteRecord => "Incomplete resource record"@,
        DnsError::RdataBeyondPacket => "Resource data extends beyond packet"@,
    }
}

impl DnsError {
    /// The text of the error.
    pub fn message(&self) -> (r: &'static str)
        ensures
            r@ == dns_error_text(*self),
    {
        match self {
            DnsError::ShortPacket => "Short packet",
            DnsError::LargePacket => "Large packet",
            DnsError::NoQuestion => "No question",
            DnsError::IncompleteOffset => "Incomplete offset",
            DnsError::LongLabel => "Long label",
            DnsError::NameOutOfBounds => "Malformed packet with an out-of-bounds name",
            DnsError::NameTooLong => "Name too long",
            DnsError::RecordTooLong => "Record length would exceed packet length",
            DnsError::GarbageAfterPacket => "Garbage after packet",
            DnsError::TooManyAdditionalRecords => "Too many additional records",
            DnsError::RecordWouldNotFit => "Packet would be too large to add a new record",
            DnsError::DuplicateOpt => "Duplicate OPT RR found",
            DnsError::EdnsOutOfRange => "Out of range EDNS size",
            DnsError::EdnsTooLargeForPadding => "EDNS section too large for padding",
            DnsError::PacketTooShort => "DNS packet too short",
            DnsError::IncompleteQuestion => "Incomplete question",
            DnsError::NameBeyondPacket => "Name extends beyond packet",
            DnsError::IncompletePointer => "Incomplete compression pointer",
            DnsError::LabelBeyondPacket => "Label extends beyond packet",
            DnsError::IncompleteRecord => "Incomplete resource record",
            DnsError::RdataBeyondPacket => "Resource data extends beyond packet",
        }
    }
}

} // verus!
