use vstd::prelude::*;

verus! {

/// Why a message could not be encoded or decoded.
///
/// Decode errors carry the offset in the input at which the problem was met.
#[derive(Debug, Clone, Copy, PartialEq, Eq, Structural)]
pub enum CodecError {
    /// Fewer than twelve octets: no room for the header.
    TruncatedHeader { length: usize },
    /// The four octets of type and class after a question's name are missing.
    TruncatedQuestion { offset: usize },
    /// The ten fixed octets after a record's name are missing.
    TruncatedRecordHeader { offset: usize },
    /// The record data runs past the end of the buffer.
    TruncatedRData { offset: usize, rdlength: u16 },
    /// The buffer ended while entries or the octets of a name were still due.
    IncompleteMessage { offset: usize },
    /// A label runs past the end of the buffer or is not UTF-8 text.
    InvalidLabel { offset: usize },
    /// A length octet whose top two bits are `01` or `10`.
    InvalidLabelLength { offset: usize },
    /// A decoded name longer than 255 octets on the wire.
    NameTooLong { offset: usize },
    /// A compression pointer that does not jump strictly below every offset
    /// already visited while reading the name, or a read after a jump that
    /// would reach the part already visited.
    CompressionLoop { offset: usize },
    /// A compression pointer whose target lies outside the message.
    InvalidPointer { offset: usize },
    /// A response code outside the supported set.
    UnknownResponseCode { rcode: u8 },
    /// Encoding: a label of zero octets or of more than 63.
    LabelNotEncodable,
    /// Encoding: a name longer than 255 octets on the wire.
    NameNotEncodable,
    /// Encoding: record data longer than 65535 octets.
    RDataNotEncodable,
    /// Encoding: a section with more than 65535 entries.
    SectionNotEncodable,
}

impl CodecError {
    /// The error says the buffer ended before the structure being read.
    pub open spec fn is_truncation(self) -> bool {
        ||| self is TruncatedHeader
        ||| self is TruncatedQuestion
        ||| self is TruncatedRecordHeader
        ||| self is TruncatedRData
        ||| self is IncompleteMessage
    }
}

} // verus!
