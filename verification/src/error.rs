use vstd::prelude::*;
use vstd::string::StringExecFns;

verus! {

/// Why a decode or an encode call gave up.
#[derive(Debug, Clone, Copy, PartialEq, Eq, Hash, Structural)]
pub enum DnsError {
    /// A read or a write would have moved past the end of the buffer.
    BufferOverrun,
    /// A name followed more compression pointers than the limit allows.
    CompressionLoop,
    /// A label of a name to encode is longer than 63 bytes.
    LabelTooLong,
}

impl DnsError {
    /// A short text for the error, for callers that print it.
    pub fn message(&self) -> (text: String)
        ensures
            text@ == match *self {
                DnsError::BufferOverrun => "End of buffer"@,
                DnsError::CompressionLoop => "Limit of 5 jumps exceeded"@,
                DnsError::LabelTooLong => "Label exceeds 63 character limit"@,
            },
    {
        match self {
            DnsError::BufferOverrun => String::from_str("End of buffer"),
            DnsError::CompressionLoop => String::from_str("Limit of 5 jumps exceeded"),
            DnsError::LabelTooLong => String::from_str("Label exceeds 63 character limit"),
        }
    }
}

} // verus!
