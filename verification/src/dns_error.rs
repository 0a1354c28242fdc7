use vstd::prelude::*;

verus! {

/// The single flat error space of the codec.
///
/// Every fallible buffer or codec operation either succeeds or fails
/// with one of these; upstream I/O errors never enter the library and
/// stay with the caller that owns the sockets.
#[derive(Clone, Copy, Debug, PartialEq, Eq, Structural)]
pub enum DnsError {
    /// A read or write ran past the end of the 512-byte buffer.
    EndOfBuffer,
    /// A domain-name decode followed more than five compression pointers.
    JumpLimitExceeded,
    /// A domain-name encode met a label longer than 63 bytes.
    LabelTooLong,
}

/// The two unit results agree: same success, same error.  Spelled out
/// this way so that contracts never compare two `Ok(())` values
/// directly.
pub open spec fn same_result(a: Result<(), DnsError>, b: Result<(), DnsError>) -> bool {
    (a is Ok <==> b is Ok) && (a is Err ==> a->Err_0 == b->Err_0)
}

impl DnsError {
    /// A human-readable description of the error.
    pub fn message(&self) -> (r: String)
        ensures
            *self == DnsError::EndOfBuffer ==> r@ == "End of buffer"@,
            *self == DnsError::JumpLimitExceeded ==> r@ == "Limit of 5 jumps exceeded"@,
            *self == DnsError::LabelTooLong ==> r@ == "Single section exceeds 63 characters of length"@,
    {
        match self {
            DnsError::EndOfBuffer => String::from_str("End of buffer"),
            DnsError::JumpLimitExceeded => String::from_str("Limit of 5 jumps exceeded"),
            DnsError::LabelTooLong => String::from_str("Single section exceeds 63 characters of length"),
        }
    }
}

} // verus!
