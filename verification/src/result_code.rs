use vstd::prelude::*;

verus! {

/// The DNS response code, the low four bits of the header's second
/// flag byte.  Any value above five decodes as `NOERROR`.
#[derive(Clone, Copy, Debug, PartialEq, Eq, Structural)]
pub enum ResultCode {
    NOERROR,
    FORMERR,
    SERVFAIL,
    NXDOMAIN,
    NOTIMP,
    REFUSED,
}

impl ResultCode {
    /// The code a wire value decodes to.
    pub open spec fn spec_from_number(num: u8) -> ResultCode {
        if num == 1 {
            ResultCode::FORMERR
        } else if num == 2 {
            ResultCode::SERVFAIL
        } else if num == 3 {
            ResultCode::NXDOMAIN
        } else if num == 4 {
            ResultCode::NOTIMP
        } else if num == 5 {
            ResultCode::REFUSED
        } else {
            ResultCode::NOERROR
        }
    }

    /// Decode a wire value.
    pub fn from_number(num: u8) -> (r: ResultCode)
        ensures
            r == ResultCode::spec_from_number(num),
    {
        match num {
            1 => ResultCode::FORMERR,
            2 => ResultCode::SERVFAIL,
            3 => ResultCode::NXDOMAIN,
            4 => ResultCode::NOTIMP,
            5 => ResultCode::REFUSED,
            _ => ResultCode::NOERROR,
        }
    }

    /// The wire value of a code.
    pub open spec fn spec_to_number(self) -> u8 {
        match self {
            ResultCode::NOERROR => 0,
            ResultCode::FORMERR => 1,
            ResultCode::SERVFAIL => 2,
            ResultCode::NXDOMAIN => 3,
            ResultCode::NOTIMP => 4,
            ResultCode::REFUSED => 5,
        }
    }

    /// Encode a code as its wire value.
    pub fn to_number(self) -> (r: u8)
        ensures
            r == self.spec_to_number(),
    {
        match self {
            ResultCode::NOERROR => 0,
            ResultCode::FORMERR => 1,
            ResultCode::SERVFAIL => 2,
            ResultCode::NXDOMAIN => 3,
            ResultCode::NOTIMP => 4,
            ResultCode::REFUSED => 5,
        }
    }
}

/// Law: every response code survives the wire: decoding its encoding
/// gives the code back, and every wire value at most five re-encodes
/// to itself.
pub proof fn lemma_result_code_round_trip(rc: ResultCode, num: u8)
    ensures
        ResultCode::spec_from_number(rc.spec_to_number()) == rc,
        num <= 5 ==> ResultCode::spec_from_number(num).spec_to_number() == num,
{
}

} // verus!
