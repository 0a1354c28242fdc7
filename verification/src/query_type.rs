use vstd::prelude::*;

verus! {

/// The query type of a question or record.  A numeric type the codec
/// does not know round-trips through the `UNKNOWN` variant, keeping
/// its original value.
#[derive(Clone, Copy, Debug, PartialEq, Eq, Structural)]
pub enum QueryType {
    UNKNOWN(u16),
    A,
    NS,
    CNAME,
    MX,
    AAAA,
}

impl QueryType {
    /// The wire value of a query type.
    pub open spec fn spec_to_num(self) -> u16 {
        match self {
            QueryType::UNKNOWN(x) => x,
            QueryType::A => 1,
            QueryType::NS => 2,
            QueryType::CNAME => 5,
            QueryType::MX => 15,
            QueryType::AAAA => 28,
        }
    }

    /// Encode a query type as its wire value.
    pub fn to_num(self) -> (r: u16)
        ensures
            r == self.spec_to_num(),
    {
        match self {
            QueryType::UNKNOWN(x) => x,
            QueryType::A => 1,
            QueryType::NS => 2,
            QueryType::CNAME => 5,
            QueryType::MX => 15,
            QueryType::AAAA => 28,
        }
    }

    /// The query type a wire value decodes to.
    pub open spec fn spec_from_num(num: u16) -> QueryType {
        if num == 1 {
            QueryType::A
        } else if num == 2 {
            QueryType::NS
        } else if num == 5 {
            QueryType::CNAME
        } else if num == 15 {
            QueryType::MX
        } else if num == 28 {
            QueryType::AAAA
        } else {
            QueryType::UNKNOWN(num)
        }
    }

    /// Decode a wire value.
    pub fn from_num(num: u16) -> (r: QueryType)
        ensures
            r == QueryType::spec_from_num(num),
    {
        match num {
            1 => QueryType::A,
            2 => QueryType::NS,
            5 => QueryType::CNAME,
            15 => QueryType::MX,
            28 => QueryType::AAAA,
            _ => QueryType::UNKNOWN(num),
        }
    }

    /// An `UNKNOWN` variant that carries the wire value of a known
    /// type would decode to that known type instead; every other
    /// query type survives the wire unchanged.
    pub open spec fn round_trips(self) -> bool {
        match self {
            QueryType::UNKNOWN(x) => x != 1 && x != 2 && x != 5 && x != 15 && x != 28,
            _ => true,
        }
    }
}

/// Law: decoding an encoded query type gives the type back for every
/// type whose `UNKNOWN` value is not a known code, and every wire
/// value re-encodes to itself.
pub proof fn lemma_query_type_round_trip(qt: QueryType, num: u16)
    ensures
        qt.round_trips() ==> QueryType::spec_from_num(qt.spec_to_num()) == qt,
        QueryType::spec_from_num(num).spec_to_num() == num,
{
}

} // verus!
