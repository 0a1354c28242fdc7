use vstd::prelude::*;
use vstd::string::StringSliceAdditionalSpecFns;
use vstd::utf8::encode_utf8;

use crate::byte_packet_buffer::{be16, splice, u16_bytes, BytePacketBuffer};
use crate::dns_error::DnsError;
use crate::name::{name_wire, read_name_at, write_name_result};
use crate::query_type::QueryType;

verus! {

/// A question entry: a domain name and a query type.  The class is
/// implicitly IN: it is written as 1 and ignored on read.
#[derive(Clone, Debug, PartialEq, Eq)]
pub struct DnsQuestion {
    pub name: String,
    pub qtype: QueryType,
}

/// The mathematical value of a question: its name as characters and
/// its query type.
pub struct QuestionModel {
    pub name: Seq<char>,
    pub qtype: QueryType,
}

impl View for DnsQuestion {
    type V = QuestionModel;

    open spec fn view(&self) -> QuestionModel {
        QuestionModel { name: self.name@, qtype: self.qtype }
    }
}

/// Where the cursor stands after a 16-bit read at `pos`: past the two
/// bytes, or stuck where the read failed.
pub open spec fn u16_read_end(pos: int) -> int {
    if pos >= 512 {
        pos
    } else if pos + 2 <= 512 {
        pos + 2
    } else {
        512
    }
}

/// Where the cursor stands after a 32-bit read at `pos`.
pub open spec fn u32_read_end(pos: int) -> int {
    if pos >= 512 {
        pos
    } else if pos + 4 <= 512 {
        pos + 4
    } else {
        512
    }
}

/// The state a question parse ends in.
pub struct QuestionParse {
    pub outcome: Result<QuestionModel, DnsError>,
    pub end: int,
}

/// Parsing a question at `pos`: a name, a 16-bit type, and a 16-bit
/// class that is read and discarded.
#[verifier::opaque]
pub open spec fn parse_question(buf: Seq<u8>, pos: int) -> QuestionParse {
    let np = read_name_at(buf, pos);
    match np.outcome {
        Err(e) => QuestionParse { outcome: Err(e), end: np.cursor },
        Ok(_) => {
            let p1 = np.cursor;
            if p1 + 2 > 512 {
                QuestionParse { outcome: Err(DnsError::EndOfBuffer), end: u16_read_end(p1) }
            } else if p1 + 4 > 512 {
                QuestionParse { outcome: Err(DnsError::EndOfBuffer), end: u16_read_end(p1 + 2) }
            } else {
                QuestionParse {
                    outcome: Ok(
                        QuestionModel {
                            name: np.text,
                            qtype: QueryType::spec_from_num(be16(buf[p1], buf[p1 + 1])),
                        },
                    ),
                    end: p1 + 4,
                }
            }
        }
    }
}

/// The wire form of a question: the name, the type, and class IN.
pub open spec fn question_wire(q: QuestionModel) -> Seq<u8> {
    name_wire(encode_utf8(q.name)) + u16_bytes(q.qtype.spec_to_num()) + u16_bytes(1)
}

/// What encoding a question at `pos` returns.
pub open spec fn write_question_result(q: QuestionModel, pos: int) -> Result<(), DnsError> {
    match write_name_result(encode_utf8(q.name), pos) {
        Err(e) => Err(e),
        Ok(_) => {
            if pos + name_wire(encode_utf8(q.name)).len() + 4 <= 512 {
                Ok(())
            } else {
                Err(DnsError::EndOfBuffer)
            }
        }
    }
}

impl DnsQuestion {
    /// A question for `name` with query type `qtype`.
    pub fn new(name: String, qtype: QueryType) -> (r: DnsQuestion)
        ensures
            r@.name == name@,
            r@.qtype == qtype,
    {
        DnsQuestion { name, qtype }
    }

    /// Decode a question at the cursor, appending its name to this
    /// question's name field.
    pub fn read(&mut self, buffer: &mut BytePacketBuffer) -> (r: Result<(), DnsError>)
        requires
            old(buffer).wf(),
        ensures
            final(buffer).wf(),
            final(buffer).buf@ == old(buffer).buf@,
            final(buffer).pos == parse_question(old(buffer).buf@, old(buffer).pos as int).end,
            ({
                let parsed = parse_question(old(buffer).buf@, old(buffer).pos as int);
                match parsed.outcome {
                    Ok(q) => r is Ok && final(self).name@ == old(self).name@ + q.name
                        && final(self).qtype == q.qtype,
                    Err(e) => r == Err::<(), DnsError>(e),
                }
            }),
            final(self).name@ == old(self).name@ + read_name_at(
                old(buffer).buf@,
                old(buffer).pos as int,
            ).text,
    {
        proof {
            reveal(parse_question);
        }
        match buffer.read_qname(&mut self.name) {
            Ok(_) => {}
            Err(e) => return Err(e),
        }
        let qnum = match buffer.read_u16() {
            Ok(v) => v,
            Err(e) => return Err(e),
        };
        self.qtype = QueryType::from_num(qnum);
        let _class = match buffer.read_u16() {
            Ok(v) => v,
            Err(e) => return Err(e),
        };
        Ok(())
    }

    /// Encode the question at the cursor: its name, its type, and
    /// class IN.
    pub fn write(&self, buffer: &mut BytePacketBuffer) -> (r: Result<(), DnsError>)
        requires
            old(buffer).wf(),
        ensures
            final(buffer).wf(),
            r == write_question_result(self@, old(buffer).pos as int),
            r is Ok ==> final(buffer).buf@ == splice(
                old(buffer).buf@,
                old(buffer).pos as int,
                question_wire(self@),
            ) && final(buffer).pos == old(buffer).pos + question_wire(self@).len(),
            final(buffer).pos >= old(buffer).pos,
            forall|i: int|
                0 <= i < old(buffer).pos && i < 512 ==> final(buffer).buf@[i] == old(
                    buffer,
                ).buf@[i],
    {
        let ghost buf0 = old(buffer).buf@;
        let ghost pos0 = old(buffer).pos as int;
        let ghost nw = name_wire(encode_utf8(self.name@));
        match buffer.write_qname(self.name.as_str()) {
            Ok(_) => {}
            Err(e) => {
                proof {
                    lemma_splice_low_frame(buf0, pos0, crate::name::write_name_attempt(
                        encode_utf8(self.name@),
                    ));
                }
                return Err(e);
            }
        }
        proof {
            crate::name::lemma_write_name_ok(encode_utf8(self.name@), 0, pos0);
            lemma_splice_low_frame(buf0, pos0, nw);
        }
        match buffer.write_u16(self.qtype.to_num()) {
            Ok(_) => {}
            Err(e) => return Err(e),
        }
        match buffer.write_u16(1) {
            Ok(_) => {}
            Err(e) => return Err(e),
        }
        proof {
            crate::byte_packet_buffer::lemma_splice_concat(buf0, pos0, nw, u16_bytes(
                self.qtype.spec_to_num(),
            ));
            crate::byte_packet_buffer::lemma_splice_concat(buf0, pos0, nw + u16_bytes(
                self.qtype.spec_to_num(),
            ), u16_bytes(1));
            assert(buffer.buf@ =~= splice(buf0, pos0, question_wire(self@)));
        }
        Ok(())
    }
}

/// A splice at `pos` leaves every byte below `pos` alone.
pub proof fn lemma_splice_low_frame(buf: Seq<u8>, pos: int, bytes: Seq<u8>)
    ensures
        forall|i: int| 0 <= i < pos && i < buf.len() ==> splice(buf, pos, bytes)[i] == buf[i],
{
}

} // verus!
