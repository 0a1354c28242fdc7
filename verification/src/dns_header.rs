use vstd::prelude::*;

use crate::byte_packet_buffer::{be16, splice, u16_bytes, BytePacketBuffer};
use crate::dns_error::DnsError;
use crate::result_code::ResultCode;

verus! {

/// The 12-byte DNS header: the transaction id, two flag bytes split
/// into named fields, and the four section counts.
#[derive(Clone, Copy, Debug, PartialEq, Eq, Structural)]
pub struct DnsHeader {
    pub id: u16,
    pub query_response: bool,
    pub opcode: u8,
    pub authoritative_answer: bool,
    pub truncated_message: bool,
    pub recursion_desired: bool,
    pub recursion_available: bool,
    pub z: bool,
    pub authed_data: bool,
    pub checking_disabled: bool,
    pub response_code: ResultCode,
    pub questions_count: u16,
    pub answers_count: u16,
    pub authority_count: u16,
    pub additional_count: u16,
}

/// The first flag byte: `qr` on bit 7, the opcode on bits 6..3, `aa`,
/// `tc` and `rd` on the low three bits.
pub open spec fn flags_byte_a(h: DnsHeader) -> u8 {
    ((if h.query_response {
        0x80u8
    } else {
        0u8
    }) | (h.opcode << 3) | (if h.authoritative_answer {
        0x04u8
    } else {
        0u8
    }) | (if h.truncated_message {
        0x02u8
    } else {
        0u8
    }) | (if h.recursion_desired {
        0x01u8
    } else {
        0u8
    }))
}

/// The second flag byte: `ra` on bit 7, `z`, `ad` and `cd` next, and
/// the response code on the low four bits.
pub open spec fn flags_byte_b(h: DnsHeader) -> u8 {
    ((if h.recursion_available {
        0x80u8
    } else {
        0u8
    }) | (if h.z {
        0x40u8
    } else {
        0u8
    }) | (if h.authed_data {
        0x20u8
    } else {
        0u8
    }) | (if h.checking_disabled {
        0x10u8
    } else {
        0u8
    }) | h.response_code.spec_to_number())
}

/// The 12 wire bytes of a header.
pub open spec fn header_bytes(h: DnsHeader) -> Seq<u8> {
    u16_bytes(h.id) + seq![flags_byte_a(h), flags_byte_b(h)] + u16_bytes(h.questions_count)
        + u16_bytes(h.answers_count) + u16_bytes(h.authority_count) + u16_bytes(
        h.additional_count,
    )
}

/// `h` with the ten flag fields taken from the two flag bytes.
pub open spec fn header_with_flags(h: DnsHeader, a: u8, b: u8) -> DnsHeader {
    DnsHeader {
        query_response: (a & 0x80) != 0,
        opcode: (a >> 3) & 0x0F,
        authoritative_answer: (a & 0x04) != 0,
        truncated_message: (a & 0x02) != 0,
        recursion_desired: (a & 0x01) != 0,
        recursion_available: (b & 0x80) != 0,
        z: (b & 0x40) != 0,
        authed_data: (b & 0x20) != 0,
        checking_disabled: (b & 0x10) != 0,
        response_code: ResultCode::spec_from_number(b & 0x0F),
        ..h
    }
}

/// `h` after reading a header at `pos` of `buf`: each 16-bit group is
/// taken over only if its two bytes lie inside the buffer, exactly as
/// the sequential reads assign them before the first one fails.
pub open spec fn header_after_read(h: DnsHeader, buf: Seq<u8>, pos: int) -> DnsHeader {
    let h1 = if pos + 2 <= 512 {
        DnsHeader { id: be16(buf[pos], buf[pos + 1]), ..h }
    } else {
        h
    };
    let h2 = if pos + 4 <= 512 {
        header_with_flags(h1, buf[pos + 2], buf[pos + 3])
    } else {
        h1
    };
    counts_after_read(h2, buf, pos + 4)
}

/// `h` after reading the four section counts at `pos` of `buf`, again
/// group by group up to the end of the buffer.
pub open spec fn counts_after_read(h: DnsHeader, buf: Seq<u8>, pos: int) -> DnsHeader {
    let c1 = if pos + 2 <= 512 {
        DnsHeader { questions_count: be16(buf[pos], buf[pos + 1]), ..h }
    } else {
        h
    };
    let c2 = if pos + 4 <= 512 {
        DnsHeader { answers_count: be16(buf[pos + 2], buf[pos + 3]), ..c1 }
    } else {
        c1
    };
    let c3 = if pos + 6 <= 512 {
        DnsHeader { authority_count: be16(buf[pos + 4], buf[pos + 5]), ..c2 }
    } else {
        c2
    };
    if pos + 8 <= 512 {
        DnsHeader { additional_count: be16(buf[pos + 6], buf[pos + 7]), ..c3 }
    } else {
        c3
    }
}

/// The header decoded from the 12 bytes at `pos` of `buf`.
pub open spec fn header_from_bytes(buf: Seq<u8>, pos: int) -> DnsHeader {
    header_after_read(DnsHeader::spec_new(), buf, pos)
}

impl DnsHeader {
    /// The all-zero header `new` returns.
    pub open spec fn spec_new() -> DnsHeader {
        DnsHeader {
            id: 0,
            query_response: false,
            opcode: 0,
            authoritative_answer: false,
            truncated_message: false,
            recursion_desired: false,
            recursion_available: false,
            z: false,
            authed_data: false,
            checking_disabled: false,
            response_code: ResultCode::NOERROR,
            questions_count: 0,
            answers_count: 0,
            authority_count: 0,
            additional_count: 0,
        }
    }

    /// A header with every field zero or false.
    pub fn new() -> (r: Self)
        ensures
            r == DnsHeader::spec_new(),
    {
        DnsHeader {
            id: 0,
            query_response: false,
            opcode: 0,
            authoritative_answer: false,
            truncated_message: false,
            recursion_desired: false,
            recursion_available: false,
            z: false,
            authed_data: false,
            checking_disabled: false,
            response_code: ResultCode::NOERROR,
            questions_count: 0,
            answers_count: 0,
            authority_count: 0,
            additional_count: 0,
        }
    }

    /// Split the two flag bytes into the ten named flag fields.
    fn apply_flags(&mut self, a: u8, b: u8)
        ensures
            *final(self) == header_with_flags(*old(self), a, b),
    {
        self.query_response = (a & 0x80) > 0;
        self.opcode = (a >> 3) & 0x0F;
        self.authoritative_answer = (a & 0x04) > 0;
        self.truncated_message = (a & 0x02) > 0;
        self.recursion_desired = (a & 0x01) > 0;

        self.recursion_available = (b & 0x80) > 0;
        self.z = (b & 0x40) > 0;
        self.authed_data = (b & 0x20) > 0;
        self.checking_disabled = (b & 0x10) > 0;
        self.response_code = ResultCode::from_number(b & 0x0F);
    }

    /// Decode the 12 header bytes at the cursor: the id, the two flag
    /// bytes split into their named fields, and the four counts.  The
    /// groups before the end of the buffer are assigned even when a
    /// later one fails the read.
    #[verifier::rlimit(100)]
    pub fn read(&mut self, buffer: &mut BytePacketBuffer) -> (r: Result<(), DnsError>)
        requires
            old(buffer).wf(),
        ensures
            final(buffer).wf(),
            final(buffer).buf@ == old(buffer).buf@,
            *final(self) == header_after_read(*old(self), old(buffer).buf@, old(buffer).pos as int),
            r is Ok <==> old(buffer).pos + 12 <= 512,
            r is Err ==> r == Err::<(), DnsError>(DnsError::EndOfBuffer),
            final(buffer).pos == (if old(buffer).pos >= 512 {
                old(buffer).pos as int
            } else if old(buffer).pos + 12 <= 512 {
                old(buffer).pos + 12
            } else {
                512int
            }),
    {
        let ghost h0 = *old(self);
        let ghost bufv = old(buffer).buf@;
        let ghost pos0 = old(buffer).pos as int;
        self.id = match buffer.read_u16() {
            Ok(v) => v,
            Err(e) => {
                proof {
                    assert(pos0 + 2 > 512);
                    assert(header_after_read(h0, bufv, pos0) == h0);
                }
                return Err(e);
            }
        };
        proof {
            assert(pos0 + 2 <= 512);
        }
        let ghost h1 = DnsHeader { id: be16(bufv[pos0], bufv[pos0 + 1]), ..h0 };

        let flags = match buffer.read_u16() {
            Ok(v) => v,
            Err(e) => {
                proof {
                    assert(pos0 + 4 > 512);
                    assert(header_after_read(h0, bufv, pos0) == h1);
                }
                return Err(e);
            }
        };
        let a = (flags / 256) as u8;
        let b = (flags % 256) as u8;
        proof {
            let hi = bufv[pos0 + 2];
            let lo = bufv[pos0 + 3];
            assert(be16(hi, lo) / 256 == hi as int && be16(hi, lo) % 256 == lo as int);
            assert(a == hi && b == lo);
        }
        self.apply_flags(a, b);
        let ghost h2 = header_with_flags(h1, bufv[pos0 + 2], bufv[pos0 + 3]);
        proof {
            assert(*self == h2);
        }

        let r = self.read_counts(buffer);
        proof {
            assert(header_after_read(h0, bufv, pos0) == counts_after_read(h2, bufv, pos0 + 4));
        }
        r
    }

    /// Read the four 16-bit section counts at the cursor.
    #[verifier::rlimit(100)]
    fn read_counts(&mut self, buffer: &mut BytePacketBuffer) -> (r: Result<(), DnsError>)
        requires
            old(buffer).wf(),
        ensures
            final(buffer).wf(),
            final(buffer).buf@ == old(buffer).buf@,
            *final(self) == counts_after_read(*old(self), old(buffer).buf@, old(buffer).pos as int),
            r is Ok <==> old(buffer).pos + 8 <= 512,
            r is Err ==> r == Err::<(), DnsError>(DnsError::EndOfBuffer),
            final(buffer).pos == (if old(buffer).pos >= 512 {
                old(buffer).pos as int
            } else if old(buffer).pos + 8 <= 512 {
                old(buffer).pos + 8
            } else {
                512int
            }),
    {
        let ghost h0 = *old(self);
        let ghost bufv = old(buffer).buf@;
        let ghost pos0 = old(buffer).pos as int;
        self.questions_count = match buffer.read_u16() {
            Ok(v) => v,
            Err(e) => {
                proof {
                    assert(counts_after_read(h0, bufv, pos0) == h0);
                }
                return Err(e);
            }
        };
        let ghost c1 = DnsHeader { questions_count: be16(bufv[pos0], bufv[pos0 + 1]), ..h0 };
        self.answers_count = match buffer.read_u16() {
            Ok(v) => v,
            Err(e) => {
                proof {
                    assert(counts_after_read(h0, bufv, pos0) == c1);
                }
                return Err(e);
            }
        };
        let ghost c2 = DnsHeader { answers_count: be16(bufv[pos0 + 2], bufv[pos0 + 3]), ..c1 };
        self.authority_count = match buffer.read_u16() {
            Ok(v) => v,
            Err(e) => {
                proof {
                    assert(counts_after_read(h0, bufv, pos0) == c2);
                }
                return Err(e);
            }
        };
        let ghost c3 = DnsHeader { authority_count: be16(bufv[pos0 + 4], bufv[pos0 + 5]), ..c2 };
        self.additional_count = match buffer.read_u16() {
            Ok(v) => v,
            Err(e) => {
                proof {
                    assert(counts_after_read(h0, bufv, pos0) == c3);
                }
                return Err(e);
            }
        };
        proof {
            assert(counts_after_read(h0, bufv, pos0) == (DnsHeader {
                additional_count: be16(bufv[pos0 + 6], bufv[pos0 + 7]),
                ..c3
            }));
        }
        Ok(())
    }

    /// Encode the header as its 12 wire bytes at the cursor.
    #[verifier::rlimit(60)]
    pub fn write(&self, buffer: &mut BytePacketBuffer) -> (r: Result<(), DnsError>)
        requires
            old(buffer).wf(),
        ensures
            final(buffer).wf(),
            final(buffer).buf@ == splice(old(buffer).buf@, old(buffer).pos as int, header_bytes(*self)),
            final(buffer).pos == (if old(buffer).pos >= 512 {
                old(buffer).pos as int
            } else if old(buffer).pos + 12 <= 512 {
                old(buffer).pos + 12
            } else {
                512int
            }),
            r is Ok <==> old(buffer).pos + 12 <= 512,
            r is Err ==> r == Err::<(), DnsError>(DnsError::EndOfBuffer),
    {
        let ghost buf0 = old(buffer).buf@;
        let ghost pos0 = old(buffer).pos as int;
        let ghost hb = header_bytes(*self);

        match buffer.write_u16(self.id) {
            Ok(()) => {}
            Err(e) => {
                proof {
                    assert(buffer.buf@ =~= splice(buf0, pos0, hb));
                }
                return Err(e);
            }
        }
        proof {
            assert(buffer.pos == pos0 + 2);
        }
        let a: u8 = (if self.query_response {
            0x80u8
        } else {
            0u8
        }) | (self.opcode << 3) | (if self.authoritative_answer {
            0x04u8
        } else {
            0u8
        }) | (if self.truncated_message {
            0x02u8
        } else {
            0u8
        }) | (if self.recursion_desired {
            0x01u8
        } else {
            0u8
        });
        match buffer.write_u8(a) {
            Ok(()) => {}
            Err(e) => {
                proof {
                    assert(buffer.buf@ =~= splice(buf0, pos0, hb));
                }
                return Err(e);
            }
        }
        proof {
            assert(buffer.pos == pos0 + 3);
        }
        let b: u8 = (if self.recursion_available {
            0x80u8
        } else {
            0u8
        }) | (if self.z {
            0x40u8
        } else {
            0u8
        }) | (if self.authed_data {
            0x20u8
        } else {
            0u8
        }) | (if self.checking_disabled {
            0x10u8
        } else {
            0u8
        }) | self.response_code.to_number();
        match buffer.write_u8(b) {
            Ok(()) => {}
            Err(e) => {
                proof {
                    assert(buffer.buf@ =~= splice(buf0, pos0, hb));
                }
                return Err(e);
            }
        }
        proof {
            assert(buffer.pos == pos0 + 4);
        }
        match buffer.write_u16(self.questions_count) {
            Ok(()) => {}
            Err(e) => {
                proof {
                    assert(buffer.buf@ =~= splice(buf0, pos0, hb));
                }
                return Err(e);
            }
        }
        proof {
            assert(buffer.pos == pos0 + 6);
        }
        match buffer.write_u16(self.answers_count) {
            Ok(()) => {}
            Err(e) => {
                proof {
                    assert(buffer.buf@ =~= splice(buf0, pos0, hb));
                }
                return Err(e);
            }
        }
        proof {
            assert(buffer.pos == pos0 + 8);
        }
        match buffer.write_u16(self.authority_count) {
            Ok(()) => {}
            Err(e) => {
                proof {
                    assert(buffer.buf@ =~= splice(buf0, pos0, hb));
                }
                return Err(e);
            }
        }
        proof {
            assert(buffer.pos == pos0 + 10);
        }
        match buffer.write_u16(self.additional_count) {
            Ok(()) => {}
            Err(e) => {
                proof {
                    assert(buffer.buf@ =~= splice(buf0, pos0, hb));
                }
                return Err(e);
            }
        }
        proof {
            assert(pos0 + 12 <= 512);
            assert(buffer.buf@ =~= splice(buf0, pos0, hb));
        }
        Ok(())
    }
}

/// Law: a header whose opcode fits in its four wire bits decodes from
/// its own encoding unchanged, wherever in the buffer it lands.
pub proof fn lemma_header_round_trip(h: DnsHeader, buf: Seq<u8>, pos: int)
    requires
        h.opcode < 16,
        buf.len() == 512,
        0 <= pos,
        pos + 12 <= 512,
        buf.subrange(pos, pos + 12) == header_bytes(h),
    ensures
        header_from_bytes(buf, pos) == h,
{
    let hb = header_bytes(h);
    assert(forall|j: int| pos <= j < pos + 12 ==> #[trigger] buf[j] == hb[j - pos]) by {
        let win = buf.subrange(pos, pos + 12);
        assert(forall|j: int| pos <= j < pos + 12 ==> #[trigger] buf[j] == win[j - pos]);
    }
    crate::byte_packet_buffer::lemma_be16_round_trip(h.id, 0, 0);
    crate::byte_packet_buffer::lemma_be16_round_trip(h.questions_count, 0, 0);
    crate::byte_packet_buffer::lemma_be16_round_trip(h.answers_count, 0, 0);
    crate::byte_packet_buffer::lemma_be16_round_trip(h.authority_count, 0, 0);
    crate::byte_packet_buffer::lemma_be16_round_trip(h.additional_count, 0, 0);
    let a = flags_byte_a(h);
    let b = flags_byte_b(h);
    let qr: u8 = if h.query_response { 1 } else { 0 };
    let aa: u8 = if h.authoritative_answer { 1 } else { 0 };
    let tc: u8 = if h.truncated_message { 1 } else { 0 };
    let rd: u8 = if h.recursion_desired { 1 } else { 0 };
    let op = h.opcode;
    assert(((a & 0x80) != 0 <==> qr == 1) && ((a >> 3) & 0x0F == op) && ((a & 0x04) != 0 <==> aa
        == 1) && ((a & 0x02) != 0 <==> tc == 1) && ((a & 0x01) != 0 <==> rd == 1))
        by (bit_vector)
        requires
            qr <= 1,
            aa <= 1,
            tc <= 1,
            rd <= 1,
            op < 16,
            a == ((if qr == 1 {
                0x80u8
            } else {
                0u8
            }) | (op << 3) | (if aa == 1 {
                0x04u8
            } else {
                0u8
            }) | (if tc == 1 {
                0x02u8
            } else {
                0u8
            }) | (if rd == 1 {
                0x01u8
            } else {
                0u8
            })),
    ;
    let ra: u8 = if h.recursion_available { 1 } else { 0 };
    let zz: u8 = if h.z { 1 } else { 0 };
    let ad: u8 = if h.authed_data { 1 } else { 0 };
    let cd: u8 = if h.checking_disabled { 1 } else { 0 };
    let rc = h.response_code.spec_to_number();
    assert(((b & 0x80) != 0 <==> ra == 1) && ((b & 0x40) != 0 <==> zz == 1) && ((b & 0x20) != 0
        <==> ad == 1) && ((b & 0x10) != 0 <==> cd == 1) && (b & 0x0F == rc))
        by (bit_vector)
        requires
            ra <= 1,
            zz <= 1,
            ad <= 1,
            cd <= 1,
            rc < 16,
            b == ((if ra == 1 {
                0x80u8
            } else {
                0u8
            }) | (if zz == 1 {
                0x40u8
            } else {
                0u8
            }) | (if ad == 1 {
                0x20u8
            } else {
                0u8
            }) | (if cd == 1 {
                0x10u8
            } else {
                0u8
            }) | rc),
    ;
    crate::result_code::lemma_result_code_round_trip(h.response_code, 0);
}

} // verus!
