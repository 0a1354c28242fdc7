use vstd::prelude::*;
use vstd::utf8::encode_utf8;

use crate::byte_packet_buffer::{be16, be32, lemma_splice_concat, lemma_splice_push,
    lemma_untouched_below_splice, lemma_untouched_below_trans, splice, u16_bytes, u32_bytes,
    untouched_below, BytePacketBuffer};
use crate::dns_error::{same_result, DnsError};
use crate::dns_question::{u16_read_end, u32_read_end};
use crate::name::{lemma_write_name_ok, name_wire, read_name_at, write_name_attempt,
    write_name_result};
use crate::query_type::QueryType;

verus! {

/// An IPv4 address as its four octets, network order.
#[derive(Clone, Copy, Debug, PartialEq, Eq, Structural)]
pub struct Ipv4Address {
    pub a: u8,
    pub b: u8,
    pub c: u8,
    pub d: u8,
}

impl Ipv4Address {
    /// The address `a.b.c.d`.
    pub fn new(a: u8, b: u8, c: u8, d: u8) -> (r: Ipv4Address)
        ensures
            r == (Ipv4Address { a, b, c, d }),
    {
        Ipv4Address { a, b, c, d }
    }
}

/// An IPv6 address as its eight 16-bit groups, network order.
#[derive(Clone, Copy, Debug, PartialEq, Eq, Structural)]
pub struct Ipv6Address {
    pub g0: u16,
    pub g1: u16,
    pub g2: u16,
    pub g3: u16,
    pub g4: u16,
    pub g5: u16,
    pub g6: u16,
    pub g7: u16,
}

impl Ipv6Address {
    /// The address with groups `g0` through `g7`.
    pub fn new(g0: u16, g1: u16, g2: u16, g3: u16, g4: u16, g5: u16, g6: u16, g7: u16) -> (r:
        Ipv6Address)
        ensures
            r == (Ipv6Address { g0, g1, g2, g3, g4, g5, g6, g7 }),
    {
        Ipv6Address { g0, g1, g2, g3, g4, g5, g6, g7 }
    }
}

/// A resource record of one of the known types, or an unknown type
/// whose payload was skipped on read and is never written.
#[derive(Clone, Debug, PartialEq, Eq)]
pub enum DnsRecord {
    UNKNOWN { domain: String, qtype: u16, data_len: u16, ttl: u32 },
    A { domain: String, addr: Ipv4Address, ttl: u32 },
    NS { domain: String, host: String, ttl: u32 },
    CNAME { domain: String, host: String, ttl: u32 },
    MX { domain: String, priority: u16, host: String, ttl: u32 },
    AAAA { domain: String, addr: Ipv6Address, ttl: u32 },
}

/// The mathematical value of a record, with names as character
/// sequences.
pub enum RecordModel {
    UNKNOWN { domain: Seq<char>, qtype: u16, data_len: u16, ttl: u32 },
    A { domain: Seq<char>, addr: Ipv4Address, ttl: u32 },
    NS { domain: Seq<char>, host: Seq<char>, ttl: u32 },
    CNAME { domain: Seq<char>, host: Seq<char>, ttl: u32 },
    MX { domain: Seq<char>, priority: u16, host: Seq<char>, ttl: u32 },
    AAAA { domain: Seq<char>, addr: Ipv6Address, ttl: u32 },
}

impl View for DnsRecord {
    type V = RecordModel;

    open spec fn view(&self) -> RecordModel {
        match self {
            DnsRecord::UNKNOWN { domain, qtype, data_len, ttl } => RecordModel::UNKNOWN {
                domain: domain@,
                qtype: *qtype,
                data_len: *data_len,
                ttl: *ttl,
            },
            DnsRecord::A { domain, addr, ttl } => RecordModel::A {
                domain: domain@,
                addr: *addr,
                ttl: *ttl,
            },
            DnsRecord::NS { domain, host, ttl } => RecordModel::NS {
                domain: domain@,
                host: host@,
                ttl: *ttl,
            },
            DnsRecord::CNAME { domain, host, ttl } => RecordModel::CNAME {
                domain: domain@,
                host: host@,
                ttl: *ttl,
            },
            DnsRecord::MX { domain, priority, host, ttl } => RecordModel::MX {
                domain: domain@,
                priority: *priority,
                host: host@,
                ttl: *ttl,
            },
            DnsRecord::AAAA { domain, addr, ttl } => RecordModel::AAAA {
                domain: domain@,
                addr: *addr,
                ttl: *ttl,
            },
        }
    }
}

/// The state a record parse ends in.
pub struct RecordParse {
    pub outcome: Result<RecordModel, DnsError>,
    pub end: int,
}

/// Parsing the rdata of a record whose preamble gave `domain`,
/// `qtype_num`, `ttl` and `data_len`, with the cursor at `p`.
pub open spec fn parse_rdata(
    buf: Seq<u8>,
    p: int,
    domain: Seq<char>,
    qtype_num: u16,
    ttl: u32,
    data_len: u16,
) -> RecordParse {
    if qtype_num == 1 {
        // A: four address octets
        if p + 4 > 512 {
            RecordParse { outcome: Err(DnsError::EndOfBuffer), end: u32_read_end(p) }
        } else {
            RecordParse {
                outcome: Ok(
                    RecordModel::A {
                        domain,
                        addr: Ipv4Address {
                            a: buf[p],
                            b: buf[p + 1],
                            c: buf[p + 2],
                            d: buf[p + 3],
                        },
                        ttl,
                    },
                ),
                end: p + 4,
            }
        }
    } else if qtype_num == 2 || qtype_num == 5 {
        // NS or CNAME: a host name
        let hp = read_name_at(buf, p);
        match hp.outcome {
            Err(e) => RecordParse { outcome: Err(e), end: hp.cursor },
            Ok(_) => RecordParse {
                outcome: Ok(
                    if qtype_num == 2 {
                        RecordModel::NS { domain, host: hp.text, ttl }
                    } else {
                        RecordModel::CNAME { domain, host: hp.text, ttl }
                    },
                ),
                end: hp.cursor,
            },
        }
    } else if qtype_num == 15 {
        // MX: a 16-bit priority, then a host name
        if p + 2 > 512 {
            RecordParse { outcome: Err(DnsError::EndOfBuffer), end: u16_read_end(p) }
        } else {
            let priority = be16(buf[p], buf[p + 1]);
            let hp = read_name_at(buf, p + 2);
            match hp.outcome {
                Err(e) => RecordParse { outcome: Err(e), end: hp.cursor },
                Ok(_) => RecordParse {
                    outcome: Ok(RecordModel::MX { domain, priority, host: hp.text, ttl }),
                    end: hp.cursor,
                },
            }
        }
    } else if qtype_num == 28 {
        // AAAA: eight 16-bit groups, read as four 32-bit words
        if p + 4 > 512 {
            RecordParse { outcome: Err(DnsError::EndOfBuffer), end: u32_read_end(p) }
        } else if p + 8 > 512 {
            RecordParse { outcome: Err(DnsError::EndOfBuffer), end: u32_read_end(p + 4) }
        } else if p + 12 > 512 {
            RecordParse { outcome: Err(DnsError::EndOfBuffer), end: u32_read_end(p + 8) }
        } else if p + 16 > 512 {
            RecordParse { outcome: Err(DnsError::EndOfBuffer), end: u32_read_end(p + 12) }
        } else {
            RecordParse {
                outcome: Ok(
                    RecordModel::AAAA {
                        domain,
                        addr: Ipv6Address {
                            g0: be16(buf[p], buf[p + 1]),
                            g1: be16(buf[p + 2], buf[p + 3]),
                            g2: be16(buf[p + 4], buf[p + 5]),
                            g3: be16(buf[p + 6], buf[p + 7]),
                            g4: be16(buf[p + 8], buf[p + 9]),
                            g5: be16(buf[p + 10], buf[p + 11]),
                            g6: be16(buf[p + 12], buf[p + 13]),
                            g7: be16(buf[p + 14], buf[p + 15]),
                        },
                        ttl,
                    },
                ),
                end: p + 16,
            }
        }
    } else {
        // unknown: skip the payload, keeping only its length
        RecordParse {
            outcome: Ok(RecordModel::UNKNOWN { domain, qtype: qtype_num, data_len, ttl }),
            end: p + data_len,
        }
    }
}

/// Parsing a whole record at `pos`: owner name, type, class (read and
/// discarded), ttl, rdata length, then the rdata by type.
#[verifier::opaque]
pub open spec fn parse_record(buf: Seq<u8>, pos: int) -> RecordParse {
    let np = read_name_at(buf, pos);
    match np.outcome {
        Err(e) => RecordParse { outcome: Err(e), end: np.cursor },
        Ok(_) => {
            let p1 = np.cursor;
            if p1 + 2 > 512 {
                RecordParse { outcome: Err(DnsError::EndOfBuffer), end: u16_read_end(p1) }
            } else if p1 + 4 > 512 {
                RecordParse { outcome: Err(DnsError::EndOfBuffer), end: u16_read_end(p1 + 2) }
            } else if p1 + 8 > 512 {
                RecordParse { outcome: Err(DnsError::EndOfBuffer), end: u32_read_end(p1 + 4) }
            } else if p1 + 10 > 512 {
                RecordParse { outcome: Err(DnsError::EndOfBuffer), end: u16_read_end(p1 + 8) }
            } else {
                parse_rdata(
                    buf,
                    p1 + 10,
                    np.text,
                    be16(buf[p1], buf[p1 + 1]),
                    be32(buf[p1 + 4], buf[p1 + 5], buf[p1 + 6], buf[p1 + 7]),
                    be16(buf[p1 + 8], buf[p1 + 9]),
                )
            }
        }
    }
}

/// The numeric type code a record is written with.
pub open spec fn record_type_num(r: RecordModel) -> u16 {
    match r {
        RecordModel::UNKNOWN { qtype, .. } => qtype,
        RecordModel::A { .. } => 1,
        RecordModel::NS { .. } => 2,
        RecordModel::CNAME { .. } => 5,
        RecordModel::MX { .. } => 15,
        RecordModel::AAAA { .. } => 28,
    }
}

/// The owner name of a record.
pub open spec fn record_domain(r: RecordModel) -> Seq<char> {
    match r {
        RecordModel::UNKNOWN { domain, .. } => domain,
        RecordModel::A { domain, .. } => domain,
        RecordModel::NS { domain, .. } => domain,
        RecordModel::CNAME { domain, .. } => domain,
        RecordModel::MX { domain, .. } => domain,
        RecordModel::AAAA { domain, .. } => domain,
    }
}

/// The time-to-live of a record.
pub open spec fn record_ttl(r: RecordModel) -> u32 {
    match r {
        RecordModel::UNKNOWN { ttl, .. } => ttl,
        RecordModel::A { ttl, .. } => ttl,
        RecordModel::NS { ttl, .. } => ttl,
        RecordModel::CNAME { ttl, .. } => ttl,
        RecordModel::MX { ttl, .. } => ttl,
        RecordModel::AAAA { ttl, .. } => ttl,
    }
}

/// The rdata bytes of a record: what stands after the rdata length.
pub open spec fn rdata_wire(r: RecordModel) -> Seq<u8> {
    match r {
        RecordModel::UNKNOWN { .. } => seq![],
        RecordModel::A { addr, .. } => seq![addr.a, addr.b, addr.c, addr.d],
        RecordModel::NS { host, .. } => name_wire(encode_utf8(host)),
        RecordModel::CNAME { host, .. } => name_wire(encode_utf8(host)),
        RecordModel::MX { priority, host, .. } => u16_bytes(priority) + name_wire(
            encode_utf8(host),
        ),
        RecordModel::AAAA { addr, .. } => u16_bytes(addr.g0) + u16_bytes(addr.g1) + u16_bytes(
            addr.g2,
        ) + u16_bytes(addr.g3) + u16_bytes(addr.g4) + u16_bytes(addr.g5) + u16_bytes(addr.g6)
            + u16_bytes(addr.g7),
    }
}

/// The full wire form of a record: nothing for an unknown type, else
/// the owner name, type, class IN, ttl, rdata length and rdata.
#[verifier::opaque]
pub open spec fn record_wire(r: RecordModel) -> Seq<u8> {
    match r {
        RecordModel::UNKNOWN { .. } => seq![],
        _ => name_wire(encode_utf8(record_domain(r))) + u16_bytes(record_type_num(r)) + u16_bytes(
            1,
        ) + u32_bytes(record_ttl(r)) + u16_bytes(rdata_wire(r).len() as u16) + rdata_wire(r),
    }
}

impl DnsRecord {
    /// Decode one record at the cursor: owner name, type, class
    /// (discarded), ttl and rdata length, then the rdata by type.  An
    /// unknown type's payload is skipped, keeping only its length.
    #[verifier::rlimit(100)]
    pub fn read(buffer: &mut BytePacketBuffer) -> (r: Result<DnsRecord, DnsError>)
        requires
            old(buffer).wf(),
        ensures
            final(buffer).wf(),
            final(buffer).buf@ == old(buffer).buf@,
            final(buffer).pos == parse_record(old(buffer).buf@, old(buffer).pos as int).end,
            ({
                let parsed = parse_record(old(buffer).buf@, old(buffer).pos as int);
                match parsed.outcome {
                    Ok(m) => r is Ok && r->Ok_0@ == m,
                    Err(e) => r == Err::<DnsRecord, DnsError>(e),
                }
            }),
    {
        proof {
            reveal(parse_record);
        }
        let ghost bufv = old(buffer).buf@;
        let mut domain = String::new();
        match buffer.read_qname(&mut domain) {
            Ok(_) => {}
            Err(e) => return Err(e),
        }
        let ghost p1 = buffer.pos as int;
        let qtype_num = match buffer.read_u16() {
            Ok(v) => v,
            Err(e) => return Err(e),
        };
        let qtype = QueryType::from_num(qtype_num);
        let _class = match buffer.read_u16() {
            Ok(v) => v,
            Err(e) => return Err(e),
        };
        let ttl = match buffer.read_u32() {
            Ok(v) => v,
            Err(e) => return Err(e),
        };
        let data_len = match buffer.read_u16() {
            Ok(v) => v,
            Err(e) => return Err(e),
        };
        let ghost p2 = buffer.pos as int;
        match qtype {
            QueryType::A => {
                let raw_addr = match buffer.read_u32() {
                    Ok(v) => v,
                    Err(e) => return Err(e),
                };
                proof {
                    crate::byte_packet_buffer::lemma_be32_round_trip(
                        raw_addr,
                        bufv[p2],
                        bufv[p2 + 1],
                        bufv[p2 + 2],
                        bufv[p2 + 3],
                    );
                }
                let addr = Ipv4Address::new(
                    (raw_addr / 0x1000000) as u8,
                    ((raw_addr / 0x10000) % 256) as u8,
                    ((raw_addr / 256) % 256) as u8,
                    (raw_addr % 256) as u8,
                );
                Ok(DnsRecord::A { domain, addr, ttl })
            }
            QueryType::NS => {
                let mut host = String::new();
                match buffer.read_qname(&mut host) {
                    Ok(_) => {}
                    Err(e) => return Err(e),
                }
                Ok(DnsRecord::NS { domain, host, ttl })
            }
            QueryType::CNAME => {
                let mut host = String::new();
                match buffer.read_qname(&mut host) {
                    Ok(_) => {}
                    Err(e) => return Err(e),
                }
                Ok(DnsRecord::CNAME { domain, host, ttl })
            }
            QueryType::MX => {
                let priority = match buffer.read_u16() {
                    Ok(v) => v,
                    Err(e) => return Err(e),
                };
                let mut host = String::new();
                match buffer.read_qname(&mut host) {
                    Ok(_) => {}
                    Err(e) => return Err(e),
                }
                Ok(DnsRecord::MX { domain, priority, host, ttl })
            }
            QueryType::AAAA => {
                let raw1 = match buffer.read_u32() {
                    Ok(v) => v,
                    Err(e) => return Err(e),
                };
                let raw2 = match buffer.read_u32() {
                    Ok(v) => v,
                    Err(e) => return Err(e),
                };
                let raw3 = match buffer.read_u32() {
                    Ok(v) => v,
                    Err(e) => return Err(e),
                };
                let raw4 = match buffer.read_u32() {
                    Ok(v) => v,
                    Err(e) => return Err(e),
                };
                proof {
                    crate::byte_packet_buffer::lemma_be32_split16(
                        bufv[p2],
                        bufv[p2 + 1],
                        bufv[p2 + 2],
                        bufv[p2 + 3],
                    );
                    crate::byte_packet_buffer::lemma_be32_split16(
                        bufv[p2 + 4],
                        bufv[p2 + 5],
                        bufv[p2 + 6],
                        bufv[p2 + 7],
                    );
                    crate::byte_packet_buffer::lemma_be32_split16(
                        bufv[p2 + 8],
                        bufv[p2 + 9],
                        bufv[p2 + 10],
                        bufv[p2 + 11],
                    );
                    crate::byte_packet_buffer::lemma_be32_split16(
                        bufv[p2 + 12],
                        bufv[p2 + 13],
                        bufv[p2 + 14],
                        bufv[p2 + 15],
                    );
                }
                let addr = Ipv6Address::new(
                    (raw1 / 0x10000) as u16,
                    (raw1 % 0x10000) as u16,
                    (raw2 / 0x10000) as u16,
                    (raw2 % 0x10000) as u16,
                    (raw3 / 0x10000) as u16,
                    (raw3 % 0x10000) as u16,
                    (raw4 / 0x10000) as u16,
                    (raw4 % 0x10000) as u16,
                );
                Ok(DnsRecord::AAAA { domain, addr, ttl })
            }
            QueryType::UNKNOWN(x) => {
                match buffer.step(data_len as usize) {
                    Ok(_) => {}
                    Err(e) => return Err(e),
                }
                Ok(DnsRecord::UNKNOWN { domain, qtype: x, data_len, ttl })
            }
        }
    }
}

/// What encoding a record at `pos` returns.  An unknown record is not
/// emitted and always succeeds; for the others the owner name may be
/// rejected, the buffer may fill, and for NS, CNAME and MX the host
/// name is checked where it is written.
pub open spec fn write_record_result(r: RecordModel, pos: int) -> Result<(), DnsError> {
    match r {
        RecordModel::UNKNOWN { .. } => Ok(()),
        _ => {
            let nw = name_wire(encode_utf8(record_domain(r)));
            match write_name_result(encode_utf8(record_domain(r)), pos) {
                Err(e) => Err(e),
                Ok(_) => {
                    let p1 = pos + nw.len() as int;
                    match r {
                        RecordModel::A { .. } => if p1 + 14 <= 512 {
                            Ok(())
                        } else {
                            Err(DnsError::EndOfBuffer)
                        },
                        RecordModel::AAAA { .. } => if p1 + 26 <= 512 {
                            Ok(())
                        } else {
                            Err(DnsError::EndOfBuffer)
                        },
                        RecordModel::NS { host, .. } => if p1 + 10 <= 512 {
                            write_name_result(encode_utf8(host), p1 + 10)
                        } else {
                            Err(DnsError::EndOfBuffer)
                        },
                        RecordModel::CNAME { host, .. } => if p1 + 10 <= 512 {
                            write_name_result(encode_utf8(host), p1 + 10)
                        } else {
                            Err(DnsError::EndOfBuffer)
                        },
                        RecordModel::MX { host, .. } => if p1 + 12 <= 512 {
                            write_name_result(encode_utf8(host), p1 + 12)
                        } else {
                            Err(DnsError::EndOfBuffer)
                        },
                        RecordModel::UNKNOWN { .. } => Ok(()),
                    }
                }
            }
        }
    }
}

impl DnsRecord {
    /// Encode the record at the cursor.  A record of unknown type is
    /// not emitted: the buffer is left untouched and the write
    /// succeeds.
    pub fn write(&self, buffer: &mut BytePacketBuffer) -> (r: Result<(), DnsError>)
        requires
            old(buffer).wf(),
        ensures
            final(buffer).wf(),
            same_result(r, write_record_result(self@, old(buffer).pos as int)),
            r is Ok ==> final(buffer).buf@ == splice(
                old(buffer).buf@,
                old(buffer).pos as int,
                record_wire(self@),
            ) && final(buffer).pos == old(buffer).pos + record_wire(self@).len(),
            final(buffer).pos >= old(buffer).pos,
            untouched_below(old(buffer).buf@, final(buffer).buf@, old(buffer).pos as int),
    {
        match self {
            DnsRecord::UNKNOWN { .. } => {
                proof {
                    reveal(record_wire);
                    reveal(write_record_result);
                    assert(splice(buffer.buf@, buffer.pos as int, record_wire(self@))
                        =~= buffer.buf@);
                }
                Ok(())
            },
            DnsRecord::A { domain, addr, ttl } => write_a(buffer, domain.as_str(), *addr, *ttl),
            DnsRecord::NS { domain, host, ttl } => write_host_record(
                buffer,
                domain.as_str(),
                2,
                host.as_str(),
                *ttl,
            ),
            DnsRecord::CNAME { domain, host, ttl } => write_host_record(
                buffer,
                domain.as_str(),
                5,
                host.as_str(),
                *ttl,
            ),
            DnsRecord::MX { domain, priority, host, ttl } => write_mx(
                buffer,
                domain.as_str(),
                *priority,
                host.as_str(),
                *ttl,
            ),
            DnsRecord::AAAA { domain, addr, ttl } => write_aaaa(buffer, domain.as_str(), *addr, *ttl),
        }
    }
}

/// The shared preamble of every written record: owner name, type,
/// class IN, and ttl.
pub open spec fn record_head_wire(domain: Seq<char>, code: u16, ttl: u32) -> Seq<u8> {
    name_wire(encode_utf8(domain)) + u16_bytes(code) + u16_bytes(1) + u32_bytes(ttl)
}

/// What writing the preamble at `pos` returns.
pub open spec fn write_head_result(domain: Seq<char>, pos: int) -> Result<(), DnsError> {
    match write_name_result(encode_utf8(domain), pos) {
        Err(e) => Err(e),
        Ok(_) => {
            if pos + name_wire(encode_utf8(domain)).len() + 8 <= 512 {
                Ok(())
            } else {
                Err(DnsError::EndOfBuffer)
            }
        }
    }
}

/// Write a record's preamble: owner name, type code, class IN, ttl.
#[verifier::rlimit(60)]
fn write_head(buffer: &mut BytePacketBuffer, domain: &str, code: u16, ttl: u32) -> (r: Result<
    (),
    DnsError,
>)
    requires
        old(buffer).wf(),
    ensures
        final(buffer).wf(),
        r == write_head_result(domain@, old(buffer).pos as int),
        r is Ok ==> final(buffer).buf@ == splice(
            old(buffer).buf@,
            old(buffer).pos as int,
            record_head_wire(domain@, code, ttl),
        ) && final(buffer).pos == old(buffer).pos + record_head_wire(domain@, code, ttl).len(),
        final(buffer).pos >= old(buffer).pos,
        untouched_below(old(buffer).buf@, final(buffer).buf@, old(buffer).pos as int),
{
    let ghost buf0 = old(buffer).buf@;
    let ghost pos0 = old(buffer).pos as int;
    let ghost nw = name_wire(encode_utf8(domain@));
    match buffer.write_qname(domain) {
        Ok(_) => {}
        Err(e) => {
            proof {
                lemma_untouched_below_splice(buf0, pos0, write_name_attempt(encode_utf8(domain@)),
                    pos0);
            }
            return Err(e);
        }
    }
    proof {
        lemma_write_name_ok(encode_utf8(domain@), 0, pos0);
        lemma_untouched_below_splice(buf0, pos0, nw, pos0);
    }
    let ghost b1 = buffer.buf@;
    match buffer.write_u16(code) {
        Ok(_) => {}
        Err(e) => {
            proof {
                lemma_untouched_below_splice(b1, pos0 + nw.len(), u16_bytes(code), pos0);
                lemma_untouched_below_trans(buf0, b1, buffer.buf@, pos0);
            }
            return Err(e);
        }
    }
    proof {
        lemma_splice_concat(buf0, pos0, nw, u16_bytes(code));
    }
    let ghost b2 = buffer.buf@;
    match buffer.write_u16(1) {
        Ok(_) => {}
        Err(e) => {
            proof {
                lemma_untouched_below_splice(b2, pos0 + nw.len() + 2, u16_bytes(1), pos0);
                lemma_untouched_below_trans(buf0, b2, buffer.buf@, pos0);
            }
            return Err(e);
        }
    }
    proof {
        lemma_splice_concat(buf0, pos0, nw + u16_bytes(code), u16_bytes(1));
    }
    let ghost b3 = buffer.buf@;
    match buffer.write_u32(ttl) {
        Ok(_) => {}
        Err(e) => {
            proof {
                lemma_untouched_below_splice(b3, pos0 + nw.len() + 4, u32_bytes(ttl), pos0);
                lemma_untouched_below_trans(buf0, b3, buffer.buf@, pos0);
            }
            return Err(e);
        }
    }
    proof {
        lemma_splice_concat(buf0, pos0, nw + u16_bytes(code) + u16_bytes(1), u32_bytes(ttl));
        assert(buffer.buf@ =~= splice(buf0, pos0, record_head_wire(domain@, code, ttl)));
        lemma_untouched_below_splice(buf0, pos0, record_head_wire(domain@, code, ttl), pos0);
    }
    Ok(())
}

/// Write an A record: preamble, rdata length 4, the four octets.
#[verifier::rlimit(100)]
#[verifier::loop_isolation(false)]
fn write_a(buffer: &mut BytePacketBuffer, domain: &str, addr: Ipv4Address, ttl: u32) -> (r: Result<
    (),
    DnsError,
>)
    requires
        old(buffer).wf(),
    ensures
        final(buffer).wf(),
        ({
            let m = RecordModel::A { domain: domain@, addr, ttl };
            same_result(r, write_record_result(m, old(buffer).pos as int)) && (r is Ok
                ==> final(buffer).buf@ == splice(old(buffer).buf@, old(buffer).pos as int, record_wire(m))
                && final(buffer).pos == old(buffer).pos + record_wire(m).len())
        }),
        final(buffer).pos >= old(buffer).pos,
        untouched_below(old(buffer).buf@, final(buffer).buf@, old(buffer).pos as int),
{
    proof {
        reveal(record_wire);
        reveal(write_record_result);
    }
    let ghost buf0 = old(buffer).buf@;
    let ghost pos0 = old(buffer).pos as int;
    let ghost head = record_head_wire(domain@, 1, ttl);
    match write_head(buffer, domain, 1, ttl) {
        Ok(_) => {}
        Err(e) => return Err(e),
    }
    let ghost b1 = buffer.buf@;
    match buffer.write_u16(4) {
        Ok(_) => {}
        Err(e) => {
            proof {
                lemma_untouched_below_splice(b1, pos0 + head.len(), u16_bytes(4), pos0);
                lemma_untouched_below_trans(buf0, b1, buffer.buf@, pos0);
            }
            return Err(e);
        }
    }
    proof {
        lemma_splice_concat(buf0, pos0, head, u16_bytes(4));
    }
    let ghost w = head + u16_bytes(4);
    let mut i: usize = 0;
    // the four octets, most significant first
    let octets: [u8; 4] = [addr.a, addr.b, addr.c, addr.d];
    while i < 4
        invariant
            buffer.wf(),
            i <= 4,
            octets@ == seq![addr.a, addr.b, addr.c, addr.d],
            buffer.buf@ == splice(buf0, pos0, w + octets@.take(i as int)),
            buffer.pos == pos0 + w.len() + i,
            buffer.pos <= 512,
            pos0 + w.len() + 4 <= 516,
        decreases 4 - i,
    {
        let ghost wcur = w + octets@.take(i as int);
        match buffer.write_u8(octets[i]) {
            Ok(_) => {}
            Err(_) => {
                proof {
                    lemma_untouched_below_splice(buf0, pos0, wcur, pos0);
                }
                return Err(DnsError::EndOfBuffer);
            }
        }
        proof {
            lemma_splice_push(buf0, pos0, wcur, octets@[i as int]);
            assert(wcur.push(octets@[i as int]) =~= w + octets@.take(i + 1));
        }
        i = i + 1;
    }
    proof {
        let m = RecordModel::A { domain: domain@, addr, ttl };
        assert(octets@.take(4) =~= octets@);
        assert(w + octets@ =~= record_wire(m));
        lemma_untouched_below_splice(buf0, pos0, record_wire(m), pos0);
    }
    Ok(())
}

/// Write an NS or CNAME record: preamble, a reserved 2-byte length
/// slot, the host name, then the length patched in.
#[verifier::rlimit(100)]
fn write_host_record(
    buffer: &mut BytePacketBuffer,
    domain: &str,
    code: u16,
    host: &str,
    ttl: u32,
) -> (r: Result<(), DnsError>)
    requires
        old(buffer).wf(),
        code == 2 || code == 5,
    ensures
        final(buffer).wf(),
        ({
            let m = if code == 2 {
                RecordModel::NS { domain: domain@, host: host@, ttl }
            } else {
                RecordModel::CNAME { domain: domain@, host: host@, ttl }
            };
            same_result(r, write_record_result(m, old(buffer).pos as int)) && (r is Ok
                ==> final(buffer).buf@ == splice(old(buffer).buf@, old(buffer).pos as int, record_wire(m))
                && final(buffer).pos == old(buffer).pos + record_wire(m).len())
        }),
        final(buffer).pos >= old(buffer).pos,
        untouched_below(old(buffer).buf@, final(buffer).buf@, old(buffer).pos as int),
{
    proof {
        reveal(record_wire);
        reveal(write_record_result);
    }
    let ghost buf0 = old(buffer).buf@;
    let ghost pos0 = old(buffer).pos as int;
    let ghost head = record_head_wire(domain@, code, ttl);
    let ghost hw = name_wire(encode_utf8(host@));
    match write_head(buffer, domain, code, ttl) {
        Ok(_) => {}
        Err(e) => return Err(e),
    }
    let slot = buffer.pos();
    let ghost b1 = buffer.buf@;
    match buffer.write_u16(0) {
        Ok(_) => {}
        Err(e) => {
            proof {
                lemma_untouched_below_splice(b1, pos0 + head.len(), u16_bytes(0), pos0);
                lemma_untouched_below_trans(buf0, b1, buffer.buf@, pos0);
            }
            return Err(e);
        }
    }
    proof {
        lemma_splice_concat(buf0, pos0, head, u16_bytes(0));
    }
    let ghost b2 = buffer.buf@;
    match buffer.write_qname(host) {
        Ok(_) => {}
        Err(e) => {
            proof {
                lemma_untouched_below_splice(b2, pos0 + head.len() + 2, write_name_attempt(
                    encode_utf8(host@),
                ), pos0);
                lemma_untouched_below_trans(buf0, b2, buffer.buf@, pos0);
            }
            return Err(e);
        }
    }
    proof {
        lemma_write_name_ok(encode_utf8(host@), 0, pos0 + head.len() + 2);
        lemma_splice_concat(buf0, pos0, head + u16_bytes(0), hw);
    }
    let size = buffer.pos() - (slot + 2);
    let ghost b3 = buffer.buf@;
    match buffer.set_u16(slot, size as u16) {
        Ok(_) => {}
        Err(_) => {}
    }
    proof {
        let m = if code == 2 {
            RecordModel::NS { domain: domain@, host: host@, ttl }
        } else {
            RecordModel::CNAME { domain: domain@, host: host@, ttl }
        };
        assert(size == hw.len());
        assert(buffer.buf@ =~= splice(buf0, pos0, record_wire(m)));
        lemma_untouched_below_splice(buf0, pos0, record_wire(m), pos0);
    }
    Ok(())
}

/// Write an MX record: preamble, a reserved length slot, the 16-bit
/// priority, the host name, then the length patched in.
#[verifier::rlimit(100)]
fn write_mx(
    buffer: &mut BytePacketBuffer,
    domain: &str,
    priority: u16,
    host: &str,
    ttl: u32,
) -> (r: Result<(), DnsError>)
    requires
        old(buffer).wf(),
    ensures
        final(buffer).wf(),
        ({
            let m = RecordModel::MX { domain: domain@, priority, host: host@, ttl };
            same_result(r, write_record_result(m, old(buffer).pos as int)) && (r is Ok
                ==> final(buffer).buf@ == splice(old(buffer).buf@, old(buffer).pos as int, record_wire(m))
                && final(buffer).pos == old(buffer).pos + record_wire(m).len())
        }),
        final(buffer).pos >= old(buffer).pos,
        untouched_below(old(buffer).buf@, final(buffer).buf@, old(buffer).pos as int),
{
    proof {
        reveal(record_wire);
        reveal(write_record_result);
    }
    let ghost buf0 = old(buffer).buf@;
    let ghost pos0 = old(buffer).pos as int;
    let ghost head = record_head_wire(domain@, 15, ttl);
    let ghost hw = name_wire(encode_utf8(host@));
    match write_head(buffer, domain, 15, ttl) {
        Ok(_) => {}
        Err(e) => return Err(e),
    }
    let slot = buffer.pos();
    let ghost b1 = buffer.buf@;
    match buffer.write_u16(0) {
        Ok(_) => {}
        Err(e) => {
            proof {
                lemma_untouched_below_splice(b1, pos0 + head.len(), u16_bytes(0), pos0);
                lemma_untouched_below_trans(buf0, b1, buffer.buf@, pos0);
            }
            return Err(e);
        }
    }
    proof {
        lemma_splice_concat(buf0, pos0, head, u16_bytes(0));
    }
    let ghost b2 = buffer.buf@;
    match buffer.write_u16(priority) {
        Ok(_) => {}
        Err(e) => {
            proof {
                lemma_untouched_below_splice(b2, pos0 + head.len() + 2, u16_bytes(priority), pos0);
                lemma_untouched_below_trans(buf0, b2, buffer.buf@, pos0);
            }
            return Err(e);
        }
    }
    proof {
        lemma_splice_concat(buf0, pos0, head + u16_bytes(0), u16_bytes(priority));
    }
    let ghost b3 = buffer.buf@;
    match buffer.write_qname(host) {
        Ok(_) => {}
        Err(e) => {
            proof {
                lemma_untouched_below_splice(b3, pos0 + head.len() + 4, write_name_attempt(
                    encode_utf8(host@),
                ), pos0);
                lemma_untouched_below_trans(buf0, b3, buffer.buf@, pos0);
            }
            return Err(e);
        }
    }
    proof {
        lemma_write_name_ok(encode_utf8(host@), 0, pos0 + head.len() + 4);
        lemma_splice_concat(buf0, pos0, head + u16_bytes(0) + u16_bytes(priority), hw);
    }
    let size = buffer.pos() - (slot + 2);
    match buffer.set_u16(slot, size as u16) {
        Ok(_) => {}
        Err(_) => {}
    }
    proof {
        let m = RecordModel::MX { domain: domain@, priority, host: host@, ttl };
        assert(size == 2 + hw.len());
        assert(buffer.buf@ =~= splice(buf0, pos0, record_wire(m)));
        lemma_untouched_below_splice(buf0, pos0, record_wire(m), pos0);
    }
    Ok(())
}

/// Write an AAAA record: preamble, rdata length 16, the eight groups.
#[verifier::rlimit(100)]
fn write_aaaa(buffer: &mut BytePacketBuffer, domain: &str, addr: Ipv6Address, ttl: u32) -> (r:
    Result<(), DnsError>)
    requires
        old(buffer).wf(),
    ensures
        final(buffer).wf(),
        ({
            let m = RecordModel::AAAA { domain: domain@, addr, ttl };
            same_result(r, write_record_result(m, old(buffer).pos as int)) && (r is Ok
                ==> final(buffer).buf@ == splice(old(buffer).buf@, old(buffer).pos as int, record_wire(m))
                && final(buffer).pos == old(buffer).pos + record_wire(m).len())
        }),
        final(buffer).pos >= old(buffer).pos,
        untouched_below(old(buffer).buf@, final(buffer).buf@, old(buffer).pos as int),
{
    proof {
        reveal(record_wire);
        reveal(write_record_result);
    }
    let ghost buf0 = old(buffer).buf@;
    let ghost pos0 = old(buffer).pos as int;
    let ghost head = record_head_wire(domain@, 28, ttl);
    match write_head(buffer, domain, 28, ttl) {
        Ok(_) => {}
        Err(e) => return Err(e),
    }
    let ghost b0 = buffer.buf@;
    match buffer.write_u16(16) {
        Ok(_) => {}
        Err(e) => {
            proof {
                lemma_untouched_below_splice(b0, pos0 + head.len(), u16_bytes(16), pos0);
                lemma_untouched_below_trans(buf0, b0, buffer.buf@, pos0);
            }
            return Err(e);
        }
    }
    proof {
        lemma_splice_concat(buf0, pos0, head, u16_bytes(16));
    }
    let ghost w0 = head + u16_bytes(16);
    let ghost b1 = buffer.buf@;
    match buffer.write_u16(addr.g0) {
        Ok(_) => {}
        Err(e) => {
            proof {
                lemma_untouched_below_splice(buf0, pos0, w0, pos0);
                lemma_untouched_below_splice(b1, pos0 + w0.len(), u16_bytes(addr.g0), pos0);
                lemma_untouched_below_trans(buf0, b1, buffer.buf@, pos0);
            }
            return Err(e);
        }
    }
    proof {
        lemma_splice_concat(buf0, pos0, w0, u16_bytes(addr.g0));
    }
    let ghost w1 = w0 + u16_bytes(addr.g0);
    let ghost b2 = buffer.buf@;
    match buffer.write_u16(addr.g1) {
        Ok(_) => {}
        Err(e) => {
            proof {
                lemma_untouched_below_splice(buf0, pos0, w1, pos0);
                lemma_untouched_below_splice(b2, pos0 + w1.len(), u16_bytes(addr.g1), pos0);
                lemma_untouched_below_trans(buf0, b2, buffer.buf@, pos0);
            }
            return Err(e);
        }
    }
    proof {
        lemma_splice_concat(buf0, pos0, w1, u16_bytes(addr.g1));
    }
    let ghost w2 = w1 + u16_bytes(addr.g1);
    let ghost b3 = buffer.buf@;
    match buffer.write_u16(addr.g2) {
        Ok(_) => {}
        Err(e) => {
            proof {
                lemma_untouched_below_splice(buf0, pos0, w2, pos0);
                lemma_untouched_below_splice(b3, pos0 + w2.len(), u16_bytes(addr.g2), pos0);
                lemma_untouched_below_trans(buf0, b3, buffer.buf@, pos0);
            }
            return Err(e);
        }
    }
    proof {
        lemma_splice_concat(buf0, pos0, w2, u16_bytes(addr.g2));
    }
    let ghost w3 = w2 + u16_bytes(addr.g2);
    let ghost b4 = buffer.buf@;
    match buffer.write_u16(addr.g3) {
        Ok(_) => {}
        Err(e) => {
            proof {
                lemma_untouched_below_splice(buf0, pos0, w3, pos0);
                lemma_untouched_below_splice(b4, pos0 + w3.len(), u16_bytes(addr.g3), pos0);
                lemma_untouched_below_trans(buf0, b4, buffer.buf@, pos0);
            }
            return Err(e);
        }
    }
    proof {
        lemma_splice_concat(buf0, pos0, w3, u16_bytes(addr.g3));
    }
    let ghost w4 = w3 + u16_bytes(addr.g3);
    let ghost b5 = buffer.buf@;
    match buffer.write_u16(addr.g4) {
        Ok(_) => {}
        Err(e) => {
            proof {
                lemma_untouched_below_splice(buf0, pos0, w4, pos0);
                lemma_untouched_below_splice(b5, pos0 + w4.len(), u16_bytes(addr.g4), pos0);
                lemma_untouched_below_trans(buf0, b5, buffer.buf@, pos0);
            }
            return Err(e);
        }
    }
    proof {
        lemma_splice_concat(buf0, pos0, w4, u16_bytes(addr.g4));
    }
    let ghost w5 = w4 + u16_bytes(addr.g4);
    let ghost b6 = buffer.buf@;
    match buffer.write_u16(addr.g5) {
        Ok(_) => {}
        Err(e) => {
            proof {
                lemma_untouched_below_splice(buf0, pos0, w5, pos0);
                lemma_untouched_below_splice(b6, pos0 + w5.len(), u16_bytes(addr.g5), pos0);
                lemma_untouched_below_trans(buf0, b6, buffer.buf@, pos0);
            }
            return Err(e);
        }
    }
    proof {
        lemma_splice_concat(buf0, pos0, w5, u16_bytes(addr.g5));
    }
    let ghost w6 = w5 + u16_bytes(addr.g5);
    let ghost b7 = buffer.buf@;
    match buffer.write_u16(addr.g6) {
        Ok(_) => {}
        Err(e) => {
            proof {
                lemma_untouched_below_splice(buf0, pos0, w6, pos0);
                lemma_untouched_below_splice(b7, pos0 + w6.len(), u16_bytes(addr.g6), pos0);
                lemma_untouched_below_trans(buf0, b7, buffer.buf@, pos0);
            }
            return Err(e);
        }
    }
    proof {
        lemma_splice_concat(buf0, pos0, w6, u16_bytes(addr.g6));
    }
    let ghost w7 = w6 + u16_bytes(addr.g6);
    let ghost b8 = buffer.buf@;
    match buffer.write_u16(addr.g7) {
        Ok(_) => {}
        Err(e) => {
            proof {
                lemma_untouched_below_splice(buf0, pos0, w7, pos0);
                lemma_untouched_below_splice(b8, pos0 + w7.len(), u16_bytes(addr.g7), pos0);
                lemma_untouched_below_trans(buf0, b8, buffer.buf@, pos0);
            }
            return Err(e);
        }
    }
    proof {
        lemma_splice_concat(buf0, pos0, w7, u16_bytes(addr.g7));
    }
    let ghost w8 = w7 + u16_bytes(addr.g7);
    proof {
        let m = RecordModel::AAAA { domain: domain@, addr, ttl };
        assert(w8 =~= record_wire(m));
        lemma_untouched_below_splice(buf0, pos0, record_wire(m), pos0);
    }
    Ok(())
}

} // verus!
