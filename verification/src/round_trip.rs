use vstd::prelude::*;
use vstd::utf8::encode_utf8;

use crate::byte_packet_buffer::{lemma_be16_round_trip, lemma_be32_round_trip, u16_bytes};
use crate::dns_error::DnsError;
use crate::dns_header::lemma_header_round_trip;
use crate::dns_packet::{packet_wire, parse_packet, parse_sections, questions_wire, records_wire,
    sections_wire, PacketModel,
    PacketParse, SectionLists, SectionsParse};
use crate::dns_question::{parse_question, question_wire, QuestionModel, QuestionParse};
use crate::dns_record::{parse_record, rdata_wire, record_domain, record_ttl, record_type_num,
    record_wire, Ipv4Address, RecordModel, RecordParse};
use crate::name::{ascii_lower, labels_fit, labels_nonempty, lemma_name_round_trip,
    lemma_name_text_ascii, name_text, name_wire};

verus! {

/// A name as the decoder renders it back: labels joined by dots, each
/// decoded lossily and lowercased.
pub open spec fn lower_name(n: Seq<char>) -> Seq<char> {
    name_text(encode_utf8(n))
}

/// Law: for an all-ASCII name the rendering is exactly the name
/// lowercased, character for character.
pub proof fn lemma_lower_name_ascii(n: Seq<char>)
    requires
        vstd::utf8::is_ascii_chars(n),
    ensures
        lower_name(n) == ascii_lower(n),
{
    let bytes = encode_utf8(n);
    vstd::utf8::is_ascii_chars_encode_utf8(n);
    vstd::utf8::is_ascii_chars_nat_bound(n);
    assert(forall|i: int| 0 <= i < bytes.len() ==> bytes[i] < 128) by {
        assert(forall|i: int| 0 <= i < n.len() ==> #[trigger] bytes[i] == n[i] as u8);
    }
    lemma_name_text_ascii(bytes);
    assert(name_text(bytes) =~= ascii_lower(n));
}

/// The name survives the wire: nonempty labels of at most 63 bytes.
pub open spec fn name_encodable(n: Seq<char>) -> bool {
    labels_fit(encode_utf8(n)) && labels_nonempty(encode_utf8(n))
}

/// The question survives the wire: its name is encodable and its
/// query type does not hide a known type code inside `UNKNOWN`.
pub open spec fn question_encodable(q: QuestionModel) -> bool {
    name_encodable(q.name) && q.qtype.round_trips()
}

/// The question as a decode renders it: its name lowercased.
pub open spec fn lower_question(q: QuestionModel) -> QuestionModel {
    QuestionModel { name: lower_name(q.name), qtype: q.qtype }
}

/// The record survives the wire: a known type with encodable names.
pub open spec fn record_encodable(r: RecordModel) -> bool {
    match r {
        RecordModel::UNKNOWN { .. } => false,
        RecordModel::A { domain, .. } => name_encodable(domain),
        RecordModel::AAAA { domain, .. } => name_encodable(domain),
        RecordModel::NS { domain, host, .. } => name_encodable(domain) && name_encodable(host),
        RecordModel::CNAME { domain, host, .. } => name_encodable(domain) && name_encodable(host),
        RecordModel::MX { domain, host, .. } => name_encodable(domain) && name_encodable(host),
    }
}

/// The record as a decode renders it: its names lowercased.
pub open spec fn lower_record(r: RecordModel) -> RecordModel {
    match r {
        RecordModel::UNKNOWN { domain, qtype, data_len, ttl } => RecordModel::UNKNOWN {
            domain: lower_name(domain),
            qtype,
            data_len,
            ttl,
        },
        RecordModel::A { domain, addr, ttl } => RecordModel::A {
            domain: lower_name(domain),
            addr,
            ttl,
        },
        RecordModel::NS { domain, host, ttl } => RecordModel::NS {
            domain: lower_name(domain),
            host: lower_name(host),
            ttl,
        },
        RecordModel::CNAME { domain, host, ttl } => RecordModel::CNAME {
            domain: lower_name(domain),
            host: lower_name(host),
            ttl,
        },
        RecordModel::MX { domain, priority, host, ttl } => RecordModel::MX {
            domain: lower_name(domain),
            priority,
            host: lower_name(host),
            ttl,
        },
        RecordModel::AAAA { domain, addr, ttl } => RecordModel::AAAA {
            domain: lower_name(domain),
            addr,
            ttl,
        },
    }
}

/// Law: the four rdata bytes of an A record are exactly its address
/// octets, and decoding them restores the same address.
pub proof fn lemma_ipv4_rdata_round_trip(domain: Seq<char>, addr: Ipv4Address, ttl: u32)
    ensures
        rdata_wire(RecordModel::A { domain, addr, ttl }) == seq![addr.a, addr.b, addr.c, addr.d],
        ({
            let parsed = crate::dns_record::parse_rdata(
                seq![addr.a, addr.b, addr.c, addr.d] + Seq::new(508, |i: int| 0u8),
                0,
                domain,
                1,
                ttl,
                4,
            );
            parsed.outcome == Ok::<RecordModel, DnsError>(RecordModel::A { domain, addr, ttl })
                && parsed.end == 4
        }),
{
    let buf = seq![addr.a, addr.b, addr.c, addr.d] + Seq::new(508, |i: int| 0u8);
    assert(buf[0] == addr.a && buf[1] == addr.b && buf[2] == addr.c && buf[3] == addr.d);
}

/// Every question of the run survives the wire.
pub open spec fn questions_encodable(qs: Seq<QuestionModel>) -> bool {
    forall|i: int| 0 <= i < qs.len() ==> question_encodable(#[trigger] qs[i])
}

/// Every record of the run survives the wire.
pub open spec fn records_encodable(rs: Seq<RecordModel>) -> bool {
    forall|i: int| 0 <= i < rs.len() ==> record_encodable(#[trigger] rs[i])
}

/// The questions as a decode renders them.
pub open spec fn lower_questions(qs: Seq<QuestionModel>) -> Seq<QuestionModel> {
    qs.map_values(|q: QuestionModel| lower_question(q))
}

/// The records as a decode renders them.
pub open spec fn lower_records(rs: Seq<RecordModel>) -> Seq<RecordModel> {
    rs.map_values(|r: RecordModel| lower_record(r))
}

/// The packet's four header counts equal its section lengths.
pub open spec fn counts_match(p: PacketModel) -> bool {
    p.header.questions_count == p.questions.len() && p.header.answers_count == p.answers.len()
        && p.header.authority_count == p.authorities.len() && p.header.additional_count
        == p.resources.len()
}

/// The packet survives the wire: every name encodable, every record
/// of a known type, every query type honest, and the opcode within
/// its four bits.
pub open spec fn packet_encodable(p: PacketModel) -> bool {
    questions_encodable(p.questions) && records_encodable(p.answers) && records_encodable(
        p.authorities,
    ) && records_encodable(p.resources) && p.header.opcode < 16
}

/// The packet as a decode renders it: every name lowercased.
pub open spec fn lower_packet(p: PacketModel) -> PacketModel {
    PacketModel {
        header: p.header,
        questions: lower_questions(p.questions),
        answers: lower_records(p.answers),
        authorities: lower_records(p.authorities),
        resources: lower_records(p.resources),
    }
}

/// Law: a question laid down on the wire parses back as itself with
/// its name lowercased, consuming exactly its own bytes.
pub proof fn lemma_parse_question_of_wire(buf: Seq<u8>, q: QuestionModel, pos: int)
    requires
        buf.len() == 512,
        0 <= pos,
        pos + question_wire(q).len() <= 512,
        buf.subrange(pos, pos + question_wire(q).len()) == question_wire(q),
        question_encodable(q),
    ensures
        parse_question(buf, pos) == (QuestionParse {
            outcome: Ok::<QuestionModel, DnsError>(lower_question(q)),
            end: pos + question_wire(q).len(),
        }),
{
    reveal(parse_question);
    let nb = encode_utf8(q.name);
    let nw = name_wire(nb);
    let qw = question_wire(q);
    lemma_window_bytes(buf, pos, qw);
    assert(buf.subrange(pos, pos + nw.len() as int) =~= nw);
    lemma_name_round_trip(buf, pos, nb);
    let p1 = pos + nw.len() as int;
    let tn = q.qtype.spec_to_num();
    assert(buf[p1] == u16_bytes(tn)[0] && buf[p1 + 1] == u16_bytes(tn)[1]);
    lemma_be16_round_trip(tn, 0, 0);
    crate::query_type::lemma_query_type_round_trip(q.qtype, 0);
}

/// The shared preamble of a known-type record parses back: the owner
/// name lowered and the type, ttl and rdata length read from their
/// bytes, leaving the parse at the rdata dispatch.
#[verifier::rlimit(100)]
#[verifier::spinoff_prover]
proof fn lemma_parse_record_preamble(buf: Seq<u8>, r: RecordModel, pos: int)
    requires
        buf.len() == 512,
        0 <= pos,
        pos + record_wire(r).len() <= 512,
        buf.subrange(pos, pos + record_wire(r).len()) == record_wire(r),
        record_encodable(r),
    ensures
        ({
            let p2 = pos + name_wire(encode_utf8(record_domain(r))).len() + 10;
            parse_record(buf, pos) == crate::dns_record::parse_rdata(
                buf,
                p2,
                lower_name(record_domain(r)),
                record_type_num(r),
                record_ttl(r),
                rdata_wire(r).len() as u16,
            ) && buf.subrange(p2, p2 + rdata_wire(r).len()) == rdata_wire(r) && record_wire(
                r,
            ).len() == name_wire(encode_utf8(record_domain(r))).len() + 10 + rdata_wire(r).len()
                && p2 + rdata_wire(r).len() <= 512
        }),
{
    reveal(record_wire);
    reveal(parse_record);
    let nb = encode_utf8(record_domain(r));
    let nw = name_wire(nb);
    let rw = record_wire(r);
    let rd = rdata_wire(r);
    lemma_window_bytes(buf, pos, rw);
    assert(buf.subrange(pos, pos + nw.len() as int) =~= nw);
    lemma_name_round_trip(buf, pos, nb);
    let p1 = pos + nw.len() as int;
    let tn = record_type_num(r);
    assert(buf[p1] == u16_bytes(tn)[0] && buf[p1 + 1] == u16_bytes(tn)[1]);
    lemma_be16_round_trip(tn, 0, 0);
    let ttl = record_ttl(r);
    let tb = crate::byte_packet_buffer::u32_bytes(ttl);
    assert(buf[p1 + 4] == tb[0] && buf[p1 + 5] == tb[1] && buf[p1 + 6] == tb[2] && buf[p1 + 7]
        == tb[3]);
    lemma_be32_round_trip(ttl, 0, 0, 0, 0);
    let rl = (rd.len() as u16);
    assert(buf[p1 + 8] == u16_bytes(rl)[0] && buf[p1 + 9] == u16_bytes(rl)[1]);
    lemma_be16_round_trip(rl, 0, 0);
    assert(buf.subrange(p1 + 10, p1 + 10 + rd.len() as int) =~= rd);
}

/// The sixteen AAAA rdata bytes parse back into the eight groups.
#[verifier::spinoff_prover]
proof fn lemma_parse_rdata_aaaa(
    buf: Seq<u8>,
    domain: Seq<char>,
    addr: crate::dns_record::Ipv6Address,
    ttl: u32,
    dl: u16,
    p2: int,
)
    requires
        buf.len() == 512,
        0 <= p2,
        p2 + 16 <= 512,
        buf.subrange(p2, p2 + 16) == u16_bytes(addr.g0) + u16_bytes(addr.g1) + u16_bytes(addr.g2)
            + u16_bytes(addr.g3) + u16_bytes(addr.g4) + u16_bytes(addr.g5) + u16_bytes(addr.g6)
            + u16_bytes(addr.g7),
    ensures
        crate::dns_record::parse_rdata(buf, p2, domain, 28, ttl, dl) == (RecordParse {
            outcome: Ok::<RecordModel, DnsError>(RecordModel::AAAA { domain, addr, ttl }),
            end: p2 + 16,
        }),
{
    let gw = u16_bytes(addr.g0) + u16_bytes(addr.g1) + u16_bytes(addr.g2) + u16_bytes(addr.g3)
        + u16_bytes(addr.g4) + u16_bytes(addr.g5) + u16_bytes(addr.g6) + u16_bytes(addr.g7);
    assert(gw.len() == 16);
    lemma_window_bytes(buf, p2, gw);
    assert(buf[p2] == u16_bytes(addr.g0)[0] && buf[p2 + 1] == u16_bytes(addr.g0)[1]);
    assert(buf[p2 + 2] == u16_bytes(addr.g1)[0] && buf[p2 + 3] == u16_bytes(addr.g1)[1]);
    assert(buf[p2 + 4] == u16_bytes(addr.g2)[0] && buf[p2 + 5] == u16_bytes(addr.g2)[1]);
    assert(buf[p2 + 6] == u16_bytes(addr.g3)[0] && buf[p2 + 7] == u16_bytes(addr.g3)[1]);
    assert(buf[p2 + 8] == u16_bytes(addr.g4)[0] && buf[p2 + 9] == u16_bytes(addr.g4)[1]);
    assert(buf[p2 + 10] == u16_bytes(addr.g5)[0] && buf[p2 + 11] == u16_bytes(addr.g5)[1]);
    assert(buf[p2 + 12] == u16_bytes(addr.g6)[0] && buf[p2 + 13] == u16_bytes(addr.g6)[1]);
    assert(buf[p2 + 14] == u16_bytes(addr.g7)[0] && buf[p2 + 15] == u16_bytes(addr.g7)[1]);
    lemma_be16_round_trip(addr.g0, 0, 0);
    lemma_be16_round_trip(addr.g1, 0, 0);
    lemma_be16_round_trip(addr.g2, 0, 0);
    lemma_be16_round_trip(addr.g3, 0, 0);
    lemma_be16_round_trip(addr.g4, 0, 0);
    lemma_be16_round_trip(addr.g5, 0, 0);
    lemma_be16_round_trip(addr.g6, 0, 0);
    lemma_be16_round_trip(addr.g7, 0, 0);
}

/// Law: a known-type record laid down on the wire parses back as
/// itself with its names lowercased, consuming exactly its own bytes.
#[verifier::rlimit(100)]
#[verifier::spinoff_prover]
pub proof fn lemma_parse_record_of_wire(buf: Seq<u8>, r: RecordModel, pos: int)
    requires
        buf.len() == 512,
        0 <= pos,
        pos + record_wire(r).len() <= 512,
        buf.subrange(pos, pos + record_wire(r).len()) == record_wire(r),
        record_encodable(r),
    ensures
        parse_record(buf, pos) == (RecordParse {
            outcome: Ok::<RecordModel, DnsError>(lower_record(r)),
            end: pos + record_wire(r).len(),
        }),
{
    lemma_parse_record_preamble(buf, r, pos);
    let rd = rdata_wire(r);
    let p2 = pos + name_wire(encode_utf8(record_domain(r))).len() + 10;
    match r {
        RecordModel::UNKNOWN { .. } => {}
        RecordModel::A { domain, addr, ttl } => {
            lemma_window_bytes(buf, p2, rd);
            assert(buf[p2] == addr.a && buf[p2 + 1] == addr.b && buf[p2 + 2] == addr.c && buf[p2
                + 3] == addr.d);
        }
        RecordModel::NS { domain, host, ttl } => {
            let hb = encode_utf8(host);
            lemma_name_round_trip(buf, p2, hb);
        }
        RecordModel::CNAME { domain, host, ttl } => {
            let hb = encode_utf8(host);
            lemma_name_round_trip(buf, p2, hb);
        }
        RecordModel::MX { domain, priority, host, ttl } => {
            let hb = encode_utf8(host);
            let hw = name_wire(hb);
            lemma_window_bytes(buf, p2, rd);
            assert(buf[p2] == u16_bytes(priority)[0] && buf[p2 + 1] == u16_bytes(priority)[1]);
            assert(buf.subrange(p2 + 2, p2 + 2 + hw.len() as int) =~= hw);
            lemma_be16_round_trip(priority, 0, 0);
            lemma_name_round_trip(buf, p2 + 2, hb);
        }
        RecordModel::AAAA { domain, addr, ttl } => {
            assert(rd =~= u16_bytes(addr.g0) + u16_bytes(addr.g1) + u16_bytes(addr.g2)
                + u16_bytes(addr.g3) + u16_bytes(addr.g4) + u16_bytes(addr.g5) + u16_bytes(
                addr.g6,
            ) + u16_bytes(addr.g7));
            assert(rd.len() == 16);
            lemma_window_bytes(buf, p2, rd);
            assert(buf.subrange(p2, p2 + 16) =~= rd);
            lemma_parse_rdata_aaaa(buf, lower_name(domain), addr, record_ttl(r),
                rd.len() as u16, p2);
        }
    }
}

/// Every byte of a window equals the corresponding byte of what the
/// window holds.
pub proof fn lemma_window_bytes(buf: Seq<u8>, pos: int, x: Seq<u8>)
    requires
        0 <= pos,
        pos + x.len() <= buf.len(),
        buf.subrange(pos, pos + x.len() as int) == x,
    ensures
        forall|j: int| pos <= j < pos + x.len() ==> #[trigger] buf[j] == x[j - pos],
{
    assert forall|j: int| pos <= j < pos + x.len() implies #[trigger] buf[j] == x[j - pos] by {
        assert(buf.subrange(pos, pos + x.len() as int)[j - pos] == x[j - pos]);
    }
}

/// A window holding `x + y` splits into a window holding `x` and a
/// window holding `y`.
pub proof fn lemma_window_split(buf: Seq<u8>, pos: int, x: Seq<u8>, y: Seq<u8>)
    requires
        0 <= pos,
        pos + x.len() + y.len() <= buf.len(),
        buf.subrange(pos, pos + x.len() + y.len()) == x + y,
    ensures
        buf.subrange(pos, pos + x.len() as int) == x,
        buf.subrange(pos + x.len() as int, pos + x.len() + y.len()) == y,
{
    assert(buf.subrange(pos, pos + x.len() as int) =~= x) by {
        assert(forall|i: int|
            0 <= i < x.len() ==> #[trigger] buf.subrange(pos, pos + x.len() as int)[i]
                == buf.subrange(pos, pos + x.len() + y.len())[i]);
    }
    assert(buf.subrange(pos + x.len() as int, pos + x.len() + y.len()) =~= y) by {
        assert(forall|i: int|
            0 <= i < y.len() ==> #[trigger] buf.subrange(pos + x.len() as int, pos + x.len()
                + y.len())[i] == buf.subrange(pos, pos + x.len() + y.len())[x.len() + i]);
    }
}

/// All four sections laid down on the wire parse back, with every
/// name lowercased, consuming exactly their own bytes, when the
/// counts handed to the parser are the run lengths.
#[verifier::rlimit(100)]
#[verifier::spinoff_prover]
pub proof fn lemma_parse_sections_of_wire(
    buf: Seq<u8>,
    qs: Seq<QuestionModel>,
    ans: Seq<RecordModel>,
    auth: Seq<RecordModel>,
    res: Seq<RecordModel>,
    pos: int,
)
    requires
        buf.len() == 512,
        0 <= pos,
        pos + sections_wire(qs, ans, auth, res).len() <= 512,
        buf.subrange(pos, pos + sections_wire(qs, ans, auth, res).len()) == sections_wire(
            qs,
            ans,
            auth,
            res,
        ),
        questions_encodable(qs),
        records_encodable(ans),
        records_encodable(auth),
        records_encodable(res),
    ensures
        parse_sections(
            buf,
            pos,
            qs.len() as int,
            ans.len() as int,
            auth.len() as int,
            res.len() as int,
        ) == (SectionsParse {
            outcome: Ok::<SectionLists, DnsError>(
                SectionLists {
                    questions: lower_questions(qs),
                    answers: lower_records(ans),
                    authorities: lower_records(auth),
                    resources: lower_records(res),
                },
            ),
            end: pos + sections_wire(qs, ans, auth, res).len(),
        }),
    decreases qs.len() + ans.len() + auth.len() + res.len(),
{
    let sw = sections_wire(qs, ans, auth, res);
    if qs.len() >= 1 {
        let qw = question_wire(qs.first());
        let rest_sw = sections_wire(qs.drop_first(), ans, auth, res);
        assert(sw =~= qw + rest_sw) by {
            assert(questions_wire(qs) == qw + questions_wire(qs.drop_first()));
        }
        lemma_window_split(buf, pos, qw, rest_sw);
        lemma_parse_question_of_wire(buf, qs.first(), pos);
        lemma_parse_sections_of_wire(buf, qs.drop_first(), ans, auth, res, pos + qw.len() as int);
        assert(seq![lower_question(qs.first())] + lower_questions(qs.drop_first())
            =~= lower_questions(qs));
    } else if ans.len() >= 1 {
        let rw = record_wire(ans.first());
        let rest_sw = sections_wire(qs, ans.drop_first(), auth, res);
        assert(sw =~= rw + rest_sw) by {
            assert(records_wire(ans) == rw + records_wire(ans.drop_first()));
            assert(questions_wire(qs) =~= Seq::<u8>::empty());
        }
        lemma_window_split(buf, pos, rw, rest_sw);
        lemma_parse_record_of_wire(buf, ans.first(), pos);
        lemma_parse_sections_of_wire(buf, qs, ans.drop_first(), auth, res, pos + rw.len() as int);
        assert(seq![lower_record(ans.first())] + lower_records(ans.drop_first()) =~= lower_records(
            ans,
        ));
    } else if auth.len() >= 1 {
        let rw = record_wire(auth.first());
        let rest_sw = sections_wire(qs, ans, auth.drop_first(), res);
        assert(sw =~= rw + rest_sw) by {
            assert(records_wire(auth) == rw + records_wire(auth.drop_first()));
            assert(questions_wire(qs) =~= Seq::<u8>::empty());
            assert(records_wire(ans) =~= Seq::<u8>::empty());
        }
        lemma_window_split(buf, pos, rw, rest_sw);
        lemma_parse_record_of_wire(buf, auth.first(), pos);
        lemma_parse_sections_of_wire(buf, qs, ans, auth.drop_first(), res, pos + rw.len() as int);
        assert(seq![lower_record(auth.first())] + lower_records(auth.drop_first())
            =~= lower_records(auth));
    } else if res.len() >= 1 {
        let rw = record_wire(res.first());
        let rest_sw = sections_wire(qs, ans, auth, res.drop_first());
        assert(sw =~= rw + rest_sw) by {
            assert(records_wire(res) == rw + records_wire(res.drop_first()));
            assert(questions_wire(qs) =~= Seq::<u8>::empty());
            assert(records_wire(ans) =~= Seq::<u8>::empty());
            assert(records_wire(auth) =~= Seq::<u8>::empty());
        }
        lemma_window_split(buf, pos, rw, rest_sw);
        lemma_parse_record_of_wire(buf, res.first(), pos);
        lemma_parse_sections_of_wire(buf, qs, ans, auth, res.drop_first(), pos + rw.len() as int);
        assert(seq![lower_record(res.first())] + lower_records(res.drop_first()) =~= lower_records(
            res,
        ));
    } else {
        assert(lower_questions(qs) =~= Seq::<QuestionModel>::empty());
        assert(lower_records(ans) =~= Seq::<RecordModel>::empty());
        assert(lower_records(auth) =~= Seq::<RecordModel>::empty());
        assert(lower_records(res) =~= Seq::<RecordModel>::empty());
    }
}

/// Law: decoding an encoded packet gives the packet back structurally,
/// names compared lowercase, for any packet of known record types
/// whose header counts match its sections -- exactly as the encoder
/// leaves them.
pub proof fn lemma_packet_round_trip(buf: Seq<u8>, p: PacketModel, pos: int)
    requires
        buf.len() == 512,
        0 <= pos,
        counts_match(p),
        packet_encodable(p),
        pos + packet_wire(p).len() <= 512,
        buf.subrange(pos, pos + packet_wire(p).len()) == packet_wire(p),
    ensures
        parse_packet(buf, pos) == (PacketParse {
            outcome: Ok::<PacketModel, DnsError>(lower_packet(p)),
            end: pos + packet_wire(p).len(),
        }),
{
    let pw = packet_wire(p);
    let hb = crate::dns_header::header_bytes(p.header);
    let sw = sections_wire(p.questions, p.answers, p.authorities, p.resources);
    lemma_window_split(buf, pos, hb, sw);
    lemma_header_round_trip(p.header, buf, pos);
    lemma_parse_sections_of_wire(buf, p.questions, p.answers, p.authorities, p.resources,
        pos + 12);
}

/// Law: a wire message that a conforming encoder could have produced
/// re-encodes to itself after a decode: for a packet already in
/// canonical form -- lowercase names, counts matching the sections --
/// the decode returns the packet itself, so encoding it again yields
/// the same bytes.
pub proof fn lemma_encode_of_decode(buf: Seq<u8>, p: PacketModel, pos: int)
    requires
        buf.len() == 512,
        0 <= pos,
        counts_match(p),
        packet_encodable(p),
        lower_packet(p) == p,
        pos + packet_wire(p).len() <= 512,
        buf.subrange(pos, pos + packet_wire(p).len()) == packet_wire(p),
    ensures
        parse_packet(buf, pos).outcome == Ok::<PacketModel, DnsError>(p),
        packet_wire(crate::dns_packet::with_counts(p)) == buf.subrange(
            pos,
            pos + packet_wire(p).len(),
        ),
{
    lemma_packet_round_trip(buf, p, pos);
    assert(crate::dns_packet::with_counts(p) == p);
}

} // verus!
