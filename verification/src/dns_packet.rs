use vstd::prelude::*;

use vstd::string::StrSliceExecFns;

use crate::byte_packet_buffer::{splice, untouched_below, BytePacketBuffer};
use crate::dns_record::Ipv4Address;
use crate::dns_error::{same_result, DnsError};
use crate::dns_header::{header_bytes, header_from_bytes, DnsHeader};
use crate::dns_question::{parse_question, question_wire, write_question_result, DnsQuestion,
    QuestionModel};
use crate::dns_record::{parse_record, record_wire, write_record_result, DnsRecord, RecordModel};
use crate::query_type::QueryType;

verus! {

/// A whole DNS message: a header and four ordered sections.
#[derive(Clone, Debug, PartialEq)]
pub struct DnsPacket {
    pub header: DnsHeader,
    pub questions: Vec<DnsQuestion>,
    pub answers: Vec<DnsRecord>,
    pub authorities: Vec<DnsRecord>,
    pub resources: Vec<DnsRecord>,
}

/// The mathematical value of a packet.
pub struct PacketModel {
    pub header: DnsHeader,
    pub questions: Seq<QuestionModel>,
    pub answers: Seq<RecordModel>,
    pub authorities: Seq<RecordModel>,
    pub resources: Seq<RecordModel>,
}

impl View for DnsPacket {
    type V = PacketModel;

    open spec fn view(&self) -> PacketModel {
        PacketModel {
            header: self.header,
            questions: self.questions@.map_values(|q: DnsQuestion| q@),
            answers: self.answers@.map_values(|r: DnsRecord| r@),
            authorities: self.authorities@.map_values(|r: DnsRecord| r@),
            resources: self.resources@.map_values(|r: DnsRecord| r@),
        }
    }
}

/// The four parsed sections of a packet, header aside.
pub struct SectionLists {
    pub questions: Seq<QuestionModel>,
    pub answers: Seq<RecordModel>,
    pub authorities: Seq<RecordModel>,
    pub resources: Seq<RecordModel>,
}

/// The state a section parse ends in.
pub struct SectionsParse {
    pub outcome: Result<SectionLists, DnsError>,
    pub end: int,
}

/// The state a packet parse ends in.
pub struct PacketParse {
    pub outcome: Result<PacketModel, DnsError>,
    pub end: int,
}

/// Parse `nq` questions and then `na`, `nu` and `nr` records from
/// `pos` on, in section order.
pub open spec fn parse_sections(
    buf: Seq<u8>,
    pos: int,
    nq: int,
    na: int,
    nu: int,
    nr: int,
) -> SectionsParse
    decreases nq + na + nu + nr,
{
    if nq < 0 || na < 0 || nu < 0 || nr < 0 {
        SectionsParse {
            outcome: Ok(
                SectionLists {
                    questions: seq![],
                    answers: seq![],
                    authorities: seq![],
                    resources: seq![],
                },
            ),
            end: pos,
        }
    } else if nq >= 1 {
        let qp = parse_question(buf, pos);
        match qp.outcome {
            Err(e) => SectionsParse { outcome: Err(e), end: qp.end },
            Ok(q) => {
                let rest = parse_sections(buf, qp.end, nq - 1, na, nu, nr);
                match rest.outcome {
                    Err(e) => SectionsParse { outcome: Err(e), end: rest.end },
                    Ok(lists) => SectionsParse {
                        outcome: Ok(
                            SectionLists { questions: seq![q] + lists.questions, ..lists },
                        ),
                        end: rest.end,
                    },
                }
            }
        }
    } else if na >= 1 {
        let rp = parse_record(buf, pos);
        match rp.outcome {
            Err(e) => SectionsParse { outcome: Err(e), end: rp.end },
            Ok(rec) => {
                let rest = parse_sections(buf, rp.end, 0, na - 1, nu, nr);
                match rest.outcome {
                    Err(e) => SectionsParse { outcome: Err(e), end: rest.end },
                    Ok(lists) => SectionsParse {
                        outcome: Ok(SectionLists { answers: seq![rec] + lists.answers, ..lists }),
                        end: rest.end,
                    },
                }
            }
        }
    } else if nu >= 1 {
        let rp = parse_record(buf, pos);
        match rp.outcome {
            Err(e) => SectionsParse { outcome: Err(e), end: rp.end },
            Ok(rec) => {
                let rest = parse_sections(buf, rp.end, 0, 0, nu - 1, nr);
                match rest.outcome {
                    Err(e) => SectionsParse { outcome: Err(e), end: rest.end },
                    Ok(lists) => SectionsParse {
                        outcome: Ok(
                            SectionLists { authorities: seq![rec] + lists.authorities, ..lists },
                        ),
                        end: rest.end,
                    },
                }
            }
        }
    } else if nr >= 1 {
        let rp = parse_record(buf, pos);
        match rp.outcome {
            Err(e) => SectionsParse { outcome: Err(e), end: rp.end },
            Ok(rec) => {
                let rest = parse_sections(buf, rp.end, 0, 0, 0, nr - 1);
                match rest.outcome {
                    Err(e) => SectionsParse { outcome: Err(e), end: rest.end },
                    Ok(lists) => SectionsParse {
                        outcome: Ok(
                            SectionLists { resources: seq![rec] + lists.resources, ..lists },
                        ),
                        end: rest.end,
                    },
                }
            }
        }
    } else {
        SectionsParse {
            outcome: Ok(
                SectionLists {
                    questions: seq![],
                    answers: seq![],
                    authorities: seq![],
                    resources: seq![],
                },
            ),
            end: pos,
        }
    }
}

/// Where the cursor stands after a header read at `pos`.
pub open spec fn header_read_end(pos: int) -> int {
    if pos >= 512 {
        pos
    } else if pos + 12 <= 512 {
        pos + 12
    } else {
        512
    }
}

/// Parsing a packet at `pos`: the header, then exactly as many
/// questions and records as its four counts say.
pub open spec fn parse_packet(buf: Seq<u8>, pos: int) -> PacketParse {
    if pos + 12 > 512 {
        PacketParse { outcome: Err(DnsError::EndOfBuffer), end: header_read_end(pos) }
    } else {
        let h = header_from_bytes(buf, pos);
        let sp = parse_sections(
            buf,
            pos + 12,
            h.questions_count as int,
            h.answers_count as int,
            h.authority_count as int,
            h.additional_count as int,
        );
        match sp.outcome {
            Err(e) => PacketParse { outcome: Err(e), end: sp.end },
            Ok(lists) => PacketParse {
                outcome: Ok(
                    PacketModel {
                        header: h,
                        questions: lists.questions,
                        answers: lists.answers,
                        authorities: lists.authorities,
                        resources: lists.resources,
                    },
                ),
                end: sp.end,
            },
        }
    }
}

/// The wire bytes of a run of questions.
pub open spec fn questions_wire(qs: Seq<QuestionModel>) -> Seq<u8>
    decreases qs.len(),
{
    if qs.len() == 0 {
        seq![]
    } else {
        question_wire(qs.first()) + questions_wire(qs.drop_first())
    }
}

/// The wire bytes of a run of records.
pub open spec fn records_wire(rs: Seq<RecordModel>) -> Seq<u8>
    decreases rs.len(),
{
    if rs.len() == 0 {
        seq![]
    } else {
        record_wire(rs.first()) + records_wire(rs.drop_first())
    }
}

/// What writing a run of questions at `pos` returns.
pub open spec fn write_questions_result(qs: Seq<QuestionModel>, pos: int) -> Result<(), DnsError>
    decreases qs.len(),
{
    if qs.len() == 0 {
        Ok(())
    } else {
        match write_question_result(qs.first(), pos) {
            Err(e) => Err(e),
            Ok(_) => write_questions_result(qs.drop_first(), pos + question_wire(qs.first()).len()),
        }
    }
}

/// What writing a run of records at `pos` returns.
pub open spec fn write_records_result(rs: Seq<RecordModel>, pos: int) -> Result<(), DnsError>
    decreases rs.len(),
{
    if rs.len() == 0 {
        Ok(())
    } else {
        match write_record_result(rs.first(), pos) {
            Err(e) => Err(e),
            Ok(_) => write_records_result(rs.drop_first(), pos + record_wire(rs.first()).len()),
        }
    }
}

/// The wire bytes of the four sections, in order.
pub open spec fn sections_wire(
    qs: Seq<QuestionModel>,
    ans: Seq<RecordModel>,
    auth: Seq<RecordModel>,
    res: Seq<RecordModel>,
) -> Seq<u8> {
    questions_wire(qs) + records_wire(ans) + records_wire(auth) + records_wire(res)
}

/// What writing the four sections at `pos` returns.
pub open spec fn write_sections_result(
    qs: Seq<QuestionModel>,
    ans: Seq<RecordModel>,
    auth: Seq<RecordModel>,
    res: Seq<RecordModel>,
    pos: int,
) -> Result<(), DnsError> {
    match write_questions_result(qs, pos) {
        Err(e) => Err(e),
        Ok(_) => {
            let p1 = pos + questions_wire(qs).len();
            match write_records_result(ans, p1) {
                Err(e) => Err(e),
                Ok(_) => {
                    let p2 = p1 + records_wire(ans).len();
                    match write_records_result(auth, p2) {
                        Err(e) => Err(e),
                        Ok(_) => {
                            let p3 = p2 + records_wire(auth).len();
                            write_records_result(res, p3)
                        }
                    }
                }
            }
        }
    }
}

/// `p` with its four header counts forced to the section lengths,
/// exactly as the encoder fixes them before writing.
pub open spec fn with_counts(p: PacketModel) -> PacketModel {
    PacketModel {
        header: DnsHeader {
            questions_count: p.questions.len() as u16,
            answers_count: p.answers.len() as u16,
            authority_count: p.authorities.len() as u16,
            additional_count: p.resources.len() as u16,
            ..p.header
        },
        ..p
    }
}

/// The full wire form of a packet: its header, then every section.
pub open spec fn packet_wire(p: PacketModel) -> Seq<u8> {
    header_bytes(p.header) + sections_wire(p.questions, p.answers, p.authorities, p.resources)
}

/// What encoding a packet at `pos` returns.
pub open spec fn write_packet_result(p: PacketModel, pos: int) -> Result<(), DnsError> {
    if pos + 12 > 512 {
        Err(DnsError::EndOfBuffer)
    } else {
        write_sections_result(p.questions, p.answers, p.authorities, p.resources, pos + 12)
    }
}

/// `suffix` stands at the very end of `s`.
pub open spec fn suffix_of(suffix: Seq<char>, s: Seq<char>) -> bool {
    suffix.len() <= s.len() && s.skip(s.len() - suffix.len()) == suffix
}

/// Whether `s` ends with `suffix`, compared character by character.
#[verifier::loop_isolation(false)]
fn str_ends_with(s: &str, suffix: &str) -> (r: bool)
    ensures
        r == suffix_of(suffix@, s@),
{
    let sl = s.unicode_len();
    let tl = suffix.unicode_len();
    if tl > sl {
        proof {
            assert(!suffix_of(suffix@, s@));
        }
        return false;
    }
    let base = sl - tl;
    let mut j: usize = 0;
    while j < tl
        invariant
            tl <= sl,
            sl == s@.len(),
            tl == suffix@.len(),
            base == sl - tl,
            j <= tl,
            forall|k: int| 0 <= k < j ==> s@[base + k] == suffix@[k],
        decreases tl - j,
    {
        if s.get_char(base + j) != suffix.get_char(j) {
            proof {
                assert(s@.skip(base as int)[j as int] != suffix@[j as int]);
            }
            return false;
        }
        j = j + 1;
    }
    proof {
        assert(s@.skip(base as int) =~= suffix@);
    }
    true
}

/// The first A record in a run of records, if any.
pub open spec fn first_a_record(recs: Seq<RecordModel>) -> Option<Ipv4Address>
    decreases recs.len(),
{
    if recs.len() == 0 {
        None
    } else {
        match recs.first() {
            RecordModel::A { addr, .. } => Some(addr),
            _ => first_a_record(recs.drop_first()),
        }
    }
}

/// The `(zone, host)` pairs of the NS records among `auths` whose
/// zone is a suffix of `qname`, in order.
pub open spec fn ns_pairs(auths: Seq<RecordModel>, qname: Seq<char>) -> Seq<
    (Seq<char>, Seq<char>),
>
    decreases auths.len(),
{
    if auths.len() == 0 {
        seq![]
    } else {
        let rest = ns_pairs(auths.drop_first(), qname);
        match auths.first() {
            RecordModel::NS { domain, host, .. } => if suffix_of(domain, qname) {
                seq![(domain, host)] + rest
            } else {
                rest
            },
            _ => rest,
        }
    }
}

/// The first A record among `recs` whose owner name is `host`.
pub open spec fn first_a_for(recs: Seq<RecordModel>, host: Seq<char>) -> Option<Ipv4Address>
    decreases recs.len(),
{
    if recs.len() == 0 {
        None
    } else {
        match recs.first() {
            RecordModel::A { domain, addr, .. } => if domain == host {
                Some(addr)
            } else {
                first_a_for(recs.drop_first(), host)
            },
            _ => first_a_for(recs.drop_first(), host),
        }
    }
}

/// The glue walk: for each in-bailiwick NS of `qname` in order, the
/// first A record in `resources` owned by that host; the first hit
/// wins.
pub open spec fn resolved_ns_in(
    auths: Seq<RecordModel>,
    resources: Seq<RecordModel>,
    qname: Seq<char>,
) -> Option<Ipv4Address>
    decreases auths.len(),
{
    if auths.len() == 0 {
        None
    } else {
        let rest = resolved_ns_in(auths.drop_first(), resources, qname);
        match auths.first() {
            RecordModel::NS { domain, host, .. } => if suffix_of(domain, qname) {
                match first_a_for(resources, host) {
                    Some(a) => Some(a),
                    None => rest,
                }
            } else {
                rest
            },
            _ => rest,
        }
    }
}

/// Write every question of `items` in order at the cursor.
#[verifier::rlimit(100)]
fn write_questions_section(buffer: &mut BytePacketBuffer, items: &Vec<DnsQuestion>) -> (r: Result<
    (),
    DnsError,
>)
    requires
        old(buffer).wf(),
    ensures
        final(buffer).wf(),
        same_result(r, write_questions_result(items@.map_values(|q: DnsQuestion| q@), old(buffer).pos as int)),
        r is Ok ==> final(buffer).buf@ == splice(
            old(buffer).buf@,
            old(buffer).pos as int,
            questions_wire(items@.map_values(|q: DnsQuestion| q@)),
        ) && final(buffer).pos == old(buffer).pos + questions_wire(
            items@.map_values(|q: DnsQuestion| q@),
        ).len(),
        final(buffer).pos >= old(buffer).pos,
        untouched_below(old(buffer).buf@, final(buffer).buf@, old(buffer).pos as int),
{
    let ghost buf0 = old(buffer).buf@;
    let ghost pos0 = old(buffer).pos as int;
    let ghost models = items@.map_values(|q: DnsQuestion| q@);
    let ghost mut wdone: Seq<u8> = seq![];
    proof {
        assert(models.skip(0) =~= models);
        assert(splice(buf0, pos0, wdone) =~= buf0);
    }
    let mut i: usize = 0;
    while i < items.len()
        invariant
            buf0 == old(buffer).buf@,
            pos0 == old(buffer).pos as int,
            models == items@.map_values(|q: DnsQuestion| q@),
            buffer.wf(),
            i <= items@.len(),
            buffer.buf@ == splice(buf0, pos0, wdone),
            buffer.pos == pos0 + wdone.len(),
            questions_wire(models) == wdone + questions_wire(models.skip(i as int)),
            write_questions_result(models, pos0) == write_questions_result(
                models.skip(i as int),
                buffer.pos as int,
            ),
        decreases items@.len() - i,
    {
        let ghost wprev = wdone;
        let item = &items[i];
        proof {
            assert(item@ == models.skip(i as int).first());
        }
        match item.write(buffer) {
            Ok(_) => {}
            Err(e) => {
                proof {
                    crate::byte_packet_buffer::lemma_untouched_below_splice(buf0, pos0, wprev,
                        pos0);
                    crate::byte_packet_buffer::lemma_untouched_below_trans(buf0, splice(
                        buf0,
                        pos0,
                        wprev,
                    ), buffer.buf@, pos0);
                }
                return Err(e);
            }
        }
        i = i + 1;
        proof {
            crate::byte_packet_buffer::lemma_splice_concat(buf0, pos0, wprev, question_wire(
                models.skip(i - 1).first(),
            ));
            wdone = wprev + question_wire(models.skip(i - 1).first());
            assert(models.skip(i - 1).drop_first() =~= models.skip(i as int));
            assert(questions_wire(models) =~= wdone + questions_wire(models.skip(i as int)));
        }
    }
    proof {
        assert(models.skip(models.len() as int) =~= Seq::<QuestionModel>::empty());
        assert(questions_wire(models) =~= wdone);
        crate::byte_packet_buffer::lemma_untouched_below_splice(buf0, pos0, wdone, pos0);
    }
    Ok(())
}

/// Write every record of `items` in order at the cursor.
#[verifier::rlimit(100)]
fn write_records_section(buffer: &mut BytePacketBuffer, items: &Vec<DnsRecord>) -> (r: Result<
    (),
    DnsError,
>)
    requires
        old(buffer).wf(),
    ensures
        final(buffer).wf(),
        same_result(r, write_records_result(items@.map_values(|x: DnsRecord| x@), old(buffer).pos as int)),
        r is Ok ==> final(buffer).buf@ == splice(
            old(buffer).buf@,
            old(buffer).pos as int,
            records_wire(items@.map_values(|x: DnsRecord| x@)),
        ) && final(buffer).pos == old(buffer).pos + records_wire(
            items@.map_values(|x: DnsRecord| x@),
        ).len(),
        final(buffer).pos >= old(buffer).pos,
        untouched_below(old(buffer).buf@, final(buffer).buf@, old(buffer).pos as int),
{
    let ghost buf0 = old(buffer).buf@;
    let ghost pos0 = old(buffer).pos as int;
    let ghost models = items@.map_values(|x: DnsRecord| x@);
    let ghost mut wdone: Seq<u8> = seq![];
    proof {
        assert(models.skip(0) =~= models);
        assert(splice(buf0, pos0, wdone) =~= buf0);
    }
    let mut i: usize = 0;
    while i < items.len()
        invariant
            buf0 == old(buffer).buf@,
            pos0 == old(buffer).pos as int,
            models == items@.map_values(|x: DnsRecord| x@),
            buffer.wf(),
            i <= items@.len(),
            buffer.buf@ == splice(buf0, pos0, wdone),
            buffer.pos == pos0 + wdone.len(),
            records_wire(models) == wdone + records_wire(models.skip(i as int)),
            write_records_result(models, pos0) == write_records_result(
                models.skip(i as int),
                buffer.pos as int,
            ),
        decreases items@.len() - i,
    {
        let ghost wprev = wdone;
        let item = &items[i];
        proof {
            assert(item@ == models.skip(i as int).first());
        }
        match item.write(buffer) {
            Ok(_) => {}
            Err(e) => {
                proof {
                    crate::byte_packet_buffer::lemma_untouched_below_splice(buf0, pos0, wprev,
                        pos0);
                    crate::byte_packet_buffer::lemma_untouched_below_trans(buf0, splice(
                        buf0,
                        pos0,
                        wprev,
                    ), buffer.buf@, pos0);
                }
                return Err(e);
            }
        }
        i = i + 1;
        proof {
            crate::byte_packet_buffer::lemma_splice_concat(buf0, pos0, wprev, record_wire(
                models.skip(i - 1).first(),
            ));
            wdone = wprev + record_wire(models.skip(i - 1).first());
            assert(models.skip(i - 1).drop_first() =~= models.skip(i as int));
            assert(records_wire(models) =~= wdone + records_wire(models.skip(i as int)));
        }
    }
    proof {
        assert(models.skip(models.len() as int) =~= Seq::<RecordModel>::empty());
        assert(records_wire(models) =~= wdone);
        crate::byte_packet_buffer::lemma_untouched_below_splice(buf0, pos0, wdone, pos0);
    }
    Ok(())
}

impl DnsPacket {
    /// An empty packet with an all-zero header.
    pub fn new() -> (r: DnsPacket)
        ensures
            r@ == (PacketModel {
                header: DnsHeader::spec_new(),
                questions: Seq::<QuestionModel>::empty(),
                answers: Seq::<RecordModel>::empty(),
                authorities: Seq::<RecordModel>::empty(),
                resources: Seq::<RecordModel>::empty(),
            }),
    {
        let r = DnsPacket {
            header: DnsHeader::new(),
            questions: Vec::new(),
            answers: Vec::new(),
            authorities: Vec::new(),
            resources: Vec::new(),
        };
        proof {
            assert(r@.questions =~= Seq::<QuestionModel>::empty());
            assert(r@.answers =~= Seq::<RecordModel>::empty());
            assert(r@.authorities =~= Seq::<RecordModel>::empty());
            assert(r@.resources =~= Seq::<RecordModel>::empty());
        }
        r
    }

    /// Decode a whole packet at the cursor: the header, then exactly
    /// as many questions and records as its four counts say, in
    /// section order.
    #[verifier::rlimit(100)]
    pub fn from_buffer(buffer: &mut BytePacketBuffer) -> (r: Result<DnsPacket, DnsError>)
        requires
            old(buffer).wf(),
        ensures
            final(buffer).wf(),
            final(buffer).buf@ == old(buffer).buf@,
            final(buffer).pos == parse_packet(old(buffer).buf@, old(buffer).pos as int).end,
            ({
                let pp = parse_packet(old(buffer).buf@, old(buffer).pos as int);
                match pp.outcome {
                    Ok(m) => r is Ok && r->Ok_0@ == m,
                    Err(e) => r == Err::<DnsPacket, DnsError>(e),
                }
            }),
    {
        let ghost bufv = old(buffer).buf@;
        let ghost pos0 = old(buffer).pos as int;
        let ghost target = parse_packet(bufv, pos0);
        let mut result = DnsPacket::new();
        match result.header.read(buffer) {
            Ok(_) => {}
            Err(e) => return Err(e),
        }
        let ghost h = result.header;
        proof {
            assert(h == header_from_bytes(bufv, pos0));
        }
        let nq = result.header.questions_count;
        let na = result.header.answers_count;
        let nu = result.header.authority_count;
        let nr = result.header.additional_count;

        let mut i: usize = 0;
        while i < nq as usize
            invariant
                bufv == old(buffer).buf@,
                pos0 == old(buffer).pos as int,
                target == parse_packet(bufv, pos0),
                buffer.wf(),
                buffer.buf@ == bufv,
                i <= nq,
                result.header == h,
                result.answers@ =~= Seq::<DnsRecord>::empty(),
                result.authorities@ =~= Seq::<DnsRecord>::empty(),
                result.resources@ =~= Seq::<DnsRecord>::empty(),
                ({
                    let cont = parse_sections(
                        bufv,
                        buffer.pos as int,
                        nq as int - i,
                        na as int,
                        nu as int,
                        nr as int,
                    );
                    target.end == cont.end && (match cont.outcome {
                        Ok(lists) => target.outcome == Ok::<PacketModel, DnsError>(
                            PacketModel {
                                header: h,
                                questions: result@.questions + lists.questions,
                                answers: lists.answers,
                                authorities: lists.authorities,
                                resources: lists.resources,
                            },
                        ),
                        Err(e) => target.outcome == Err::<PacketModel, DnsError>(e),
                    })
                }),
            decreases nq as int - i,
        {
            let ghost posq = buffer.pos as int;
            let ghost qacc = result@.questions;
            let mut question = DnsQuestion::new(String::new(), QueryType::UNKNOWN(0));
            match question.read(buffer) {
                Ok(_) => {}
                Err(e) => return Err(e),
            }
            proof {
                let qp = parse_question(bufv, posq);
                assert(question@ == qp.outcome->Ok_0) by {
                    assert(question@.name =~= qp.outcome->Ok_0.name);
                }
            }
            result.questions.push(question);
            i = i + 1;
            proof {
                let qp = parse_question(bufv, posq);
                let q = qp.outcome->Ok_0;
                assert(result@.questions =~= qacc.push(q));
                let cont2 = parse_sections(
                    bufv,
                    buffer.pos as int,
                    nq as int - i,
                    na as int,
                    nu as int,
                    nr as int,
                );
                match cont2.outcome {
                    Ok(lists) => {
                        assert(qacc + (seq![q] + lists.questions) =~= qacc.push(q)
                            + lists.questions);
                    },
                    Err(_) => {},
                }
            }
        }

        let mut i: usize = 0;
        while i < na as usize
            invariant
                bufv == old(buffer).buf@,
                pos0 == old(buffer).pos as int,
                target == parse_packet(bufv, pos0),
                buffer.wf(),
                buffer.buf@ == bufv,
                i <= na,
                result.header == h,
                result.authorities@ =~= Seq::<DnsRecord>::empty(),
                result.resources@ =~= Seq::<DnsRecord>::empty(),
                ({
                    let cont = parse_sections(
                        bufv,
                        buffer.pos as int,
                        0,
                        na as int - i,
                        nu as int,
                        nr as int,
                    );
                    target.end == cont.end && (match cont.outcome {
                        Ok(lists) => target.outcome == Ok::<PacketModel, DnsError>(
                            PacketModel {
                                header: h,
                                questions: result@.questions + lists.questions,
                                answers: result@.answers + lists.answers,
                                authorities: lists.authorities,
                                resources: lists.resources,
                            },
                        ),
                        Err(e) => target.outcome == Err::<PacketModel, DnsError>(e),
                    })
                }),
            decreases na as int - i,
        {
            let ghost posr = buffer.pos as int;
            let ghost racc = result@.answers;
            let answer = match DnsRecord::read(buffer) {
                Ok(v) => v,
                Err(e) => return Err(e),
            };
            result.answers.push(answer);
            i = i + 1;
            proof {
                let rp = parse_record(bufv, posr);
                let rec = rp.outcome->Ok_0;
                assert(result@.answers =~= racc.push(rec));
                let cont2 = parse_sections(
                    bufv,
                    buffer.pos as int,
                    0,
                    na as int - i,
                    nu as int,
                    nr as int,
                );
                match cont2.outcome {
                    Ok(lists) => {
                        assert(racc + (seq![rec] + lists.answers) =~= racc.push(rec)
                            + lists.answers);
                    },
                    Err(_) => {},
                }
            }
        }

        let mut i: usize = 0;
        while i < nu as usize
            invariant
                bufv == old(buffer).buf@,
                pos0 == old(buffer).pos as int,
                target == parse_packet(bufv, pos0),
                buffer.wf(),
                buffer.buf@ == bufv,
                i <= nu,
                result.header == h,
                result.resources@ =~= Seq::<DnsRecord>::empty(),
                ({
                    let cont = parse_sections(
                        bufv,
                        buffer.pos as int,
                        0,
                        0,
                        nu as int - i,
                        nr as int,
                    );
                    target.end == cont.end && (match cont.outcome {
                        Ok(lists) => target.outcome == Ok::<PacketModel, DnsError>(
                            PacketModel {
                                header: h,
                                questions: result@.questions + lists.questions,
                                answers: result@.answers + lists.answers,
                                authorities: result@.authorities + lists.authorities,
                                resources: lists.resources,
                            },
                        ),
                        Err(e) => target.outcome == Err::<PacketModel, DnsError>(e),
                    })
                }),
            decreases nu as int - i,
        {
            let ghost posr = buffer.pos as int;
            let ghost racc = result@.authorities;
            let auth = match DnsRecord::read(buffer) {
                Ok(v) => v,
                Err(e) => return Err(e),
            };
            result.authorities.push(auth);
            i = i + 1;
            proof {
                let rp = parse_record(bufv, posr);
                let rec = rp.outcome->Ok_0;
                assert(result@.authorities =~= racc.push(rec));
                let cont2 = parse_sections(
                    bufv,
                    buffer.pos as int,
                    0,
                    0,
                    nu as int - i,
                    nr as int,
                );
                match cont2.outcome {
                    Ok(lists) => {
                        assert(racc + (seq![rec] + lists.authorities) =~= racc.push(rec)
                            + lists.authorities);
                    },
                    Err(_) => {},
                }
            }
        }

        let mut i: usize = 0;
        while i < nr as usize
            invariant
                bufv == old(buffer).buf@,
                pos0 == old(buffer).pos as int,
                target == parse_packet(bufv, pos0),
                buffer.wf(),
                buffer.buf@ == bufv,
                i <= nr,
                result.header == h,
                ({
                    let cont = parse_sections(bufv, buffer.pos as int, 0, 0, 0, nr as int - i);
                    target.end == cont.end && (match cont.outcome {
                        Ok(lists) => target.outcome == Ok::<PacketModel, DnsError>(
                            PacketModel {
                                header: h,
                                questions: result@.questions + lists.questions,
                                answers: result@.answers + lists.answers,
                                authorities: result@.authorities + lists.authorities,
                                resources: result@.resources + lists.resources,
                            },
                        ),
                        Err(e) => target.outcome == Err::<PacketModel, DnsError>(e),
                    })
                }),
            decreases nr as int - i,
        {
            let ghost posr = buffer.pos as int;
            let ghost racc = result@.resources;
            let resource = match DnsRecord::read(buffer) {
                Ok(v) => v,
                Err(e) => return Err(e),
            };
            result.resources.push(resource);
            i = i + 1;
            proof {
                let rp = parse_record(bufv, posr);
                let rec = rp.outcome->Ok_0;
                assert(result@.resources =~= racc.push(rec));
                let cont2 = parse_sections(bufv, buffer.pos as int, 0, 0, 0, nr as int - i);
                match cont2.outcome {
                    Ok(lists) => {
                        assert(racc + (seq![rec] + lists.resources) =~= racc.push(rec)
                            + lists.resources);
                    },
                    Err(_) => {},
                }
            }
        }

        proof {
            assert(result@.questions + Seq::<QuestionModel>::empty() =~= result@.questions);
            assert(result@.answers + Seq::<RecordModel>::empty() =~= result@.answers);
            assert(result@.authorities + Seq::<RecordModel>::empty() =~= result@.authorities);
            assert(result@.resources + Seq::<RecordModel>::empty() =~= result@.resources);
        }
        Ok(result)
    }

    /// Encode the packet at the cursor, first forcing the four header
    /// counts to the section lengths; then the header, every question,
    /// and the three record sections in order.
    #[verifier::rlimit(100)]
    pub fn write(&mut self, buffer: &mut BytePacketBuffer) -> (r: Result<(), DnsError>)
        requires
            old(buffer).wf(),
            old(self).questions@.len() <= 0xFFFF,
            old(self).answers@.len() <= 0xFFFF,
            old(self).authorities@.len() <= 0xFFFF,
            old(self).resources@.len() <= 0xFFFF,
        ensures
            final(buffer).wf(),
            final(self)@ == with_counts(old(self)@),
            same_result(r, write_packet_result(with_counts(old(self)@), old(buffer).pos as int)),
            r is Ok ==> final(buffer).buf@ == splice(
                old(buffer).buf@,
                old(buffer).pos as int,
                packet_wire(with_counts(old(self)@)),
            ) && final(buffer).pos == old(buffer).pos + packet_wire(with_counts(old(self)@)).len(),
            final(buffer).pos >= old(buffer).pos,
            untouched_below(old(buffer).buf@, final(buffer).buf@, old(buffer).pos as int),
    {
        let ghost buf0 = old(buffer).buf@;
        let ghost pos0 = old(buffer).pos as int;
        self.header.questions_count = self.questions.len() as u16;
        self.header.answers_count = self.answers.len() as u16;
        self.header.authority_count = self.authorities.len() as u16;
        self.header.additional_count = self.resources.len() as u16;
        let ghost m = with_counts(old(self)@);
        proof {
            assert(self@ == m);
        }
        match self.header.write(buffer) {
            Ok(_) => {}
            Err(e) => {
                proof {
                    crate::byte_packet_buffer::lemma_untouched_below_splice(buf0, pos0,
                        header_bytes(m.header), pos0);
                }
                return Err(e);
            }
        }
        let ghost b1 = buffer.buf@;
        match write_questions_section(buffer, &self.questions) {
            Ok(_) => {}
            Err(e) => {
                proof {
                    crate::byte_packet_buffer::lemma_untouched_below_splice(buf0, pos0,
                        header_bytes(m.header), pos0);
                    crate::byte_packet_buffer::lemma_untouched_below_trans(buf0, b1, buffer.buf@,
                        pos0);
                }
                return Err(e);
            }
        }
        proof {
            crate::byte_packet_buffer::lemma_splice_concat(buf0, pos0, header_bytes(m.header),
                questions_wire(m.questions));
        }
        let ghost b2 = buffer.buf@;
        let ghost w2 = header_bytes(m.header) + questions_wire(m.questions);
        match write_records_section(buffer, &self.answers) {
            Ok(_) => {}
            Err(e) => {
                proof {
                    crate::byte_packet_buffer::lemma_untouched_below_splice(buf0, pos0, w2, pos0);
                    crate::byte_packet_buffer::lemma_untouched_below_trans(buf0, b2, buffer.buf@,
                        pos0);
                }
                return Err(e);
            }
        }
        proof {
            crate::byte_packet_buffer::lemma_splice_concat(buf0, pos0, w2, records_wire(
                m.answers,
            ));
        }
        let ghost b3 = buffer.buf@;
        let ghost w3 = w2 + records_wire(m.answers);
        match write_records_section(buffer, &self.authorities) {
            Ok(_) => {}
            Err(e) => {
                proof {
                    crate::byte_packet_buffer::lemma_untouched_below_splice(buf0, pos0, w3, pos0);
                    crate::byte_packet_buffer::lemma_untouched_below_trans(buf0, b3, buffer.buf@,
                        pos0);
                }
                return Err(e);
            }
        }
        proof {
            crate::byte_packet_buffer::lemma_splice_concat(buf0, pos0, w3, records_wire(
                m.authorities,
            ));
        }
        let ghost b4 = buffer.buf@;
        let ghost w4 = w3 + records_wire(m.authorities);
        match write_records_section(buffer, &self.resources) {
            Ok(_) => {}
            Err(e) => {
                proof {
                    crate::byte_packet_buffer::lemma_untouched_below_splice(buf0, pos0, w4, pos0);
                    crate::byte_packet_buffer::lemma_untouched_below_trans(buf0, b4, buffer.buf@,
                        pos0);
                }
                return Err(e);
            }
        }
        proof {
            crate::byte_packet_buffer::lemma_splice_concat(buf0, pos0, w4, records_wire(
                m.resources,
            ));
            assert(w4 + records_wire(m.resources) =~= packet_wire(m));
            crate::byte_packet_buffer::lemma_untouched_below_splice(buf0, pos0, packet_wire(m),
                pos0);
        }
        Ok(())
    }

    /// The first A record in the answer section, if any.  When a name
    /// resolves to several addresses any of them serves, so the first
    /// is as good as a random one.
    #[verifier::loop_isolation(false)]
    pub fn get_random_a(&self) -> (r: Option<Ipv4Address>)
        ensures
            r == first_a_record(self@.answers),
    {
        let ghost models = self@.answers;
        proof {
            assert(models.skip(0) =~= models);
        }
        let mut i: usize = 0;
        while i < self.answers.len()
            invariant
                models == self@.answers,
                i <= models.len(),
                first_a_record(models) == first_a_record(models.skip(i as int)),
            decreases models.len() - i,
        {
            match &self.answers[i] {
                DnsRecord::A { addr, .. } => {
                    proof {
                        assert(self.answers@[i as int]@ == models.skip(i as int).first());
                    }
                    return Some(*addr);
                }
                _ => {
                    proof {
                        assert(self.answers@[i as int]@ == models.skip(i as int).first());
                        assert(models.skip(i as int).drop_first() =~= models.skip(i + 1));
                    }
                }
            }
            i = i + 1;
        }
        proof {
            assert(models.skip(models.len() as int) =~= Seq::<RecordModel>::empty());
        }
        None
    }

    /// The `(zone, host)` pairs of every name server in the authority
    /// section whose zone is a suffix of `qname`, in order.
    #[verifier::loop_isolation(false)]
    pub fn get_ns(&self, qname: &str) -> (r: Vec<(String, String)>)
        ensures
            r@.map_values(|p: (String, String)| (p.0@, p.1@)) == ns_pairs(
                self@.authorities,
                qname@,
            ),
    {
        let ghost models = self@.authorities;
        proof {
            assert(models.skip(0) =~= models);
        }
        let mut out: Vec<(String, String)> = Vec::new();
        let mut i: usize = 0;
        while i < self.authorities.len()
            invariant
                models == self@.authorities,
                i <= models.len(),
                ns_pairs(models, qname@) == out@.map_values(|p: (String, String)| (p.0@, p.1@))
                    + ns_pairs(models.skip(i as int), qname@),
            decreases models.len() - i,
        {
            let ghost acc = out@.map_values(|p: (String, String)| (p.0@, p.1@));
            proof {
                assert(self.authorities@[i as int]@ == models.skip(i as int).first());
                assert(models.skip(i as int).drop_first() =~= models.skip(i + 1));
            }
            match &self.authorities[i] {
                DnsRecord::NS { domain, host, .. } => {
                    if str_ends_with(qname, domain.as_str()) {
                        out.push((domain.clone(), host.clone()));
                        proof {
                            assert(out@.map_values(|p: (String, String)| (p.0@, p.1@)) =~= acc
                                + seq![(domain@, host@)]);
                            assert(acc + (seq![(domain@, host@)] + ns_pairs(
                                models.skip(i + 1),
                                qname@,
                            )) =~= (acc + seq![(domain@, host@)]) + ns_pairs(
                                models.skip(i + 1),
                                qname@,
                            ));
                        }
                    }
                }
                _ => {}
            }
            i = i + 1;
        }
        proof {
            assert(models.skip(models.len() as int) =~= Seq::<RecordModel>::empty());
            assert(ns_pairs(models, qname@) =~= out@.map_values(
                |p: (String, String)| (p.0@, p.1@),
            ));
        }
        out
    }

    /// The address of the first in-bailiwick name server of `qname`
    /// that has glue: an A record in the additional section owned by
    /// the server's host name.
    #[verifier::loop_isolation(false)]
    pub fn get_resolved_ns(&self, qname: &str) -> (r: Option<Ipv4Address>)
        ensures
            r == resolved_ns_in(self@.authorities, self@.resources, qname@),
    {
        let ghost models = self@.authorities;
        let ghost rmodels = self@.resources;
        proof {
            assert(models.skip(0) =~= models);
        }
        let mut i: usize = 0;
        while i < self.authorities.len()
            invariant
                models == self@.authorities,
                rmodels == self@.resources,
                i <= models.len(),
                resolved_ns_in(models, rmodels, qname@) == resolved_ns_in(
                    models.skip(i as int),
                    rmodels,
                    qname@,
                ),
            decreases models.len() - i,
        {
            proof {
                assert(self.authorities@[i as int]@ == models.skip(i as int).first());
                assert(models.skip(i as int).drop_first() =~= models.skip(i + 1));
            }
            match &self.authorities[i] {
                DnsRecord::NS { domain, host, .. } => {
                    if str_ends_with(qname, domain.as_str()) {
                        // look for glue: an A record owned by this host
                        proof {
                            assert(rmodels.skip(0) =~= rmodels);
                        }
                        let mut j: usize = 0;
                        while j < self.resources.len()
                            invariant
                                rmodels == self@.resources,
                                j <= rmodels.len(),
                                first_a_for(rmodels, host@) == first_a_for(
                                    rmodels.skip(j as int),
                                    host@,
                                ),
                            decreases rmodels.len() - j,
                        {
                            proof {
                                assert(self.resources@[j as int]@ == rmodels.skip(
                                    j as int,
                                ).first());
                                assert(rmodels.skip(j as int).drop_first() =~= rmodels.skip(j + 1));
                            }
                            match &self.resources[j] {
                                DnsRecord::A { domain: a_domain, addr, .. } => {
                                    if *a_domain == *host {
                                        proof {
                                            assert(first_a_for(rmodels.skip(j as int), host@)
                                                == Some(*addr));
                                            assert(resolved_ns_in(
                                                models.skip(i as int),
                                                rmodels,
                                                qname@,
                                            ) == Some(*addr));
                                        }
                                        return Some(*addr);
                                    }
                                }
                                _ => {}
                            }
                            j = j + 1;
                        }
                        proof {
                            assert(rmodels.skip(rmodels.len() as int) =~= Seq::<
                                RecordModel,
                            >::empty());
                            assert(first_a_for(rmodels, host@) is None);
                            assert(resolved_ns_in(models.skip(i as int), rmodels, qname@)
                                == resolved_ns_in(models.skip(i + 1), rmodels, qname@));
                        }
                    }
                }
                _ => {}
            }
            i = i + 1;
        }
        proof {
            assert(models.skip(models.len() as int) =~= Seq::<RecordModel>::empty());
        }
        None
    }

    /// The host name of the first in-bailiwick name server of
    /// `qname`, glue or not.
    #[verifier::loop_isolation(false)]
    pub fn get_unsolved_ns(&self, qname: &str) -> (r: Option<String>)
        ensures
            ns_pairs(self@.authorities, qname@).len() > 0 ==> r is Some && r->0@ == ns_pairs(
                self@.authorities,
                qname@,
            ).first().1,
            ns_pairs(self@.authorities, qname@).len() == 0 ==> r is None,
    {
        let ghost models = self@.authorities;
        proof {
            assert(models.skip(0) =~= models);
        }
        let mut i: usize = 0;
        while i < self.authorities.len()
            invariant
                models == self@.authorities,
                i <= models.len(),
                ns_pairs(models, qname@) == ns_pairs(models.skip(i as int), qname@),
            decreases models.len() - i,
        {
            proof {
                assert(self.authorities@[i as int]@ == models.skip(i as int).first());
                assert(models.skip(i as int).drop_first() =~= models.skip(i + 1));
            }
            match &self.authorities[i] {
                DnsRecord::NS { domain, host, .. } => {
                    if str_ends_with(qname, domain.as_str()) {
                        return Some(host.clone());
                    }
                }
                _ => {}
            }
            i = i + 1;
        }
        proof {
            assert(models.skip(models.len() as int) =~= Seq::<RecordModel>::empty());
        }
        None
    }
}

} // verus!
