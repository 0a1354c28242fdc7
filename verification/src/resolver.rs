use vstd::prelude::*;

use crate::dns_header::DnsHeader;
use crate::dns_packet::{first_a_record, ns_pairs, resolved_ns_in, DnsPacket, PacketModel};
use crate::dns_question::{DnsQuestion, QuestionModel};
use crate::dns_record::{Ipv4Address, RecordModel};
use crate::query_type::QueryType;
use crate::result_code::ResultCode;

verus! {

/// What the recursive resolver does after one upstream response:
/// hand the response back, retry against another server, or first
/// resolve a glueless name server's own address.
#[derive(Clone, Debug, PartialEq, Eq)]
pub enum ResolveStep {
    /// The response is final: answers with no error, an NXDOMAIN
    /// verdict, or a dead end with no name server on offer.
    Finished,
    /// A delegation with glue: ask this server next.
    Retry(Ipv4Address),
    /// A glueless delegation: resolve this host name to an address
    /// first, then retry there.
    ResolveNameServer(String),
}

/// The mathematical value of a resolver step.
pub enum ResolveStepModel {
    Finished,
    Retry(Ipv4Address),
    ResolveNameServer(Seq<char>),
}

impl View for ResolveStep {
    type V = ResolveStepModel;

    open spec fn view(&self) -> ResolveStepModel {
        match self {
            ResolveStep::Finished => ResolveStepModel::Finished,
            ResolveStep::Retry(a) => ResolveStepModel::Retry(*a),
            ResolveStep::ResolveNameServer(h) => ResolveStepModel::ResolveNameServer(h@),
        }
    }
}

/// The resolver's decision on a response to a query for `qname`:
/// stop on answers without error or on NXDOMAIN; otherwise follow
/// glue, then a glueless name server, and give up last.
pub open spec fn resolve_step_spec(p: PacketModel, qname: Seq<char>) -> ResolveStepModel {
    if p.answers.len() > 0 && p.header.response_code == ResultCode::NOERROR {
        ResolveStepModel::Finished
    } else if p.header.response_code == ResultCode::NXDOMAIN {
        ResolveStepModel::Finished
    } else if resolved_ns_in(p.authorities, p.resources, qname) is Some {
        ResolveStepModel::Retry(resolved_ns_in(p.authorities, p.resources, qname)->0)
    } else if ns_pairs(p.authorities, qname).len() > 0 {
        ResolveStepModel::ResolveNameServer(ns_pairs(p.authorities, qname).first().1)
    } else {
        ResolveStepModel::Finished
    }
}

/// Decide what to do after `response` came back for a query for
/// `qname`.
pub fn resolve_step(response: &DnsPacket, qname: &str) -> (r: ResolveStep)
    ensures
        r@ == resolve_step_spec(response@, qname@),
{
    if !response.answers.is_empty() && response.header.response_code == ResultCode::NOERROR {
        return ResolveStep::Finished;
    }
    if response.header.response_code == ResultCode::NXDOMAIN {
        return ResolveStep::Finished;
    }
    if let Some(new_ns) = response.get_resolved_ns(qname) {
        return ResolveStep::Retry(new_ns);
    }
    match response.get_unsolved_ns(qname) {
        Some(host) => ResolveStep::ResolveNameServer(host),
        None => ResolveStep::Finished,
    }
}

/// Build the upstream query the resolver sends: the fixed transaction
/// id 1234, recursion desired, and a single question.
pub fn build_query_packet(qname: &str, qtype: QueryType) -> (r: DnsPacket)
    ensures
        r@.header == (DnsHeader {
            id: 1234,
            recursion_desired: true,
            questions_count: 1,
            ..DnsHeader::spec_new()
        }),
        r@.questions == seq![QuestionModel { name: qname@, qtype }],
        r@.answers.len() == 0,
        r@.authorities.len() == 0,
        r@.resources.len() == 0,
{
    let mut packet = DnsPacket::new();
    packet.header.id = 1234;
    packet.header.questions_count = 1;
    packet.header.recursion_desired = true;
    packet.questions.push(DnsQuestion::new(String::from_str(qname), qtype));
    proof {
        assert(packet@.questions =~= seq![QuestionModel { name: qname@, qtype }]);
    }
    packet
}

/// Whether the first A record of a sub-resolution gives the next
/// server to ask; with no address the last response stands.
pub fn next_server_from(sub: &DnsPacket) -> (r: Option<Ipv4Address>)
    ensures
        r == first_a_record(sub@.answers),
{
    sub.get_random_a()
}

/// Compose the response the server sends back for transaction `id`.
/// With no question it reports a format error; with a question but no
/// resolver result, a server failure; and with a result it echoes the
/// question and relays the result's verdict and all of its records.
/// The response always has `qr`, `rd` and `ra` set.
pub fn compose_response(id: u16, question: Option<DnsQuestion>, outcome: Option<
    DnsPacket,
>) -> (r: DnsPacket)
    ensures
        r@.header.id == id,
        r@.header.query_response,
        r@.header.recursion_desired,
        r@.header.recursion_available,
        question is None ==> r@.header.response_code == ResultCode::FORMERR
            && r@.questions.len() == 0 && r@.answers.len() == 0 && r@.authorities.len() == 0
            && r@.resources.len() == 0,
        question is Some && outcome is None ==> r@.header.response_code == ResultCode::SERVFAIL
            && r@.questions == seq![question->0@] && r@.answers.len() == 0 && r@.authorities.len()
            == 0 && r@.resources.len() == 0,
        question is Some && outcome is Some ==> r@.header.response_code
            == outcome->0@.header.response_code && r@.questions == seq![question->0@] && r@.answers
            == outcome->0@.answers && r@.authorities == outcome->0@.authorities && r@.resources
            == outcome->0@.resources,
{
    let mut res_packet = DnsPacket::new();
    res_packet.header.id = id;
    res_packet.header.recursion_desired = true;
    res_packet.header.recursion_available = true;
    res_packet.header.query_response = true;

    match question {
        Some(q) => {
            match outcome {
                Some(result) => {
                    res_packet.questions.push(q);
                    res_packet.header.response_code = result.header.response_code;
                    res_packet.answers = result.answers;
                    res_packet.authorities = result.authorities;
                    res_packet.resources = result.resources;
                    proof {
                        assert(res_packet@.questions =~= seq![question->0@]);
                    }
                }
                None => {
                    res_packet.questions.push(q);
                    res_packet.header.response_code = ResultCode::SERVFAIL;
                    proof {
                        assert(res_packet@.questions =~= seq![question->0@]);
                    }
                }
            }
        }
        None => {
            res_packet.header.response_code = ResultCode::FORMERR;
        }
    }
    res_packet
}

} // verus!
