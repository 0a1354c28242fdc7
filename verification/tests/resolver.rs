use dns_resolver::dns_packet::DnsPacket;
use dns_resolver::dns_question::DnsQuestion;
use dns_resolver::dns_record::{DnsRecord, Ipv4Address};
use dns_resolver::query_type::QueryType;
use dns_resolver::resolver::{build_query_packet, compose_response, next_server_from, resolve_step,
    ResolveStep};
use dns_resolver::result_code::ResultCode;

fn root_delegation() -> DnsPacket {
    let mut response = DnsPacket::new();
    response.header.response_code = ResultCode::NOERROR;
    response.authorities.push(DnsRecord::NS {
        domain: "google.com".to_string(),
        host: "ns1.google.com".to_string(),
        ttl: 172800,
    });
    response.authorities.push(DnsRecord::NS {
        domain: "google.com".to_string(),
        host: "ns2.google.com".to_string(),
        ttl: 172800,
    });
    response.resources.push(DnsRecord::A {
        domain: "ns1.google.com".to_string(),
        addr: Ipv4Address::new(216, 239, 34, 10),
        ttl: 172800,
    });
    response.resources.push(DnsRecord::A {
        domain: "ns2.google.com".to_string(),
        addr: Ipv4Address::new(216, 239, 32, 10),
        ttl: 172800,
    });
    response
}

#[test]
fn glue_delegation_retries_at_glue_address() {
    // a delegation with empty answers, NOERROR, NS records for the
    // zone and glue A records: the next query goes to a glue address
    let response = root_delegation();
    let step = resolve_step(&response, "www.google.com");
    let allowed = vec![
        Ipv4Address::new(216, 239, 34, 10),
        Ipv4Address::new(216, 239, 32, 10),
    ];
    match step {
        ResolveStep::Retry(ip) => assert!(allowed.contains(&ip)),
        other => panic!("expected a retry, got {:?}", other),
    }
}

#[test]
fn answers_with_noerror_finish() {
    let mut response = root_delegation();
    response.answers.push(DnsRecord::A {
        domain: "www.google.com".to_string(),
        addr: Ipv4Address::new(142, 250, 74, 36),
        ttl: 300,
    });
    assert_eq!(resolve_step(&response, "www.google.com"), ResolveStep::Finished);
}

#[test]
fn nxdomain_finishes() {
    let mut response = DnsPacket::new();
    response.header.response_code = ResultCode::NXDOMAIN;
    assert_eq!(resolve_step(&response, "nope.example"), ResolveStep::Finished);
}

#[test]
fn glueless_delegation_resolves_name_server() {
    let mut response = root_delegation();
    response.resources.clear();
    match resolve_step(&response, "www.google.com") {
        ResolveStep::ResolveNameServer(host) => assert_eq!(host, "ns1.google.com"),
        other => panic!("expected a name-server resolution, got {:?}", other),
    }
}

#[test]
fn dead_end_finishes() {
    let mut response = root_delegation();
    response.authorities.clear();
    response.resources.clear();
    assert_eq!(resolve_step(&response, "www.google.com"), ResolveStep::Finished);
}

#[test]
fn next_server_is_first_answer_address() {
    let mut sub = DnsPacket::new();
    sub.answers.push(DnsRecord::A {
        domain: "ns1.google.com".to_string(),
        addr: Ipv4Address::new(216, 239, 34, 10),
        ttl: 300,
    });
    assert_eq!(next_server_from(&sub), Some(Ipv4Address::new(216, 239, 34, 10)));
    assert_eq!(next_server_from(&DnsPacket::new()), None);
}

#[test]
fn query_packet_has_fixed_id_and_one_question() {
    let packet = build_query_packet("www.google.com", QueryType::A);
    assert_eq!(packet.header.id, 1234);
    assert!(packet.header.recursion_desired);
    assert_eq!(packet.header.questions_count, 1);
    assert_eq!(packet.questions.len(), 1);
    assert_eq!(packet.questions[0].name, "www.google.com");
    assert_eq!(packet.questions[0].qtype, QueryType::A);
    assert!(packet.answers.is_empty());
}

#[test]
fn response_without_question_is_formerr() {
    let response = compose_response(7, None, None);
    assert_eq!(response.header.id, 7);
    assert!(response.header.query_response);
    assert!(response.header.recursion_desired);
    assert!(response.header.recursion_available);
    assert_eq!(response.header.response_code, ResultCode::FORMERR);
    assert!(response.questions.is_empty());
}

#[test]
fn response_after_failed_lookup_is_servfail() {
    let q = DnsQuestion::new("www.google.com".to_string(), QueryType::A);
    let response = compose_response(8, Some(q.clone()), None);
    assert_eq!(response.header.response_code, ResultCode::SERVFAIL);
    assert_eq!(response.questions, vec![q]);
    assert!(response.answers.is_empty());
}

#[test]
fn response_relays_upstream_records_and_verdict() {
    let q = DnsQuestion::new("www.google.com".to_string(), QueryType::A);
    let mut upstream = DnsPacket::new();
    upstream.header.response_code = ResultCode::NOERROR;
    upstream.answers.push(DnsRecord::A {
        domain: "www.google.com".to_string(),
        addr: Ipv4Address::new(142, 250, 74, 36),
        ttl: 300,
    });
    upstream.authorities.push(DnsRecord::NS {
        domain: "google.com".to_string(),
        host: "ns1.google.com".to_string(),
        ttl: 172800,
    });
    upstream.resources.push(DnsRecord::A {
        domain: "ns1.google.com".to_string(),
        addr: Ipv4Address::new(216, 239, 34, 10),
        ttl: 172800,
    });

    let response = compose_response(9, Some(q.clone()), Some(upstream.clone()));
    assert_eq!(response.header.id, 9);
    assert_eq!(response.header.response_code, ResultCode::NOERROR);
    assert_eq!(response.questions, vec![q]);
    assert_eq!(response.answers, upstream.answers);
    assert_eq!(response.authorities, upstream.authorities);
    assert_eq!(response.resources, upstream.resources);
}
