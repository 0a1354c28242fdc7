use dns_resolver::byte_packet_buffer::BytePacketBuffer;
use dns_resolver::dns_error::DnsError;
use dns_resolver::dns_packet::DnsPacket;
use dns_resolver::dns_question::DnsQuestion;
use dns_resolver::dns_record::{DnsRecord, Ipv4Address, Ipv6Address};
use dns_resolver::query_type::QueryType;
use dns_resolver::result_code::ResultCode;

#[test]
fn qname_round_trip_lowercases() {
    let mut buffer = BytePacketBuffer::new();
    buffer.write_qname("Www.GOOGLE.Com").unwrap();
    buffer.seek(0).unwrap();
    let mut name = String::new();
    buffer.read_qname(&mut name).unwrap();
    assert_eq!(name, "www.google.com");
    assert_eq!(buffer.pos(), 16);
}

#[test]
fn qname_decodes_valid_utf8_label_lossily() {
    let mut buffer = BytePacketBuffer::new();
    // one label of two bytes, 0xC3 0x89: valid UTF-8 for 'É'
    buffer.buf[0] = 2;
    buffer.buf[1] = 0xC3;
    buffer.buf[2] = 0x89;
    buffer.buf[3] = 0;
    let mut name = String::new();
    buffer.read_qname(&mut name).unwrap();
    // the valid sequence decodes to its character, then lowercases
    assert_eq!(name, "\u{E9}");
    assert_eq!(buffer.pos(), 4);
}

#[test]
fn qname_replaces_invalid_utf8_bytes() {
    let mut buffer = BytePacketBuffer::new();
    // one label of one byte, 0xFF: never valid in UTF-8
    buffer.buf[0] = 1;
    buffer.buf[1] = 0xFF;
    buffer.buf[2] = 0;
    let mut name = String::new();
    buffer.read_qname(&mut name).unwrap();
    assert_eq!(name, "\u{FFFD}");
    assert_eq!(buffer.pos(), 3);
}

#[test]
fn qname_self_pointer_hits_jump_limit() {
    let mut buffer = BytePacketBuffer::new();
    // a compression pointer at offset 0 whose 14-bit target is 0: itself
    buffer.buf[0] = 0xC0;
    buffer.buf[1] = 0x00;
    let mut name = String::new();
    let err = buffer.read_qname(&mut name).unwrap_err();
    assert_eq!(err, DnsError::JumpLimitExceeded);
    assert_eq!(err.message(), "Limit of 5 jumps exceeded".to_string());
}

#[test]
fn qname_pointer_reads_target_name() {
    let mut buffer = BytePacketBuffer::new();
    buffer.write_qname("google.com").unwrap();
    // a pointer at offset 40 back to the name at offset 0
    buffer.buf[40] = 0xC0;
    buffer.buf[41] = 0x00;
    buffer.seek(40).unwrap();
    let mut name = String::new();
    buffer.read_qname(&mut name).unwrap();
    assert_eq!(name, "google.com");
    // the cursor moves just past the two pointer bytes
    assert_eq!(buffer.pos(), 42);
}

#[test]
fn qname_rejects_over_long_label() {
    let mut buffer = BytePacketBuffer::new();
    let long_label = "a".repeat(64);
    let err = buffer.write_qname(&long_label).unwrap_err();
    assert_eq!(err, DnsError::LabelTooLong);
    assert_eq!(
        err.message(),
        "Single section exceeds 63 characters of length".to_string()
    );
}

#[test]
fn write_fails_at_end_of_buffer() {
    let mut buffer = BytePacketBuffer::new();
    buffer.seek(512).unwrap();
    let err = buffer.write_u8(7).unwrap_err();
    assert_eq!(err, DnsError::EndOfBuffer);
    assert_eq!(err.message(), "End of buffer".to_string());
}

#[test]
fn u16_write_read_inverse() {
    let mut buffer = BytePacketBuffer::new();
    buffer.write_u16(0xABCD).unwrap();
    assert_eq!(buffer.buf[0], 0xAB);
    assert_eq!(buffer.buf[1], 0xCD);
    buffer.seek(0).unwrap();
    assert_eq!(buffer.read_u16().unwrap(), 0xABCD);
}

#[test]
fn u32_write_read_inverse() {
    let mut buffer = BytePacketBuffer::new();
    buffer.write_u32(0xDEADBEEF).unwrap();
    assert_eq!(buffer.buf[0], 0xDE);
    assert_eq!(buffer.buf[1], 0xAD);
    assert_eq!(buffer.buf[2], 0xBE);
    assert_eq!(buffer.buf[3], 0xEF);
    buffer.seek(0).unwrap();
    assert_eq!(buffer.read_u32().unwrap(), 0xDEADBEEF);
}

#[test]
fn a_record_rdata_round_trip() {
    let rec = DnsRecord::A {
        domain: "example.com".to_string(),
        addr: Ipv4Address::new(93, 184, 216, 34),
        ttl: 300,
    };
    let mut buffer = BytePacketBuffer::new();
    rec.write(&mut buffer).unwrap();
    // the last four bytes written are exactly the address octets
    let end = buffer.pos();
    assert_eq!(&buffer.buf[end - 4..end], &[93, 184, 216, 34]);
    buffer.seek(0).unwrap();
    let back = DnsRecord::read(&mut buffer).unwrap();
    assert_eq!(back, rec);
}

#[test]
fn packet_structural_round_trip() {
    let mut packet = DnsPacket::new();
    packet.header.id = 4660;
    packet.header.recursion_desired = true;
    packet.header.response_code = ResultCode::NOERROR;
    packet
        .questions
        .push(DnsQuestion::new("www.example.com".to_string(), QueryType::A));
    packet.answers.push(DnsRecord::A {
        domain: "www.example.com".to_string(),
        addr: Ipv4Address::new(10, 0, 0, 1),
        ttl: 60,
    });
    packet.answers.push(DnsRecord::AAAA {
        domain: "www.example.com".to_string(),
        addr: Ipv6Address::new(0x2001, 0xdb8, 0, 0, 0, 0, 0, 1),
        ttl: 61,
    });
    packet.authorities.push(DnsRecord::NS {
        domain: "example.com".to_string(),
        host: "ns1.example.com".to_string(),
        ttl: 3600,
    });
    packet.answers.push(DnsRecord::CNAME {
        domain: "alias.example.com".to_string(),
        host: "www.example.com".to_string(),
        ttl: 62,
    });
    packet.answers.push(DnsRecord::MX {
        domain: "example.com".to_string(),
        priority: 10,
        host: "mail.example.com".to_string(),
        ttl: 63,
    });
    packet.resources.push(DnsRecord::A {
        domain: "ns1.example.com".to_string(),
        addr: Ipv4Address::new(10, 0, 0, 53),
        ttl: 3600,
    });

    let mut buffer = BytePacketBuffer::new();
    packet.write(&mut buffer).unwrap();

    // the counts were forced to the section lengths
    assert_eq!(packet.header.questions_count, 1);
    assert_eq!(packet.header.answers_count, 4);
    assert_eq!(packet.header.authority_count, 1);
    assert_eq!(packet.header.additional_count, 1);

    buffer.seek(0).unwrap();
    let decoded = DnsPacket::from_buffer(&mut buffer).unwrap();
    assert_eq!(decoded, packet);
}

#[test]
fn encode_of_decode_reproduces_wire() {
    // a conforming wire message: encode a packet, decode it, and
    // encode the decoded packet again
    let mut packet = DnsPacket::new();
    packet.header.id = 0x1001;
    packet
        .questions
        .push(DnsQuestion::new("a.root-servers.net".to_string(), QueryType::NS));
    packet.authorities.push(DnsRecord::NS {
        domain: "net".to_string(),
        host: "a.gtld-servers.net".to_string(),
        ttl: 172800,
    });

    let mut first = BytePacketBuffer::new();
    packet.write(&mut first).unwrap();
    let wire: Vec<u8> = first.buf[..first.pos()].to_vec();

    let mut reader = BytePacketBuffer::new();
    reader.buf[..wire.len()].copy_from_slice(&wire);
    let decoded = DnsPacket::from_buffer(&mut reader).unwrap();
    assert_eq!(reader.pos(), wire.len());

    let mut second = BytePacketBuffer::new();
    let mut decoded = decoded;
    decoded.write(&mut second).unwrap();
    assert_eq!(&second.buf[..second.pos()], &wire[..]);
}

#[test]
fn unknown_record_skips_payload_and_is_not_written() {
    let mut buffer = BytePacketBuffer::new();
    // name "x", type 99, class 1, ttl 7, rdlength 3, 3 payload bytes
    buffer.write_qname("x").unwrap();
    buffer.write_u16(99).unwrap();
    buffer.write_u16(1).unwrap();
    buffer.write_u32(7).unwrap();
    buffer.write_u16(3).unwrap();
    buffer.write_u8(0xAA).unwrap();
    buffer.write_u8(0xBB).unwrap();
    buffer.write_u8(0xCC).unwrap();
    let end = buffer.pos();
    buffer.seek(0).unwrap();

    let rec = DnsRecord::read(&mut buffer).unwrap();
    assert_eq!(buffer.pos(), end);
    assert_eq!(
        rec,
        DnsRecord::UNKNOWN {
            domain: "x".to_string(),
            qtype: 99,
            data_len: 3,
            ttl: 7,
        }
    );

    // writing it back emits nothing
    let mut out = BytePacketBuffer::new();
    rec.write(&mut out).unwrap();
    assert_eq!(out.pos(), 0);
}

#[test]
fn query_type_wire_values_round_trip() {
    let cases = [
        (QueryType::A, 1u16),
        (QueryType::NS, 2),
        (QueryType::CNAME, 5),
        (QueryType::MX, 15),
        (QueryType::AAAA, 28),
        (QueryType::UNKNOWN(99), 99),
    ];
    for (qt, num) in cases {
        assert_eq!(qt.to_num(), num);
        assert_eq!(QueryType::from_num(num), qt);
    }
}

#[test]
fn result_code_wire_values_round_trip() {
    let cases = [
        (ResultCode::NOERROR, 0u8),
        (ResultCode::FORMERR, 1),
        (ResultCode::SERVFAIL, 2),
        (ResultCode::NXDOMAIN, 3),
        (ResultCode::NOTIMP, 4),
        (ResultCode::REFUSED, 5),
    ];
    for (rc, num) in cases {
        assert_eq!(rc.to_number(), num);
        assert_eq!(ResultCode::from_number(num), rc);
    }
    // any other wire value decodes as NOERROR
    assert_eq!(ResultCode::from_number(9), ResultCode::NOERROR);
}
