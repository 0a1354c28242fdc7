use dns_resolver::byte_packet_buffer::BytePacketBuffer;
use dns_resolver::dns_header::DnsHeader;
use dns_resolver::result_code::ResultCode;

fn wire_with_header_prefix() -> Vec<u8> {
    let mut bytes = vec![0u8; 512];
    let prefix = [
        0x86u8, 0x2a, 0x01, 0x20, 0x00, 0x01, 0x00, 0x00, 0x00, 0x00, 0x00, 0x00,
    ];
    bytes[..12].copy_from_slice(&prefix);
    bytes
}

#[test]
fn dns_header_read_ok() {
    // arrange
    let mut sut = DnsHeader::new();
    let mut buffer = BytePacketBuffer::new();
    buffer.buf = wire_with_header_prefix();

    // act
    sut.read(&mut buffer).unwrap();

    // assert
    assert_eq!(sut.id, 34346);

    assert_eq!(sut.query_response, false);
    assert_eq!(sut.opcode, 0);
    assert_eq!(sut.authoritative_answer, false);
    assert_eq!(sut.truncated_message, false);
    assert_eq!(sut.recursion_desired, true);

    assert_eq!(sut.recursion_available, false);
    assert_eq!(sut.z, false);
    assert_eq!(sut.authed_data, true);
    assert_eq!(sut.checking_disabled, false);
    assert_eq!(sut.response_code, ResultCode::from_number(0));

    assert_eq!(sut.questions_count, 1);
    assert_eq!(sut.answers_count, 0);
    assert_eq!(sut.authority_count, 0);
    assert_eq!(sut.additional_count, 0);

    assert_eq!(buffer.pos(), 12);
}

#[test]
fn dns_header_write_ok() {
    // arrange
    let expected = wire_with_header_prefix();

    let mut buffer = BytePacketBuffer::new();
    let mut sut = DnsHeader::new();
    sut.id = 34346;

    sut.query_response = false;
    sut.opcode = 0;
    sut.authoritative_answer = false;
    sut.truncated_message = false;
    sut.recursion_desired = true;

    sut.recursion_available = false;
    sut.z = false;
    sut.authed_data = true;
    sut.checking_disabled = false;
    sut.response_code = ResultCode::from_number(0);

    sut.questions_count = 1;
    sut.answers_count = 0;
    sut.authority_count = 0;
    sut.additional_count = 0;

    // act
    sut.write(&mut buffer).unwrap();

    // assert
    assert_eq!(expected, buffer.buf);
}
