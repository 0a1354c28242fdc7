use dns_resolver::byte_packet_buffer::BytePacketBuffer;

#[test]
fn new_ok_1() {
    // arrange
    let expected_buffer_len: usize = 512;
    let expected_pos: usize = 0;

    // act
    let buffer = BytePacketBuffer::new();

    // assert
    assert_eq!(expected_buffer_len, buffer.buf.len());
    assert_eq!(expected_pos, buffer.pos);
}

#[test]
fn pos_ok_1() {
    // arrange
    let expected: usize = 0;
    let buffer = BytePacketBuffer::new();

    // act
    let actual = buffer.pos();

    // assert
    assert_eq!(expected, actual);
}

#[test]
fn step_ok_1() {
    // arrange
    let expected: usize = 1;
    let mut buffer = BytePacketBuffer::new();
    buffer.step(1).unwrap();

    // act
    let actual = buffer.pos();

    // assert
    assert_eq!(expected, actual);
}

#[test]
fn seek_ok_1() {
    // arrange
    let expected: usize = 10;
    let mut buffer = BytePacketBuffer::new();
    buffer.seek(10).unwrap();

    // act
    let actual = buffer.pos();

    // assert
    assert_eq!(expected, actual);
}

#[test]
fn read_ok_1() {
    // arrange
    let expected_byte: u8 = 0;
    let expected_pos: usize = 1;
    let mut buffer = BytePacketBuffer::new();

    // act
    let actual = buffer.read().unwrap();

    // assert
    assert_eq!(expected_byte, actual);
    assert_eq!(expected_pos, buffer.pos);
}

#[test]
fn read_error() {
    // arrange
    let mut buffer = BytePacketBuffer::new();
    buffer.seek(512).unwrap();

    // act
    let actual = buffer.read();

    // assert
    match actual {
        Ok(_) => (),
        Err(r) => {
            assert_eq!(r.message(), "End of buffer".to_string());
        }
    }
}

#[test]
fn get_ok_1() {
    // arrange
    let expected: u8 = 0;
    let buffer = BytePacketBuffer::new();

    // act
    let actual = buffer.get(10).unwrap();

    // assert
    assert_eq!(expected, actual);
}

#[test]
fn get_error() {
    // arrange
    let mut buffer = BytePacketBuffer::new();
    buffer.seek(512).unwrap();

    // act
    let actual = buffer.get(10);

    // assert
    match actual {
        Ok(_) => (),
        Err(r) => {
            assert_eq!(r.message(), "End of buffer".to_string());
        }
    }
}

#[test]
fn get_range_ok_1() {
    // arrange
    let expected: [u8; 512] = [0; 512];
    let buffer = BytePacketBuffer::new();

    // act
    let actual = buffer.get_range(0, 512).unwrap();

    // assert
    assert_eq!(expected, actual);
}

#[test]
fn get_range_ok_2() {
    // arrange
    let expected: [u8; 10] = [0; 10];
    let buffer = BytePacketBuffer::new();

    // act
    let actual = buffer.get_range(1, 10).unwrap();

    // assert
    assert_eq!(expected, actual);
}

#[test]
fn get_range_error_1() {
    // arrange
    let buffer = BytePacketBuffer::new();

    // act
    let actual = buffer.get_range(0, 513);

    // assert
    match actual {
        Ok(_) => (),
        Err(r) => {
            assert_eq!(r.message(), "End of buffer".to_string());
        }
    }
}

#[test]
fn get_range_error_2() {
    // arrange
    let buffer = BytePacketBuffer::new();

    // act
    let actual = buffer.get_range(1, 512);

    // assert
    match actual {
        Ok(_) => (),
        Err(r) => {
            assert_eq!(r.message(), "End of buffer".to_string());
        }
    }
}

#[test]
fn get_read_u16_ok_1() {
    // arrange
    let expected: u16 = 0;
    let mut buffer = BytePacketBuffer::new();

    // act
    let actual = buffer.read_u16().unwrap();

    // assert
    assert_eq!(expected, actual);
}

#[test]
fn get_read_u16_ok_2() {
    // arrange
    let expected: u16 = 257;
    let mut buffer = BytePacketBuffer::new();
    buffer.buf = vec![1; 512];

    // act
    let actual = buffer.read_u16().unwrap();

    // assert
    assert_eq!(expected, actual);
}

#[test]
fn get_read_u16_ok_3() {
    // arrange
    let expected: u16 = 514;
    let mut buffer = BytePacketBuffer::new();
    buffer.buf = vec![2; 512];

    // act
    let actual = buffer.read_u16().unwrap();

    // assert
    assert_eq!(expected, actual);
}

#[test]
fn get_read_u32_ok_1() {
    // arrange
    let expected: u32 = 0;
    let mut buffer = BytePacketBuffer::new();

    // act
    let actual = buffer.read_u32().unwrap();

    // assert
    assert_eq!(expected, actual);
}

#[test]
fn get_read_u32_ok_2() {
    // arrange
    let expected: u32 = 16843009;
    let mut buffer = BytePacketBuffer::new();
    buffer.buf = vec![1; 512];

    // act
    let actual = buffer.read_u32().unwrap();

    // assert
    assert_eq!(expected, actual);
}

#[test]
fn get_read_u32_ok_3() {
    // arrange
    let expected: u32 = 33686018;
    let mut buffer = BytePacketBuffer::new();
    buffer.buf = vec![2; 512];

    // act
    let actual = buffer.read_u32().unwrap();

    // assert
    assert_eq!(expected, actual);
}

#[test]
fn byte_packet_buffer_write_ok() {
    // arrange
    let mut sut = BytePacketBuffer::new();
    let input: u8 = 1;

    // act
    sut.write(input).unwrap();

    // assert
    assert_eq!(sut.buf[0], 1);
}

#[test]
fn write_u8_ok() {
    // arrange
    let mut sut = BytePacketBuffer::new();
    let input: u8 = 1;

    // act
    sut.write_u8(input).unwrap();

    // assert
    assert_eq!(sut.buf[0], 1);
}

#[test]
fn write_u16_ok() {
    // arrange
    let mut sut = BytePacketBuffer::new();
    let input = 0xff;

    // act
    sut.write_u16(input).unwrap();

    // assert
    assert_eq!(sut.buf[0], 0);
    assert_eq!(sut.buf[1], 255);
}

#[test]
fn write_u32_ok() {
    // arrange
    let mut sut = BytePacketBuffer::new();
    let input: u32 = (0xff << 24) | (0xff << 16) | (0xff << 8) | 0xff;

    // act
    sut.write_u32(input).unwrap();

    // assert
    assert_eq!(sut.buf[0], 255);
    assert_eq!(sut.buf[1], 255);
    assert_eq!(sut.buf[2], 255);
    assert_eq!(sut.buf[3], 255);
}

#[test]
fn write_write_qname_ok() {
    // arrange
    let mut sut = BytePacketBuffer::new();
    let input = "google.com.tw".to_string();

    // act
    sut.write_qname(&input).unwrap();

    // assert
    // 6, 103, 111, 111, 103, 108, 101, 3, 99, 111, 109, 2, 116, 119, 0
    assert_eq!(sut.buf[0], 6);
    assert_eq!(sut.buf[1], 103);
    assert_eq!(sut.buf[2], 111);
    assert_eq!(sut.buf[3], 111);
    assert_eq!(sut.buf[4], 103);
    assert_eq!(sut.buf[5], 108);
    assert_eq!(sut.buf[6], 101);
    assert_eq!(sut.buf[7], 3);
    assert_eq!(sut.buf[8], 99);
    assert_eq!(sut.buf[9], 111);
    assert_eq!(sut.buf[10], 109);
    assert_eq!(sut.buf[11], 2);
    assert_eq!(sut.buf[12], 116);
    assert_eq!(sut.buf[13], 119);
    assert_eq!(sut.buf[14], 0);
}

#[test]
fn set_ok() {
    // arrange
    let mut sut = BytePacketBuffer::new();

    // act
    sut.set(0, 1).unwrap();

    // assert
    assert_eq!(sut.buf[0], 1);
}

#[test]
fn set_u16_ok() {
    // arrange
    let mut sut = BytePacketBuffer::new();

    // act
    sut.set_u16(0, 0xFFFF).unwrap();

    // assert
    assert_eq!(sut.buf[0], 255);
    assert_eq!(sut.buf[1], 255);
}
