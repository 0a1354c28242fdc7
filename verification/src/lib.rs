//! A small DNS resolver library: a bit-exact RFC 1035 wire codec
//! (header, questions, resource records) over a fixed 512-byte octet
//! buffer, with pointer-compression decoding, hardened jump-limit
//! defenses, and the decision logic of an iterative recursive resolver.
//!
//! All I/O (UDP sockets) lives outside this crate; the library works on
//! plain byte buffers and packet values.

pub mod byte_packet_buffer;
pub mod dns_error;
pub mod dns_header;
pub mod dns_packet;
pub mod dns_question;
pub mod dns_record;
pub mod name;
pub mod query_type;
pub mod resolver;
pub mod result_code;
pub mod round_trip;
