use dns_thingy::{
    BytePacketBuffer, DnsError, DnsHeader, DnsPacket, DnsQuestion, DnsRecord, Ipv4Address,
    QueryType, ResultCode,
};

fn filled(bytes: &[u8]) -> BytePacketBuffer {
    let mut buf = BytePacketBuffer::new();
    buf.buf[..bytes.len()].copy_from_slice(bytes);
    buf
}

fn address(domain: &str, a: u8, b: u8, c: u8, d: u8, ttl: u32) -> DnsRecord {
    DnsRecord::A { domain: domain.to_string(), addr: Ipv4Address::new(a, b, c, d), ttl }
}

#[test]
fn result_codes_by_number() {
    assert_eq!(ResultCode::from(0), ResultCode::NOERROR);
    assert_eq!(ResultCode::from(1), ResultCode::FORMERR);
    assert_eq!(ResultCode::from(2), ResultCode::SERVFAIL);
    assert_eq!(ResultCode::from(3), ResultCode::NXDOMAIN);
    assert_eq!(ResultCode::from(4), ResultCode::NOTIMP);
    assert_eq!(ResultCode::from(5), ResultCode::REFUSED);
    assert_eq!(ResultCode::from(6), ResultCode::NOERROR);
    assert_eq!(ResultCode::from(15), ResultCode::NOERROR);
    assert_eq!(ResultCode::from(255), ResultCode::NOERROR);
    assert_eq!(ResultCode::REFUSED.code(), 5);
    assert_eq!(ResultCode::NOERROR.code(), 0);
}

#[test]
fn query_types_by_code() {
    assert_eq!(QueryType::from(1), QueryType::A);
    assert_eq!(QueryType::from(0), QueryType::UNKNOWN(0));
    assert_eq!(QueryType::from(28), QueryType::UNKNOWN(28));
    assert_eq!(u16::from(QueryType::A), 1);
    assert_eq!(u16::from(QueryType::UNKNOWN(65535)), 65535);
    let code: u16 = QueryType::A.into();
    assert_eq!(code, 1);
    assert_eq!(QueryType::UNKNOWN(5).code(), 5);
}

#[test]
fn a_new_header_is_all_zero() {
    let h = DnsHeader::new();
    assert_eq!(h.id, 0);
    assert!(!h.recursion_desired && !h.truncated_message && !h.authoritative_answer);
    assert_eq!(h.opcode, 0);
    assert!(!h.response);
    assert_eq!(h.rescode, ResultCode::NOERROR);
    assert!(!h.checking_disabled && !h.authed_data && !h.z && !h.recursion_available);
    assert_eq!((h.questions, h.answers, h.authoritative_entries, h.resource_entries), (0, 0, 0, 0));
}

#[test]
fn flags_with_bit_0_and_bit_7_set() {
    let mut buf = filled(&[0, 0, 0x81, 0x00]);
    let mut h = DnsHeader::new();
    assert_eq!(h.read(&mut buf), Ok(()));
    let mut expected = DnsHeader::new();
    expected.recursion_desired = true;
    expected.response = true;
    assert_eq!(h, expected);
    assert_eq!(buf.pos(), 12);
}

#[test]
fn each_flag_has_its_bit() {
    let cases: [(u8, u8, fn(&mut DnsHeader)); 10] = [
        (0x01, 0, |h| h.recursion_desired = true),
        (0x02, 0, |h| h.truncated_message = true),
        (0x04, 0, |h| h.authoritative_answer = true),
        (0x78, 0, |h| h.opcode = 15),
        (0x80, 0, |h| h.response = true),
        (0, 0x03, |h| h.rescode = ResultCode::NXDOMAIN),
        (0, 0x10, |h| h.checking_disabled = true),
        (0, 0x20, |h| h.authed_data = true),
        (0, 0x40, |h| h.z = true),
        (0, 0x80, |h| h.recursion_available = true),
    ];
    for (a, b, set) in cases {
        let mut buf = filled(&[0, 0, a, b]);
        let mut h = DnsHeader::new();
        assert_eq!(h.read(&mut buf), Ok(()));
        let mut expected = DnsHeader::new();
        set(&mut expected);
        assert_eq!(h, expected);

        let mut out = BytePacketBuffer::new();
        assert_eq!(expected.write(&mut out), Ok(()));
        assert_eq!(&out.buf[..12], &[0, 0, a, b, 0, 0, 0, 0, 0, 0, 0, 0]);
    }
}

#[test]
fn a_header_reads_all_its_fields() {
    let mut buf = filled(&[0x86, 0x2A, 0x81, 0x80, 0, 1, 0, 2, 0, 3, 0, 4]);
    let mut h = DnsHeader::new();
    assert_eq!(h.read(&mut buf), Ok(()));
    assert_eq!(h.id, 0x862A);
    assert!(h.recursion_desired && h.response && h.recursion_available);
    assert!(!h.truncated_message && !h.authoritative_answer && !h.z);
    assert_eq!(h.opcode, 0);
    assert_eq!(h.rescode, ResultCode::NOERROR);
    assert_eq!((h.questions, h.answers, h.authoritative_entries, h.resource_entries), (1, 2, 3, 4));
}

#[test]
fn an_unknown_result_code_reads_as_no_error() {
    let mut buf = filled(&[0, 0, 0, 0x09]);
    let mut h = DnsHeader::new();
    assert_eq!(h.read(&mut buf), Ok(()));
    assert_eq!(h.rescode, ResultCode::NOERROR);
}

#[test]
fn a_header_needs_twelve_bytes() {
    let mut buf = BytePacketBuffer::new();
    let mut h = DnsHeader::new();
    h.id = 77;
    assert_eq!(buf.seek(501), Ok(()));
    assert_eq!(h.read(&mut buf), Err(DnsError::BufferOverrun));
    assert_eq!(buf.pos(), 501);
    assert_eq!(h.id, 77);
    assert_eq!(buf.seek(500), Ok(()));
    assert_eq!(h.read(&mut buf), Ok(()));
    assert_eq!(buf.pos(), 512);
    assert_eq!(h, DnsHeader::new());
}

#[test]
fn a_header_is_written_field_by_field() {
    let mut h = DnsHeader::new();
    h.id = 666;
    h.recursion_desired = true;
    h.opcode = 2;
    h.rescode = ResultCode::REFUSED;
    h.authed_data = true;
    h.questions = 1;
    h.resource_entries = 0x0102;
    let mut buf = BytePacketBuffer::new();
    assert_eq!(h.write(&mut buf), Ok(()));
    assert_eq!(buf.pos(), 12);
    assert_eq!(&buf.buf[..12], &[0x02, 0x9A, 0x11, 0x25, 0, 1, 0, 0, 0, 0, 1, 2]);
    assert_eq!(buf.seek(0), Ok(()));
    let mut back = DnsHeader::new();
    assert_eq!(back.read(&mut buf), Ok(()));
    assert_eq!(back, h);
}

#[test]
fn an_opcode_above_15_loses_its_high_bits() {
    let mut h = DnsHeader::new();
    h.opcode = 16;
    let mut buf = BytePacketBuffer::new();
    assert_eq!(h.write(&mut buf), Ok(()));
    assert_eq!(buf.buf[2], 0x80);
    assert_eq!(buf.seek(0), Ok(()));
    let mut back = DnsHeader::new();
    assert_eq!(back.read(&mut buf), Ok(()));
    assert_eq!(back.opcode, 0);
    assert!(back.response);
}

#[test]
fn a_header_that_does_not_fit_overruns() {
    let mut h = DnsHeader::new();
    h.id = 0x0102;
    let mut buf = BytePacketBuffer::new();
    assert_eq!(buf.seek(509), Ok(()));
    assert_eq!(h.write(&mut buf), Err(DnsError::BufferOverrun));
    assert_eq!(buf.pos(), 512);
    assert_eq!(&buf.buf[509..], &[1, 2, 0]);
}

#[test]
fn a_question_is_written_and_read() {
    let q = DnsQuestion::new("google.com".to_string(), QueryType::A);
    let mut buf = BytePacketBuffer::new();
    assert_eq!(q.write(&mut buf), Ok(()));
    assert_eq!(buf.pos(), 16);
    assert_eq!(&buf.buf[..16], b"\x06google\x03com\x00\x00\x01\x00\x01");
    assert_eq!(buf.seek(0), Ok(()));
    let mut back = DnsQuestion::new(String::new(), QueryType::UNKNOWN(0));
    assert_eq!(back.read(&mut buf), Ok(()));
    assert_eq!(back, q);
    assert_eq!(buf.pos(), 16);
}

#[test]
fn a_question_of_unknown_type_keeps_its_code() {
    let mut buf = filled(b"\x01x\x00\x00\x1C\x00\xFF");
    let mut q = DnsQuestion::new(String::new(), QueryType::A);
    assert_eq!(q.read(&mut buf), Ok(()));
    assert_eq!(q, DnsQuestion::new("x".to_string(), QueryType::UNKNOWN(28)));
    assert_eq!(buf.pos(), 7);
    let mut out = BytePacketBuffer::new();
    assert_eq!(q.write(&mut out), Ok(()));
    assert_eq!(&out.buf[..7], b"\x01x\x00\x00\x1C\x00\x01");
}

#[test]
fn a_question_read_appends_to_the_name() {
    let mut buf = filled(b"\x01x\x00\x00\x01\x00\x01");
    let mut q = DnsQuestion::new("pre".to_string(), QueryType::UNKNOWN(0));
    assert_eq!(q.read(&mut buf), Ok(()));
    assert_eq!(q, DnsQuestion::new("prex".to_string(), QueryType::A));
}

#[test]
fn a_question_cut_short_changes_nothing() {
    let mut buf = BytePacketBuffer::new();
    buf.buf[507] = 1;
    buf.buf[508] = b'x';
    assert_eq!(buf.seek(507), Ok(()));
    let mut q = DnsQuestion::new("kept".to_string(), QueryType::UNKNOWN(9));
    assert_eq!(q.read(&mut buf), Err(DnsError::BufferOverrun));
    assert_eq!(q, DnsQuestion::new("kept".to_string(), QueryType::UNKNOWN(9)));
    assert_eq!(buf.pos(), 507);
}

#[test]
fn a_question_with_a_long_label_is_not_written() {
    let q = DnsQuestion::new("b".repeat(64), QueryType::A);
    let mut buf = BytePacketBuffer::new();
    assert_eq!(q.write(&mut buf), Err(DnsError::LabelTooLong));
    assert_eq!(buf.pos(), 0);
}

#[test]
fn example_com_address_record_bytes() {
    let rec = address("example.com", 93, 184, 216, 34, 300);
    let mut buf = BytePacketBuffer::new();
    assert_eq!(rec.write(&mut buf), Ok(27));
    assert_eq!(buf.pos(), 27);
    let expected: [u8; 27] = [
        7, b'e', b'x', b'a', b'm', b'p', b'l', b'e', 3, b'c', b'o', b'm', 0, 0x00, 0x01, 0x00,
        0x01, 0x00, 0x00, 0x01, 0x2C, 0x00, 0x04, 93, 184, 216, 34,
    ];
    assert_eq!(&buf.buf[..27], &expected);
    assert_eq!(buf.buf[27], 0);

    assert_eq!(buf.seek(0), Ok(()));
    assert_eq!(DnsRecord::read(&mut buf), Ok(rec));
    assert_eq!(buf.pos(), 27);
}

#[test]
fn an_address_record_ignores_its_declared_length() {
    let mut buf = filled(b"\x01x\x00\x00\x01\x00\x01\x00\x00\x00\x3C\x00\x09\x0A\x00\x00\x01\xEE");
    assert_eq!(DnsRecord::read(&mut buf), Ok(address("x", 10, 0, 0, 1, 60)));
    assert_eq!(buf.pos(), 17);
}

#[test]
fn an_unknown_record_is_passed_over() {
    // Type 16 with 3 bytes of payload, then an address record.
    let mut bytes = b"\x01t\x00\x00\x10\x00\x01\x00\x00\x0E\x10\x00\x03abc".to_vec();
    bytes.extend_from_slice(b"\x01x\x00\x00\x01\x00\x01\x00\x00\x00\x05\x00\x04\x01\x02\x03\x04");
    let mut buf = filled(&bytes);
    assert_eq!(
        DnsRecord::read(&mut buf),
        Ok(DnsRecord::UNKNOWN { domain: "t".to_string(), qtype: 16, data_len: 3, ttl: 3600 })
    );
    assert_eq!(buf.pos(), 16);
    assert_eq!(DnsRecord::read(&mut buf), Ok(address("x", 1, 2, 3, 4, 5)));
    assert_eq!(buf.pos(), 33);
}

#[test]
fn an_unknown_record_without_payload() {
    let mut buf = filled(b"\x00\x00\x02\x00\x01\x00\x00\x00\x01\x00\x00");
    assert_eq!(
        DnsRecord::read(&mut buf),
        Ok(DnsRecord::UNKNOWN { domain: String::new(), qtype: 2, data_len: 0, ttl: 1 })
    );
    assert_eq!(buf.pos(), 11);
}

#[test]
fn an_unknown_record_may_end_with_the_buffer() {
    let mut buf = BytePacketBuffer::new();
    buf.buf[490..501].copy_from_slice(b"\x00\x00\x02\x00\x01\x00\x00\x00\x01\x00\x0B");
    assert_eq!(buf.seek(490), Ok(()));
    assert_eq!(
        DnsRecord::read(&mut buf),
        Ok(DnsRecord::UNKNOWN { domain: String::new(), qtype: 2, data_len: 11, ttl: 1 })
    );
    assert_eq!(buf.pos(), 512);
}

#[test]
fn an_unknown_record_with_more_payload_than_buffer_fails() {
    let mut buf = BytePacketBuffer::new();
    buf.buf[490..501].copy_from_slice(b"\x00\x00\x02\x00\x01\x00\x00\x00\x01\x00\x0C");
    assert_eq!(buf.seek(490), Ok(()));
    assert_eq!(DnsRecord::read(&mut buf), Err(DnsError::BufferOverrun));
    assert_eq!(buf.pos(), 490);
}

#[test]
fn an_address_record_cut_short_fails() {
    let mut buf = BytePacketBuffer::new();
    buf.buf[498..509].copy_from_slice(b"\x00\x00\x01\x00\x01\x00\x00\x00\x01\x00\x04");
    assert_eq!(buf.seek(498), Ok(()));
    assert_eq!(DnsRecord::read(&mut buf), Err(DnsError::BufferOverrun));
    assert_eq!(buf.pos(), 498);
    let mut buf = BytePacketBuffer::new();
    assert_eq!(buf.seek(497), Ok(()));
    buf.buf[497..508].copy_from_slice(b"\x00\x00\x01\x00\x01\x00\x00\x00\x01\x00\x04");
    assert_eq!(DnsRecord::read(&mut buf), Ok(address("", 0, 0, 0, 0, 1)));
    assert_eq!(buf.pos(), 512);
}

#[test]
fn a_record_with_a_pointer_loop_fails() {
    let mut buf = filled(&[0xC0, 0x00]);
    assert_eq!(DnsRecord::read(&mut buf), Err(DnsError::CompressionLoop));
    assert_eq!(buf.pos(), 0);
}

#[test]
fn an_unknown_record_writes_nothing() {
    let rec = DnsRecord::UNKNOWN { domain: "t".to_string(), qtype: 16, data_len: 3, ttl: 9 };
    let mut buf = BytePacketBuffer::new();
    assert_eq!(buf.seek(5), Ok(()));
    assert_eq!(rec.write(&mut buf), Ok(0));
    assert_eq!(buf.pos(), 5);
    assert!(buf.buf.iter().all(|b| *b == 0));
    assert_eq!(buf.seek(512), Ok(()));
    assert_eq!(rec.write(&mut buf), Ok(0));
}

#[test]
fn an_address_record_that_does_not_fit_overruns() {
    let rec = address("ab", 1, 2, 3, 4, 0x01020304);
    let mut buf = BytePacketBuffer::new();
    assert_eq!(buf.seek(500), Ok(()));
    assert_eq!(rec.write(&mut buf), Err(DnsError::BufferOverrun));
    assert_eq!(buf.pos(), 512);
    assert_eq!(&buf.buf[500..], &[2, b'a', b'b', 0, 0, 1, 0, 1, 1, 2, 3, 4]);
    let mut buf = BytePacketBuffer::new();
    assert_eq!(buf.seek(494), Ok(()));
    assert_eq!(rec.write(&mut buf), Ok(18));
    assert_eq!(buf.pos(), 512);
}

#[test]
fn an_address_record_with_a_long_label_is_not_written() {
    let rec = address(&format!("a.{}", "b".repeat(64)), 1, 2, 3, 4, 0);
    let mut buf = BytePacketBuffer::new();
    assert_eq!(rec.write(&mut buf), Err(DnsError::LabelTooLong));
    assert_eq!(buf.pos(), 2);
}

#[test]
fn addresses_order_by_their_octets() {
    assert!(Ipv4Address::new(1, 255, 255, 255) < Ipv4Address::new(2, 0, 0, 0));
    assert!(Ipv4Address::new(10, 0, 0, 1) < Ipv4Address::new(10, 0, 0, 2));
    assert_eq!(Ipv4Address::new(93, 184, 216, 34).octets(), [93, 184, 216, 34]);
    assert_eq!(Ipv4Address::new(1, 2, 3, 4), Ipv4Address(1, 2, 3, 4));
}

#[test]
fn a_new_packet_is_empty() {
    let p = DnsPacket::new();
    assert_eq!(p.header, DnsHeader::new());
    assert!(p.questions.is_empty() && p.answers.is_empty());
    assert!(p.authorities.is_empty() && p.resources.is_empty());
}

#[test]
fn a_query_is_written() {
    let mut packet = DnsPacket::new();
    packet.header.id = 666;
    packet.header.recursion_desired = true;
    packet.questions.push(DnsQuestion::new("google.com".to_string(), QueryType::A));
    let mut buf = BytePacketBuffer::new();
    assert_eq!(packet.write(&mut buf), Ok(28));
    assert_eq!(buf.pos(), 28);
    assert_eq!(packet.header.questions, 1);
    let mut expected = vec![0x02, 0x9A, 0x01, 0x00, 0, 1, 0, 0, 0, 0, 0, 0];
    expected.extend_from_slice(b"\x06google\x03com\x00\x00\x01\x00\x01");
    assert_eq!(&buf.buf[..28], &expected[..]);
}

#[test]
fn counts_are_taken_from_the_sections() {
    let mut packet = DnsPacket::new();
    packet.header.questions = 9;
    packet.header.answers = 9;
    packet.header.authoritative_entries = 9;
    packet.header.resource_entries = 9;
    packet.answers.push(address("a", 1, 1, 1, 1, 1));
    packet.answers.push(address("b", 2, 2, 2, 2, 2));
    packet.resources.push(address("c", 3, 3, 3, 3, 3));
    let mut buf = BytePacketBuffer::new();
    assert_eq!(packet.write(&mut buf), Ok(12 + 3 * 17));
    assert_eq!(packet.header.questions, 0);
    assert_eq!(packet.header.answers, 2);
    assert_eq!(packet.header.authoritative_entries, 0);
    assert_eq!(packet.header.resource_entries, 1);
    assert_eq!(&buf.buf[4..12], &[0, 0, 0, 2, 0, 0, 0, 1]);
}

#[test]
fn counts_are_set_even_where_the_write_fails() {
    let mut packet = DnsPacket::new();
    packet.questions.push(DnsQuestion::new("c".repeat(64), QueryType::A));
    let mut buf = BytePacketBuffer::new();
    assert_eq!(packet.write(&mut buf), Err(DnsError::LabelTooLong));
    assert_eq!(packet.header.questions, 1);
    assert_eq!(buf.pos(), 12);
}

#[test]
fn a_message_round_trips() {
    let mut packet = DnsPacket::new();
    packet.header.id = 0xBEEF;
    packet.header.response = true;
    packet.header.recursion_desired = true;
    packet.header.recursion_available = true;
    packet.header.authoritative_answer = true;
    packet.header.opcode = 5;
    packet.header.rescode = ResultCode::NXDOMAIN;
    packet.questions.push(DnsQuestion::new("example.com".to_string(), QueryType::A));
    packet.questions.push(DnsQuestion::new("x.y.z".to_string(), QueryType::UNKNOWN(255)));
    packet.answers.push(address("example.com", 93, 184, 216, 34, 300));
    packet.answers.push(address("example.com", 93, 184, 216, 35, 301));
    packet.authorities.push(address("ns.example.com", 10, 0, 0, 1, 86400));
    packet.resources.push(address("a-1.example.com", 255, 255, 255, 255, u32::MAX));

    let mut buf = BytePacketBuffer::new();
    let written = packet.write(&mut buf).unwrap();
    assert_eq!(written, buf.pos());
    assert_eq!(buf.seek(0), Ok(()));
    let back = DnsPacket::from_buffer(&mut buf).unwrap();
    assert_eq!(back, packet);
    assert_eq!(buf.pos(), written);
    assert_eq!(back.header.questions, 2);
    assert_eq!(back.header.answers, 2);
}

#[test]
fn a_message_round_trips_to_lower_case() {
    let mut packet = DnsPacket::new();
    packet.questions.push(DnsQuestion::new("WWW.Example.COM".to_string(), QueryType::A));
    packet.answers.push(address("WWW.Example.COM", 1, 2, 3, 4, 5));
    let mut buf = BytePacketBuffer::new();
    assert!(packet.write(&mut buf).is_ok());
    assert_eq!(buf.seek(0), Ok(()));
    let back = DnsPacket::from_buffer(&mut buf).unwrap();
    assert_eq!(back.questions, vec![DnsQuestion::new("www.example.com".to_string(), QueryType::A)]);
    assert_eq!(back.answers, vec![address("www.example.com", 1, 2, 3, 4, 5)]);
    assert_eq!(back.header, packet.header);
}

#[test]
fn a_message_round_trips_anywhere_in_the_buffer() {
    let mut packet = DnsPacket::new();
    packet.questions.push(DnsQuestion::new("a.b".to_string(), QueryType::A));
    let mut buf = BytePacketBuffer::new();
    assert_eq!(buf.seek(100), Ok(()));
    assert_eq!(packet.write(&mut buf), Ok(21));
    assert_eq!(buf.seek(100), Ok(()));
    assert_eq!(DnsPacket::from_buffer(&mut buf), Ok(packet));
    assert_eq!(buf.pos(), 121);
}

#[test]
fn unknown_records_are_counted_but_not_written() {
    let mut packet = DnsPacket::new();
    packet.answers.push(DnsRecord::UNKNOWN {
        domain: "t".to_string(),
        qtype: 16,
        data_len: 3,
        ttl: 9,
    });
    let mut buf = BytePacketBuffer::new();
    assert_eq!(packet.write(&mut buf), Ok(12));
    assert_eq!(packet.header.answers, 1);
    assert_eq!(&buf.buf[..13], &[0, 0, 0, 0, 0, 0, 0, 1, 0, 0, 0, 0, 0]);
}

#[test]
fn a_response_with_a_compressed_answer_is_read() {
    let mut bytes = vec![0x86, 0x2A, 0x81, 0x80, 0, 1, 0, 1, 0, 0, 0, 0];
    bytes.extend_from_slice(b"\x06google\x03com\x00\x00\x01\x00\x01");
    bytes.extend_from_slice(b"\xC0\x0C\x00\x01\x00\x01\x00\x00\x01\x25\x00\x04\xD8\x3A\xD3\x8E");
    let mut buf = filled(&bytes);
    let packet = DnsPacket::from_buffer(&mut buf).unwrap();
    assert_eq!(packet.header.id, 0x862A);
    assert!(packet.header.response);
    assert_eq!(packet.questions, vec![DnsQuestion::new("google.com".to_string(), QueryType::A)]);
    assert_eq!(packet.answers, vec![address("google.com", 216, 58, 211, 142, 293)]);
    assert!(packet.authorities.is_empty() && packet.resources.is_empty());
    assert_eq!(buf.pos(), 44);
}

#[test]
fn sections_are_read_in_order() {
    let mut bytes = vec![0, 1, 0, 0, 0, 0, 0, 1, 0, 1, 0, 1];
    bytes.extend_from_slice(b"\x01a\x00\x00\x01\x00\x01\x00\x00\x00\x01\x00\x04\x01\x01\x01\x01");
    bytes.extend_from_slice(b"\x01b\x00\x00\x02\x00\x01\x00\x00\x00\x02\x00\x02\xAA\xBB");
    bytes.extend_from_slice(b"\x01c\x00\x00\x01\x00\x01\x00\x00\x00\x03\x00\x04\x03\x03\x03\x03");
    let mut buf = filled(&bytes);
    let packet = DnsPacket::from_buffer(&mut buf).unwrap();
    assert!(packet.questions.is_empty());
    assert_eq!(packet.answers, vec![address("a", 1, 1, 1, 1, 1)]);
    assert_eq!(
        packet.authorities,
        vec![DnsRecord::UNKNOWN { domain: "b".to_string(), qtype: 2, data_len: 2, ttl: 2 }]
    );
    assert_eq!(packet.resources, vec![address("c", 3, 3, 3, 3, 3)]);
    assert_eq!(buf.pos(), 12 + 17 + 15 + 17);
}

#[test]
fn a_zero_buffer_holds_one_hundred_empty_questions() {
    let mut buf = BytePacketBuffer::new();
    buf.buf[5] = 100;
    let packet = DnsPacket::from_buffer(&mut buf).unwrap();
    assert_eq!(packet.questions.len(), 100);
    assert_eq!(packet.questions[99], DnsQuestion::new(String::new(), QueryType::UNKNOWN(0)));
    assert_eq!(buf.pos(), 512);
}

#[test]
fn more_questions_than_the_buffer_holds_overrun() {
    let mut buf = BytePacketBuffer::new();
    buf.buf[5] = 101;
    assert_eq!(DnsPacket::from_buffer(&mut buf), Err(DnsError::BufferOverrun));
    assert_eq!(buf.pos(), 0);
}

#[test]
fn more_records_than_the_buffer_holds_overrun() {
    let mut bytes = vec![0, 0, 0, 0, 0, 0, 0, 2, 0, 0, 0, 0];
    bytes.extend_from_slice(b"\x01a\x00\x00\x01\x00\x01\x00\x00\x00\x01\x00\x04\x01\x01\x01\x01");
    let mut buf = filled(&bytes);
    // The second answer is read from zero bytes: an unknown record of 11 bytes.
    assert!(DnsPacket::from_buffer(&mut buf).is_ok());
    let mut buf = filled(&bytes);
    buf.buf[7] = 0xFF;
    buf.buf[6] = 0xFF;
    assert_eq!(DnsPacket::from_buffer(&mut buf), Err(DnsError::BufferOverrun));
    assert_eq!(buf.pos(), 0);
    let mut buf = filled(&bytes);
    buf.buf[11] = 46;
    assert_eq!(DnsPacket::from_buffer(&mut buf), Err(DnsError::BufferOverrun));
}

#[test]
fn a_packet_cut_short_overruns() {
    let mut buf = BytePacketBuffer::new();
    assert_eq!(buf.seek(505), Ok(()));
    assert_eq!(DnsPacket::from_buffer(&mut buf), Err(DnsError::BufferOverrun));
    assert_eq!(buf.pos(), 505);
}

#[test]
fn a_packet_with_a_pointer_loop_fails() {
    let mut bytes = vec![0, 0, 0, 0, 0, 1, 0, 0, 0, 0, 0, 0];
    bytes.extend_from_slice(&[0xC0, 0x0C]);
    let mut buf = filled(&bytes);
    assert_eq!(DnsPacket::from_buffer(&mut buf), Err(DnsError::CompressionLoop));
    assert_eq!(buf.pos(), 0);
}

#[test]
fn a_packet_that_does_not_fit_overruns() {
    let mut packet = DnsPacket::new();
    for i in 0..30u8 {
        packet.answers.push(address("abc", i, i, i, i, 1));
    }
    // 12 + 30 * 19 = 582 bytes.
    let mut buf = BytePacketBuffer::new();
    assert_eq!(packet.write(&mut buf), Err(DnsError::BufferOverrun));
    assert_eq!(buf.pos(), 512);
    assert_eq!(packet.header.answers, 30);
    packet.answers.truncate(26);
    let mut buf = BytePacketBuffer::new();
    assert_eq!(packet.write(&mut buf), Ok(12 + 26 * 19));
}
