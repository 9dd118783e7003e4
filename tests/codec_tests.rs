use dns_resolver::packet::{
    DNSHeader, DNSPacket, DNSQuestion, DNSRecord, Ipv4Address, Ipv6Address, OpCode, QueryType,
    RCode,
};
use dns_resolver::parser::{PacketParser, ParseError};
use dns_resolver::writer::{PacketWriter, WriteError, TCP_BUFFER_SIZE};

const YAHOO_MX: [u8; 106] = [
    0x2f, 0x1a, 0x81, 0x80, 0x00, 0x01, 0x00, 0x03, 0x00, 0x00, 0x00, 0x00, 0x05, 0x79, 0x61,
    0x68, 0x6f, 0x6f, 0x03, 0x63, 0x6f, 0x6d, 0x00, 0x00, 0x0f, 0x00, 0x01, 0xc0, 0x0c, 0x00,
    0x0f, 0x00, 0x01, 0x00, 0x00, 0x07, 0x08, 0x00, 0x19, 0x00, 0x01, 0x04, 0x6d, 0x74, 0x61,
    0x35, 0x03, 0x61, 0x6d, 0x30, 0x08, 0x79, 0x61, 0x68, 0x6f, 0x6f, 0x64, 0x6e, 0x73, 0x03,
    0x6e, 0x65, 0x74, 0x00, 0xc0, 0x0c, 0x00, 0x0f, 0x00, 0x01, 0x00, 0x00, 0x07, 0x08, 0x00,
    0x09, 0x00, 0x01, 0x04, 0x6d, 0x74, 0x61, 0x36, 0xc0, 0x2e, 0xc0, 0x0c, 0x00, 0x0f, 0x00,
    0x01, 0x00, 0x00, 0x07, 0x08, 0x00, 0x09, 0x00, 0x01, 0x04, 0x6d, 0x74, 0x61, 0x37, 0xc0,
    0x2e,
];

fn parse(bytes: &[u8]) -> Result<DNSPacket, ParseError> {
    let mut parser = PacketParser::from_bytes(bytes.to_vec());
    DNSPacket::get_dns_packet(&mut parser)
}

fn write(packet: &mut DNSPacket) -> Vec<u8> {
    let mut writer = PacketWriter::with_capacity(TCP_BUFFER_SIZE);
    packet.write_dns_packet(&mut writer).expect("packet writes");
    writer.buffer
}

fn mx(host: &str) -> DNSRecord {
    DNSRecord::MX { domain: "yahoo.com".to_string(), priority: 1, host: host.to_string(), ttl: 1800 }
}

#[test]
fn yahoo_mx_sample_survives_rewrite() {
    let packet = parse(&YAHOO_MX).unwrap();
    assert_eq!(packet.header.id, 0x2f1a);
    assert!(packet.header.query);
    assert!(packet.header.recursion_desired);
    assert!(packet.header.recursion_available);
    assert_eq!(packet.questions.len(), 1);
    assert_eq!(packet.questions[0].qname, "yahoo.com");
    assert_eq!(packet.questions[0].qtype, QueryType::MX);
    assert_eq!(
        packet.answers,
        vec![mx("mta5.am0.yahoodns.net"), mx("mta6.am0.yahoodns.net"), mx("mta7.am0.yahoodns.net")]
    );
    let mut copy = packet.clone();
    let bytes = write(&mut copy);
    // the writer does not compress names, so the sample is never longer
    assert!(YAHOO_MX.len() <= bytes.len());
    let again = parse(&bytes).unwrap();
    assert_eq!(again.answers, packet.answers);
    assert_eq!(again.header, packet.header);
    assert_eq!(again.questions[0].qname, "yahoo.com");
}

#[test]
fn pointer_cycle_is_refused() {
    // a name at 12 that points to itself
    let mut bytes = vec![0u8; 12];
    bytes[5] = 1;
    bytes.extend_from_slice(&[0xc0, 0x0c, 0x00, 0x01, 0x00, 0x01]);
    assert_eq!(parse(&bytes).unwrap_err(), ParseError::TooManyJumps);
}

fn chain(jumps: usize) -> Vec<u8> {
    // "a" at 0, then pointers each to the one before
    let mut bytes = vec![0x01, b'a', 0x00];
    let mut target = 0usize;
    for _ in 0..jumps {
        let here = bytes.len();
        bytes.push(0xc0 | (target >> 8) as u8);
        bytes.push(target as u8);
        target = here;
    }
    let _ = target;
    bytes
}

#[test]
fn pointer_chain_of_five_resolves() {
    let bytes = chain(5);
    let start = bytes.len() - 2;
    let mut parser = PacketParser::from_bytes(bytes.clone());
    parser.jump(start);
    assert_eq!(parser.parse_qname().unwrap(), "a");
    assert_eq!(parser.position, bytes.len());
}

#[test]
fn pointer_chain_of_six_fails() {
    let bytes = chain(6);
    let start = bytes.len() - 2;
    let mut parser = PacketParser::from_bytes(bytes);
    parser.jump(start);
    assert_eq!(parser.parse_qname(), Err(ParseError::TooManyJumps));
    assert_eq!(parser.position, start);
}

#[test]
fn bad_label_length_is_refused() {
    let mut parser = PacketParser::from_bytes(vec![0x41, b'a', 0x00]);
    assert_eq!(parser.parse_qname(), Err(ParseError::BadLabelLength));
}

#[test]
fn truncated_reads_fail() {
    let mut parser = PacketParser::from_bytes(vec![0x03, b'w', b'w']);
    assert_eq!(parser.parse_qname(), Err(ParseError::EndOfBuffer));
    let mut parser = PacketParser::from_bytes(vec![0x12]);
    assert_eq!(parser.parse_u16(), Err(ParseError::EndOfBuffer));
    assert_eq!(parser.position, 0);
    assert_eq!(parser.parse_byte(), Ok(0x12));
    assert_eq!(parser.parse_byte(), Err(ParseError::EndOfBuffer));
    assert_eq!(parse(&YAHOO_MX[..100]).unwrap_err(), ParseError::EndOfBuffer);
    assert_eq!(parse(&[0u8; 11]).unwrap_err(), ParseError::EndOfBuffer);
}

#[test]
fn integers_read_big_endian() {
    let mut parser = PacketParser::from_bytes(vec![0x12, 0x34, 0xde, 0xad, 0xbe, 0xef]);
    assert_eq!(parser.parse_u16(), Ok(0x1234));
    assert_eq!(parser.parse_u32(), Ok(0xdeadbeef));
    assert_eq!(parser.get_byte(0), Ok(0x12));
    assert_eq!(parser.get_byte(6), Err(ParseError::EndOfBuffer));
    let parser = PacketParser::from_bytes(vec![b'a', b'b', 0xe9]);
    assert_eq!(parser.parse_byte_range(0, 3).unwrap(), "ab\u{e9}");
    assert_eq!(parser.parse_byte_range(1, 3), Err(ParseError::EndOfBuffer));
    let parser = PacketParser::new();
    assert_eq!(parser.buffer.len(), 512);
    assert_eq!(parser.position, 0);
}

#[test]
fn header_round_trip() {
    let mut h = DNSHeader::new();
    h.id = 0xbeef;
    h.query = true;
    h.opcode = OpCode::STATUS;
    h.authoritative_answer = true;
    h.truncation = true;
    h.recursion_desired = true;
    h.recursion_available = true;
    h.zero = true;
    h.checking_disabled = true;
    h.authed_data = true;
    h.rcode = RCode::REFUSED;
    h.qd_count = 1;
    h.an_count = 2;
    h.ns_count = 3;
    h.ar_count = 4;
    let mut writer = PacketWriter::new();
    h.write_header(&mut writer).unwrap();
    assert_eq!(
        writer.buffer,
        vec![0xbe, 0xef, 0x97, 0xf5, 0x00, 0x01, 0x00, 0x02, 0x00, 0x03, 0x00, 0x04]
    );
    let mut parser = PacketParser::from_bytes(writer.buffer.clone());
    let mut back = DNSHeader::new();
    back.parse_header(&mut parser).unwrap();
    assert_eq!(back, h);
    assert_eq!(parser.position, 12);
}

#[test]
fn codes_convert_both_ways() {
    assert_eq!(RCode::get_rcode(3), RCode::NXDOMAIN);
    assert_eq!(RCode::get_rcode(9), RCode::NOERROR);
    assert_eq!(RCode::REFUSED.to_num(), 5);
    assert_eq!(OpCode::get_opcode(1), OpCode::IQUERY);
    assert_eq!(OpCode::get_opcode(7), OpCode::QUERY);
    assert_eq!(OpCode::STATUS.to_num(), 2);
    assert_eq!(QueryType::get_query_type(28), QueryType::AAAA);
    assert_eq!(QueryType::get_query_type(99), QueryType::UNKNOWN(99));
    assert_eq!(QueryType::MX.to_num(), 15);
    assert_eq!(QueryType::UNKNOWN(99).to_num(), 99);
}

#[test]
fn every_record_type_round_trips() {
    let mut packet = DNSPacket::new();
    packet.header.id = 7;
    let mut q = DNSQuestion::new();
    q.qname = "example.com".to_string();
    q.qtype = QueryType::A;
    q.class = 1;
    packet.questions.push(q);
    packet.answers.push(DNSRecord::A {
        domain: "example.com".to_string(),
        addr: Ipv4Address::new(93, 184, 216, 34),
        ttl: 3600,
    });
    packet.answers.push(DNSRecord::AAAA {
        domain: "example.com".to_string(),
        addr: Ipv6Address { bits: 0x2606_2800_0220_0001_0248_1893_25c8_1946 },
        ttl: 60,
    });
    packet.authorities.push(DNSRecord::NS {
        domain: "com".to_string(),
        host: "a.gtld-servers.net".to_string(),
        ttl: 172800,
    });
    packet.resources.push(DNSRecord::CNAME {
        domain: "www.example.com".to_string(),
        host: "example.com".to_string(),
        ttl: 5,
    });
    packet.resources.push(mx("mail.example.com"));
    let bytes = write(&mut packet);
    assert_eq!(packet.header.qd_count, 1);
    assert_eq!(packet.header.an_count, 2);
    assert_eq!(packet.header.ns_count, 1);
    assert_eq!(packet.header.ar_count, 2);
    let back = parse(&bytes).unwrap();
    assert_eq!(back.header, packet.header);
    assert_eq!(back.questions[0].qname, "example.com");
    assert_eq!(back.questions[0].class, 1);
    assert_eq!(back.answers, packet.answers);
    assert_eq!(back.authorities, packet.authorities);
    assert_eq!(back.resources, packet.resources);
}

#[test]
fn a_record_bytes_are_exact() {
    let rec = DNSRecord::A { domain: "a.b".to_string(), addr: Ipv4Address::new(127, 0, 0, 1), ttl: 258 };
    let mut writer = PacketWriter::new();
    assert_eq!(rec.write_record(&mut writer), Ok(19));
    assert_eq!(
        writer.buffer,
        vec![1, b'a', 1, b'b', 0, 0, 1, 0, 1, 0, 0, 1, 2, 0, 4, 127, 0, 0, 1]
    );
    assert_eq!(rec.get_query_type(), QueryType::A);
    assert_eq!(rec.get_ttl(), 258);
    assert_eq!(rec.get_domain(), Some("a.b".to_string()));
}

#[test]
fn mx_rdlength_counts_only_the_data() {
    let rec = DNSRecord::MX { domain: "m".to_string(), priority: 10, host: "x.y".to_string(), ttl: 1 };
    let mut writer = PacketWriter::new();
    writer.write_u8(0xff);
    rec.write_record(&mut writer).unwrap();
    // name 3 bytes, type, class, ttl, then rdlength = 2 + 5
    assert_eq!(&writer.buffer[1 + 3 + 8..1 + 3 + 10], &[0, 7]);
}

#[test]
fn unknown_records_are_skipped() {
    let mut bytes = vec![0x00, 0x00, 0x63, 0x00, 0x01, 0x00, 0x00, 0x00, 0x05, 0x00, 0x03];
    bytes.extend_from_slice(&[9, 9, 9]);
    bytes.push(0x42);
    let mut parser = PacketParser::from_bytes(bytes);
    let rec = DNSRecord::parse_record(&mut parser).unwrap();
    assert_eq!(rec, DNSRecord::UNKNOWN { domain: "".to_string(), qtype: 99, data_len: 3, ttl: 5 });
    assert_eq!(parser.position, 14);
    assert_eq!(rec.get_domain(), None);
    assert_eq!(rec.get_query_type(), QueryType::UNKNOWN(99));
    let mut writer = PacketWriter::new();
    assert_eq!(rec.write_record(&mut writer), Ok(0));
    assert!(writer.buffer.is_empty());
}

#[test]
fn names_are_checked_before_writing() {
    let mut writer = PacketWriter::new();
    assert_eq!(writer.write_qname("a..b"), Err(WriteError::InvalidName));
    assert_eq!(writer.write_qname("trailing."), Err(WriteError::InvalidName));
    assert_eq!(writer.write_qname("caf\u{e9}.fr"), Err(WriteError::InvalidName));
    let long = "x".repeat(64);
    assert_eq!(writer.write_qname(&long), Err(WriteError::InvalidName));
    assert!(writer.buffer.is_empty());
    assert_eq!(writer.write_qname(""), Ok(()));
    assert_eq!(writer.write_qname("ab.c"), Ok(()));
    assert_eq!(writer.buffer, vec![0, 2, b'a', b'b', 1, b'c', 0]);
}

#[test]
fn writer_stops_at_capacity() {
    let mut writer = PacketWriter::with_capacity(5);
    assert_eq!(writer.write_qname("abcd"), Err(WriteError::BufferFull));
    assert!(writer.buffer.is_empty());
    let mut h = DNSHeader::new();
    h.id = 1;
    assert_eq!(h.write_header(&mut writer), Err(WriteError::BufferFull));
    let mut packet = DNSPacket::new();
    let mut small = PacketWriter::with_capacity(20);
    packet.answers.push(mx("a-long-mail-host.example.com"));
    assert_eq!(packet.write_dns_packet(&mut small), Err(WriteError::BufferFull));
}

#[test]
fn writer_integers_and_patching() {
    let mut writer = PacketWriter::new();
    writer.write_u16(0x1234);
    writer.write_u32(0xdeadbeef);
    assert_eq!(writer.position(), 6);
    writer.set_u16(0, 0xabcd);
    assert_eq!(writer.get_range(0, 3), &[0xab, 0xcd, 0xde]);
    let mut label = [0u8; 4];
    PacketWriter::write_label_length(0x0102, &mut label);
    assert_eq!(label, [1, 2, 0, 0]);
    assert_eq!(PacketWriter::concatenate_arrays(&[1u8, 2], &[3u8]), vec![1, 2, 3]);
    let arr = PacketWriter::vec_to_array(vec![7, 8]).unwrap();
    assert_eq!(arr.len(), TCP_BUFFER_SIZE);
    assert_eq!(&arr[..3], &[7, 8, 0]);
    let too_long = vec![0u8; TCP_BUFFER_SIZE + 1];
    assert_eq!(PacketWriter::vec_to_array(too_long.clone()).unwrap_err(), too_long);
}

#[test]
fn question_round_trip() {
    let q = DNSQuestion { qname: "www.example.org".to_string(), qtype: QueryType::AAAA, class: 1 };
    let mut writer = PacketWriter::new();
    q.write_question(&mut writer).unwrap();
    let mut parser = PacketParser::from_bytes(writer.buffer);
    let mut back = DNSQuestion::new();
    back.parse_question(&mut parser).unwrap();
    assert_eq!(back.qname, q.qname);
    assert_eq!(back.qtype, q.qtype);
    assert_eq!(back.class, 1);
}

#[test]
fn first_a_record_and_referrals() {
    let mut p = DNSPacket::new();
    assert_eq!(p.get_random_record(), None);
    p.answers.push(mx("m.example"));
    p.answers.push(DNSRecord::A { domain: "x".to_string(), addr: Ipv4Address::new(1, 1, 1, 1), ttl: 1 });
    assert_eq!(p.get_random_record(), Some(Ipv4Address::new(1, 1, 1, 1)));
    p.authorities.push(DNSRecord::NS { domain: "org".to_string(), host: "ns.org".to_string(), ttl: 1 });
    p.authorities.push(DNSRecord::NS { domain: "com".to_string(), host: "a.gtld".to_string(), ttl: 1 });
    p.authorities.push(DNSRecord::NS { domain: "com".to_string(), host: "b.gtld".to_string(), ttl: 1 });
    p.resources.push(DNSRecord::A { domain: "b.gtld".to_string(), addr: Ipv4Address::new(2, 2, 2, 2), ttl: 1 });
    assert_eq!(p.get_unresolved_ns("www.example.com"), Some("a.gtld".to_string()));
    assert_eq!(p.get_resolved_ns("www.example.com"), Some(Ipv4Address::new(2, 2, 2, 2)));
    assert_eq!(p.get_resolved_ns("www.example.org"), None);
    assert_eq!(p.get_unresolved_ns("www.example.net"), None);
}

#[test]
fn sections_larger_than_a_count_are_refused() {
    let mut packet = DNSPacket::new();
    packet.questions = vec![DNSQuestion::new(); 0x10000];
    let mut writer = PacketWriter::with_capacity(TCP_BUFFER_SIZE);
    assert_eq!(packet.write_dns_packet(&mut writer), Err(WriteError::TooManyEntries));
    assert!(writer.buffer.is_empty());
    assert_eq!(packet.header.qd_count, 0);
}
