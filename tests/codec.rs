use dns_clone::{
    BytePacketBuffer, DnsError, DnsHeader, DnsPacket, DnsQuestion, DnsRecord, Ipv4Addr, Ipv6Addr,
    QueryType, ResultCode,
};

fn read_back_packet(packet: &mut DnsPacket) -> DnsPacket {
    let mut buffer = BytePacketBuffer::new();
    packet.write(&mut buffer).unwrap();
    buffer.seek(0).unwrap();
    DnsPacket::from_buffer(&mut buffer).unwrap()
}

#[test]
fn question_round_trip_google() {
    let mut buffer = BytePacketBuffer::new();
    let q = DnsQuestion::new("google.com".to_string(), QueryType::A);
    q.write(&mut buffer).unwrap();
    assert_eq!(buffer.pos(), 16);
    assert_eq!(
        buffer.get_range(0, 16).unwrap(),
        &[6, b'g', b'o', b'o', b'g', b'l', b'e', 3, b'c', b'o', b'm', 0, 0, 1, 0, 1]
    );
    buffer.seek(0).unwrap();
    let mut back = DnsQuestion::new(String::new(), QueryType::Unknown(0));
    back.read(&mut buffer).unwrap();
    assert_eq!(back, DnsQuestion::new("google.com".to_string(), QueryType::A));
    assert_eq!(buffer.pos(), 16);
}

#[test]
fn a_record_round_trip() {
    let rec = DnsRecord::A {
        domain: "example.com".to_string(),
        addr: Ipv4Addr::new(93, 184, 216, 34),
        ttl: 3600,
    };
    let mut buffer = BytePacketBuffer::new();
    let n = rec.write(&mut buffer).unwrap();
    assert_eq!(n, 13 + 10 + 4);
    assert_eq!(buffer.get_range(13, 14).unwrap(), &[0, 1, 0, 1, 0, 0, 0x0E, 0x10, 0, 4, 93, 184, 216, 34]);
    buffer.seek(0).unwrap();
    let back = DnsRecord::read(&mut buffer).unwrap();
    assert_eq!(back, rec);
    assert_eq!(buffer.pos(), n);
}

#[test]
fn ns_glue_resolution() {
    let mut packet = DnsPacket::new();
    packet.authorities.push(DnsRecord::NS {
        domain: "example.com".to_string(),
        host: "ns1.example.com".to_string(),
        ttl: 100,
    });
    packet.resources.push(DnsRecord::A {
        domain: "ns1.example.com".to_string(),
        addr: Ipv4Addr::new(192, 0, 2, 1),
        ttl: 100,
    });
    assert_eq!(packet.get_resolved_ns("example.com"), Some(Ipv4Addr::new(192, 0, 2, 1)));
    assert_eq!(packet.get_resolved_ns("www.example.com"), Some(Ipv4Addr::new(192, 0, 2, 1)));
    assert_eq!(packet.get_resolved_ns("example.org"), None);
    packet.resources.clear();
    assert_eq!(packet.get_resolved_ns("example.com"), None);
    assert_eq!(packet.get_unresolved_ns("example.com"), Some("ns1.example.com"));
    assert_eq!(packet.get_unresolved_ns("example.org"), None);
}

#[test]
fn glue_follows_name_server_order() {
    let mut packet = DnsPacket::new();
    packet.authorities.push(DnsRecord::NS { domain: "com".to_string(), host: "a.gtld".to_string(), ttl: 1 });
    packet.authorities.push(DnsRecord::NS { domain: "com".to_string(), host: "b.gtld".to_string(), ttl: 1 });
    packet.resources.push(DnsRecord::A { domain: "b.gtld".to_string(), addr: Ipv4Addr::new(2, 2, 2, 2), ttl: 1 });
    packet.resources.push(DnsRecord::A { domain: "a.gtld".to_string(), addr: Ipv4Addr::new(1, 1, 1, 1), ttl: 1 });
    assert_eq!(packet.get_resolved_ns("example.com"), Some(Ipv4Addr::new(1, 1, 1, 1)));
    assert_eq!(packet.get_unresolved_ns("example.com"), Some("a.gtld"));
}

#[test]
fn self_pointer_fails() {
    let mut buffer = BytePacketBuffer::new();
    buffer.buf[0] = 0xC0;
    buffer.buf[1] = 0x00;
    let mut out = String::new();
    assert_eq!(buffer.read_qname(&mut out), Err(DnsError::TooManyJumps));
}

#[test]
fn label_then_pointer_cycle_fails() {
    let mut buffer = BytePacketBuffer::new();
    // At 0 a pointer to 10; at 10 the label "ab" and then a pointer back to 0.
    buffer.buf[0] = 0xC0;
    buffer.buf[1] = 10;
    buffer.buf[10] = 2;
    buffer.buf[11] = b'a';
    buffer.buf[12] = b'b';
    buffer.buf[13] = 0xC0;
    buffer.buf[14] = 0;
    let mut out = String::new();
    assert_eq!(buffer.read_qname(&mut out), Err(DnsError::TooManyJumps));
}

#[test]
fn five_jumps_allowed_six_not() {
    // A chain of pointers 0 -> 2 -> 4 -> ... ending in the name "x" at 20.
    let mut buffer = BytePacketBuffer::new();
    let hops: usize = 5;
    for i in 0..hops {
        buffer.buf[2 * i] = 0xC0;
        buffer.buf[2 * i + 1] = (2 * (i + 1)) as u8;
    }
    buffer.buf[2 * hops] = 0xC0;
    buffer.buf[2 * hops + 1] = 20;
    buffer.buf[20] = 1;
    buffer.buf[21] = b'x';
    buffer.buf[22] = 0;
    // From 2: five pointers in all.
    buffer.seek(2).unwrap();
    let mut out = String::new();
    buffer.read_qname(&mut out).unwrap();
    assert_eq!(out, "x");
    assert_eq!(buffer.pos(), 4);
    // From 0: six pointers.
    buffer.seek(0).unwrap();
    let mut out = String::new();
    assert_eq!(buffer.read_qname(&mut out), Err(DnsError::TooManyJumps));
}

#[test]
fn compressed_name_is_read_and_position_follows_pointer() {
    let mut buffer = BytePacketBuffer::new();
    buffer.write_qname("example.com").unwrap();
    let at = buffer.pos();
    buffer.write_u8(3).unwrap();
    buffer.write_u8(b'w').unwrap();
    buffer.write_u8(b'w').unwrap();
    buffer.write_u8(b'w').unwrap();
    buffer.write_u8(0xC0).unwrap();
    buffer.write_u8(0).unwrap();
    buffer.write_u16(0xBEEF).unwrap();
    buffer.seek(at).unwrap();
    let mut out = String::new();
    buffer.read_qname(&mut out).unwrap();
    assert_eq!(out, "www.example.com");
    assert_eq!(buffer.pos(), at + 6);
    assert_eq!(buffer.read_u16().unwrap(), 0xBEEF);
}

#[test]
fn long_label_is_refused() {
    let mut buffer = BytePacketBuffer::new();
    let long = "a".repeat(64);
    assert_eq!(buffer.write_qname(&format!("{}.com", long)), Err(DnsError::LabelTooLong));
    assert_eq!(buffer.pos(), 0);
    let ok = "a".repeat(63);
    buffer.write_qname(&format!("{}.com", ok)).unwrap();
    assert_eq!(buffer.pos(), 1 + 63 + 1 + 3 + 1);
    let q = DnsQuestion::new(long.clone(), QueryType::A);
    assert_eq!(q.write(&mut buffer), Err(DnsError::LabelTooLong));
    let rec = DnsRecord::NS { domain: "com".to_string(), host: long, ttl: 1 };
    assert_eq!(rec.write(&mut buffer), Err(DnsError::LabelTooLong));
}

#[test]
fn each_header_flag_round_trips() {
    for k in 0..9 {
        let mut h = DnsHeader::new();
        h.id = 0x1234;
        match k {
            0 => h.recursion_desired = true,
            1 => h.truncated_message = true,
            2 => h.authoritative_answer = true,
            3 => h.response = true,
            4 => h.checking_disabled = true,
            5 => h.authed_data = true,
            6 => h.z = true,
            7 => h.recursion_available = true,
            _ => {
                h.opcode = 0x0F;
                h.rescode = ResultCode::REFUSED;
            }
        }
        let mut buffer = BytePacketBuffer::new();
        h.write(&mut buffer).unwrap();
        buffer.seek(0).unwrap();
        let mut back = DnsHeader::new();
        back.read(&mut buffer).unwrap();
        assert_eq!(back, h);
    }
}

#[test]
fn header_flag_bits_on_the_wire() {
    let mut h = DnsHeader::new();
    h.recursion_desired = true;
    h.response = true;
    h.opcode = 2;
    h.recursion_available = true;
    h.rescode = ResultCode::NXDOMAIN;
    let mut buffer = BytePacketBuffer::new();
    h.write(&mut buffer).unwrap();
    assert_eq!(buffer.get(2).unwrap(), 0b1001_0001);
    assert_eq!(buffer.get(3).unwrap(), 0b1000_0011);
}

#[test]
fn counts_are_recomputed() {
    let mut packet = DnsPacket::new();
    packet.header.questions = 7;
    packet.header.answers = 9;
    packet.questions.push(DnsQuestion::new("a.org".to_string(), QueryType::MX));
    packet.answers.push(DnsRecord::A { domain: "a.org".to_string(), addr: Ipv4Addr::new(1, 2, 3, 4), ttl: 5 });
    packet.answers.push(DnsRecord::A { domain: "a.org".to_string(), addr: Ipv4Addr::new(1, 2, 3, 5), ttl: 5 });
    let mut buffer = BytePacketBuffer::new();
    packet.write(&mut buffer).unwrap();
    assert_eq!(packet.header.questions, 1);
    assert_eq!(packet.header.answers, 2);
    assert_eq!(buffer.get_range(4, 8).unwrap(), &[0, 1, 0, 2, 0, 0, 0, 0]);
}

#[test]
fn unknown_record_is_dropped_but_counted() {
    let mut packet = DnsPacket::new();
    packet.answers.push(DnsRecord::Unknown { domain: "x.org".to_string(), qtype: 99, data_len: 4, ttl: 1 });
    let mut buffer = BytePacketBuffer::new();
    packet.write(&mut buffer).unwrap();
    assert_eq!(buffer.pos(), 12);
    assert_eq!(buffer.get_range(6, 2).unwrap(), &[0, 1]);
    let rec = DnsRecord::Unknown { domain: "x.org".to_string(), qtype: 99, data_len: 4, ttl: 1 };
    assert_eq!(rec.write(&mut buffer), Ok(0));
}

#[test]
fn unknown_record_payload_is_skipped() {
    let mut buffer = BytePacketBuffer::new();
    buffer.write_qname("x.org").unwrap();
    buffer.write_u16(99).unwrap();
    buffer.write_u16(1).unwrap();
    buffer.write_u32(60).unwrap();
    buffer.write_u16(3).unwrap();
    buffer.write_u8(7).unwrap();
    buffer.write_u8(8).unwrap();
    buffer.write_u8(9).unwrap();
    let end = buffer.pos();
    buffer.seek(0).unwrap();
    let rec = DnsRecord::read(&mut buffer).unwrap();
    assert_eq!(rec, DnsRecord::Unknown { domain: "x.org".to_string(), qtype: 99, data_len: 3, ttl: 60 });
    assert_eq!(buffer.pos(), end);
}

#[test]
fn packet_round_trip_normalizes_names() {
    let mut packet = DnsPacket::new();
    packet.header.id = 6666;
    packet.header.recursion_desired = true;
    packet.header.response = true;
    packet.header.rescode = ResultCode::SERVFAIL;
    packet.questions.push(DnsQuestion::new("WWW.Example.COM".to_string(), QueryType::AAAA));
    packet.answers.push(DnsRecord::CNAME {
        domain: "www.example.com".to_string(),
        host: "Web.Example.com".to_string(),
        ttl: 30,
    });
    packet.answers.push(DnsRecord::AAAA {
        domain: "web.example.com".to_string(),
        addr: Ipv6Addr::new(0x2001, 0xdb8, 0, 0, 0, 0, 0, 1),
        ttl: 30,
    });
    packet.authorities.push(DnsRecord::NS {
        domain: "example.com".to_string(),
        host: "ns1.example.com".to_string(),
        ttl: 86400,
    });
    packet.resources.push(DnsRecord::MX {
        domain: "example.com".to_string(),
        priority: 10,
        host: "MAIL.example.com".to_string(),
        ttl: 300,
    });
    let back = read_back_packet(&mut packet);
    assert_eq!(back.header, packet.header);
    assert_eq!(back.questions, vec![DnsQuestion::new("www.example.com".to_string(), QueryType::AAAA)]);
    assert_eq!(
        back.answers,
        vec![
            DnsRecord::CNAME {
                domain: "www.example.com".to_string(),
                host: "web.example.com".to_string(),
                ttl: 30
            },
            DnsRecord::AAAA {
                domain: "web.example.com".to_string(),
                addr: Ipv6Addr::new(0x2001, 0xdb8, 0, 0, 0, 0, 0, 1),
                ttl: 30
            },
        ]
    );
    assert_eq!(back.authorities, packet.authorities);
    assert_eq!(
        back.resources,
        vec![DnsRecord::MX {
            domain: "example.com".to_string(),
            priority: 10,
            host: "mail.example.com".to_string(),
            ttl: 300
        }]
    );
}

#[test]
fn mx_length_is_backpatched() {
    let rec = DnsRecord::MX { domain: "a.b".to_string(), priority: 5, host: "mx.a.b".to_string(), ttl: 1 };
    let mut buffer = BytePacketBuffer::new();
    let n = rec.write(&mut buffer).unwrap();
    // "a.b" is 5 bytes; "mx.a.b" is 8; the payload is the priority and the host.
    assert_eq!(n, 5 + 10 + 2 + 8);
    assert_eq!(buffer.get_range(13, 2).unwrap(), &[0, 10]);
}

#[test]
fn first_a_answer_is_taken() {
    let mut packet = DnsPacket::new();
    assert_eq!(packet.get_random_a(), None);
    packet.answers.push(DnsRecord::CNAME { domain: "a".to_string(), host: "b".to_string(), ttl: 1 });
    packet.answers.push(DnsRecord::A { domain: "b".to_string(), addr: Ipv4Addr::new(10, 0, 0, 1), ttl: 1 });
    packet.answers.push(DnsRecord::A { domain: "b".to_string(), addr: Ipv4Addr::new(10, 0, 0, 2), ttl: 1 });
    assert_eq!(packet.get_random_a(), Some(Ipv4Addr::new(10, 0, 0, 1)));
}

#[test]
fn result_codes_are_lenient() {
    assert_eq!(ResultCode::from_num(3), ResultCode::NXDOMAIN);
    assert_eq!(ResultCode::from_num(5), ResultCode::REFUSED);
    assert_eq!(ResultCode::from_num(9), ResultCode::NOERROR);
    assert_eq!(ResultCode::REFUSED.as_num(), 5);
}

#[test]
fn query_type_numbers() {
    assert_eq!(QueryType::from_num(28), QueryType::AAAA);
    assert_eq!(QueryType::from_num(15), QueryType::MX);
    assert_eq!(QueryType::from_num(16), QueryType::Unknown(16));
    assert_eq!(QueryType::CNAME.as_num(), 5);
    assert_eq!(QueryType::Unknown(77).as_num(), 77);
}

#[test]
fn reads_past_the_end_fail() {
    let mut buffer = BytePacketBuffer::new();
    buffer.seek(511).unwrap();
    assert_eq!(buffer.read_u16(), Err(DnsError::EndOfBuffer));
    assert_eq!(buffer.pos(), 511);
    assert_eq!(buffer.read().unwrap(), 0);
    assert_eq!(buffer.read(), Err(DnsError::EndOfBuffer));
    assert_eq!(buffer.get(512), Err(DnsError::EndOfBuffer));
    assert_eq!(buffer.get_range(500, 13), Err(DnsError::EndOfBuffer));
    assert!(buffer.get_range(500, 12).is_ok());
    assert_eq!(buffer.seek(513), Err(DnsError::EndOfBuffer));
    assert_eq!(buffer.step(1), Err(DnsError::EndOfBuffer));
    assert_eq!(buffer.write_u8(1), Err(DnsError::EndOfBuffer));
}

#[test]
fn set_u16_patches_in_place() {
    let mut buffer = BytePacketBuffer::new();
    buffer.write_u32(0).unwrap();
    buffer.set_u16(1, 0xABCD).unwrap();
    assert_eq!(buffer.pos(), 4);
    assert_eq!(buffer.get_range(0, 4).unwrap(), &[0, 0xAB, 0xCD, 0]);
    assert_eq!(buffer.set_u16(511, 1), Err(DnsError::EndOfBuffer));
}

#[test]
fn truncated_packet_fails_whole() {
    let mut buffer = BytePacketBuffer::new();
    let mut h = DnsHeader::new();
    h.answers = 1;
    h.write(&mut buffer).unwrap();
    // The answer's name runs to the end of the buffer without a terminator.
    for _ in 0..7 {
        buffer.write_u8(63).unwrap();
        for _ in 0..63 {
            buffer.write_u8(b'a').unwrap();
        }
    }
    buffer.write_u8(51).unwrap();
    for _ in 0..51 {
        buffer.write_u8(b'a').unwrap();
    }
    assert_eq!(buffer.pos(), 512);
    buffer.seek(0).unwrap();
    assert_eq!(DnsPacket::from_buffer(&mut buffer).map(|_| ()), Err(DnsError::EndOfBuffer));
}

#[test]
fn labels_are_lowercased_and_decoded_leniently() {
    let mut buffer = BytePacketBuffer::new();
    buffer.write_u8(3).unwrap();
    buffer.write_u8(b'A').unwrap();
    buffer.write_u8(0xFF).unwrap();
    buffer.write_u8(b'Z').unwrap();
    buffer.write_u8(0).unwrap();
    buffer.seek(0).unwrap();
    let mut out = String::new();
    buffer.read_qname(&mut out).unwrap();
    assert_eq!(out, "a\u{FFFD}z");
}

#[test]
fn write_past_capacity_leaves_buffer_unchanged() {
    let mut buffer = BytePacketBuffer::new();
    buffer.seek(505).unwrap();
    let q = DnsQuestion::new("abc".to_string(), QueryType::A);
    assert_eq!(q.write(&mut buffer), Err(DnsError::EndOfBuffer));
    assert_eq!(buffer.pos(), 505);
    assert_eq!(buffer.get_range(505, 7).unwrap(), &[0, 0, 0, 0, 0, 0, 0]);
}
