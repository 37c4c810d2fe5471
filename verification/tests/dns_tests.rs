//! Tests of the DNS wire codec and the message API.
use akurai_dns::dns::{
    normalize_name, DnsError, Message, RData, Record, CLASS_IN, RCODE_NOERROR, RCODE_NXDOMAIN,
    TYPE_A, TYPE_AAAA, TYPE_CAA, TYPE_CNAME, TYPE_MX, TYPE_NS, TYPE_OPT, TYPE_SOA, TYPE_SRV,
    TYPE_TXT,
};

/// Build a minimal DNS query packet for "example.com" A record.
fn build_query_packet(name: &str, qtype: u16) -> Vec<u8> {
    let mut buf = Vec::new();
    // Header
    buf.extend_from_slice(&0x1234u16.to_be_bytes()); // ID
    buf.extend_from_slice(&0x0100u16.to_be_bytes()); // flags: RD=1
    buf.extend_from_slice(&1u16.to_be_bytes()); // QDCOUNT
    buf.extend_from_slice(&0u16.to_be_bytes()); // ANCOUNT
    buf.extend_from_slice(&0u16.to_be_bytes()); // NSCOUNT
    buf.extend_from_slice(&0u16.to_be_bytes()); // ARCOUNT

    // Question: name
    let name = if name.ends_with('.') {
        &name[..name.len() - 1]
    } else {
        name
    };
    for label in name.split('.') {
        buf.push(label.len() as u8);
        buf.extend_from_slice(label.as_bytes());
    }
    buf.push(0); // null terminator

    // QTYPE, QCLASS
    buf.extend_from_slice(&qtype.to_be_bytes());
    buf.extend_from_slice(&CLASS_IN.to_be_bytes());
    buf
}

#[test]
fn test_parse_simple_query() {
    let packet = build_query_packet("example.com", TYPE_A);
    let msg = Message::parse(&packet).unwrap();
    assert_eq!(msg.header.id, 0x1234);
    assert!(!msg.header.qr);
    assert!(msg.header.rd);
    assert_eq!(msg.questions.len(), 1);
    assert_eq!(msg.questions[0].name, "example.com.");
    assert_eq!(msg.questions[0].qtype, TYPE_A);
    assert_eq!(msg.questions[0].qclass, CLASS_IN);
}

#[test]
fn test_roundtrip_response() {
    let query_pkt = build_query_packet("golfsetridak.is", TYPE_A);
    let query = Message::parse(&query_pkt).unwrap();
    let mut response = Message::new_response(&query);
    response
        .answers
        .push(Record::new_a("golfsetridak.is.", 300, [93, 95, 230, 10]));
    response
        .answers
        .push(Record::new_a("golfsetridak.is.", 300, [93, 95, 230, 11]));

    let bytes = response.serialize();
    let parsed = Message::parse(&bytes).unwrap();

    assert!(parsed.header.qr);
    assert!(parsed.header.aa);
    assert_eq!(parsed.header.rcode, RCODE_NOERROR);
    assert_eq!(parsed.questions.len(), 1);
    assert_eq!(parsed.questions[0].name, "golfsetridak.is.");
    assert_eq!(parsed.answers.len(), 2);

    if let RData::A(ip) = &parsed.answers[0].rdata {
        assert_eq!(ip, &[93, 95, 230, 10]);
    } else {
        panic!("expected A record");
    }
}

#[test]
fn test_name_compression() {
    let query_pkt = build_query_packet("example.com", TYPE_A);
    let query = Message::parse(&query_pkt).unwrap();
    let mut response = Message::new_response(&query);

    // Add multiple records with the same name — compression should kick in
    for i in 0..5 {
        response
            .answers
            .push(Record::new_a("example.com.", 300, [10, 0, 0, i]));
    }

    let bytes = response.serialize();
    // The serialized form should be significantly smaller than without compression.
    // Without compression, each name would be 13 bytes. With compression, subsequent
    // names are 2 bytes (pointer).
    assert!(bytes.len() < 12 + 17 + 5 * (13 + 10 + 4)); // rough upper bound

    // Verify it parses back correctly
    let parsed = Message::parse(&bytes).unwrap();
    assert_eq!(parsed.answers.len(), 5);
    for (i, rec) in parsed.answers.iter().enumerate() {
        assert_eq!(rec.name, "example.com.");
        if let RData::A(ip) = &rec.rdata {
            assert_eq!(ip[3], i as u8);
        }
    }
}

#[test]
fn test_compression_pointer_parsing() {
    // Build a packet with a compression pointer in the answer section
    let mut pkt = Vec::new();
    // Header
    pkt.extend_from_slice(&0xABCDu16.to_be_bytes());
    pkt.extend_from_slice(&0x8400u16.to_be_bytes()); // QR=1, AA=1
    pkt.extend_from_slice(&1u16.to_be_bytes()); // QDCOUNT
    pkt.extend_from_slice(&1u16.to_be_bytes()); // ANCOUNT
    pkt.extend_from_slice(&0u16.to_be_bytes()); // NSCOUNT
    pkt.extend_from_slice(&0u16.to_be_bytes()); // ARCOUNT

    // Question: "test.example.com."
    let name_offset = pkt.len(); // offset of "test"
    pkt.push(4);
    pkt.extend_from_slice(b"test");
    let example_offset = pkt.len(); // offset of "example"
    pkt.push(7);
    pkt.extend_from_slice(b"example");
    pkt.push(3);
    pkt.extend_from_slice(b"com");
    pkt.push(0);
    pkt.extend_from_slice(&TYPE_A.to_be_bytes());
    pkt.extend_from_slice(&CLASS_IN.to_be_bytes());

    // Answer: name uses pointer to "test.example.com." at name_offset
    let pointer = 0xC000 | name_offset as u16;
    pkt.extend_from_slice(&pointer.to_be_bytes());
    pkt.extend_from_slice(&TYPE_A.to_be_bytes());
    pkt.extend_from_slice(&CLASS_IN.to_be_bytes());
    pkt.extend_from_slice(&300u32.to_be_bytes());
    pkt.extend_from_slice(&4u16.to_be_bytes()); // rdlength
    pkt.extend_from_slice(&[1, 2, 3, 4]);

    let msg = Message::parse(&pkt).unwrap();
    assert_eq!(msg.answers[0].name, "test.example.com.");
    if let RData::A(ip) = &msg.answers[0].rdata {
        assert_eq!(ip, &[1, 2, 3, 4]);
    } else {
        panic!("expected A record");
    }
}

#[test]
fn test_too_short_packet() {
    assert!(Message::parse(&[0; 5]).is_err());
    assert!(Message::parse(&[]).is_err());
}

#[test]
fn test_compression_loop_detection() {
    // Create a packet where a name pointer points to itself
    let mut pkt = vec![0u8; 12]; // header
    pkt[4] = 0; // QDCOUNT = 1
    pkt[5] = 1;
    // Name at offset 12 is a pointer to offset 12 (self-referencing)
    pkt.push(0xC0);
    pkt.push(12);
    // QTYPE and QCLASS
    pkt.extend_from_slice(&TYPE_A.to_be_bytes());
    pkt.extend_from_slice(&CLASS_IN.to_be_bytes());

    let result = Message::parse(&pkt);
    assert!(matches!(result, Err(DnsError::CompressionLoop)));
}

#[test]
fn test_txt_record_roundtrip() {
    let query_pkt = build_query_packet("example.com", TYPE_TXT);
    let query = Message::parse(&query_pkt).unwrap();
    let mut response = Message::new_response(&query);
    response
        .answers
        .push(Record::new_txt("example.com.", 300, "v=spf1 include:_spf.google.com ~all"));

    let bytes = response.serialize();
    let parsed = Message::parse(&bytes).unwrap();
    assert_eq!(parsed.answers.len(), 1);
    if let RData::TXT(text) = &parsed.answers[0].rdata {
        assert_eq!(text, "v=spf1 include:_spf.google.com ~all");
    } else {
        panic!("expected TXT record");
    }
}

#[test]
fn test_soa_record_roundtrip() {
    let query_pkt = build_query_packet("example.com", TYPE_SOA);
    let query = Message::parse(&query_pkt).unwrap();
    let mut response = Message::new_response(&query);
    response.answers.push(Record::new_soa(
        "example.com.",
        3600,
        "ns1.example.com.",
        "admin.example.com.",
        2024010101,
        3600,
        900,
        604800,
        86400,
    ));

    let bytes = response.serialize();
    let parsed = Message::parse(&bytes).unwrap();
    assert_eq!(parsed.answers.len(), 1);
    if let RData::SOA {
        mname,
        rname,
        serial,
        refresh,
        retry,
        expire,
        minimum,
    } = &parsed.answers[0].rdata
    {
        assert_eq!(mname, "ns1.example.com.");
        assert_eq!(rname, "admin.example.com.");
        assert_eq!(*serial, 2024010101);
        assert_eq!(*refresh, 3600);
        assert_eq!(*retry, 900);
        assert_eq!(*expire, 604800);
        assert_eq!(*minimum, 86400);
    } else {
        panic!("expected SOA record");
    }
}

#[test]
fn test_mx_record_roundtrip() {
    let query_pkt = build_query_packet("example.com", TYPE_MX);
    let query = Message::parse(&query_pkt).unwrap();
    let mut response = Message::new_response(&query);
    response
        .answers
        .push(Record::new_mx("example.com.", 3600, 10, "mail.example.com."));

    let bytes = response.serialize();
    let parsed = Message::parse(&bytes).unwrap();
    if let RData::MX {
        preference,
        exchange,
    } = &parsed.answers[0].rdata
    {
        assert_eq!(*preference, 10);
        assert_eq!(exchange, "mail.example.com.");
    } else {
        panic!("expected MX record");
    }
}

#[test]
fn test_aaaa_record_roundtrip() {
    let query_pkt = build_query_packet("example.com", TYPE_AAAA);
    let query = Message::parse(&query_pkt).unwrap();
    let mut response = Message::new_response(&query);
    let ipv6: [u8; 16] = [
        0x20, 0x01, 0x0d, 0xb8, 0, 0, 0, 0, 0, 0, 0, 0, 0, 0, 0, 1,
    ];
    response
        .answers
        .push(Record::new_aaaa("example.com.", 300, ipv6));

    let bytes = response.serialize();
    let parsed = Message::parse(&bytes).unwrap();
    if let RData::AAAA(ip) = &parsed.answers[0].rdata {
        assert_eq!(ip, &ipv6);
    } else {
        panic!("expected AAAA record");
    }
}

#[test]
fn test_cname_record_roundtrip() {
    let query_pkt = build_query_packet("www.example.com", TYPE_CNAME);
    let query = Message::parse(&query_pkt).unwrap();
    let mut response = Message::new_response(&query);
    response.answers.push(Record::new_cname(
        "www.example.com.",
        300,
        "example.com.",
    ));

    let bytes = response.serialize();
    let parsed = Message::parse(&bytes).unwrap();
    if let RData::CNAME(target) = &parsed.answers[0].rdata {
        assert_eq!(target, "example.com.");
    } else {
        panic!("expected CNAME record");
    }
}

#[test]
fn test_ns_record_roundtrip() {
    let query_pkt = build_query_packet("example.com", TYPE_NS);
    let query = Message::parse(&query_pkt).unwrap();
    let mut response = Message::new_response(&query);
    response
        .answers
        .push(Record::new_ns("example.com.", 3600, "ns1.example.com."));
    response
        .answers
        .push(Record::new_ns("example.com.", 3600, "ns2.example.com."));

    let bytes = response.serialize();
    let parsed = Message::parse(&bytes).unwrap();
    assert_eq!(parsed.answers.len(), 2);
    if let RData::NS(name) = &parsed.answers[0].rdata {
        assert_eq!(name, "ns1.example.com.");
    } else {
        panic!("expected NS record");
    }
}

#[test]
fn test_srv_record_roundtrip() {
    let query_pkt = build_query_packet("_sip._tcp.example.com", TYPE_SRV);
    let query = Message::parse(&query_pkt).unwrap();
    let mut response = Message::new_response(&query);
    response.answers.push(Record::new_srv(
        "_sip._tcp.example.com.",
        300,
        10,
        60,
        5060,
        "sipserver.example.com.",
    ));

    let bytes = response.serialize();
    let parsed = Message::parse(&bytes).unwrap();
    if let RData::SRV {
        priority,
        weight,
        port,
        target,
    } = &parsed.answers[0].rdata
    {
        assert_eq!(*priority, 10);
        assert_eq!(*weight, 60);
        assert_eq!(*port, 5060);
        assert_eq!(target, "sipserver.example.com.");
    } else {
        panic!("expected SRV record");
    }
}

#[test]
fn test_caa_record_roundtrip() {
    let query_pkt = build_query_packet("example.com", TYPE_CAA);
    let query = Message::parse(&query_pkt).unwrap();
    let mut response = Message::new_response(&query);
    response.answers.push(Record::new_caa(
        "example.com.",
        3600,
        0,
        "issue",
        "letsencrypt.org",
    ));

    let bytes = response.serialize();
    let parsed = Message::parse(&bytes).unwrap();
    if let RData::CAA { flags, tag, value } = &parsed.answers[0].rdata {
        assert_eq!(*flags, 0);
        assert_eq!(tag, "issue");
        assert_eq!(value, "letsencrypt.org");
    } else {
        panic!("expected CAA record");
    }
}

#[test]
fn test_edns_opt_roundtrip() {
    // Build a query with EDNS0 OPT in additional
    let mut pkt = build_query_packet("example.com", TYPE_A);
    // Fix ARCOUNT to 1
    pkt[10] = 0;
    pkt[11] = 1;
    // OPT record: name = root (0x00), type = 41, class (UDP size) = 4096,
    // TTL = 0 (extended rcode + version + flags), rdlength = 0
    pkt.push(0x00); // root name
    pkt.extend_from_slice(&TYPE_OPT.to_be_bytes());
    pkt.extend_from_slice(&4096u16.to_be_bytes()); // class = UDP payload size
    pkt.extend_from_slice(&0u32.to_be_bytes()); // TTL
    pkt.extend_from_slice(&0u16.to_be_bytes()); // rdlength

    let query = Message::parse(&pkt).unwrap();
    assert!(query.has_edns());
    assert_eq!(query.edns_udp_size(), Some(4096));

    let mut response = Message::new_response(&query);
    response.add_edns(4096);

    let bytes = response.serialize();
    let parsed = Message::parse(&bytes).unwrap();
    assert!(parsed.has_edns());
}

#[test]
fn test_serialize_with_limit_truncation() {
    let query_pkt = build_query_packet("example.com", TYPE_A);
    let query = Message::parse(&query_pkt).unwrap();
    let mut response = Message::new_response(&query);

    // Add many records to exceed 512 bytes
    for i in 0..50u8 {
        response
            .answers
            .push(Record::new_a("example.com.", 300, [10, 0, 0, i]));
    }

    let (bytes, truncated) = response.serialize_with_limit(512);
    assert!(truncated);
    assert!(bytes.len() <= 512);

    // Verify the TC bit is set
    let parsed = Message::parse(&bytes).unwrap();
    assert!(parsed.header.tc);
}

#[test]
fn test_set_rcode() {
    let query_pkt = build_query_packet("example.com", TYPE_A);
    let query = Message::parse(&query_pkt).unwrap();
    let mut response = Message::new_response(&query);
    response.set_rcode(RCODE_NXDOMAIN);
    assert_eq!(response.header.rcode, RCODE_NXDOMAIN);

    let bytes = response.serialize();
    let parsed = Message::parse(&bytes).unwrap();
    assert_eq!(parsed.header.rcode, RCODE_NXDOMAIN);
}

#[test]
fn test_case_insensitive_names() {
    let mut pkt = Vec::new();
    pkt.extend_from_slice(&0x1234u16.to_be_bytes());
    pkt.extend_from_slice(&0x0100u16.to_be_bytes());
    pkt.extend_from_slice(&1u16.to_be_bytes());
    pkt.extend_from_slice(&0u16.to_be_bytes());
    pkt.extend_from_slice(&0u16.to_be_bytes());
    pkt.extend_from_slice(&0u16.to_be_bytes());

    // "EXAMPLE.COM" in uppercase
    pkt.push(7);
    pkt.extend_from_slice(b"EXAMPLE");
    pkt.push(3);
    pkt.extend_from_slice(b"COM");
    pkt.push(0);
    pkt.extend_from_slice(&TYPE_A.to_be_bytes());
    pkt.extend_from_slice(&CLASS_IN.to_be_bytes());

    let msg = Message::parse(&pkt).unwrap();
    assert_eq!(msg.questions[0].name, "example.com.");
}

#[test]
fn test_rdata_type_code() {
    assert_eq!(RData::A([0; 4]).type_code(), TYPE_A);
    assert_eq!(RData::AAAA([0; 16]).type_code(), TYPE_AAAA);
    assert_eq!(RData::CNAME("x.".into()).type_code(), TYPE_CNAME);
    assert_eq!(RData::NS("x.".into()).type_code(), TYPE_NS);
    assert_eq!(
        RData::MX {
            preference: 10,
            exchange: "x.".into()
        }
        .type_code(),
        TYPE_MX
    );
    assert_eq!(RData::TXT("x".into()).type_code(), TYPE_TXT);
    assert_eq!(
        RData::SOA {
            mname: "a.".into(),
            rname: "b.".into(),
            serial: 1,
            refresh: 2,
            retry: 3,
            expire: 4,
            minimum: 5,
        }
        .type_code(),
        TYPE_SOA
    );
    assert_eq!(
        RData::SRV {
            priority: 0,
            weight: 0,
            port: 0,
            target: "x.".into()
        }
        .type_code(),
        TYPE_SRV
    );
    assert_eq!(
        RData::CAA {
            flags: 0,
            tag: "issue".into(),
            value: "x".into()
        }
        .type_code(),
        TYPE_CAA
    );
    assert_eq!(RData::OPT { udp_size: 4096 }.type_code(), TYPE_OPT);
    assert_eq!(RData::Unknown(vec![]).type_code(), 0);
}

#[test]
fn test_long_txt_record() {
    // TXT with > 255 bytes should be split into multiple character strings
    let long_text = "a".repeat(300);
    let query_pkt = build_query_packet("example.com", TYPE_TXT);
    let query = Message::parse(&query_pkt).unwrap();
    let mut response = Message::new_response(&query);
    response
        .answers
        .push(Record::new_txt("example.com.", 300, &long_text));

    let bytes = response.serialize();
    let parsed = Message::parse(&bytes).unwrap();
    if let RData::TXT(text) = &parsed.answers[0].rdata {
        assert_eq!(text, &long_text);
    } else {
        panic!("expected TXT record");
    }
}

#[test]
fn test_normalize_name() {
    assert_eq!(normalize_name("example.com"), "example.com.");
    assert_eq!(normalize_name("example.com."), "example.com.");
    assert_eq!(normalize_name("EXAMPLE.COM"), "example.com.");
}

#[test]
fn test_new_response_copies_query_id() {
    let query_pkt = build_query_packet("test.example.com", TYPE_A);
    let query = Message::parse(&query_pkt).unwrap();
    let response = Message::new_response(&query);
    assert_eq!(response.header.id, query.header.id);
    assert!(response.header.qr);
    assert!(response.header.aa);
    assert_eq!(response.header.rd, query.header.rd);
    assert_eq!(response.questions.len(), query.questions.len());
    assert_eq!(response.questions[0].name, query.questions[0].name);
}
