//! Tests of the zone data, query answering, replies and rate limiting.
use akurai_dns::dns::{
    normalize_name, DnsError, Header, Message, Question, RData, Record, CLASS_IN, TYPE_A,
    TYPE_AAAA, TYPE_ANY, TYPE_CAA, TYPE_CNAME, TYPE_MX, TYPE_NS, TYPE_OPT, TYPE_SOA, TYPE_SRV,
    TYPE_TXT,
};
use akurai_dns::parse::{parse_name_from_cursor, Cursor};
use akurai_dns::server::{
    process_query, tcp_answer, tcp_query_len, tcp_reply, udp_answer, udp_limit, udp_reply,
    ClientKey, RateLimiter,
};
use akurai_dns::zone::{
    after_reload, zones_from_files, LoadError, NsEntry, RecordEntry, SoaConfig, Zone, ZoneError,
    ZoneFile, ZoneMeta, ZoneSet,
};

fn entry(name: &str, rtype: &str, value: &str) -> RecordEntry {
    RecordEntry {
        name: name.to_string(),
        rtype: rtype.to_string(),
        value: value.to_string(),
        ttl: None,
        priority: None,
        weight: None,
        port: None,
        flag: None,
        tag: None,
        value_ipv4: Err("invalid IPv4 address syntax".to_string()),
        value_ipv6: Err("invalid IPv6 address syntax".to_string()),
    }
}

fn zone_file(name: &str, records: Vec<RecordEntry>) -> ZoneFile {
    ZoneFile {
        zone: ZoneMeta { name: name.to_string(), ttl: 3600 },
        soa: SoaConfig {
            mname: format!("ns1.{name}"),
            rname: format!("admin.{name}"),
            serial: 2026062401,
            refresh: 3600,
            retry: 900,
            expire: 604800,
            minimum: 300,
        },
        ns: vec![
            NsEntry { name: format!("ns1.{name}") },
            NsEntry { name: format!("ns2.{name}") },
        ],
        record: Some(records),
    }
}

/// The zone of the README example.
fn example_zone() -> Zone {
    let mut a = entry("@", "A", "1.2.3.4");
    a.value_ipv4 = Ok([1, 2, 3, 4]);
    let mut mx = entry("@", "MX", "mail.example.com.");
    mx.priority = Some(10);
    let mut aaaa = entry("v6", "aaaa", "2001:db8::1");
    let mut ip6 = [0u8; 16];
    ip6[0] = 0x20;
    ip6[1] = 0x01;
    ip6[2] = 0x0d;
    ip6[3] = 0xb8;
    ip6[15] = 1;
    aaaa.value_ipv6 = Ok(ip6);
    let mut srv = entry("_sip._tcp", "SRV", "sip.example.com.");
    srv.priority = Some(5);
    srv.weight = Some(20);
    srv.port = Some(5060);
    let mut caa = entry("@", "CAA", "letsencrypt.org");
    caa.flag = Some(0);
    let records = vec![
        a,
        entry("www", "CNAME", "example.com."),
        mx,
        entry("@", "TXT", "v=spf1 ip4:1.2.3.4 -all"),
        aaaa,
        srv,
        caa,
    ];
    Zone::from_file(zone_file("example.com.", records)).unwrap()
}

fn query(name: &str, qtype: u16) -> Message {
    Message {
        header: Header {
            id: 0xBEEF,
            qr: false,
            opcode: 0,
            aa: false,
            tc: false,
            rd: true,
            ra: false,
            rcode: 0,
            qdcount: 1,
            ancount: 0,
            nscount: 0,
            arcount: 0,
        },
        questions: vec![Question { name: name.to_string(), qtype, qclass: CLASS_IN }],
        answers: Vec::new(),
        authority: Vec::new(),
        additional: Vec::new(),
    }
}

fn example_set() -> ZoneSet {
    let mut zs = ZoneSet::new();
    zs.insert(example_zone());
    zs
}

// ── Zones ────────────────────────────────────────────────────────────

#[test]
fn zone_from_file_builds_apex_records() {
    let z = example_zone();
    assert_eq!(z.name, "example.com.");
    assert_eq!(z.ttl, 3600);
    assert_eq!(z.ns_records.len(), 2);
    assert_eq!(z.soa_record.rtype, TYPE_SOA);
    match &z.soa_record.rdata {
        RData::SOA { mname, rname, serial, minimum, .. } => {
            assert_eq!(mname, "ns1.example.com.");
            assert_eq!(rname, "admin.example.com.");
            assert_eq!(*serial, 2026062401);
            assert_eq!(*minimum, 300);
        }
        other => panic!("unexpected SOA data {other:?}"),
    }
    let soa = z.lookup("example.com.", TYPE_SOA);
    assert_eq!(soa.len(), 1);
    let ns = z.lookup("example.com.", TYPE_NS);
    assert_eq!(ns.len(), 2);
    match &ns[1].rdata {
        RData::NS(n) => assert_eq!(n, "ns2.example.com."),
        other => panic!("unexpected NS data {other:?}"),
    }
}

#[test]
fn zone_name_without_dot_gets_one() {
    let z = Zone::from_file(zone_file("Example.ORG", vec![])).unwrap();
    assert_eq!(z.name, "example.org.");
}

#[test]
fn zone_lookup_direct_and_case_insensitive() {
    let z = example_zone();
    let a = z.lookup("EXAMPLE.com.", TYPE_A);
    assert_eq!(a.len(), 1);
    assert_eq!(a[0].name, "example.com.");
    assert_eq!(a[0].ttl, 3600);
    match &a[0].rdata {
        RData::A(ip) => assert_eq!(*ip, [1, 2, 3, 4]),
        other => panic!("unexpected data {other:?}"),
    }
    let v6 = z.lookup("v6.example.com.", TYPE_AAAA);
    assert_eq!(v6.len(), 1);
    let srv = z.lookup("_sip._tcp.example.com.", TYPE_SRV);
    match &srv[0].rdata {
        RData::SRV { priority, weight, port, target } => {
            assert_eq!((*priority, *weight, *port), (5, 20, 5060));
            assert_eq!(target, "sip.example.com.");
        }
        other => panic!("unexpected data {other:?}"),
    }
    let caa = z.lookup("example.com.", TYPE_CAA);
    match &caa[0].rdata {
        RData::CAA { flags, tag, value } => {
            assert_eq!(*flags, 0);
            assert_eq!(tag, "issue");
            assert_eq!(value, "letsencrypt.org");
        }
        other => panic!("unexpected data {other:?}"),
    }
}

#[test]
fn zone_lookup_follows_cname_for_other_types() {
    let z = example_zone();
    let r = z.lookup("www.example.com.", TYPE_A);
    assert_eq!(r.len(), 1);
    assert_eq!(r[0].rtype, TYPE_CNAME);
    // asking for the CNAME itself gives it too
    assert_eq!(z.lookup("www.example.com.", TYPE_CNAME).len(), 1);
    // but a CNAME query on a name without one gives nothing
    assert!(z.lookup("example.com.", TYPE_CNAME).is_empty());
}

#[test]
fn zone_lookup_any_returns_every_record_of_the_name() {
    let z = example_zone();
    let all = z.lookup("example.com.", TYPE_ANY);
    // SOA, 2 NS, A, MX, TXT, CAA
    assert_eq!(all.len(), 7);
    assert!(z.lookup("nothing.example.com.", TYPE_ANY).is_empty());
}

#[test]
fn zone_name_exists() {
    let z = example_zone();
    assert!(z.name_exists("WWW.example.com."));
    assert!(z.name_exists("example.com."));
    assert!(!z.name_exists("ftp.example.com."));
}

#[test]
fn zone_bad_a_record() {
    let bad = entry("@", "A", "1.2.3");
    match Zone::from_file(zone_file("example.com.", vec![bad])) {
        Err(ZoneError::BadA { value, reason }) => {
            assert_eq!(value, "1.2.3");
            assert_eq!(reason, "invalid IPv4 address syntax");
        }
        _ => panic!("expected a bad A record"),
    }
}

#[test]
fn zone_bad_aaaa_record() {
    let bad = entry("@", "AAAA", "zz::1");
    match Zone::from_file(zone_file("example.com.", vec![bad])) {
        Err(ZoneError::BadAAAA { value, .. }) => assert_eq!(value, "zz::1"),
        _ => panic!("expected a bad AAAA record"),
    }
}

#[test]
fn zone_unsupported_type_is_reported_upper_case() {
    let bad = entry("@", "ptr", "x.example.com.");
    match Zone::from_file(zone_file("example.com.", vec![bad])) {
        Err(ZoneError::UnsupportedType { rtype }) => assert_eq!(rtype, "PTR"),
        _ => panic!("expected an unsupported type"),
    }
}

#[test]
fn zone_entry_ttl_and_defaults() {
    let mut txt = entry("info", "txt", "hello");
    txt.ttl = Some(60);
    let mx = entry("@", "MX", "mail.example.com");
    let z = Zone::from_file(zone_file("example.com.", vec![txt, mx])).unwrap();
    let t = z.lookup("info.example.com.", TYPE_TXT);
    assert_eq!(t[0].ttl, 60);
    let m = z.lookup("example.com.", TYPE_MX);
    match &m[0].rdata {
        RData::MX { preference, exchange } => {
            assert_eq!(*preference, 10);
            assert_eq!(exchange, "mail.example.com.");
        }
        other => panic!("unexpected data {other:?}"),
    }
}

#[test]
fn expand_name_cases() {
    assert_eq!(Zone::expand_name("@", "Example.com."), "example.com.");
    assert_eq!(Zone::expand_name("WWW", "example.com."), "www.example.com.");
    assert_eq!(Zone::expand_name("Mail.Other.org.", "example.com."), "mail.other.org.");
}

#[test]
fn expand_name_uses_unicode_lowercase() {
    assert_eq!(Zone::expand_name("ÉCOLE", "example.com."), "école.example.com.");
}

// ── Zone sets ────────────────────────────────────────────────────────

#[test]
fn find_zone_longest_suffix() {
    let mut zs = ZoneSet::new();
    zs.insert(Zone::from_file(zone_file("example.com.", vec![])).unwrap());
    zs.insert(Zone::from_file(zone_file("sub.example.com.", vec![])).unwrap());
    zs.insert(Zone::from_file(zone_file("com.", vec![])).unwrap());
    assert_eq!(zs.len(), 3);
    assert_eq!(zs.find_zone("a.sub.example.com.").unwrap().name, "sub.example.com.");
    assert_eq!(zs.find_zone("SUB.example.com.").unwrap().name, "sub.example.com.");
    assert_eq!(zs.find_zone("www.example.com.").unwrap().name, "example.com.");
    assert_eq!(zs.find_zone("example.com.").unwrap().name, "example.com.");
    assert_eq!(zs.find_zone("other.com.").unwrap().name, "com.");
    assert!(zs.find_zone("example.org.").is_none());
}

#[test]
fn find_zone_needs_a_label_boundary() {
    let mut zs = ZoneSet::new();
    zs.insert(Zone::from_file(zone_file("example.com.", vec![])).unwrap());
    assert!(zs.find_zone("notexample.com.").is_none());
}

#[test]
fn zone_set_insert_replaces_same_name() {
    let mut zs = ZoneSet::new();
    zs.insert(Zone::from_file(zone_file("example.com.", vec![])).unwrap());
    let mut again = zone_file("example.com.", vec![]);
    again.zone.ttl = 7;
    zs.insert(Zone::from_file(again).unwrap());
    assert_eq!(zs.len(), 1);
    assert_eq!(zs.find_zone("example.com.").unwrap().ttl, 7);
}

#[test]
fn find_zone_with_unicode_names() {
    let mut zs = ZoneSet::new();
    zs.insert(Zone::from_file(zone_file("ÉCOLE.fr", vec![])).unwrap());
    assert_eq!(zs.find_zone("www.École.FR.").unwrap().name, "école.fr.");
}

// ── Query answering ──────────────────────────────────────────────────

#[test]
fn answer_with_ns_authority() {
    let zs = example_set();
    let resp = process_query(&query("example.com.", TYPE_A), &zs);
    assert_eq!(resp.header.id, 0xBEEF);
    assert!(resp.header.qr);
    assert!(resp.header.aa);
    assert!(resp.header.rd);
    assert_eq!(resp.header.rcode, 0);
    assert_eq!(resp.answers.len(), 1);
    assert_eq!(resp.authority.len(), 2);
    assert_eq!(resp.authority[0].rtype, TYPE_NS);
    assert!(resp.additional.is_empty());
}

#[test]
fn answer_nodata_has_soa() {
    let zs = example_set();
    let resp = process_query(&query("www.example.com.", TYPE_TXT), &zs);
    // www has a CNAME, which answers any other type
    assert_eq!(resp.answers.len(), 1);
    let resp = process_query(&query("v6.example.com.", TYPE_MX), &zs);
    assert_eq!(resp.header.rcode, 0);
    assert!(resp.answers.is_empty());
    assert_eq!(resp.authority.len(), 1);
    assert_eq!(resp.authority[0].rtype, TYPE_SOA);
}

#[test]
fn answer_nxdomain() {
    let zs = example_set();
    let resp = process_query(&query("missing.example.com.", TYPE_A), &zs);
    assert_eq!(resp.header.rcode, 3);
    assert!(resp.header.aa);
    assert!(resp.answers.is_empty());
    assert_eq!(resp.authority.len(), 1);
    assert_eq!(resp.authority[0].rtype, TYPE_SOA);
}

#[test]
fn answer_refused_outside_zones() {
    let zs = example_set();
    let resp = process_query(&query("example.org.", TYPE_A), &zs);
    assert_eq!(resp.header.rcode, 5);
    assert!(resp.answers.is_empty());
    assert!(resp.authority.is_empty());
}

#[test]
fn answer_formerr_without_question() {
    let zs = example_set();
    let mut q = query("example.com.", TYPE_A);
    q.questions.clear();
    q.additional.push(Record {
        name: ".".to_string(),
        rtype: TYPE_OPT,
        class: 1232,
        ttl: 0,
        rdata: RData::OPT { udp_size: 1232 },
    });
    let resp = process_query(&q, &zs);
    assert_eq!(resp.header.rcode, 1);
    assert!(resp.questions.is_empty());
    // no OPT echo on FORMERR
    assert!(resp.additional.is_empty());
}

#[test]
fn health_check_answers_ok() {
    let zs = ZoneSet::new();
    let resp = process_query(&query("HEALTH.akurai-dns.", TYPE_TXT), &zs);
    assert_eq!(resp.header.rcode, 0);
    assert!(resp.header.aa);
    assert_eq!(resp.answers.len(), 1);
    assert_eq!(resp.answers[0].name, "health.akurai-dns.");
    assert_eq!(resp.answers[0].ttl, 0);
    match &resp.answers[0].rdata {
        RData::TXT(t) => assert_eq!(t, "ok"),
        other => panic!("unexpected data {other:?}"),
    }
}

#[test]
fn edns_is_echoed_with_our_size() {
    let zs = example_set();
    let mut q = query("example.com.", TYPE_A);
    q.add_edns(1232);
    let resp = process_query(&q, &zs);
    assert_eq!(resp.additional.len(), 1);
    assert_eq!(resp.additional[0].rtype, TYPE_OPT);
    assert_eq!(resp.additional[0].class, 4096);
    assert_eq!(resp.edns_udp_size(), Some(4096));
    // the OPT record goes on the wire with the root name
    let parsed = Message::parse(&resp.serialize()).unwrap();
    assert_eq!(parsed.additional[0].name, ".");
    assert_eq!(parsed.edns_udp_size(), Some(4096));
}

// ── Replies ──────────────────────────────────────────────────────────

#[test]
fn udp_limit_clamps() {
    let mut q = query("example.com.", TYPE_A);
    assert_eq!(udp_limit(&q), 512);
    q.add_edns(100);
    assert_eq!(udp_limit(&q), 512);
    let mut q = query("example.com.", TYPE_A);
    q.add_edns(1232);
    assert_eq!(udp_limit(&q), 1232);
    let mut q = query("example.com.", TYPE_A);
    q.add_edns(65000);
    assert_eq!(udp_limit(&q), 4096);
}

#[test]
fn udp_reply_fits_and_parses() {
    let zs = example_set();
    let q = query("example.com.", TYPE_MX);
    let (resp, bytes) = udp_reply(&q, &zs);
    assert_eq!(bytes, resp.serialize());
    let parsed = Message::parse(&bytes).unwrap();
    assert!(!parsed.header.tc);
    assert_eq!(parsed.answers.len(), 1);
}

#[test]
fn udp_reply_truncates_large_answers() {
    let mut records = Vec::new();
    for i in 0..40 {
        let mut a = entry("big", "A", "10.0.0.1");
        a.value_ipv4 = Ok([10, 0, 0, i as u8]);
        a.ttl = Some(i);
        records.push(a);
    }
    let mut zs = ZoneSet::new();
    zs.insert(Zone::from_file(zone_file("example.com.", records)).unwrap());
    let q = query("big.example.com.", TYPE_A);
    let (resp, bytes) = udp_reply(&q, &zs);
    assert_eq!(resp.answers.len(), 40);
    assert!(resp.serialize().len() > 512);
    let parsed = Message::parse(&bytes).unwrap();
    assert!(parsed.header.tc);
    assert!(parsed.header.aa);
    assert_eq!(parsed.header.id, 0xBEEF);
    assert!(parsed.answers.is_empty());
    assert_eq!(parsed.questions.len(), 1);
    // with a larger EDNS size the whole answer fits
    let mut q = query("big.example.com.", TYPE_A);
    q.add_edns(4096);
    let (_, bytes) = udp_reply(&q, &zs);
    let parsed = Message::parse(&bytes).unwrap();
    assert!(!parsed.header.tc);
    assert_eq!(parsed.answers.len(), 40);
}

#[test]
fn tcp_length_prefix() {
    assert_eq!(tcp_query_len([0, 0]), None);
    assert_eq!(tcp_query_len([0, 29]), Some(29));
    assert_eq!(tcp_query_len([1, 0]), Some(256));
    assert_eq!(tcp_query_len([0xFF, 0xFF]), Some(65535));
}

#[test]
fn tcp_reply_is_framed() {
    let zs = example_set();
    let q = query("example.com.", TYPE_TXT);
    let (resp, framed) = tcp_reply(&q, &zs);
    let body = resp.serialize();
    assert_eq!(framed.len(), body.len() + 2);
    assert_eq!(((framed[0] as usize) << 8) | framed[1] as usize, body.len());
    assert_eq!(&framed[2..], &body[..]);
    let parsed = Message::parse(&framed[2..]).unwrap();
    match &parsed.answers[0].rdata {
        RData::TXT(t) => assert_eq!(t, "v=spf1 ip4:1.2.3.4 -all"),
        other => panic!("unexpected data {other:?}"),
    }
}

// ── Rate limiting ────────────────────────────────────────────────────

#[test]
fn rate_limit_hundred_per_window() {
    let mut rl = RateLimiter::new();
    let client = ClientKey { family: 4, addr: 0x0A000001 };
    let other = ClientKey { family: 4, addr: 0x0A000002 };
    let t0: u64 = 5_000_000_000;
    let mut allowed = 0;
    for i in 0..150u64 {
        if rl.check(client, t0 + i * 1_000_000) {
            allowed += 1;
        }
    }
    assert_eq!(allowed, 100);
    // another client is counted apart
    assert!(rl.check(other, t0 + 200_000_000));
    // still the same window
    assert!(!rl.check(client, t0 + 999_999_999));
    // a new window opens a second after the first request
    assert!(rl.check(client, t0 + 1_000_000_000));
}

#[test]
fn rate_limit_cleanup_forgets_old_clients() {
    let mut rl = RateLimiter::new();
    let client = ClientKey { family: 6, addr: 1 };
    for i in 0..101u64 {
        rl.check(client, 20_000_000_000 + i);
    }
    assert!(!rl.check(client, 20_000_000_500));
    rl.cleanup(25_000_000_000);
    // still remembered: the window is younger than ten seconds
    assert!(!rl.check(client, 20_000_000_600));
    rl.cleanup(40_000_000_000);
    assert!(rl.check(client, 40_000_000_000));
}

// ── Codec laws on concrete values ───────────────────────────────────

#[test]
fn decode_of_encode_gives_message_back() {
    let mut m = query("example.com.", TYPE_ANY);
    m.header.qr = true;
    m.header.opcode = 2;
    m.header.rcode = 3;
    m.answers.push(Record::new_a("Example.com", 60, [192, 0, 2, 1]));
    m.answers.push(Record::new_mx("example.com.", 60, 5, "mail.example.com."));
    m.answers.push(Record::new_cname("www.example.com.", 60, "example.com."));
    m.authority.push(Record::new_ns("example.com.", 60, "ns.example.com."));
    m.additional.push(Record::new_aaaa("mail.example.com.", 60, [0xfe; 16]));
    m.add_edns(1400);
    let bytes = m.serialize();
    let d = Message::parse(&bytes).unwrap();
    assert_eq!(d.header.id, m.header.id);
    assert!(d.header.qr);
    assert_eq!(d.header.opcode, 2);
    assert_eq!(d.header.rcode, 3);
    assert_eq!(d.header.qdcount, 1);
    assert_eq!(d.header.ancount, 3);
    assert_eq!(d.header.nscount, 1);
    assert_eq!(d.header.arcount, 2);
    assert_eq!(d.answers[0].name, "example.com.");
    assert_eq!(d.answers[2].name, "www.example.com.");
    match &d.answers[1].rdata {
        RData::MX { preference, exchange } => {
            assert_eq!(*preference, 5);
            assert_eq!(exchange, "mail.example.com.");
        }
        other => panic!("unexpected data {other:?}"),
    }
    assert_eq!(d.additional[1].rtype, TYPE_OPT);
    assert_eq!(d.additional[1].class, 1400);
    // decoding and encoding again gives the same bytes
    assert_eq!(d.serialize(), bytes);
}

#[test]
fn opcode_and_rcode_keep_four_bits() {
    let mut m = query("example.com.", TYPE_A);
    m.header.opcode = 0x12;
    m.header.rcode = 0x1F;
    let d = Message::parse(&m.serialize()).unwrap();
    assert_eq!(d.header.opcode, 2);
    assert_eq!(d.header.rcode, 15);
}

#[test]
fn unknown_record_data_is_kept() {
    let mut m = query("example.com.", TYPE_A);
    m.answers.push(Record {
        name: "example.com.".to_string(),
        rtype: 99,
        class: CLASS_IN,
        ttl: 1,
        rdata: RData::Unknown(vec![1, 2, 3]),
    });
    let d = Message::parse(&m.serialize()).unwrap();
    match &d.answers[0].rdata {
        RData::Unknown(v) => assert_eq!(v, &vec![1, 2, 3]),
        other => panic!("unexpected data {other:?}"),
    }
}

#[test]
fn invalid_utf8_label_is_an_invalid_name() {
    let mut pkt = vec![0u8, 1, 0, 0, 0, 1, 0, 0, 0, 0, 0, 0];
    pkt.extend_from_slice(&[2, 0xC3, 0x28, 0, 0, 1, 0, 1]);
    assert_eq!(Message::parse(&pkt).unwrap_err(), DnsError::InvalidName);
}

#[test]
fn label_over_63_bytes_is_an_invalid_name() {
    let mut pkt = vec![0u8, 1, 0, 0, 0, 1, 0, 0, 0, 0, 0, 0];
    pkt.push(64);
    pkt.extend_from_slice(&[b'a'; 64]);
    pkt.extend_from_slice(&[0, 0, 1, 0, 1]);
    assert_eq!(Message::parse(&pkt).unwrap_err(), DnsError::InvalidName);
}

#[test]
fn truncated_question_is_an_invalid_record() {
    let mut pkt = vec![0u8, 1, 0, 0, 0, 1, 0, 0, 0, 0, 0, 0];
    pkt.extend_from_slice(&[1, b'a', 0, 0, 1]);
    assert_eq!(Message::parse(&pkt).unwrap_err(), DnsError::InvalidRecord);
}

#[test]
fn missing_question_is_too_short() {
    let pkt = vec![0u8, 1, 0, 0, 0, 1, 0, 0, 0, 0, 0, 0];
    assert_eq!(Message::parse(&pkt).unwrap_err(), DnsError::TooShort);
}

#[test]
fn error_messages() {
    assert_eq!(DnsError::TooShort.message(), "packet too short");
    assert_eq!(DnsError::InvalidName.message(), "invalid domain name");
    assert_eq!(DnsError::InvalidRecord.message(), "invalid resource record");
    assert_eq!(DnsError::CompressionLoop.message(), "compression pointer loop");
}

#[test]
fn normalize_name_twice_is_once() {
    let once = normalize_name("WWW.Example.COM");
    assert_eq!(once, "www.example.com.");
    assert_eq!(normalize_name(&once), once);
    assert_eq!(normalize_name(""), ".");
    // only ASCII letters are lower-cased
    assert_eq!(normalize_name("ÉCOLE.fr."), "École.fr.");
}

#[test]
fn add_edns_then_size() {
    let mut m = query("example.com.", TYPE_A);
    assert!(!m.has_edns());
    assert_eq!(m.edns_udp_size(), None);
    m.add_edns(1232);
    assert!(m.has_edns());
    assert_eq!(m.edns_udp_size(), Some(1232));
    // the first OPT record wins
    m.add_edns(512);
    assert_eq!(m.edns_udp_size(), Some(1232));
}

#[test]
fn constructors_set_matching_type_codes() {
    let recs = vec![
        Record::new_a("a", 1, [1, 1, 1, 1]),
        Record::new_aaaa("a", 1, [0; 16]),
        Record::new_cname("a", 1, "b"),
        Record::new_mx("a", 1, 1, "b"),
        Record::new_txt("a", 1, "t"),
        Record::new_ns("a", 1, "b"),
        Record::new_soa("a", 1, "b", "c", 1, 2, 3, 4, 5),
        Record::new_srv("a", 1, 1, 2, 3, "b"),
        Record::new_caa("a", 1, 0, "issue", "ca"),
    ];
    for r in &recs {
        assert_eq!(r.rtype, r.rdata.type_code());
        assert_eq!(r.name, "a.");
        assert_eq!(r.class, CLASS_IN);
    }
}

// ── Text form of record data ─────────────────────────────────────────

fn v6(groups: [u16; 8]) -> RData {
    let mut ip = [0u8; 16];
    for i in 0..8 {
        ip[2 * i] = (groups[i] >> 8) as u8;
        ip[2 * i + 1] = (groups[i] & 0xff) as u8;
    }
    RData::AAAA(ip)
}

#[test]
fn text_of_addresses() {
    assert_eq!(RData::A([93, 95, 230, 10]).to_text(), "93.95.230.10");
    assert_eq!(RData::A([0, 0, 0, 0]).to_text(), "0.0.0.0");
    assert_eq!(v6([0, 0, 0, 0, 0, 0, 0, 1]).to_text(), "::1");
    assert_eq!(v6([0; 8]).to_text(), "::");
    assert_eq!(v6([0x2001, 0xdb8, 0, 0, 0, 0, 0, 1]).to_text(), "2001:db8::1");
    assert_eq!(v6([1, 0, 0, 2, 0, 0, 0, 3]).to_text(), "1:0:0:2::3");
    assert_eq!(v6([1, 0, 0, 2, 0, 0, 3, 4]).to_text(), "1::2:0:0:3:4");
    assert_eq!(v6([1, 0, 2, 3, 4, 5, 6, 7]).to_text(), "1:0:2:3:4:5:6:7");
    assert_eq!(v6([0xfe80, 1, 2, 3, 4, 5, 6, 0]).to_text(), "fe80:1:2:3:4:5:6:0");
    assert_eq!(v6([0, 0, 0, 0, 0, 0xffff, 0xc000, 0x0201]).to_text(), "::ffff:192.0.2.1");
    assert_eq!(v6([0xabcd, 0xffff, 0, 0, 1, 0, 0, 0]).to_text(), "abcd:ffff:0:0:1::");
}

#[test]
fn text_of_other_data() {
    assert_eq!(RData::CNAME("a.example.".to_string()).to_text(), "a.example.");
    assert_eq!(RData::NS("ns.example.".to_string()).to_text(), "ns.example.");
    let mx = RData::MX { preference: 10, exchange: "mail.example.".to_string() };
    assert_eq!(mx.to_text(), "10 mail.example.");
    assert_eq!(RData::TXT("hello world".to_string()).to_text(), "\"hello world\"");
    let soa = RData::SOA {
        mname: "ns1.example.".to_string(),
        rname: "admin.example.".to_string(),
        serial: 2026062401,
        refresh: 3600,
        retry: 900,
        expire: 604800,
        minimum: 300,
    };
    assert_eq!(soa.to_text(), "ns1.example. admin.example. 2026062401 3600 900 604800 300");
    let srv = RData::SRV { priority: 0, weight: 5, port: 5060, target: "sip.example.".to_string() };
    assert_eq!(srv.to_text(), "0 5 5060 sip.example.");
    let caa = RData::CAA { flags: 128, tag: "issue".to_string(), value: "ca.example".to_string() };
    assert_eq!(caa.to_text(), "128 issue \"ca.example\"");
    assert_eq!(RData::OPT { udp_size: 4096 }.to_text(), "OPT udp_size=4096");
    assert_eq!(RData::Unknown(vec![1, 2, 3]).to_text(), "<unknown 3 bytes>");
}

#[test]
fn rate_limit_by_the_clock() {
    let mut rl = RateLimiter::new();
    let client = ClientKey { family: 4, addr: 7 };
    assert!(rl.check_now(client));
    let a = rl.clock();
    let b = rl.clock();
    assert!(b >= a);
    rl.cleanup_now();
    // a fresh client is never refused
    assert!(rl.check_now(ClientKey { family: 4, addr: 8 }));
}

#[test]
fn decode_of_encode_lower_cases_and_qualifies_names() {
    let mut m = query("WWW.Example.COM", TYPE_CNAME);
    m.answers.push(Record {
        name: "www.EXAMPLE.com".to_string(),
        rtype: TYPE_CNAME,
        class: CLASS_IN,
        ttl: 30,
        rdata: RData::CNAME("Target.Example.COM".to_string()),
    });
    m.answers.push(Record {
        name: "Example.com.".to_string(),
        rtype: TYPE_SOA,
        class: CLASS_IN,
        ttl: 30,
        rdata: RData::SOA {
            mname: "NS1.example.com".to_string(),
            rname: "Admin.Example.Com.".to_string(),
            serial: 1,
            refresh: 2,
            retry: 3,
            expire: 4,
            minimum: 5,
        },
    });
    m.answers.push(Record {
        name: "".to_string(),
        rtype: TYPE_MX,
        class: CLASS_IN,
        ttl: 30,
        rdata: RData::MX { preference: 1, exchange: ".".to_string() },
    });
    let d = Message::parse(&m.serialize()).unwrap();
    assert_eq!(d.questions[0].name, "www.example.com.");
    assert_eq!(d.answers[0].name, "www.example.com.");
    match &d.answers[0].rdata {
        RData::CNAME(t) => assert_eq!(t, "target.example.com."),
        other => panic!("unexpected data {other:?}"),
    }
    assert_eq!(d.answers[1].name, "example.com.");
    match &d.answers[1].rdata {
        RData::SOA { mname, rname, minimum, .. } => {
            assert_eq!(mname, "ns1.example.com.");
            assert_eq!(rname, "admin.example.com.");
            assert_eq!(*minimum, 5);
        }
        other => panic!("unexpected data {other:?}"),
    }
    assert_eq!(d.answers[2].name, ".");
    match &d.answers[2].rdata {
        RData::MX { exchange, .. } => assert_eq!(exchange, "."),
        other => panic!("unexpected data {other:?}"),
    }
}

// ── Cursor positions and received bytes ─────────────────────────────

#[test]
fn cursor_past_the_end_reads_too_short() {
    let data = [1u8, 2, 3];
    let mut c = Cursor { data: &data, pos: 5 };
    assert_eq!(c.remaining(), 0);
    assert_eq!(c.read_u8(), Err(DnsError::TooShort));
    assert_eq!(c.read_u16(), Err(DnsError::TooShort));
    assert_eq!(c.read_u32(), Err(DnsError::TooShort));
    assert!(c.read_bytes(1).is_err());
    assert_eq!(c.pos, 5);
    assert!(Question::parse(&mut c).is_err());
    assert_eq!(c.pos, 5);
    assert_eq!(parse_name_from_cursor(&mut c), Err(DnsError::TooShort));
    assert_eq!(c.pos, 5);
}

#[test]
fn short_header_leaves_the_cursor() {
    let data = [0u8; 11];
    let mut c = Cursor { data: &data, pos: 0 };
    assert_eq!(Header::parse(&mut c), Err(DnsError::InvalidHeader));
    assert_eq!(c.pos, 0);
    let data = [0u8; 14];
    let mut c = Cursor { data: &data, pos: 2 };
    assert!(Header::parse(&mut c).is_ok());
    assert_eq!(c.pos, 14);
}

#[test]
fn name_from_cursor_error_keeps_position() {
    let data = [3u8, b'a', b'b'];
    let mut c = Cursor { data: &data, pos: 0 };
    assert_eq!(parse_name_from_cursor(&mut c), Err(DnsError::TooShort));
    assert_eq!(c.pos, 0);
    let data = [1u8, b'A', 0, 9];
    let mut c = Cursor { data: &data, pos: 0 };
    assert_eq!(parse_name_from_cursor(&mut c).unwrap(), "a.");
    assert_eq!(c.pos, 3);
}

#[test]
fn answers_from_received_bytes() {
    let zs = example_set();
    let q = query("example.com.", TYPE_A);
    let data = q.serialize();
    let (query_back, resp, bytes) = udp_answer(&data, &zs).unwrap();
    assert_eq!(query_back.header.id, 0xBEEF);
    assert_eq!(bytes, resp.serialize());
    let (_, resp, framed) = tcp_answer(&data, &zs).unwrap();
    assert_eq!(&framed[2..], &resp.serialize()[..]);
    assert_eq!(udp_answer(&data[..5], &zs).unwrap_err(), DnsError::TooShort);
    assert_eq!(tcp_answer(&data[..13], &zs).unwrap_err(), DnsError::TooShort);
}

#[test]
fn zones_from_files_loads_every_file() {
    let mut later = zone_file("Example.com", vec![]);
    later.zone.ttl = 7;
    let files = vec![
        Ok(zone_file("example.com.", vec![])),
        Ok(zone_file("example.org.", vec![])),
        Ok(later),
    ];
    let zs = zones_from_files(files).unwrap();
    assert_eq!(zs.len(), 2);
    assert_eq!(zs.find_zone("www.example.com.").unwrap().ttl, 7);
    assert_eq!(zs.find_zone("example.org.").unwrap().name, "example.org.");
}

#[test]
fn zones_from_files_of_no_files_is_empty() {
    let zs = zones_from_files(vec![]).unwrap();
    assert_eq!(zs.len(), 0);
}

#[test]
fn zones_from_files_stops_at_unreadable_file() {
    let files = vec![
        Ok(zone_file("example.com.", vec![])),
        Err("Cannot read b.toml: denied".to_string()),
        Ok(zone_file("example.org.", vec![entry("@", "PTR", "x.")])),
    ];
    match zones_from_files(files) {
        Err(LoadError::File { index, message }) => {
            assert_eq!(index, 1);
            assert_eq!(message, "Cannot read b.toml: denied");
        }
        _ => panic!("expected the unreadable file"),
    }
}

#[test]
fn zones_from_files_stops_at_bad_zone() {
    let files = vec![
        Ok(zone_file("example.com.", vec![])),
        Ok(zone_file("example.org.", vec![entry("@", "A", "1.2.3")])),
        Err("Cannot read c.toml: denied".to_string()),
    ];
    match zones_from_files(files) {
        Err(LoadError::Zone { index, error: ZoneError::BadA { value, .. } }) => {
            assert_eq!(index, 1);
            assert_eq!(value, "1.2.3");
        }
        _ => panic!("expected the bad zone"),
    }
}

#[test]
fn reload_keeps_current_zones_on_failure() {
    let current = zones_from_files(vec![Ok(zone_file("example.com.", vec![]))]).unwrap();
    let kept = after_reload(current, Err("Zone file a.toml: TOML parse error".to_string()));
    assert_eq!(kept.len(), 1);
    assert!(kept.find_zone("example.com.").is_some());

    let loaded = zones_from_files(vec![Ok(zone_file("example.org.", vec![]))]).unwrap();
    let replaced = after_reload(kept, Ok(loaded));
    assert_eq!(replaced.len(), 1);
    assert!(replaced.find_zone("example.com.").is_none());
    assert!(replaced.find_zone("example.org.").is_some());
}

#[test]
fn edns_size_comes_with_any_opt_record() {
    let mut m = query("example.com.", TYPE_A);
    m.additional.push(Record {
        name: ".".to_string(),
        rtype: TYPE_OPT,
        class: 4096,
        ttl: 0,
        rdata: RData::Unknown(vec![]),
    });
    assert!(m.has_edns());
    assert_eq!(m.edns_udp_size(), Some(4096));
}

#[test]
fn name_exists_exactly_when_any_lookup_has_records() {
    let z = example_zone();
    for name in ["example.com.", "WWW.example.com.", "v6.example.com.", "ftp.example.com.", "com."] {
        assert_eq!(z.name_exists(name), !z.lookup(name, TYPE_ANY).is_empty());
    }
}
