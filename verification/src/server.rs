//! Answering queries from the zone data, EDNS0 handling, UDP truncation and
//! per-client rate limiting.
use vstd::prelude::*;
use vstd::utf8::*;
use crate::dns::{
    Message, Record, RData, SpecMessage, SpecRecord, SpecRData, records_view, copy_records,
    response_skeleton, record_model, TYPE_OPT, TYPE_TXT,
};
use crate::serialize::{limited_bytes, message_bytes, be16};
use crate::parse::parse_message_spec;
use crate::dns::DnsError;
use crate::roundtrip::{lemma_parse_serialize, message_wf, name_wf, wire_message, wire_questions};
use crate::text::{unicode_lowercase, str_to_lowercase, str_eq};
use crate::zone::{Zone, ZoneSet, lookup_spec, responsible_zone};

verus! {

pub const DEFAULT_UDP_LIMIT: usize = 512;
pub const EDNS_UDP_LIMIT: usize = 4096;
pub const TCP_MAX_MSG: usize = 65535;
pub const RATE_LIMIT_QPS: u32 = 100;
/// Length of a rate-limiting window, in nanoseconds.
pub const RATE_WINDOW_NANOS: u64 = 1_000_000_000;
/// Age after which a client's rate-limiting entry is forgotten, in nanoseconds.
pub const RATE_FORGET_NANOS: u64 = 10_000_000_000;
/// How often the server drops forgotten rate-limiting entries, in seconds.
pub const RATE_CLEANUP_PERIOD_SECS: u64 = 10;

/// The name answered by the health check.
pub open spec fn health_name() -> Seq<char> {
    "health.akurai-dns."@
}


// ---------------------------------------------------------------------------
// EDNS0
// ---------------------------------------------------------------------------

/// The UDP payload size of the last record with OPT data, if any.
pub open spec fn client_udp_size(rs: Seq<SpecRecord>) -> Option<u16>
    decreases rs.len(),
{
    if rs.len() == 0 {
        None
    } else {
        match rs.last().rdata {
            SpecRData::OPT { udp_size } => Some(udp_size),
            _ => client_udp_size(rs.drop_last()),
        }
    }
}

/// The UDP payload size of the first record with OPT data, if any.
pub open spec fn first_opt_data(rs: Seq<SpecRecord>) -> Option<u16>
    decreases rs.len(),
{
    if rs.len() == 0 {
        None
    } else {
        match rs[0].rdata {
            SpecRData::OPT { udp_size } => Some(udp_size),
            _ => first_opt_data(rs.drop_first()),
        }
    }
}

/// The OPT record this server adds to a response: root (empty) name and a
/// 4096-byte UDP payload size.
pub open spec fn server_opt_record() -> SpecRecord {
    SpecRecord {
        name: seq![],
        rtype: TYPE_OPT,
        class: 4096,
        ttl: 0,
        rdata: SpecRData::OPT { udp_size: 4096 },
    }
}

/// A response with the server's OPT record added when the client sent one.
pub open spec fn with_edns(m: SpecMessage, client: Option<u16>) -> SpecMessage {
    if client is Some {
        SpecMessage { additional: m.additional.push(server_opt_record()), ..m }
    } else {
        m
    }
}

/// Adds an OPT record advertising our 4096-byte UDP size when the client sent
/// one.
pub fn add_edns_response(response: &mut Message, client_udp_size: Option<u16>)
    ensures
        final(response)@ == with_edns(old(response)@, client_udp_size),
{
    if client_udp_size.is_some() {
        let ghost before = records_view(response.additional@);
        let rec = Record {
            name: String::new(),
            rtype: TYPE_OPT,
            class: EDNS_UDP_LIMIT as u16,
            ttl: 0,
            rdata: RData::OPT { udp_size: EDNS_UDP_LIMIT as u16 },
        };
        assert(rec@ == server_opt_record());
        response.additional.push(rec);
        assert(records_view(response.additional@) =~= before.push(server_opt_record()));
    }
}

/// The UDP response size limit for a query: the EDNS0 size of its first OPT
/// data clamped to 512..=4096, or 512 without EDNS0.
pub open spec fn udp_limit_spec(m: SpecMessage) -> nat {
    match first_opt_data(m.additional) {
        Some(size) => if size < 512 {
            512
        } else if size > 4096 {
            4096
        } else {
            size as nat
        },
        None => 512,
    }
}

/// The UDP reply limit: 512 bytes without EDNS0; with it, the size the
/// client announced, raised to at least 512 and capped at 4096.
pub proof fn lemma_udp_limit_range(m: SpecMessage)
    ensures
        512 <= udp_limit_spec(m) <= 4096,
        first_opt_data(m.additional) is None ==> udp_limit_spec(m) == 512,
        first_opt_data(m.additional) matches Some(s) ==> (512 <= s <= 4096 ==> udp_limit_spec(m)
            == s) && (s < 512 ==> udp_limit_spec(m) == 512) && (s > 4096 ==> udp_limit_spec(m)
            == 4096),
{
}

/// Determine the UDP size limit based on EDNS0.
pub fn udp_limit(query: &Message) -> (res: usize)
    ensures
        res == udp_limit_spec(query@),
{
    let ghost rs = query@.additional;
    let mut i: usize = 0;
    assert(rs.subrange(0, rs.len() as int) =~= rs);
    while i < query.additional.len()
        invariant
            i <= query.additional@.len(),
            rs == query@.additional,
            first_opt_data(rs) == first_opt_data(rs.subrange(i as int, rs.len() as int)),
        decreases query.additional.len() - i,
    {
        let ghost rest = rs.subrange(i as int, rs.len() as int);
        match &query.additional[i].rdata {
            RData::OPT { udp_size } => {
                let size = *udp_size as usize;
                let at_least = if size < DEFAULT_UDP_LIMIT {
                    DEFAULT_UDP_LIMIT
                } else {
                    size
                };
                return if at_least > EDNS_UDP_LIMIT {
                    EDNS_UDP_LIMIT
                } else {
                    at_least
                };
            },
            _ => {},
        }
        i = i + 1;
        assert(rest.drop_first() =~= rs.subrange(i as int, rs.len() as int));
    }
    DEFAULT_UDP_LIMIT
}

// ---------------------------------------------------------------------------
// Query processing
// ---------------------------------------------------------------------------

/// The message with its response code replaced.
pub open spec fn with_rcode(m: SpecMessage, rcode: u8) -> SpecMessage {
    SpecMessage { header: crate::dns::Header { rcode, ..m.header }, ..m }
}

/// The answer of the zones for the question `name` (lower-cased) and `qtype`,
/// starting from the response skeleton `base`: REFUSED when no zone is
/// responsible; the records found, with the zone's NS records as authority;
/// NODATA (no answers, SOA as authority) when the name has other records; else
/// NXDOMAIN with the SOA as authority.
pub open spec fn zone_answer(base: SpecMessage, zones: Seq<Zone>, qname: Seq<char>, qtype: u16) -> SpecMessage {
    match responsible_zone(zones, unicode_lowercase(qname)) {
        None => with_rcode(base, 5),
        Some(zone) => {
            let key = unicode_lowercase(qname);
            let answers = lookup_spec(zone.sets(), key, qtype);
            if answers.len() > 0 {
                SpecMessage { answers, authority: records_view(zone.ns_records@), ..base }
            } else if exists|i: int| 0 <= i < zone.sets().len() && #[trigger] zone.sets()[i].name == key {
                SpecMessage { authority: seq![zone.soa_record@], ..base }
            } else {
                with_rcode(SpecMessage { authority: seq![zone.soa_record@], ..base }, 3)
            }
        },
    }
}

/// The response to a query: FORMERR without a question; the health check
/// answer for the health name; otherwise the zones' answer for the first
/// question. EDNS0 is echoed when the client used it (except for FORMERR).
pub open spec fn answer_spec(query: SpecMessage, zones: Seq<Zone>) -> SpecMessage {
    let base = response_skeleton(query);
    let client = client_udp_size(query.additional);
    if query.questions.len() == 0 {
        with_rcode(base, 1)
    } else {
        let q = query.questions[0];
        let qname = unicode_lowercase(q.name);
        if qname == health_name() {
            with_edns(
                SpecMessage {
                    answers: seq![record_model(health_name(), TYPE_TXT, 0, SpecRData::TXT("ok"@))],
                    ..base
                },
                client,
            )
        } else {
            with_edns(zone_answer(base, zones, qname, q.qtype), client)
        }
    }
}

/// Every response answers the query it was built for: same ID, QR set, RD
/// copied, the same questions.
pub proof fn lemma_response_echoes_query(query: SpecMessage, zones: Seq<Zone>)
    ensures
        answer_spec(query, zones).header.id == query.header.id,
        answer_spec(query, zones).header.qr,
        answer_spec(query, zones).header.rd == query.header.rd,
        answer_spec(query, zones).questions == query.questions,
{
}

/// A client that uses EDNS0 (sends an OPT record) and asks a question gets
/// the server's OPT record, advertising a 4096-byte UDP payload, at the end of
/// the response.
pub proof fn lemma_edns_advertised(query: SpecMessage, zones: Seq<Zone>)
    requires
        query.questions.len() > 0,
        client_udp_size(query.additional) is Some,
    ensures
        answer_spec(query, zones).additional.len() > 0,
        answer_spec(query, zones).additional.last() == server_opt_record(),
        server_opt_record().rdata == (SpecRData::OPT { udp_size: 4096 }),
{
}

/// The health check: a query for `health.akurai-dns.` (in any letter case that
/// lower-cases to it) is answered, whatever the zones, with the TXT record
/// "ok" and NOERROR.
pub proof fn lemma_health_check(query: SpecMessage, zones: Seq<Zone>)
    requires
        query.questions.len() > 0,
        unicode_lowercase(query.questions[0].name) == health_name(),
    ensures
        answer_spec(query, zones).header.rcode == 0,
        answer_spec(query, zones).answers == seq![
            record_model(health_name(), TYPE_TXT, 0, SpecRData::TXT("ok"@)),
        ],
{
}

/// A name that owns records in the zone responsible for it exists: the
/// response is never NXDOMAIN but NOERROR, either with the records found
/// (and the zone's NS records as authority) or, when none is of the asked
/// type, NODATA: no answers and the zone's SOA record as authority.
pub proof fn lemma_existing_name_noerror(query: SpecMessage, zones: Seq<Zone>, z: Zone)
    requires
        query.questions.len() > 0,
        unicode_lowercase(query.questions[0].name) != health_name(),
        responsible_zone(zones, unicode_lowercase(unicode_lowercase(query.questions[0].name)))
            == Some(z),
        exists|i: int|
            0 <= i < z.sets().len() && #[trigger] z.sets()[i].name == unicode_lowercase(
                unicode_lowercase(query.questions[0].name),
            ),
    ensures
        answer_spec(query, zones).header.rcode == 0,
        answer_spec(query, zones).answers.len() == 0 ==> answer_spec(query, zones).authority
            == seq![z.soa_record@],
        answer_spec(query, zones).answers.len() > 0 ==> answer_spec(query, zones).authority
            == records_view(z.ns_records@),
{
}

/// NXDOMAIN is answered only when a zone is responsible for the name and the
/// name owns no records in it; a name no zone covers is REFUSED.
pub proof fn lemma_nxdomain_only_for_missing_names(query: SpecMessage, zones: Seq<Zone>)
    requires
        query.questions.len() > 0,
        unicode_lowercase(query.questions[0].name) != health_name(),
    ensures
        ({
            let key = unicode_lowercase(unicode_lowercase(query.questions[0].name));
            &&& answer_spec(query, zones).header.rcode == 3 ==> (responsible_zone(zones, key) matches Some(
                z,
            ) && forall|i: int| 0 <= i < z.sets().len() ==> #[trigger] z.sets()[i].name != key)
            &&& responsible_zone(zones, key) is None ==> answer_spec(query, zones).header.rcode == 5
        }),
{
}

/// A query without a question is answered FORMERR (1), with no records and
/// no OPT record.
pub proof fn lemma_no_question_formerr(query: SpecMessage, zones: Seq<Zone>)
    requires
        query.questions.len() == 0,
    ensures
        answer_spec(query, zones).header.rcode == 1,
        answer_spec(query, zones).answers.len() == 0,
        answer_spec(query, zones).authority.len() == 0,
        answer_spec(query, zones).additional.len() == 0,
{
}

/// Every response is authoritative, not truncated, without recursion
/// available, with the query's opcode; a name the zone covers but that owns
/// no records is NXDOMAIN (3) with no answers and the zone's SOA record as
/// authority.
pub proof fn lemma_response_flags(query: SpecMessage, zones: Seq<Zone>)
    ensures
        answer_spec(query, zones).header.aa,
        !answer_spec(query, zones).header.tc,
        !answer_spec(query, zones).header.ra,
        answer_spec(query, zones).header.opcode == query.header.opcode,
        query.questions.len() > 0 && answer_spec(query, zones).header.rcode == 3 ==> (responsible_zone(
            zones,
            unicode_lowercase(unicode_lowercase(query.questions[0].name)),
        ) matches Some(z) && answer_spec(query, zones).answers.len() == 0 && answer_spec(
            query,
            zones,
        ).authority == seq![z.soa_record@]),
{
}

/// The UDP payload size of the last record of `rs` with OPT data.
fn find_client_udp_size(rs: &Vec<Record>) -> (res: Option<u16>)
    ensures
        res == client_udp_size(records_view(rs@)),
{
    let ghost v = records_view(rs@);
    let mut found: Option<u16> = None;
    let mut i: usize = 0;
    while i < rs.len()
        invariant
            i <= rs@.len(),
            v == records_view(rs@),
            found == client_udp_size(v.subrange(0, i as int)),
        decreases rs.len() - i,
    {
        match &rs[i].rdata {
            RData::OPT { udp_size } => {
                found = Some(*udp_size);
            },
            _ => {},
        }
        i = i + 1;
        assert(v.subrange(0, i as int).drop_last() =~= v.subrange(0, i - 1 as int));
    }
    assert(v.subrange(0, v.len() as int) =~= v);
    found
}

/// Answers a query from the zones.
#[verifier::spinoff_prover]
pub fn process_query(query: &Message, zones: &ZoneSet) -> (res: Message)
    ensures
        res@ == answer_spec(query@, zones.zones()),
{
    let mut response = Message::new_response(query);
    // Detect EDNS0
    let client_udp_size = find_client_udp_size(&query.additional);
    if query.questions.len() == 0 {
        response.set_rcode(1);  // FORMERR
        return response;
    }
    let question = &query.questions[0];
    let qname = str_to_lowercase(question.name.as_str());
    let qtype = question.qtype;
    // Health check
    proof {
        reveal_strlit("health.akurai-dns.");
        reveal_strlit("ok");
    }
    if str_eq(qname.as_str(), "health.akurai-dns.") {
        response.header.aa = true;
        let ghost before = records_view(response.answers@);
        let rec = Record::new_txt("health.akurai-dns.", 0, "ok");
        response.answers.push(rec);
        assert(records_view(response.answers@) =~= before.push(rec@));
        add_edns_response(&mut response, client_udp_size);
        return response;
    }
    let ghost base = response@;
    // Find authoritative zone
    match zones.find_zone(qname.as_str()) {
        None => {
            // REFUSED: we are not authoritative
            response.set_rcode(5);
        },
        Some(zone) => {
            response.header.aa = true;
            let answers = zone.lookup(qname.as_str(), qtype);
            if answers.len() > 0 {
                response.answers = answers;
                // Add authority section (NS records)
                response.authority = copy_records(&zone.ns_records);
            } else if zone.name_exists(qname.as_str()) {
                // Name exists but no records of this type: NODATA
                response.authority.push(zone.soa_record.clone());
                assert(records_view(response.authority@) =~= seq![zone.soa_record@]);
            } else {
                // NXDOMAIN
                response.set_rcode(3);
                response.authority.push(zone.soa_record.clone());
                assert(records_view(response.authority@) =~= seq![zone.soa_record@]);
            }
        },
    }
    assert(response@ == zone_answer(base, zones.zones(), qname@, qtype));
    // Add EDNS0 OPT to response if client sent one
    add_edns_response(&mut response, client_udp_size);
    response
}


// ---------------------------------------------------------------------------
// Replies over UDP and TCP
// ---------------------------------------------------------------------------

/// The response to a UDP query and the bytes sent back: the response under
/// the query's UDP size limit; when it had to be truncated, only the response
/// skeleton with TC set and the response's AA bit and response code.
pub open spec fn udp_reply_spec(query: SpecMessage, zones: Seq<Zone>) -> (SpecMessage, Seq<u8>) {
    let response = answer_spec(query, zones);
    let (bytes, truncated) = limited_bytes(response, udp_limit_spec(query));
    if truncated {
        let skeleton = response_skeleton(query);
        let trunc = SpecMessage {
            header: crate::dns::Header {
                tc: true,
                aa: response.header.aa,
                rcode: response.header.rcode,
                ..skeleton.header
            },
            ..skeleton
        };
        (response, message_bytes(trunc))
    } else {
        (response, bytes)
    }
}

/// A UDP reply that had to be truncated tells the client so: it decodes to a
/// message with the query's ID and questions (in wire form), the TC bit set
/// and no records, so that the client can ask again over TCP.
pub proof fn lemma_truncated_udp_reply(query: SpecMessage, zones: Seq<Zone>)
    requires
        query.questions.len() < 65536,
        forall|i: int| 0 <= i < query.questions.len() ==> name_wf(#[trigger] query.questions[i].name),
        limited_bytes(answer_spec(query, zones), udp_limit_spec(query)).1,
    ensures
        parse_message_spec(udp_reply_spec(query, zones).1) matches Ok(d) && {
            &&& d.header.id == query.header.id
            &&& d.header.tc
            &&& d.questions == wire_questions(query.questions)
            &&& d.answers.len() == 0
            &&& d.authority.len() == 0
            &&& d.additional.len() == 0
        },
{
    let response = answer_spec(query, zones);
    let skeleton = response_skeleton(query);
    let trunc = SpecMessage {
        header: crate::dns::Header {
            tc: true,
            aa: response.header.aa,
            rcode: response.header.rcode,
            ..skeleton.header
        },
        ..skeleton
    };
    assert(message_wf(trunc));
    lemma_parse_serialize(trunc);
    assert(wire_message(trunc).answers =~= Seq::<SpecRecord>::empty());
    assert(wire_message(trunc).authority =~= Seq::<SpecRecord>::empty());
    assert(wire_message(trunc).additional =~= Seq::<SpecRecord>::empty());
}

/// Answers a UDP query: the response (for logging) and the bytes to send.
pub fn udp_reply(query: &Message, zones: &ZoneSet) -> (res: (Message, Vec<u8>))
    ensures
        (res.0@, res.1@) == udp_reply_spec(query@, zones.zones()),
{
    let limit = udp_limit(query);
    let response = process_query(query, zones);
    let (mut bytes, truncated) = response.serialize_with_limit(limit);
    if truncated {
        // Re-serialize with TC=1
        let mut trunc_resp = Message::new_response(query);
        trunc_resp.header.tc = true;
        trunc_resp.header.aa = response.header.aa;
        trunc_resp.set_rcode(response.header.rcode);
        bytes = trunc_resp.serialize();
    }
    (response, bytes)
}

/// The length announced by the two-byte prefix of a TCP query, if the query
/// is to be read (a zero length is not).
pub fn tcp_query_len(prefix: [u8; 2]) -> (res: Option<usize>)
    ensures
        res == (if prefix[0] == 0 && prefix[1] == 0 {
            None::<usize>
        } else {
            Some((prefix[0] as int * 256 + prefix[1] as int) as usize)
        }),
{
    let msg_len = (prefix[0] as usize) * 256 + prefix[1] as usize;
    if msg_len == 0 || msg_len > TCP_MAX_MSG {
        return None;
    }
    Some(msg_len)
}

/// Answers a TCP query: the response (for logging) and the bytes to send, the
/// message preceded by its two-byte length.
pub fn tcp_reply(query: &Message, zones: &ZoneSet) -> (res: (Message, Vec<u8>))
    ensures
        res.0@ == answer_spec(query@, zones.zones()),
        res.1@ == be16((message_bytes(res.0@).len() % 65536) as u16) + message_bytes(res.0@),
{
    let response = process_query(query, zones);
    let bytes = response.serialize();
    let len = (bytes.len() % 65536) as u16;
    let mut framed: Vec<u8> = Vec::new();
    framed.push((len / 256) as u8);
    framed.push((len % 256) as u8);
    let mut i: usize = 0;
    while i < bytes.len()
        invariant
            i <= bytes@.len(),
            framed@ == be16(len) + bytes@.subrange(0, i as int),
        decreases bytes.len() - i,
    {
        framed.push(bytes[i]);
        i = i + 1;
        assert(framed@ =~= be16(len) + bytes@.subrange(0, i as int));
    }
    assert(bytes@.subrange(0, bytes@.len() as int) =~= bytes@);
    (response, framed)
}


// ---------------------------------------------------------------------------
// Rate limiter
// ---------------------------------------------------------------------------

/// A client address: its family (4 or 6) and its bits.
#[derive(Debug, Clone, Copy, PartialEq, Eq, Structural)]
pub struct ClientKey {
    pub family: u8,
    pub addr: u128,
}

/// The requests counted for one client in its current window.
#[derive(Debug, Clone, Copy, PartialEq, Eq, Structural)]
pub struct RateEntry {
    pub client: ClientKey,
    pub count: u32,
    /// Start of the window, in nanoseconds of the server's clock.
    pub window_start: u64,
}

/// The entry after one more request at `now`, and whether the request is
/// allowed: a request at least a window after the window start opens a new
/// window with one request; otherwise the count grows (saturating) and the
/// request is allowed while the count stays within the limit.
pub open spec fn rate_step(e: RateEntry, now: u64) -> (RateEntry, bool) {
    let elapsed: int = if now >= e.window_start {
        now - e.window_start
    } else {
        0
    };
    if elapsed >= RATE_WINDOW_NANOS {
        (RateEntry { client: e.client, count: 1, window_start: now }, true)
    } else {
        let count: u32 = if e.count == u32::MAX {
            u32::MAX
        } else {
            (e.count + 1) as u32
        };
        (RateEntry { count, ..e }, count <= RATE_LIMIT_QPS)
    }
}

/// The number of requests allowed when requests arrive at the given times,
/// starting from the entry `e`.
pub open spec fn allowed_count(e: RateEntry, times: Seq<u64>) -> nat
    decreases times.len(),
{
    if times.len() == 0 {
        0
    } else {
        let (next, ok) = rate_step(e, times[0]);
        (if ok {
            1nat
        } else {
            0nat
        }) + allowed_count(next, times.drop_first())
    }
}

/// Within one window, a client gets at most `RATE_LIMIT_QPS` requests allowed,
/// counting those already counted in its entry: when every request arrives
/// before the window of `e` ends, the allowed ones and the count of `e` (up to
/// the limit) add up to at most the limit.
pub proof fn lemma_rate_window(e: RateEntry, times: Seq<u64>)
    requires
        forall|i: int|
            0 <= i < times.len() ==> e.window_start <= #[trigger] times[i] && times[i]
                < e.window_start + RATE_WINDOW_NANOS,
    ensures
        allowed_count(e, times) + (if e.count < RATE_LIMIT_QPS {
            e.count as nat
        } else {
            RATE_LIMIT_QPS as nat
        }) <= RATE_LIMIT_QPS,
    decreases times.len(),
{
    if times.len() > 0 {
        let (next, ok) = rate_step(e, times[0]);
        assert(next.window_start == e.window_start);
        let rest = times.drop_first();
        assert forall|i: int| 0 <= i < rest.len() implies next.window_start <= #[trigger] rest[i]
            && rest[i] < next.window_start + RATE_WINDOW_NANOS by {
            assert(rest[i] == times[i + 1]);
        }
        lemma_rate_window(next, rest);
    }
}

/// A request that comes a whole window or more after the client's window
/// started (or the first request of a client) opens a new window at its own
/// time holding exactly that one request, and is allowed.
pub proof fn lemma_new_window_counts_one(es: Seq<RateEntry>, client: ClientKey, now: u64)
    requires
        rate_unique(es),
        forall|i: int|
            0 <= i < es.len() && #[trigger] es[i].client == client ==> es[i].window_start
                + RATE_WINDOW_NANOS <= now,
    ensures
        ({
            let (after, allowed) = rate_check(es, client, now);
            &&& allowed
            &&& after.len() >= 1
            &&& exists|j: int|
                0 <= j < after.len() && #[trigger] after[j] == (RateEntry {
                    client,
                    count: 1,
                    window_start: now,
                })
        }),
{
    let (after, allowed) = rate_check(es, client, now);
    match rate_index(es, client) {
        Some(i) => {
            assert(0 <= i < es.len() && es[i].client == client);
            assert(after[i] == (RateEntry { client, count: 1, window_start: now }));
        },
        None => {
            assert(after[es.len() as int] == (RateEntry { client, count: 1, window_start: now }));
        },
    }
}

/// The number of requests of `client` allowed when it sends one at each of
/// `times` in turn, each counted by `rate_check` on the entries the previous
/// one left.
pub open spec fn checks_allowed(es: Seq<RateEntry>, client: ClientKey, times: Seq<u64>) -> nat
    decreases times.len(),
{
    if times.len() == 0 {
        0
    } else {
        let (next, ok) = rate_check(es, client, times[0]);
        (if ok {
            1nat
        } else {
            0nat
        }) + checks_allowed(next, client, times.drop_first())
    }
}

/// Once a client has an entry, successive checks count its requests from
/// that entry, one step at a time.
proof fn lemma_checks_follow_entry(es: Seq<RateEntry>, client: ClientKey, times: Seq<u64>, i: int)
    requires
        rate_unique(es),
        0 <= i < es.len(),
        es[i].client == client,
    ensures
        checks_allowed(es, client, times) == allowed_count(es[i], times),
    decreases times.len(),
{
    if times.len() > 0 {
        let k = choose|k: int| 0 <= k < es.len() && es[k].client == client;
        assert(es[k].client == es[i].client);
        assert(rate_index(es, client) == Some(i));
        let (e2, ok) = rate_step(es[i], times[0]);
        let es2 = es.update(i, e2);
        assert(rate_unique(es2)) by {
            assert forall|a: int, b: int|
                0 <= a < es2.len() && 0 <= b < es2.len() && #[trigger] es2[a].client
                    == #[trigger] es2[b].client implies a == b by {
                assert(es2[a].client == es[a].client);
                assert(es2[b].client == es[b].client);
            }
        }
        lemma_checks_follow_entry(es2, client, times.drop_first(), i);
    }
}

/// Request times in order, earliest first.
pub open spec fn times_sorted(times: Seq<u64>) -> bool {
    forall|i: int, j: int| 0 <= i <= j < times.len() ==> #[trigger] times[i] <= #[trigger] times[j]
}

/// No window of one second holds more than `RATE_LIMIT_QPS` of the requests:
/// any request and the one `RATE_LIMIT_QPS` places after it are at least a
/// window apart.
pub open spec fn times_within_limit(times: Seq<u64>) -> bool {
    forall|i: int, j: int|
        0 <= i && j == i + RATE_LIMIT_QPS && j < times.len() ==> #[trigger] times[j]
            >= #[trigger] times[i] + RATE_WINDOW_NANOS
}

proof fn lemma_all_allowed_from(e: RateEntry, prev: Seq<u64>, times: Seq<u64>)
    requires
        times_sorted(prev + times),
        times_within_limit(prev + times),
        e.count <= prev.len(),
        e.count <= RATE_LIMIT_QPS,
        forall|j: int| prev.len() - e.count <= j < prev.len() ==> #[trigger] prev[j] >= e.window_start,
        forall|j: int| 0 <= j < times.len() ==> #[trigger] times[j] >= e.window_start,
    ensures
        allowed_count(e, times) == times.len(),
    decreases times.len(),
{
    if times.len() > 0 {
        let all = prev + times;
        let k = prev.len() as int;
        let now = times[0];
        assert(all[k] == now);
        let (next, ok) = rate_step(e, now);
        let prev2 = prev.push(now);
        let rest = times.drop_first();
        assert(prev2 + rest =~= all);
        if now - e.window_start < RATE_WINDOW_NANOS {
            if e.count >= RATE_LIMIT_QPS {
                let i = k - RATE_LIMIT_QPS;
                assert(all[i] == prev[i]);
                assert(prev[i] >= e.window_start);
                assert(all[k] >= all[i] + RATE_WINDOW_NANOS);
                assert(false);
            }
            assert(ok);
            assert forall|j: int| prev2.len() - next.count <= j < prev2.len() implies #[trigger] prev2[j]
                >= next.window_start by {
                if j < k {
                    assert(prev2[j] == prev[j]);
                }
            }
        } else {
            assert(ok && next.count == 1 && next.window_start == now);
        }
        assert forall|j: int| 0 <= j < rest.len() implies #[trigger] rest[j] >= next.window_start by {
            assert(rest[j] == all[k + 1 + j]);
            assert(all[k] <= all[k + 1 + j]);
        }
        lemma_all_allowed_from(next, prev2, rest);
    }
}

/// A client whose requests never put more than `RATE_LIMIT_QPS` in one
/// second gets every request allowed, starting from a fresh entry (no request
/// counted, window starting no later than its first request).
pub proof fn lemma_within_limit_all_allowed(e: RateEntry, times: Seq<u64>)
    requires
        e.count == 0,
        times_sorted(times),
        times_within_limit(times),
        forall|j: int| 0 <= j < times.len() ==> #[trigger] times[j] >= e.window_start,
    ensures
        allowed_count(e, times) == times.len(),
{
    assert(Seq::<u64>::empty() + times =~= times);
    lemma_all_allowed_from(e, Seq::<u64>::empty(), times);
}

/// A client the limiter has no entry for, whose requests never put more than
/// `RATE_LIMIT_QPS` in one second, gets every request allowed by successive
/// checks.
pub proof fn lemma_checks_within_limit_all_allowed(
    es: Seq<RateEntry>,
    client: ClientKey,
    times: Seq<u64>,
)
    requires
        rate_unique(es),
        forall|i: int| 0 <= i < es.len() ==> #[trigger] es[i].client != client,
        times_sorted(times),
        times_within_limit(times),
    ensures
        checks_allowed(es, client, times) == times.len(),
{
    if times.len() > 0 {
        let fresh = RateEntry { client, count: 0, window_start: times[0] };
        assert(rate_index(es, client) is None);
        let (e, ok) = rate_step(fresh, times[0]);
        let es2 = es.push(e);
        assert(rate_unique(es2)) by {
            assert forall|a: int, b: int|
                0 <= a < es2.len() && 0 <= b < es2.len() && #[trigger] es2[a].client
                    == #[trigger] es2[b].client implies a == b by {
                if a < es.len() {
                    assert(es2[a] == es[a]);
                }
                if b < es.len() {
                    assert(es2[b] == es[b]);
                }
            }
        }
        lemma_checks_follow_entry(es2, client, times.drop_first(), es.len() as int);
        assert forall|j: int| 0 <= j < times.len() implies #[trigger] times[j] >= fresh.window_start by {
            assert(times[0] <= times[j]);
        }
        lemma_within_limit_all_allowed(fresh, times);
        assert(allowed_count(fresh, times) == 1 + allowed_count(e, times.drop_first()));
    }
}

/// A client the limiter has no entry for gets at most `RATE_LIMIT_QPS` of the
/// requests it sends within one second of its first allowed.
pub proof fn lemma_checks_window_limit(es: Seq<RateEntry>, client: ClientKey, times: Seq<u64>)
    requires
        rate_unique(es),
        forall|i: int| 0 <= i < es.len() ==> #[trigger] es[i].client != client,
        times.len() > 0,
        forall|j: int|
            0 <= j < times.len() ==> times[0] <= #[trigger] times[j] && times[j] < times[0]
                + RATE_WINDOW_NANOS,
    ensures
        checks_allowed(es, client, times) <= RATE_LIMIT_QPS,
{
    let fresh = RateEntry { client, count: 0, window_start: times[0] };
    assert(rate_index(es, client) is None);
    let (e, ok) = rate_step(fresh, times[0]);
    let es2 = es.push(e);
    assert(rate_unique(es2)) by {
        assert forall|a: int, b: int|
            0 <= a < es2.len() && 0 <= b < es2.len() && #[trigger] es2[a].client
                == #[trigger] es2[b].client implies a == b by {
            if a < es.len() {
                assert(es2[a] == es[a]);
            }
            if b < es.len() {
                assert(es2[b] == es[b]);
            }
        }
    }
    let rest = times.drop_first();
    lemma_checks_follow_entry(es2, client, rest, es.len() as int);
    assert forall|j: int| 0 <= j < rest.len() implies e.window_start <= #[trigger] rest[j] && rest[j]
        < e.window_start + RATE_WINDOW_NANOS by {
        assert(rest[j] == times[j + 1]);
    }
    lemma_rate_window(e, rest);
}

/// An entry is kept by the cleanup while it is not older than ten seconds:
/// its window started at most ten seconds before `now`.
pub open spec fn rate_keep(e: RateEntry, now: u64) -> bool {
    now < RATE_FORGET_NANOS || e.window_start >= now - RATE_FORGET_NANOS
}

/// The entries a cleanup at `now` keeps, in order.
pub open spec fn rate_cleaned(es: Seq<RateEntry>, now: u64) -> Seq<RateEntry> {
    es.filter(|e: RateEntry| rate_keep(e, now))
}

/// The cleanup at `now` keeps, in order, exactly the entries whose window
/// started no more than ten seconds (10^10 ns) before `now`, and drops the
/// older ones.
pub proof fn lemma_cleanup_keeps_recent(es: Seq<RateEntry>, now: u64, i: int)
    requires
        0 <= i < es.len(),
    ensures
        es[i].window_start + 10_000_000_000 >= now ==> rate_cleaned(es, now).contains(es[i]),
        es[i].window_start + 10_000_000_000 < now ==> !rate_cleaned(es, now).contains(es[i]),
        rate_cleaned(es, now).len() <= es.len(),
{
    let f = |e: RateEntry| rate_keep(e, now);
    es.lemma_filter_len(f);
    if es[i].window_start + 10_000_000_000 >= now {
        es.lemma_filter_contains(f, i);
    } else if rate_cleaned(es, now).contains(es[i]) {
        let j = choose|j: int| 0 <= j < es.filter(f).len() && es.filter(f)[j] == es[i];
        es.lemma_filter_pred(f, j);
    }
}

/// The limits the server applies: 100 requests per client in each window of
/// one second, entries forgotten after ten seconds, UDP replies of 512 bytes
/// without EDNS0 and at most 4096 bytes with it, TCP messages up to 65535
/// bytes.
pub proof fn lemma_server_limits()
    ensures
        RATE_LIMIT_QPS == 100,
        RATE_WINDOW_NANOS == 1_000_000_000,
        RATE_FORGET_NANOS == 10_000_000_000,
        RATE_CLEANUP_PERIOD_SECS == 10,
        DEFAULT_UDP_LIMIT == 512,
        EDNS_UDP_LIMIT == 4096,
        TCP_MAX_MSG == 65535,
{
}

/// Position of the client's entry, if any.
pub open spec fn rate_index(es: Seq<RateEntry>, client: ClientKey) -> Option<int> {
    if exists|i: int| 0 <= i < es.len() && es[i].client == client {
        Some(choose|i: int| 0 <= i < es.len() && es[i].client == client)
    } else {
        None
    }
}

/// No two entries belong to the same client.
pub open spec fn rate_unique(es: Seq<RateEntry>) -> bool {
    forall|i: int, j: int|
        0 <= i < es.len() && 0 <= j < es.len() && #[trigger] es[i].client == #[trigger] es[j].client
            ==> i == j
}

// ---------------------------------------------------------------------------
// The clock
// ---------------------------------------------------------------------------

#[verifier::external_type_specification]
#[verifier::external_body]
pub struct ExInstant(std::time::Instant);

/// `Instant::now`: a reading of the monotonic clock. Nothing is stated of it.
#[verifier::external_body]
fn instant_now() -> (res: std::time::Instant) {
    std::time::Instant::now()
}

/// `Instant::elapsed`: the time passed since `start`. Nothing is stated of it.
#[verifier::external_body]
fn instant_elapsed(start: &std::time::Instant) -> (res: core::time::Duration) {
    start.elapsed()
}

/// `Duration::as_nanos`: the whole nanoseconds of `d`. Nothing is stated of it,
/// `Duration` being opaque here.
#[verifier::external_body]
fn duration_as_nanos(d: &core::time::Duration) -> (res: u128) {
    d.as_nanos()
}

/// The outcome of one request of `client` at `now`: the entries afterwards and
/// whether the request is allowed. The client's entry is stepped; a client
/// seen for the first time gets a new entry with an empty window at `now`.
pub open spec fn rate_check(es: Seq<RateEntry>, client: ClientKey, now: u64) -> (
    Seq<RateEntry>,
    bool,
) {
    match rate_index(es, client) {
        Some(i) => {
            let (e, allowed) = rate_step(es[i], now);
            (es.update(i, e), allowed)
        },
        None => {
            let (e, allowed) = rate_step(RateEntry { client, count: 0, window_start: now }, now);
            (es.push(e), allowed)
        },
    }
}

/// Per-client request counting.
pub struct RateLimiter {
    entries: Vec<RateEntry>,
    /// When the limiter was made; its clock counts from there.
    started: std::time::Instant,
}

impl RateLimiter {
    /// The entries, one per client.
    pub closed spec fn entries(&self) -> Seq<RateEntry> {
        self.entries@
    }

    #[verifier::type_invariant]
    spec fn wf(&self) -> bool {
        rate_unique(self.entries@)
    }

    pub fn new() -> (res: RateLimiter)
        ensures
            res.entries() == Seq::<RateEntry>::empty(),
    {
        RateLimiter { entries: Vec::new(), started: instant_now() }
    }

    /// Nanoseconds since the limiter was made, by the monotonic clock (at most
    /// `u64::MAX`).
    pub fn clock(&self) -> (res: u64) {
        let d = instant_elapsed(&self.started);
        let n = duration_as_nanos(&d);
        if n > u64::MAX as u128 {
            u64::MAX
        } else {
            n as u64
        }
    }

    /// Counts a request of `client` now and returns true if it is allowed: the
    /// outcome of `check` at some reading of the clock.
    pub fn check_now(&mut self, client: ClientKey) -> (res: bool)
        ensures
            exists|now: u64|
                (final(self).entries(), res) == #[trigger] rate_check(old(self).entries(), client, now),
    {
        let now = self.clock();
        let res = self.check(client, now);
        assert((self.entries(), res) == rate_check(old(self).entries(), client, now));
        res
    }

    /// Removes the entries older than ten seconds, by the clock: the outcome of
    /// `cleanup` at some reading of the clock.
    pub fn cleanup_now(&mut self)
        ensures
            exists|now: u64| final(self).entries() == #[trigger] rate_cleaned(old(self).entries(), now),
    {
        let now = self.clock();
        self.cleanup(now);
    }

    /// Counts a request of `client` at time `now` (nanoseconds) and returns
    /// true if the request is allowed. A client seen for the first time starts
    /// with an empty window at `now`.
    #[verifier::spinoff_prover]
    pub fn check(&mut self, client: ClientKey, now: u64) -> (res: bool)
        ensures
            (final(self).entries(), res) == rate_check(old(self).entries(), client, now),
    {
        proof {
            use_type_invariant(&*self);
        }
        let mut entries: Vec<RateEntry> = Vec::new();
        std::mem::swap(&mut self.entries, &mut entries);
        let mut i: usize = 0;
        while i < entries.len()
            invariant
                i <= entries@.len(),
                entries@ == old(self).entries(),
                rate_unique(entries@),
                forall|j: int| 0 <= j < i ==> (#[trigger] entries@[j]).client != client,
            decreases entries.len() - i,
        {
            if entries[i].client == client {
                let e = entries[i];
                let (next, allowed) = Self::step(e, now);
                proof {
                    let k = choose|k: int| 0 <= k < entries@.len() && entries@[k].client == client;
                    assert(entries@[k].client == entries@[i as int].client);
                }
                let ghost before = entries@;
                entries.set(i, next);
                proof {
                    assert forall|a: int, b: int|
                        0 <= a < entries@.len() && 0 <= b < entries@.len()
                            && #[trigger] entries@[a].client == #[trigger] entries@[b].client implies a == b by {
                        assert(entries@[a].client == before[a].client);
                        assert(entries@[b].client == before[b].client);
                    }
                }
                self.entries = entries;
                return allowed;
            }
            i = i + 1;
        }
        let (next, allowed) = Self::step(RateEntry { client, count: 0, window_start: now }, now);
        let ghost before = entries@;
        entries.push(next);
        proof {
            assert forall|a: int, b: int|
                0 <= a < entries@.len() && 0 <= b < entries@.len()
                    && #[trigger] entries@[a].client == #[trigger] entries@[b].client implies a == b by {
                if a < before.len() {
                    assert(entries@[a] == before[a]);
                }
                if b < before.len() {
                    assert(entries@[b] == before[b]);
                }
            }
        }
        self.entries = entries;
        allowed
    }

    /// One request at `now` counted in the entry `e`.
    fn step(e: RateEntry, now: u64) -> (res: (RateEntry, bool))
        ensures
            res == rate_step(e, now),
    {
        let elapsed = if now >= e.window_start {
            now - e.window_start
        } else {
            0
        };
        if elapsed >= RATE_WINDOW_NANOS {
            (RateEntry { client: e.client, count: 1, window_start: now }, true)
        } else {
            let count = e.count.saturating_add(1);
            (RateEntry { count, ..e }, count <= RATE_LIMIT_QPS)
        }
    }

    /// Remove entries older than 10 seconds.
    #[verifier::spinoff_prover]
    pub fn cleanup(&mut self, now: u64)
        ensures
            final(self).entries() == rate_cleaned(old(self).entries(), now),
    {
        proof {
            use_type_invariant(&*self);
        }
        let ghost orig = self.entries@;
        let mut kept: Vec<RateEntry> = Vec::new();
        let mut i: usize = 0;
        while i < self.entries.len()
            invariant
                i <= self.entries@.len(),
                self.entries@ == orig,
                orig == old(self).entries(),
                rate_unique(orig),
                kept@ == orig.subrange(0, i as int).filter(|e: RateEntry| rate_keep(e, now)),
            decreases self.entries.len() - i,
        {
            let e = self.entries[i];
            let keep = now < RATE_FORGET_NANOS || e.window_start >= now - RATE_FORGET_NANOS;
            if keep {
                kept.push(e);
            }
            proof {
                let f = |e: RateEntry| rate_keep(e, now);
                assert(orig.subrange(0, i + 1 as int).drop_last() =~= orig.subrange(0, i as int));
                reveal_with_fuel(Seq::filter, 1);
            }
            i = i + 1;
        }
        assert(orig.subrange(0, orig.len() as int) =~= orig);
        proof {
            // entries of the result come from the unfiltered ones, whose clients are distinct
            assert forall|a: int, b: int|
                0 <= a < kept@.len() && 0 <= b < kept@.len() && #[trigger] kept@[a].client
                    == #[trigger] kept@[b].client implies a == b by {
                lemma_filter_unique(orig, now, a, b);
            }
        }
        self.entries = kept;
    }
}

/// Distinct positions of the filtered entries hold distinct clients.
proof fn lemma_filter_unique(es: Seq<RateEntry>, now: u64, a: int, b: int)
    requires
        rate_unique(es),
        0 <= a < es.filter(|e: RateEntry| rate_keep(e, now)).len(),
        0 <= b < es.filter(|e: RateEntry| rate_keep(e, now)).len(),
        es.filter(|e: RateEntry| rate_keep(e, now))[a].client == es.filter(
            |e: RateEntry| rate_keep(e, now),
        )[b].client,
    ensures
        a == b,
    decreases es.len(),
{
    let f = |e: RateEntry| rate_keep(e, now);
    reveal_with_fuel(Seq::filter, 1);
    let init = es.drop_last();
    let fi = init.filter(f);
    assert(rate_unique(init)) by {
        assert forall|i: int, j: int|
            0 <= i < init.len() && 0 <= j < init.len() && #[trigger] init[i].client
                == #[trigger] init[j].client implies i == j by {
            assert(init[i] == es[i] && init[j] == es[j]);
        }
    }
    if rate_keep(es.last(), now) {
        let fl = es.filter(f);
        assert(fl == fi.push(es.last()));
        if a < fi.len() && b < fi.len() {
            lemma_filter_unique(init, now, a, b);
        } else if a < fi.len() || b < fi.len() {
            let k = if a < fi.len() { a } else { b };
            lemma_filter_member(init, now, k);
            let m = choose|m: int| 0 <= m < init.len() && init[m] == fi[k];
            assert(es[m].client == es[es.len() - 1].client);
        }
    } else {
        lemma_filter_unique(init, now, a, b);
    }
}

/// Every filtered entry is an entry of the unfiltered sequence.
proof fn lemma_filter_member(es: Seq<RateEntry>, now: u64, k: int)
    requires
        0 <= k < es.filter(|e: RateEntry| rate_keep(e, now)).len(),
    ensures
        exists|m: int| 0 <= m < es.len() && es[m] == es.filter(|e: RateEntry| rate_keep(e, now))[k],
    decreases es.len(),
{
    let f = |e: RateEntry| rate_keep(e, now);
    reveal_with_fuel(Seq::filter, 1);
    let init = es.drop_last();
    let fi = init.filter(f);
    if rate_keep(es.last(), now) && k == fi.len() {
        assert(es[es.len() - 1] == es.filter(f)[k]);
    } else {
        lemma_filter_member(init, now, k);
        let m = choose|m: int| 0 <= m < init.len() && init[m] == fi[k];
        assert(es[m] == init[m]);
    }
}


// ---------------------------------------------------------------------------
// From received bytes to the reply
// ---------------------------------------------------------------------------

/// Handles the bytes of a UDP query: when they decode, the query, the
/// response and the bytes to send back; otherwise the decoding error, and
/// nothing is to be sent.
pub fn udp_answer(data: &[u8], zones: &ZoneSet) -> (res: Result<(Message, Message, Vec<u8>), DnsError>)
    ensures
        match parse_message_spec(data@) {
            Ok(q) => res matches Ok((query, response, bytes)) && query@ == q && (
            response@, bytes@) == udp_reply_spec(q, zones.zones()),
            Err(e) => res == Err::<(Message, Message, Vec<u8>), DnsError>(e),
        },
{
    let query = match Message::parse(data) {
        Ok(q) => q,
        Err(e) => return Err(e),
    };
    let (response, bytes) = udp_reply(&query, zones);
    Ok((query, response, bytes))
}

/// Handles the bytes of a TCP query (without their length prefix): when they
/// decode, the query, the response and the framed bytes to send back;
/// otherwise the decoding error, and nothing is to be sent.
pub fn tcp_answer(data: &[u8], zones: &ZoneSet) -> (res: Result<(Message, Message, Vec<u8>), DnsError>)
    ensures
        match parse_message_spec(data@) {
            Ok(q) => res matches Ok((query, response, bytes)) && query@ == q && response@
                == answer_spec(q, zones.zones()) && bytes@ == be16(
                (message_bytes(response@).len() % 65536) as u16,
            ) + message_bytes(response@),
            Err(e) => res == Err::<(Message, Message, Vec<u8>), DnsError>(e),
        },
{
    let query = match Message::parse(data) {
        Ok(q) => q,
        Err(e) => return Err(e),
    };
    let (response, bytes) = tcp_reply(&query, zones);
    Ok((query, response, bytes))
}

} // verus!
