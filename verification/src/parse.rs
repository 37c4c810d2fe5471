//! Decoding DNS messages from wire format.
use vstd::prelude::*;
use vstd::utf8::*;
use crate::dns::{
    DnsError, Header, Question, RData, Record, Message, SpecQuestion, SpecRData, SpecRecord,
    SpecMessage, questions_view, records_view, TYPE_A, TYPE_AAAA, TYPE_CNAME, TYPE_NS, TYPE_MX,
    TYPE_TXT, TYPE_SOA, TYPE_SRV, TYPE_CAA, TYPE_OPT,
};
use crate::text::{
    ascii_lower_chars, str_from_utf8, str_to_ascii_lowercase, no_ascii_upper, is_ascii_upper,
    lemma_ascii_lower_no_upper,
};

verus! {

// ---------------------------------------------------------------------------
// Specification of the decoder
// ---------------------------------------------------------------------------

/// Big-endian 16-bit integer stored at `p`.
pub open spec fn u16_at(data: Seq<u8>, p: nat) -> u16 {
    (data[p as int] as int * 256 + data[p + 1 as int] as int) as u16
}

/// Big-endian 32-bit integer stored at `p`.
pub open spec fn u32_at(data: Seq<u8>, p: nat) -> u32 {
    let q = p as int;
    (data[q] as int * 16777216 + data[q + 1] as int * 65536 + data[q + 2] as int * 256 + data[q
        + 3] as int) as u32
}

/// The text of one label as stored in a decoded name: its UTF-8 decoding,
/// lower-cased for ASCII letters.
pub open spec fn label_text(bytes: Seq<u8>) -> Seq<char> {
    ascii_lower_chars(decode_utf8(bytes))
}

/// Each label followed by a dot.
pub open spec fn dotted(labels: Seq<Seq<char>>) -> Seq<char>
    decreases labels.len(),
{
    if labels.len() == 0 {
        seq![]
    } else {
        dotted(labels.drop_last()) + labels.last() + seq!['.']
    }
}

/// The fully qualified name made of some labels: the labels joined by dots,
/// followed by a final dot (so the root name is ".").
pub open spec fn name_text(labels: Seq<Seq<char>>) -> Seq<char> {
    if labels.len() == 0 {
        seq!['.']
    } else {
        dotted(labels)
    }
}

/// Prepends already decoded items to the outcome of decoding the rest.
pub open spec fn prepend<T>(done: Seq<T>, rest: Result<(Seq<T>, nat), DnsError>) -> Result<
    (Seq<T>, nat),
    DnsError,
> {
    match rest {
        Ok((items, end)) => Ok((done + items, end)),
        Err(e) => Err(e),
    }
}

/// Walks the labels of a (possibly compressed) name starting at `pos`, having
/// already followed `jumps` compression pointers. `end` is the position just
/// past the first pointer followed, if any. Yields the label texts and the
/// position just after the name in the byte stream itself.
pub open spec fn walk_name(data: Seq<u8>, pos: nat, jumps: nat, end: Option<nat>) -> Result<
    (Seq<Seq<char>>, nat),
    DnsError,
>
    decreases 257 - jumps, data.len() - pos,
{
    if pos >= data.len() {
        Err(DnsError::TooShort)
    } else {
        let b = data[pos as int];
        if b == 0 {
            Ok(
                (
                    seq![],
                    match end {
                        Some(e) => e,
                        None => pos + 1,
                    },
                ),
            )
        } else if b >= 0xC0 {
            if pos + 1 >= data.len() {
                Err(DnsError::TooShort)
            } else if jumps + 1 > 256 {
                Err(DnsError::CompressionLoop)
            } else {
                let target = ((b - 0xC0) * 256 + data[pos + 1 as int]) as nat;
                let end2 = match end {
                    Some(e) => Some(e),
                    None => Some(pos + 2),
                };
                walk_name(data, target, jumps + 1, end2)
            }
        } else if b > 63 {
            Err(DnsError::InvalidName)
        } else if pos + 1 + b > data.len() {
            Err(DnsError::TooShort)
        } else {
            let label = data.subrange(pos + 1 as int, pos + 1 + b as int);
            if !valid_utf8(label) {
                Err(DnsError::InvalidName)
            } else {
                prepend(seq![label_text(label)], walk_name(data, pos + 1 + b as nat, jumps, end))
            }
        }
    }
}

/// Decoding of the name that starts at `start`: its text and the position just
/// after it.
pub open spec fn parse_name_spec(data: Seq<u8>, start: nat) -> Result<(Seq<char>, nat), DnsError> {
    match walk_name(data, start, 0, None) {
        Err(e) => Err(e),
        Ok((labels, end)) => {
            let name = name_text(labels);
            if encode_utf8(name).len() > 255 {
                Err(DnsError::InvalidName)
            } else {
                Ok((name, end))
            }
        },
    }
}

/// The header stored in the first twelve bytes at `p`.
pub open spec fn header_at(data: Seq<u8>, p: nat) -> Header {
    let flags = u16_at(data, p + 2);
    Header {
        id: u16_at(data, p),
        qr: (flags / 32768) % 2 == 1,
        opcode: ((flags / 2048) % 16) as u8,
        aa: (flags / 1024) % 2 == 1,
        tc: (flags / 512) % 2 == 1,
        rd: (flags / 256) % 2 == 1,
        ra: (flags / 128) % 2 == 1,
        rcode: (flags % 16) as u8,
        qdcount: u16_at(data, p + 4),
        ancount: u16_at(data, p + 6),
        nscount: u16_at(data, p + 8),
        arcount: u16_at(data, p + 10),
    }
}

proof fn lemma_byte_pair(hi: u8, lo: u8)
    ensures
        (hi as int * 256 + lo as int) as u16 as int == hi as int * 256 + lo as int,
        (hi as int * 256 + lo as int) / 256 == hi as int,
        (hi as int * 256 + lo as int) % 256 == lo as int,
{
    assert((hi as int * 256 + lo as int) / 256 == hi as int && (hi as int * 256 + lo as int) % 256
        == lo as int) by (nonlinear_arith)
        requires
            0 <= lo < 256,
    ;
}

/// The header read at `p`: the ID from its first two bytes; QR, opcode, AA,
/// TC and RD from the third byte, high bit first; RA and the response code
/// from the fourth; then the four section counts, each big-endian.
pub proof fn lemma_header_decode_layout(data: Seq<u8>, p: nat)
    requires
        p + 12 <= data.len(),
    ensures
        ({
            let h = header_at(data, p);
            let b2 = data[p as int + 2] as int;
            let b3 = data[p as int + 3] as int;
            &&& h.id == data[p as int] as int * 256 + data[p as int + 1] as int
            &&& h.qr == (b2 >= 128)
            &&& h.opcode == (b2 / 8) % 16
            &&& h.aa == ((b2 / 4) % 2 == 1)
            &&& h.tc == ((b2 / 2) % 2 == 1)
            &&& h.rd == (b2 % 2 == 1)
            &&& h.ra == (b3 >= 128)
            &&& h.rcode == b3 % 16
            &&& h.qdcount == data[p as int + 4] as int * 256 + data[p as int + 5] as int
            &&& h.ancount == data[p as int + 6] as int * 256 + data[p as int + 7] as int
            &&& h.nscount == data[p as int + 8] as int * 256 + data[p as int + 9] as int
            &&& h.arcount == data[p as int + 10] as int * 256 + data[p as int + 11] as int
        }),
{
    lemma_byte_pair(data[p as int], data[p as int + 1]);
    lemma_byte_pair(data[p as int + 2], data[p as int + 3]);
    lemma_byte_pair(data[p as int + 4], data[p as int + 5]);
    lemma_byte_pair(data[p as int + 6], data[p as int + 7]);
    lemma_byte_pair(data[p as int + 8], data[p as int + 9]);
    lemma_byte_pair(data[p as int + 10], data[p as int + 11]);
    let b2 = data[p as int + 2] as int;
    let b3 = data[p as int + 3] as int;
    let f = b2 * 256 + b3;
    assert(u16_at(data, p + 2) as int == f);
    assert(f / 32768 % 2 == (if b2 >= 128 { 1int } else { 0 }) && (f / 2048) % 16 == (b2 / 8) % 16
        && (f / 1024) % 2 == (b2 / 4) % 2 && (f / 512) % 2 == (b2 / 2) % 2 && (f / 256) % 2 == b2
        % 2 && (f / 128) % 2 == (if b3 >= 128 { 1int } else { 0 }) && f % 16 == b3 % 16)
        by (nonlinear_arith)
        requires
            0 <= b2 < 256,
            0 <= b3 < 256,
            f == b2 * 256 + b3,
    ;
}

/// A resource record read at `p`: after its owner name come the type, the
/// class, the TTL and the data length as big-endian integers of two, two,
/// four and two bytes.
pub proof fn lemma_record_decode_layout(data: Seq<u8>, p: nat)
    ensures
        parse_record_spec(data, p) matches Ok((r, _)) ==> (parse_name_spec(data, p) matches Ok(
            (n, p1),
        ) && {
            &&& p1 + 10 <= data.len()
            &&& r.name == n
            &&& r.rtype == data[p1 as int] as int * 256 + data[p1 as int + 1] as int
            &&& r.class == data[p1 as int + 2] as int * 256 + data[p1 as int + 3] as int
            &&& r.ttl == data[p1 as int + 4] as int * 16777216 + data[p1 as int + 5] as int * 65536 + data[p1 as int + 6] as int * 256 + data[p1 as int + 7] as int
        }),
{
    if let Ok((r, _)) = parse_record_spec(data, p) {
        let (n, p1) = parse_name_spec(data, p)->Ok_0;
        lemma_byte_pair(data[p1 as int], data[p1 as int + 1]);
        lemma_byte_pair(data[p1 as int + 2], data[p1 as int + 3]);
        let t = data[p1 as int + 4] as int * 16777216 + data[p1 as int + 5] as int * 65536 + data[p1 as int + 6] as int
            * 256 + data[p1 as int + 7] as int;
        assert(0 <= t < 0x1_0000_0000) by (nonlinear_arith)
            requires
                t == data[p1 as int + 4] as int * 16777216 + data[p1 as int + 5] as int * 65536 + data[p1 as int + 6]
                    as int * 256 + data[p1 as int + 7] as int,
                0 <= data[p1 as int + 4] < 256,
                0 <= data[p1 as int + 5] < 256,
                0 <= data[p1 as int + 6] < 256,
                0 <= data[p1 as int + 7] < 256,
        ;
    }
}

/// SRV, MX and SOA data read at `p`: SRV priority, weight and port are the
/// big-endian pairs at offsets 0, 2 and 4, before the target; the MX
/// preference is the pair at offset 0, before the exchange; the SOA serial,
/// refresh, retry, expire and minimum are the five big-endian four-byte
/// integers, in that order, right after the two names.
pub proof fn lemma_rdata_decode_layout(data: Seq<u8>, p: nat, class: u16, rdlength: nat)
    ensures
        parse_rdata_spec(data, p, TYPE_SRV, class, rdlength) matches Ok((rd, _)) ==> (rd matches SpecRData::SRV {
            priority,
            weight,
            port,
            target,
        } && {
            &&& p + 6 <= data.len()
            &&& priority == data[p as int] as int * 256 + data[p as int + 1] as int
            &&& weight == data[p as int + 2] as int * 256 + data[p as int + 3] as int
            &&& port == data[p as int + 4] as int * 256 + data[p as int + 5] as int
            &&& parse_name_spec(data, p + 6) matches Ok((n, _)) && n == target
        }),
        parse_rdata_spec(data, p, TYPE_MX, class, rdlength) matches Ok((rd, _)) ==> (rd matches SpecRData::MX {
            preference,
            exchange,
        } && {
            &&& p + 2 <= data.len()
            &&& preference == data[p as int] as int * 256 + data[p as int + 1] as int
            &&& parse_name_spec(data, p + 2) matches Ok((n, _)) && n == exchange
        }),
        parse_rdata_spec(data, p, TYPE_SOA, class, rdlength) matches Ok((rd, _)) ==> (rd matches SpecRData::SOA {
            serial,
            refresh,
            retry,
            expire,
            minimum,
            ..
        } && parse_name_spec(data, p) matches Ok((_, p1)) && parse_name_spec(data, p1) matches Ok(
            (_, p2),
        ) && {
            &&& p2 + 20 <= data.len()
            &&& serial == u32_at(data, p2)
            &&& refresh == u32_at(data, p2 + 4)
            &&& retry == u32_at(data, p2 + 8)
            &&& expire == u32_at(data, p2 + 12)
            &&& minimum == u32_at(data, p2 + 16)
        }),
{
    if p + 6 <= data.len() {
        lemma_byte_pair(data[p as int], data[p as int + 1]);
        lemma_byte_pair(data[p as int + 2], data[p as int + 3]);
        lemma_byte_pair(data[p as int + 4], data[p as int + 5]);
    } else if p + 2 <= data.len() {
        lemma_byte_pair(data[p as int], data[p as int + 1]);
    }
}

/// Decoding of a question at `p`.
pub open spec fn parse_question_spec(data: Seq<u8>, p: nat) -> Result<(SpecQuestion, nat), DnsError> {
    match parse_name_spec(data, p) {
        Err(e) => Err(e),
        Ok((name, p1)) => if p1 + 4 > data.len() {
            Err(DnsError::InvalidRecord)
        } else {
            Ok(
                (
                    SpecQuestion {
                        name,
                        qtype: u16_at(data, p1),
                        qclass: u16_at(data, p1 + 2),
                    },
                    p1 + 4,
                ),
            )
        },
    }
}

/// Decoding of the character strings of TXT data between `pos` and `end`,
/// concatenated.
pub open spec fn txt_spec(data: Seq<u8>, pos: nat, end: nat) -> Result<Seq<char>, DnsError>
    decreases end - pos,
{
    if pos >= end {
        Ok(seq![])
    } else {
        let len = data[pos as int];
        if pos + 1 + len > end {
            Err(DnsError::InvalidRecord)
        } else {
            let chunk = data.subrange(pos + 1 as int, pos + 1 + len as int);
            if !valid_utf8(chunk) {
                Err(DnsError::InvalidRecord)
            } else {
                match txt_spec(data, pos + 1 + len as nat, end) {
                    Ok(rest) => Ok(decode_utf8(chunk) + rest),
                    Err(e) => Err(e),
                }
            }
        }
    }
}

/// Wraps decoded name data into record data.
pub open spec fn name_rdata(
    r: Result<(Seq<char>, nat), DnsError>,
    f: spec_fn(Seq<char>) -> SpecRData,
) -> Result<(SpecRData, nat), DnsError> {
    match r {
        Ok((n, p)) => Ok((f(n), p)),
        Err(e) => Err(e),
    }
}

/// Decoding of record data of type `rtype` occupying `p .. p + rdlength`;
/// yields the data and the position where decoding stopped.
pub open spec fn parse_rdata_spec(
    data: Seq<u8>,
    p: nat,
    rtype: u16,
    class: u16,
    rdlength: nat,
) -> Result<(SpecRData, nat), DnsError> {
    let rend = p + rdlength;
    if rtype == TYPE_A {
        if rdlength != 4 {
            Err(DnsError::InvalidRecord)
        } else {
            Ok((SpecRData::A(data.subrange(p as int, p + 4 as int)), p + 4))
        }
    } else if rtype == TYPE_AAAA {
        if rdlength != 16 {
            Err(DnsError::InvalidRecord)
        } else {
            Ok((SpecRData::AAAA(data.subrange(p as int, p + 16 as int)), p + 16))
        }
    } else if rtype == TYPE_CNAME {
        name_rdata(parse_name_spec(data, p), |n: Seq<char>| SpecRData::CNAME(n))
    } else if rtype == TYPE_NS {
        name_rdata(parse_name_spec(data, p), |n: Seq<char>| SpecRData::NS(n))
    } else if rtype == TYPE_MX {
        if p + 2 > data.len() {
            Err(DnsError::InvalidRecord)
        } else {
            let preference = u16_at(data, p);
            name_rdata(
                parse_name_spec(data, p + 2),
                |n: Seq<char>| SpecRData::MX { preference, exchange: n },
            )
        }
    } else if rtype == TYPE_TXT {
        match txt_spec(data, p, rend) {
            Ok(t) => Ok((SpecRData::TXT(t), rend)),
            Err(e) => Err(e),
        }
    } else if rtype == TYPE_SOA {
        soa_spec(data, p)
    } else if rtype == TYPE_SRV {
        if p + 6 > data.len() {
            Err(DnsError::InvalidRecord)
        } else {
            let priority = u16_at(data, p);
            let weight = u16_at(data, p + 2);
            let port = u16_at(data, p + 4);
            name_rdata(
                parse_name_spec(data, p + 6),
                |n: Seq<char>| SpecRData::SRV { priority, weight, port, target: n },
            )
        }
    } else if rtype == TYPE_CAA {
        caa_spec(data, p, rdlength)
    } else if rtype == TYPE_OPT {
        Ok((SpecRData::OPT { udp_size: class }, rend))
    } else {
        Ok((SpecRData::Unknown(data.subrange(p as int, rend as int)), rend))
    }
}

/// Decoding of a resource record at `p`.
pub open spec fn parse_record_spec(data: Seq<u8>, p: nat) -> Result<(SpecRecord, nat), DnsError> {
    match parse_name_spec(data, p) {
        Err(e) => Err(e),
        Ok((name, p1)) => if p1 + 10 > data.len() {
            Err(DnsError::InvalidRecord)
        } else {
            let rtype = u16_at(data, p1);
            let class = u16_at(data, p1 + 2);
            let ttl = u32_at(data, p1 + 4);
            let rdlength = u16_at(data, p1 + 8) as nat;
            let start = p1 + 10;
            if data.len() - start < rdlength {
                Err(DnsError::InvalidRecord)
            } else {
                let rend = start + rdlength;
                match parse_rdata_spec(data, start, rtype, class, rdlength) {
                    Err(e) => Err(e),
                    Ok((rdata, p2)) => Ok(
                        (
                            SpecRecord { name, rtype, class, ttl, rdata },
                            if p2 < rend {
                                rend
                            } else {
                                p2
                            },
                        ),
                    ),
                }
            }
        },
    }
}

/// Decoding of `n` consecutive questions at `p`.
pub open spec fn parse_questions_spec(data: Seq<u8>, p: nat, n: nat) -> Result<
    (Seq<SpecQuestion>, nat),
    DnsError,
>
    decreases n,
{
    if n == 0 {
        Ok((seq![], p))
    } else {
        match parse_question_spec(data, p) {
            Err(e) => Err(e),
            Ok((q, p1)) => prepend(seq![q], parse_questions_spec(data, p1, (n - 1) as nat)),
        }
    }
}

/// Decoding of `n` consecutive resource records at `p`.
pub open spec fn parse_records_spec(data: Seq<u8>, p: nat, n: nat) -> Result<
    (Seq<SpecRecord>, nat),
    DnsError,
>
    decreases n,
{
    if n == 0 {
        Ok((seq![], p))
    } else {
        match parse_record_spec(data, p) {
            Err(e) => Err(e),
            Ok((r, p1)) => prepend(seq![r], parse_records_spec(data, p1, (n - 1) as nat)),
        }
    }
}

/// Decoding of a whole DNS message.
#[verifier::opaque]
pub open spec fn parse_message_spec(data: Seq<u8>) -> Result<SpecMessage, DnsError> {
    if data.len() < 12 {
        Err(DnsError::TooShort)
    } else {
        let h = header_at(data, 0);
        match parse_questions_spec(data, 12, h.qdcount as nat) {
            Err(e) => Err(e),
            Ok((questions, p1)) => match parse_records_spec(data, p1, h.ancount as nat) {
                Err(e) => Err(e),
                Ok((answers, p2)) => match parse_records_spec(data, p2, h.nscount as nat) {
                    Err(e) => Err(e),
                    Ok((authority, p3)) => match parse_records_spec(data, p3, h.arcount as nat) {
                        Err(e) => Err(e),
                        Ok((additional, _)) => Ok(
                            SpecMessage { header: h, questions, answers, authority, additional },
                        ),
                    },
                },
            },
        }
    }
}

// ---------------------------------------------------------------------------
// Decoded names are in lower case
// ---------------------------------------------------------------------------

proof fn lemma_walk_lower(data: Seq<u8>, pos: nat, jumps: nat, end: Option<nat>)
    ensures
        walk_name(data, pos, jumps, end) matches Ok((labels, _)) ==> forall|k: int|
            0 <= k < labels.len() ==> no_ascii_upper(#[trigger] labels[k]),
    decreases 257 - jumps, data.len() - pos,
{
    if pos < data.len() {
        let b = data[pos as int];
        if b != 0 && b >= 0xC0 {
            if pos + 1 < data.len() && jumps + 1 <= 256 {
                let target = ((b - 0xC0) * 256 + data[pos + 1 as int]) as nat;
                let end2 = match end {
                    Some(e) => Some(e),
                    None => Some(pos + 2),
                };
                lemma_walk_lower(data, target, jumps + 1, end2);
            }
        } else if b != 0 && b <= 63 && pos + 1 + b <= data.len() {
            let label = data.subrange(pos + 1 as int, pos + 1 + b as int);
            lemma_walk_lower(data, pos + 1 + b as nat, jumps, end);
            lemma_ascii_lower_no_upper(decode_utf8(label));
            if let Ok((rest, _)) = walk_name(data, pos + 1 + b as nat, jumps, end) {
                let all = seq![label_text(label)] + rest;
                assert forall|k: int| 0 <= k < all.len() implies no_ascii_upper(#[trigger] all[k]) by {
                    if k > 0 {
                        assert(all[k] == rest[k - 1]);
                    }
                }
            }
        }
    }
}

proof fn lemma_dotted_lower(labels: Seq<Seq<char>>)
    requires
        forall|k: int| 0 <= k < labels.len() ==> no_ascii_upper(#[trigger] labels[k]),
    ensures
        no_ascii_upper(dotted(labels)),
    decreases labels.len(),
{
    if labels.len() > 0 {
        let init = labels.drop_last();
        assert forall|k: int| 0 <= k < init.len() implies no_ascii_upper(#[trigger] init[k]) by {
            assert(init[k] == labels[k]);
        }
        lemma_dotted_lower(init);
        let a = dotted(init);
        let l = labels.last();
        assert(no_ascii_upper(l));
        let d = a + l + seq!['.'];
        assert(!is_ascii_upper('.'));
        assert forall|i: int| 0 <= i < d.len() implies !is_ascii_upper(#[trigger] d[i]) by {
            if i < a.len() {
                assert(d[i] == a[i]);
            } else if i < a.len() + l.len() {
                assert(d[i] == l[i - a.len()]);
            }
        }
    }
}

/// A decoded name has no upper-case ASCII letter.
pub proof fn lemma_decoded_name_lower(data: Seq<u8>, p: nat)
    ensures
        parse_name_spec(data, p) matches Ok((name, _)) ==> no_ascii_upper(name),
{
    lemma_walk_lower(data, p, 0, None);
    if let Ok((labels, _)) = walk_name(data, p, 0, None) {
        if labels.len() > 0 {
            lemma_dotted_lower(labels);
        } else {
            assert(!is_ascii_upper('.'));
        }
    }
}

proof fn lemma_questions_lower(data: Seq<u8>, p: nat, n: nat)
    ensures
        parse_questions_spec(data, p, n) matches Ok((qs, _)) ==> forall|i: int|
            0 <= i < qs.len() ==> no_ascii_upper(#[trigger] qs[i].name),
    decreases n,
{
    if n > 0 {
        lemma_decoded_name_lower(data, p);
        if let Ok((q, p1)) = parse_question_spec(data, p) {
            lemma_questions_lower(data, p1, (n - 1) as nat);
            if let Ok((rest, _)) = parse_questions_spec(data, p1, (n - 1) as nat) {
                let all = seq![q] + rest;
                assert forall|i: int| 0 <= i < all.len() implies no_ascii_upper(#[trigger] all[i].name) by {
                    if i > 0 {
                        assert(all[i] == rest[i - 1]);
                    }
                }
            }
        }
    }
}

proof fn lemma_records_lower(data: Seq<u8>, p: nat, n: nat)
    ensures
        parse_records_spec(data, p, n) matches Ok((rs, _)) ==> forall|i: int|
            0 <= i < rs.len() ==> no_ascii_upper(#[trigger] rs[i].name),
    decreases n,
{
    if n > 0 {
        lemma_decoded_name_lower(data, p);
        if let Ok((r, p1)) = parse_record_spec(data, p) {
            lemma_records_lower(data, p1, (n - 1) as nat);
            if let Ok((rest, _)) = parse_records_spec(data, p1, (n - 1) as nat) {
                let all = seq![r] + rest;
                assert forall|i: int| 0 <= i < all.len() implies no_ascii_upper(#[trigger] all[i].name) by {
                    if i > 0 {
                        assert(all[i] == rest[i - 1]);
                    }
                }
            }
        }
    }
}

/// Names are case-insensitive: every question name and record owner name of a
/// decoded message is in lower case (no upper-case ASCII letter).
pub proof fn lemma_decoded_names_lower(data: Seq<u8>)
    ensures
        parse_message_spec(data) matches Ok(m) ==> {
            &&& forall|i: int| 0 <= i < m.questions.len() ==> no_ascii_upper(#[trigger] m.questions[i].name)
            &&& forall|i: int| 0 <= i < m.answers.len() ==> no_ascii_upper(#[trigger] m.answers[i].name)
            &&& forall|i: int| 0 <= i < m.authority.len() ==> no_ascii_upper(#[trigger] m.authority[i].name)
            &&& forall|i: int| 0 <= i < m.additional.len() ==> no_ascii_upper(#[trigger] m.additional[i].name)
        },
{
    reveal(parse_message_spec);
    if data.len() >= 12 {
        let h = header_at(data, 0);
        lemma_questions_lower(data, 12, h.qdcount as nat);
        if let Ok((_, p1)) = parse_questions_spec(data, 12, h.qdcount as nat) {
            lemma_records_lower(data, p1, h.ancount as nat);
            if let Ok((_, p2)) = parse_records_spec(data, p1, h.ancount as nat) {
                lemma_records_lower(data, p2, h.nscount as nat);
                if let Ok((_, p3)) = parse_records_spec(data, p2, h.nscount as nat) {
                    lemma_records_lower(data, p3, h.arcount as nat);
                }
            }
        }
    }
}

proof fn lemma_prepend_step<T>(done: Seq<T>, x: T, rest: Seq<T>)
    ensures
        done + (seq![x] + rest) == done.push(x) + rest,
{
    assert(done + (seq![x] + rest) =~= done.push(x) + rest);
}

// ---------------------------------------------------------------------------
// Cursor
// ---------------------------------------------------------------------------

/// A cursor over a byte slice for parsing DNS messages.
pub struct Cursor<'a> {
    pub data: &'a [u8],
    pub pos: usize,
}

impl<'a> Cursor<'a> {
    pub fn new(data: &'a [u8]) -> (c: Self)
        ensures
            c.data@ == data@,
            c.pos == 0,
    {
        Cursor { data, pos: 0 }
    }

    pub fn remaining(&self) -> (r: usize)
        ensures
            self.data@.len() <= usize::MAX,
            r == (if self.pos <= self.data@.len() {
                self.data@.len() - self.pos
            } else {
                0
            }),
    {
        self.data.len().saturating_sub(self.pos)
    }

    pub fn read_u8(&mut self) -> (r: Result<u8, DnsError>)
        ensures
            final(self).data@ == old(self).data@,
            old(self).pos <= old(self).data@.len() ==> final(self).pos <= final(self).data@.len(),
            old(self).pos < old(self).data@.len() ==> r == Ok::<u8, DnsError>(
                old(self).data@[old(self).pos as int],
            ) && final(self).pos == old(self).pos + 1,
            old(self).pos >= old(self).data@.len() ==> r == Err::<u8, DnsError>(DnsError::TooShort)
                && final(self).pos == old(self).pos,
    {
        if self.pos >= self.data.len() {
            return Err(DnsError::TooShort);
        }
        let v = self.data[self.pos];
        self.pos = self.pos + 1;
        Ok(v)
    }

    pub fn read_u16(&mut self) -> (r: Result<u16, DnsError>)
        ensures
            final(self).data@ == old(self).data@,
            old(self).pos <= old(self).data@.len() ==> final(self).pos <= final(self).data@.len(),
            old(self).pos + 2 <= old(self).data@.len() ==> r == Ok::<u16, DnsError>(
                u16_at(old(self).data@, old(self).pos as nat),
            ) && final(self).pos == old(self).pos + 2,
            old(self).pos + 2 > old(self).data@.len() ==> r == Err::<u16, DnsError>(
                DnsError::TooShort,
            ) && final(self).pos == old(self).pos,
    {
        if self.pos > self.data.len() || self.data.len() - self.pos < 2 {
            return Err(DnsError::TooShort);
        }
        let v = (self.data[self.pos] as u16) * 256 + self.data[self.pos + 1] as u16;
        self.pos = self.pos + 2;
        Ok(v)
    }

    pub fn read_u32(&mut self) -> (r: Result<u32, DnsError>)
        ensures
            final(self).data@ == old(self).data@,
            old(self).pos <= old(self).data@.len() ==> final(self).pos <= final(self).data@.len(),
            old(self).pos + 4 <= old(self).data@.len() ==> r == Ok::<u32, DnsError>(
                u32_at(old(self).data@, old(self).pos as nat),
            ) && final(self).pos == old(self).pos + 4,
            old(self).pos + 4 > old(self).data@.len() ==> r == Err::<u32, DnsError>(
                DnsError::TooShort,
            ) && final(self).pos == old(self).pos,
    {
        if self.pos > self.data.len() || self.data.len() - self.pos < 4 {
            return Err(DnsError::TooShort);
        }
        let p = self.pos;
        let v = (self.data[p] as u32) * 16777216 + (self.data[p + 1] as u32) * 65536
            + (self.data[p + 2] as u32) * 256 + self.data[p + 3] as u32;
        self.pos = p + 4;
        Ok(v)
    }

    pub fn read_bytes(&mut self, n: usize) -> (r: Result<&'a [u8], DnsError>)
        ensures
            final(self).data == old(self).data,
            old(self).pos <= old(self).data@.len() ==> final(self).pos <= final(self).data@.len(),
            old(self).pos + n <= old(self).data@.len() ==> (r matches Ok(s) && s@
                == old(self).data@.subrange(old(self).pos as int, old(self).pos + n)
                && final(self).pos == old(self).pos + n),
            old(self).pos + n > old(self).data@.len() ==> r == Err::<&'a [u8], DnsError>(
                DnsError::TooShort,
            ) && final(self).pos == old(self).pos,
    {
        if self.pos > self.data.len() || n > self.data.len() - self.pos {
            return Err(DnsError::TooShort);
        }
        let slice = &self.data[self.pos..self.pos + n];
        self.pos = self.pos + n;
        Ok(slice)
    }
}


// ---------------------------------------------------------------------------
// Names
// ---------------------------------------------------------------------------

/// The positions of an optional end marker, as natural numbers.
pub open spec fn opt_nat(o: Option<usize>) -> Option<nat> {
    match o {
        Some(e) => Some(e as nat),
        None => None,
    }
}

/// Relates the outcome of a decoder to its specification.
pub open spec fn name_result_matches(
    res: Result<(String, usize), DnsError>,
    spec: Result<(Seq<char>, nat), DnsError>,
) -> bool {
    match res {
        Ok((n, e)) => spec == Ok::<(Seq<char>, nat), DnsError>((n@, e as nat)),
        Err(err) => spec == Err::<(Seq<char>, nat), DnsError>(err),
    }
}

proof fn lemma_dotted_push(labels: Seq<Seq<char>>, l: Seq<char>)
    ensures
        dotted(labels.push(l)) == dotted(labels) + l + seq!['.'],
{
    assert(labels.push(l).drop_last() =~= labels);
}

/// Parse a DNS domain name from the packet, following compression pointers.
/// `data` is the whole packet (needed for pointer offsets) and `start`
/// is where the name begins; returns the name and the position after it in the
/// byte stream itself (which differs from where a pointer chain ends).
#[verifier::spinoff_prover]
pub fn parse_name(data: &[u8], start: usize) -> (res: Result<(String, usize), DnsError>)
    ensures
        name_result_matches(res, parse_name_spec(data@, start as nat)),
        res matches Ok((_, e)) ==> e <= data@.len(),
{
    let mut name = String::new();
    let ghost mut labels: Seq<Seq<char>> = seq![];
    let mut pos = start;
    let mut jumps: usize = 0;
    let mut end_pos: Option<usize> = None;
    assert(labels + seq![] =~= labels);
    loop
        invariant
            jumps <= 256,
            name@ == dotted(labels),
            end_pos matches Some(e) ==> e <= data@.len(),
            walk_name(data@, start as nat, 0, None) == prepend(
                labels,
                walk_name(data@, pos as nat, jumps as nat, opt_nat(end_pos)),
            ),
        decreases 257 - jumps, data@.len() - pos,
    {
        if pos >= data.len() {
            return Err(DnsError::TooShort);
        }
        let b = data[pos];
        if b == 0 {
            let end = match end_pos {
                Some(e) => e,
                None => pos + 1,
            };
            assert(labels + seq![] =~= labels);
            if name.as_str().is_empty() {
                proof {
                    reveal_strlit(".");
                }
                name.append(".");
                assert(name@ =~= seq!['.']);
            }
            assert(name@ == name_text(labels));
            assert(walk_name(data@, pos as nat, jumps as nat, opt_nat(end_pos)) == Ok::<(Seq<Seq<char>>, nat), DnsError>((seq![], end as nat)));
            assert(walk_name(data@, start as nat, 0, None) == Ok::<(Seq<Seq<char>>, nat), DnsError>((labels, end as nat)));
            let nlen = name.as_str().as_bytes().len();
            assert(nlen == encode_utf8(name@).len());
            if nlen > 255 {
                return Err(DnsError::InvalidName);
            }
            return Ok((name, end));
        }
        if b >= 0xC0 {
            if pos + 1 >= data.len() {
                return Err(DnsError::TooShort);
            }
            let pointer = ((b - 0xC0) as usize) * 256 + data[pos + 1] as usize;
            if end_pos.is_none() {
                end_pos = Some(pos + 2);
            }
            jumps = jumps + 1;
            if jumps > 256 {
                return Err(DnsError::CompressionLoop);
            }
            pos = pointer;
            continue ;
        }
        if b > 63 {
            return Err(DnsError::InvalidName);
        }
        let label_len = b as usize;
        if label_len > data.len() - pos - 1 {
            return Err(DnsError::TooShort);
        }
        let label = &data[pos + 1..pos + 1 + label_len];
        let text = match str_from_utf8(label) {
            Some(t) => t,
            None => {
                return Err(DnsError::InvalidName);
            },
        };
        let lower = str_to_ascii_lowercase(text);
        let ghost old_labels = labels;
        let ghost rest = walk_name(data@, (pos + 1 + label_len) as nat, jumps as nat, opt_nat(end_pos));
        name.append(lower.as_str());
        proof {
            reveal_strlit(".");
        }
        name.append(".");
        proof {
            labels = labels.push(lower@);
            lemma_dotted_push(old_labels, lower@);
            assert(label@ == data@.subrange(pos + 1 as int, pos + 1 + label_len as int));
            match rest {
                Ok((items, _)) => {
                    lemma_prepend_step(old_labels, lower@, items);
                },
                Err(_) => {},
            }
        }
        pos = pos + 1 + label_len;
    }
}

/// Parse a name using the cursor's position, advancing the cursor.
pub fn parse_name_from_cursor(cursor: &mut Cursor<'_>) -> (res: Result<String, DnsError>)
    ensures
        final(cursor).data@ == old(cursor).data@,
        res is Ok ==> final(cursor).pos <= final(cursor).data@.len(),
        res is Err ==> final(cursor).pos == old(cursor).pos,
        match res {
            Ok(n) => parse_name_spec(old(cursor).data@, old(cursor).pos as nat) == Ok::<
                (Seq<char>, nat),
                DnsError,
            >((n@, final(cursor).pos as nat)),
            Err(e) => parse_name_spec(old(cursor).data@, old(cursor).pos as nat) == Err::<
                (Seq<char>, nat),
                DnsError,
            >(e),
        },
{
    let (name, new_pos) = parse_name(cursor.data, cursor.pos)?;
    cursor.pos = new_pos;
    Ok(name)
}


// ---------------------------------------------------------------------------
// Header, question and record decoding
// ---------------------------------------------------------------------------

impl Header {
    pub fn parse(cursor: &mut Cursor<'_>) -> (res: Result<Header, DnsError>)
        ensures
            final(cursor).data@ == old(cursor).data@,
            old(cursor).pos <= old(cursor).data@.len() ==> final(cursor).pos <= final(cursor).data@.len(),
            old(cursor).pos + 12 > old(cursor).data@.len() ==> res == Err::<Header, DnsError>(
                DnsError::InvalidHeader,
            ) && final(cursor).pos == old(cursor).pos,
            old(cursor).pos + 12 <= old(cursor).data@.len() ==> res == Ok::<Header, DnsError>(
                header_at(old(cursor).data@, old(cursor).pos as nat),
            ) && final(cursor).pos == old(cursor).pos + 12,
    {
        if cursor.remaining() < 12 {
            return Err(DnsError::InvalidHeader);
        }
        let id = match cursor.read_u16() {
            Ok(v) => v,
            Err(_) => return Err(DnsError::InvalidHeader),
        };
        let flags = match cursor.read_u16() {
            Ok(v) => v,
            Err(_) => return Err(DnsError::InvalidHeader),
        };
        let qdcount = match cursor.read_u16() {
            Ok(v) => v,
            Err(_) => return Err(DnsError::InvalidHeader),
        };
        let ancount = match cursor.read_u16() {
            Ok(v) => v,
            Err(_) => return Err(DnsError::InvalidHeader),
        };
        let nscount = match cursor.read_u16() {
            Ok(v) => v,
            Err(_) => return Err(DnsError::InvalidHeader),
        };
        let arcount = match cursor.read_u16() {
            Ok(v) => v,
            Err(_) => return Err(DnsError::InvalidHeader),
        };
        Ok(
            Header {
                id,
                qr: (flags / 32768) % 2 == 1,
                opcode: ((flags / 2048) % 16) as u8,
                aa: (flags / 1024) % 2 == 1,
                tc: (flags / 512) % 2 == 1,
                rd: (flags / 256) % 2 == 1,
                ra: (flags / 128) % 2 == 1,
                rcode: (flags % 16) as u8,
                qdcount,
                ancount,
                nscount,
                arcount,
            },
        )
    }
}

impl Question {
    pub fn parse(cursor: &mut Cursor<'_>) -> (res: Result<Question, DnsError>)
        ensures
            final(cursor).data@ == old(cursor).data@,
            old(cursor).pos <= old(cursor).data@.len() ==> final(cursor).pos <= final(cursor).data@.len(),
            match res {
                Ok(q) => parse_question_spec(old(cursor).data@, old(cursor).pos as nat) == Ok::<
                    (SpecQuestion, nat),
                    DnsError,
                >((q@, final(cursor).pos as nat)),
                Err(e) => parse_question_spec(old(cursor).data@, old(cursor).pos as nat) == Err::<
                    (SpecQuestion, nat),
                    DnsError,
                >(e),
            },
    {
        let name = parse_name_from_cursor(cursor)?;
        let qtype = match cursor.read_u16() {
            Ok(v) => v,
            Err(_) => return Err(DnsError::InvalidRecord),
        };
        let qclass = match cursor.read_u16() {
            Ok(v) => v,
            Err(_) => return Err(DnsError::InvalidRecord),
        };
        Ok(Question { name, qtype, qclass })
    }
}

/// Relates the outcome of an rdata decoder to its specification.
pub open spec fn rdata_result_matches(
    res: Result<RData, DnsError>,
    spec: Result<(SpecRData, nat), DnsError>,
    end: nat,
) -> bool {
    match res {
        Ok(rd) => spec == Ok::<(SpecRData, nat), DnsError>((rd@, end)),
        Err(e) => spec == Err::<(SpecRData, nat), DnsError>(e),
    }
}

/// Decodes the character strings of TXT data up to `rdata_end`.
#[verifier::spinoff_prover]
fn parse_txt(cursor: &mut Cursor<'_>, rdata_end: usize) -> (res: Result<String, DnsError>)
    requires
        old(cursor).pos <= rdata_end <= old(cursor).data@.len(),
    ensures
        final(cursor).data@ == old(cursor).data@,
        final(cursor).pos <= final(cursor).data@.len(),
        match res {
            Ok(t) => txt_spec(old(cursor).data@, old(cursor).pos as nat, rdata_end as nat) == Ok::<
                Seq<char>,
                DnsError,
            >(t@) && final(cursor).pos == rdata_end,
            Err(e) => txt_spec(old(cursor).data@, old(cursor).pos as nat, rdata_end as nat) == Err::<
                Seq<char>,
                DnsError,
            >(e),
        },
{
    let ghost data = cursor.data@;
    let ghost start = cursor.pos as nat;
    let mut text = String::new();
    assert(forall|t: Seq<char>| seq![] + t == t) by {
        assert forall|t: Seq<char>| seq![] + t == t by {
            assert(seq![] + t =~= t);
        }
    }
    while cursor.pos < rdata_end
        invariant
            cursor.data@ == data,
            data == old(cursor).data@,
            start == old(cursor).pos,
            cursor.pos <= rdata_end <= data.len(),
            txt_spec(data, start, rdata_end as nat) == (match txt_spec(
                data,
                cursor.pos as nat,
                rdata_end as nat,
            ) {
                Ok(rest) => Ok::<Seq<char>, DnsError>(text@ + rest),
                Err(e) => Err(e),
            }),
        decreases rdata_end - cursor.pos,
    {
        let ghost p = cursor.pos as nat;
        let str_len = match cursor.read_u8() {
            Ok(v) => v as usize,
            Err(_) => return Err(DnsError::InvalidRecord),
        };
        if str_len > rdata_end - cursor.pos {
            return Err(DnsError::InvalidRecord);
        }
        let bytes = match cursor.read_bytes(str_len) {
            Ok(b) => b,
            Err(_) => return Err(DnsError::InvalidRecord),
        };
        let s = match str_from_utf8(bytes) {
            Some(s) => s,
            None => return Err(DnsError::InvalidRecord),
        };
        let ghost old_text = text@;
        text.append(s);
        proof {
            match txt_spec(data, cursor.pos as nat, rdata_end as nat) {
                Ok(rest) => {
                    assert(old_text + (s@ + rest) =~= text@ + rest);
                },
                Err(_) => {},
            }
        }
    }
    Ok(text)
}

/// Decoding of SOA record data at `p`.
pub open spec fn soa_spec(data: Seq<u8>, p: nat) -> Result<(SpecRData, nat), DnsError> {
    match parse_name_spec(data, p) {
        Err(e) => Err(e),
        Ok((mname, p1)) => match parse_name_spec(data, p1) {
            Err(e) => Err(e),
            Ok((rname, p2)) => if p2 + 20 > data.len() {
                Err(DnsError::InvalidRecord)
            } else {
                Ok(
                    (
                        SpecRData::SOA {
                            mname,
                            rname,
                            serial: u32_at(data, p2),
                            refresh: u32_at(data, p2 + 4),
                            retry: u32_at(data, p2 + 8),
                            expire: u32_at(data, p2 + 12),
                            minimum: u32_at(data, p2 + 16),
                        },
                        p2 + 20,
                    ),
                )
            },
        },
    }
}

/// Decoding of CAA record data occupying `p .. p + rdlength`.
pub open spec fn caa_spec(data: Seq<u8>, p: nat, rdlength: nat) -> Result<(SpecRData, nat), DnsError> {
    let rend = p + rdlength;
    if rdlength < 2 {
        Err(DnsError::InvalidRecord)
    } else {
        let flags = data[p as int];
        let tag_len = data[p + 1 as int];
        let tag_start = p + 2;
        if tag_start + tag_len > rend {
            Err(DnsError::InvalidRecord)
        } else {
            let tag = data.subrange(tag_start as int, tag_start + tag_len);
            let value = data.subrange(tag_start + tag_len, rend as int);
            if !valid_utf8(tag) || !valid_utf8(value) {
                Err(DnsError::InvalidRecord)
            } else {
                Ok(
                    (
                        SpecRData::CAA {
                            flags,
                            tag: decode_utf8(tag),
                            value: decode_utf8(value),
                        },
                        rend,
                    ),
                )
            }
        }
    }
}

/// Decodes SOA record data.
#[verifier::spinoff_prover]
fn parse_soa(cursor: &mut Cursor<'_>) -> (res: Result<RData, DnsError>)
    requires
        old(cursor).pos <= old(cursor).data@.len(),
    ensures
        final(cursor).data@ == old(cursor).data@,
        final(cursor).pos <= final(cursor).data@.len(),
        rdata_result_matches(
            res,
            soa_spec(old(cursor).data@, old(cursor).pos as nat),
            final(cursor).pos as nat,
        ),
{
    let mname = parse_name_from_cursor(cursor)?;
    let rname = parse_name_from_cursor(cursor)?;
    if cursor.data.len() - cursor.pos < 20 {
        return Err(DnsError::InvalidRecord);
    }
    let serial = match cursor.read_u32() {
        Ok(v) => v,
        Err(_) => return Err(DnsError::InvalidRecord),
    };
    let refresh = match cursor.read_u32() {
        Ok(v) => v,
        Err(_) => return Err(DnsError::InvalidRecord),
    };
    let retry = match cursor.read_u32() {
        Ok(v) => v,
        Err(_) => return Err(DnsError::InvalidRecord),
    };
    let expire = match cursor.read_u32() {
        Ok(v) => v,
        Err(_) => return Err(DnsError::InvalidRecord),
    };
    let minimum = match cursor.read_u32() {
        Ok(v) => v,
        Err(_) => return Err(DnsError::InvalidRecord),
    };
    Ok(RData::SOA { mname, rname, serial, refresh, retry, expire, minimum })
}

/// Decodes CAA record data occupying the next `rdlength` bytes.
#[verifier::spinoff_prover]
fn parse_caa(cursor: &mut Cursor<'_>, rdlength: usize) -> (res: Result<RData, DnsError>)
    requires
        old(cursor).pos + rdlength <= old(cursor).data@.len() <= usize::MAX,
    ensures
        final(cursor).data@ == old(cursor).data@,
        final(cursor).pos <= final(cursor).data@.len(),
        rdata_result_matches(
            res,
            caa_spec(old(cursor).data@, old(cursor).pos as nat, rdlength as nat),
            final(cursor).pos as nat,
        ),
{
    let rdata_end = cursor.pos + rdlength;
    if rdlength < 2 {
        return Err(DnsError::InvalidRecord);
    }
    let flags = match cursor.read_u8() {
        Ok(v) => v,
        Err(_) => return Err(DnsError::InvalidRecord),
    };
    let tag_len = match cursor.read_u8() {
        Ok(v) => v as usize,
        Err(_) => return Err(DnsError::InvalidRecord),
    };
    if tag_len > rdata_end - cursor.pos {
        return Err(DnsError::InvalidRecord);
    }
    let tag_bytes = match cursor.read_bytes(tag_len) {
        Ok(b) => b,
        Err(_) => return Err(DnsError::InvalidRecord),
    };
    let tag = match str_from_utf8(tag_bytes) {
        Some(t) => t,
        None => return Err(DnsError::InvalidRecord),
    };
    let value_len = rdata_end - cursor.pos;
    let value_bytes = match cursor.read_bytes(value_len) {
        Ok(b) => b,
        Err(_) => return Err(DnsError::InvalidRecord),
    };
    let value = match str_from_utf8(value_bytes) {
        Some(v) => v,
        None => return Err(DnsError::InvalidRecord),
    };
    Ok(RData::CAA { flags, tag: tag.to_owned(), value: value.to_owned() })
}

/// Decodes record data of type `rtype` occupying the next `rdlength` bytes.
#[verifier::spinoff_prover]
fn parse_rdata(cursor: &mut Cursor<'_>, rtype: u16, class: u16, rdlength: usize) -> (res: Result<
    RData,
    DnsError,
>)
    requires
        old(cursor).pos + rdlength <= old(cursor).data@.len() <= usize::MAX,
    ensures
        final(cursor).data@ == old(cursor).data@,
        final(cursor).pos <= final(cursor).data@.len(),
        rdata_result_matches(
            res,
            parse_rdata_spec(
                old(cursor).data@,
                old(cursor).pos as nat,
                rtype,
                class,
                rdlength as nat,
            ),
            final(cursor).pos as nat,
        ),
{
    let rdata_end = cursor.pos + rdlength;
    if rtype == TYPE_A {
        if rdlength != 4 {
            return Err(DnsError::InvalidRecord);
        }
        let bytes = match cursor.read_bytes(4) {
            Ok(b) => b,
            Err(_) => return Err(DnsError::InvalidRecord),
        };
        let ip = [bytes[0], bytes[1], bytes[2], bytes[3]];
        assert(ip@ =~= bytes@);
        Ok(RData::A(ip))
    } else if rtype == TYPE_AAAA {
        if rdlength != 16 {
            return Err(DnsError::InvalidRecord);
        }
        let b = match cursor.read_bytes(16) {
            Ok(b) => b,
            Err(_) => return Err(DnsError::InvalidRecord),
        };
        let ip = [
            b[0],
            b[1],
            b[2],
            b[3],
            b[4],
            b[5],
            b[6],
            b[7],
            b[8],
            b[9],
            b[10],
            b[11],
            b[12],
            b[13],
            b[14],
            b[15],
        ];
        assert(ip@ =~= b@);
        Ok(RData::AAAA(ip))
    } else if rtype == TYPE_CNAME {
        let n = parse_name_from_cursor(cursor)?;
        Ok(RData::CNAME(n))
    } else if rtype == TYPE_NS {
        let n = parse_name_from_cursor(cursor)?;
        Ok(RData::NS(n))
    } else if rtype == TYPE_MX {
        let preference = match cursor.read_u16() {
            Ok(v) => v,
            Err(_) => return Err(DnsError::InvalidRecord),
        };
        let exchange = parse_name_from_cursor(cursor)?;
        Ok(RData::MX { preference, exchange })
    } else if rtype == TYPE_TXT {
        let text = parse_txt(cursor, rdata_end)?;
        Ok(RData::TXT(text))
    } else if rtype == TYPE_SOA {
        parse_soa(cursor)
    } else if rtype == TYPE_SRV {
        let priority = match cursor.read_u16() {
            Ok(v) => v,
            Err(_) => return Err(DnsError::InvalidRecord),
        };
        let weight = match cursor.read_u16() {
            Ok(v) => v,
            Err(_) => return Err(DnsError::InvalidRecord),
        };
        let port = match cursor.read_u16() {
            Ok(v) => v,
            Err(_) => return Err(DnsError::InvalidRecord),
        };
        let target = parse_name_from_cursor(cursor)?;
        Ok(RData::SRV { priority, weight, port, target })
    } else if rtype == TYPE_CAA {
        parse_caa(cursor, rdlength)
    } else if rtype == TYPE_OPT {
        cursor.pos = rdata_end;
        Ok(RData::OPT { udp_size: class })
    } else {
        let bytes = match cursor.read_bytes(rdlength) {
            Ok(b) => b,
            Err(_) => return Err(DnsError::InvalidRecord),
        };
        Ok(RData::Unknown(vstd::slice::slice_to_vec(bytes)))
    }
}

impl Record {
    #[verifier::spinoff_prover]
    pub fn parse(cursor: &mut Cursor<'_>) -> (res: Result<Record, DnsError>)
        ensures
            final(cursor).data@ == old(cursor).data@,
            old(cursor).pos <= old(cursor).data@.len() ==> final(cursor).pos <= final(cursor).data@.len(),
            match res {
                Ok(r) => parse_record_spec(old(cursor).data@, old(cursor).pos as nat) == Ok::<
                    (SpecRecord, nat),
                    DnsError,
                >((r@, final(cursor).pos as nat)),
                Err(e) => parse_record_spec(old(cursor).data@, old(cursor).pos as nat) == Err::<
                    (SpecRecord, nat),
                    DnsError,
                >(e),
            },
    {
        let name = parse_name_from_cursor(cursor)?;
        let rtype = match cursor.read_u16() {
            Ok(v) => v,
            Err(_) => return Err(DnsError::InvalidRecord),
        };
        let class = match cursor.read_u16() {
            Ok(v) => v,
            Err(_) => return Err(DnsError::InvalidRecord),
        };
        let ttl = match cursor.read_u32() {
            Ok(v) => v,
            Err(_) => return Err(DnsError::InvalidRecord),
        };
        let rdlength = match cursor.read_u16() {
            Ok(v) => v as usize,
            Err(_) => return Err(DnsError::InvalidRecord),
        };
        if cursor.remaining() < rdlength {
            return Err(DnsError::InvalidRecord);
        }
        let rdata_end = cursor.pos + rdlength;
        let rdata = parse_rdata(cursor, rtype, class, rdlength)?;
        if cursor.pos < rdata_end {
            cursor.pos = rdata_end;
        }
        Ok(Record { name, rtype, class, ttl, rdata })
    }
}


// ---------------------------------------------------------------------------
// Messages
// ---------------------------------------------------------------------------

/// Decodes `n` consecutive resource records.
#[verifier::spinoff_prover]
fn parse_records(cursor: &mut Cursor<'_>, n: u16) -> (res: Result<Vec<Record>, DnsError>)
    requires
        old(cursor).pos <= old(cursor).data@.len(),
    ensures
        final(cursor).data@ == old(cursor).data@,
        final(cursor).pos <= final(cursor).data@.len(),
        match res {
            Ok(rs) => parse_records_spec(old(cursor).data@, old(cursor).pos as nat, n as nat)
                == Ok::<(Seq<SpecRecord>, nat), DnsError>(
                (records_view(rs@), final(cursor).pos as nat),
            ),
            Err(e) => parse_records_spec(old(cursor).data@, old(cursor).pos as nat, n as nat)
                == Err::<(Seq<SpecRecord>, nat), DnsError>(e),
        },
{
    let ghost data = cursor.data@;
    let ghost start = cursor.pos as nat;
    let mut out: Vec<Record> = Vec::new();
    let mut i: u16 = 0;
    assert(records_view(out@) + seq![] =~= seq![]);
    while i < n
        invariant
            cursor.data@ == data,
            data == old(cursor).data@,
            start == old(cursor).pos,
            cursor.pos <= data.len(),
            i <= n,
            parse_records_spec(data, start, n as nat) == prepend(
                records_view(out@),
                parse_records_spec(data, cursor.pos as nat, (n - i) as nat),
            ),
        decreases n - i,
    {
        let ghost p = cursor.pos as nat;
        let r = Record::parse(cursor)?;
        proof {
            let rest = parse_records_spec(data, cursor.pos as nat, (n - i - 1) as nat);
            match rest {
                Ok((items, _)) => {
                    lemma_prepend_step(records_view(out@), r@, items);
                },
                Err(_) => {},
            }
        }
        let ghost before = records_view(out@);
        out.push(r);
        assert(records_view(out@) =~= before.push(r@));
        i = i + 1;
    }
    assert(records_view(out@) + seq![] =~= records_view(out@));
    Ok(out)
}

/// Decodes `n` consecutive questions.
#[verifier::spinoff_prover]
fn parse_questions(cursor: &mut Cursor<'_>, n: u16) -> (res: Result<Vec<Question>, DnsError>)
    requires
        old(cursor).pos <= old(cursor).data@.len(),
    ensures
        final(cursor).data@ == old(cursor).data@,
        final(cursor).pos <= final(cursor).data@.len(),
        match res {
            Ok(qs) => parse_questions_spec(old(cursor).data@, old(cursor).pos as nat, n as nat)
                == Ok::<(Seq<SpecQuestion>, nat), DnsError>(
                (questions_view(qs@), final(cursor).pos as nat),
            ),
            Err(e) => parse_questions_spec(old(cursor).data@, old(cursor).pos as nat, n as nat)
                == Err::<(Seq<SpecQuestion>, nat), DnsError>(e),
        },
{
    let ghost data = cursor.data@;
    let ghost start = cursor.pos as nat;
    let mut out: Vec<Question> = Vec::new();
    let mut i: u16 = 0;
    assert(questions_view(out@) + seq![] =~= seq![]);
    while i < n
        invariant
            cursor.data@ == data,
            data == old(cursor).data@,
            start == old(cursor).pos,
            cursor.pos <= data.len(),
            i <= n,
            parse_questions_spec(data, start, n as nat) == prepend(
                questions_view(out@),
                parse_questions_spec(data, cursor.pos as nat, (n - i) as nat),
            ),
        decreases n - i,
    {
        let q = Question::parse(cursor)?;
        proof {
            let rest = parse_questions_spec(data, cursor.pos as nat, (n - i - 1) as nat);
            match rest {
                Ok((items, _)) => {
                    lemma_prepend_step(questions_view(out@), q@, items);
                },
                Err(_) => {},
            }
        }
        let ghost before = questions_view(out@);
        out.push(q);
        assert(questions_view(out@) =~= before.push(q@));
        i = i + 1;
    }
    assert(questions_view(out@) + seq![] =~= questions_view(out@));
    Ok(out)
}

impl Message {
    /// Parse a DNS message from raw bytes.
    #[verifier::spinoff_prover]
    pub fn parse(data: &[u8]) -> (res: Result<Message, DnsError>)
        ensures
            match res {
                Ok(m) => parse_message_spec(data@) == Ok::<SpecMessage, DnsError>(m@),
                Err(e) => parse_message_spec(data@) == Err::<SpecMessage, DnsError>(e),
            },
    {
        proof {
            reveal(parse_message_spec);
        }
        if data.len() < 12 {
            return Err(DnsError::TooShort);
        }
        let mut cursor = Cursor::new(data);
        let header = Header::parse(&mut cursor)?;
        let questions = parse_questions(&mut cursor, header.qdcount)?;
        let answers = parse_records(&mut cursor, header.ancount)?;
        let authority = parse_records(&mut cursor, header.nscount)?;
        let additional = parse_records(&mut cursor, header.arcount)?;
        Ok(Message { header, questions, answers, authority, additional })
    }
}

} // verus!
