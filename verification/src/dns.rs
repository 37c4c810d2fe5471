//! DNS message data types, record constructors and the small message API.
use vstd::prelude::*;
use crate::text::{
    ascii_lower_chars, str_to_ascii_lowercase, last_char, no_ascii_upper, is_ascii_upper,
    lemma_ascii_lower_no_upper,
};

verus! {

// ---------------------------------------------------------------------------
// Record type, class and response code constants
// ---------------------------------------------------------------------------

pub const TYPE_A: u16 = 1;
pub const TYPE_NS: u16 = 2;
pub const TYPE_CNAME: u16 = 5;
pub const TYPE_SOA: u16 = 6;
pub const TYPE_MX: u16 = 15;
pub const TYPE_TXT: u16 = 16;
pub const TYPE_AAAA: u16 = 28;
pub const TYPE_SRV: u16 = 33;
pub const TYPE_OPT: u16 = 41;
pub const TYPE_CAA: u16 = 257;
pub const TYPE_ANY: u16 = 255;
pub const CLASS_IN: u16 = 1;

pub const RCODE_NOERROR: u8 = 0;
pub const RCODE_FORMERR: u8 = 1;
pub const RCODE_SERVFAIL: u8 = 2;
pub const RCODE_NXDOMAIN: u8 = 3;
pub const RCODE_REFUSED: u8 = 5;

/// Maximum number of compression pointer jumps before a name is declared a loop.
pub const MAX_COMPRESSION_JUMPS: usize = 256;

// ---------------------------------------------------------------------------
// Errors
// ---------------------------------------------------------------------------

/// Why a DNS message could not be decoded.
#[derive(Debug, Clone, Copy, PartialEq, Eq, Structural)]
pub enum DnsError {
    TooShort,
    InvalidHeader,
    InvalidName,
    InvalidRecord,
    CompressionLoop,
    BufferOverflow,
}

/// The human-readable description of each error.
pub open spec fn dns_error_text(e: DnsError) -> Seq<char> {
    match e {
        DnsError::TooShort => "packet too short"@,
        DnsError::InvalidHeader => "invalid header"@,
        DnsError::InvalidName => "invalid domain name"@,
        DnsError::InvalidRecord => "invalid resource record"@,
        DnsError::CompressionLoop => "compression pointer loop"@,
        DnsError::BufferOverflow => "buffer overflow"@,
    }
}

impl DnsError {
    /// The human-readable description of this error.
    pub fn message(&self) -> (res: &'static str)
        ensures
            res@ == dns_error_text(*self),
    {
        match self {
            DnsError::TooShort => "packet too short",
            DnsError::InvalidHeader => "invalid header",
            DnsError::InvalidName => "invalid domain name",
            DnsError::InvalidRecord => "invalid resource record",
            DnsError::CompressionLoop => "compression pointer loop",
            DnsError::BufferOverflow => "buffer overflow",
        }
    }
}

// ---------------------------------------------------------------------------
// Data types
// ---------------------------------------------------------------------------

#[derive(Debug, Clone, Copy, PartialEq, Eq, Structural)]
pub struct Header {
    pub id: u16,
    pub qr: bool,
    pub opcode: u8,
    pub aa: bool,
    pub tc: bool,
    pub rd: bool,
    pub ra: bool,
    pub rcode: u8,
    pub qdcount: u16,
    pub ancount: u16,
    pub nscount: u16,
    pub arcount: u16,
}

#[derive(Debug)]
pub struct Question {
    pub name: String,
    pub qtype: u16,
    pub qclass: u16,
}

#[derive(Debug)]
pub enum RData {
    A([u8; 4]),
    AAAA([u8; 16]),
    CNAME(String),
    MX { preference: u16, exchange: String },
    TXT(String),
    NS(String),
    SOA {
        mname: String,
        rname: String,
        serial: u32,
        refresh: u32,
        retry: u32,
        expire: u32,
        minimum: u32,
    },
    SRV { priority: u16, weight: u16, port: u16, target: String },
    CAA { flags: u8, tag: String, value: String },
    OPT { udp_size: u16 },
    Unknown(Vec<u8>),
}

#[derive(Debug)]
pub struct Record {
    pub name: String,
    pub rtype: u16,
    pub class: u16,
    pub ttl: u32,
    pub rdata: RData,
}

#[derive(Debug)]
pub struct Message {
    pub header: Header,
    pub questions: Vec<Question>,
    pub answers: Vec<Record>,
    pub authority: Vec<Record>,
    pub additional: Vec<Record>,
}

// ---------------------------------------------------------------------------
// Mathematical models
// ---------------------------------------------------------------------------

pub struct SpecQuestion {
    pub name: Seq<char>,
    pub qtype: u16,
    pub qclass: u16,
}

pub enum SpecRData {
    A(Seq<u8>),
    AAAA(Seq<u8>),
    CNAME(Seq<char>),
    MX { preference: u16, exchange: Seq<char> },
    TXT(Seq<char>),
    NS(Seq<char>),
    SOA {
        mname: Seq<char>,
        rname: Seq<char>,
        serial: u32,
        refresh: u32,
        retry: u32,
        expire: u32,
        minimum: u32,
    },
    SRV { priority: u16, weight: u16, port: u16, target: Seq<char> },
    CAA { flags: u8, tag: Seq<char>, value: Seq<char> },
    OPT { udp_size: u16 },
    Unknown(Seq<u8>),
}

pub struct SpecRecord {
    pub name: Seq<char>,
    pub rtype: u16,
    pub class: u16,
    pub ttl: u32,
    pub rdata: SpecRData,
}

#[verifier::ext_equal]
pub struct SpecMessage {
    pub header: Header,
    pub questions: Seq<SpecQuestion>,
    pub answers: Seq<SpecRecord>,
    pub authority: Seq<SpecRecord>,
    pub additional: Seq<SpecRecord>,
}

impl View for Question {
    type V = SpecQuestion;

    open spec fn view(&self) -> SpecQuestion {
        SpecQuestion { name: self.name@, qtype: self.qtype, qclass: self.qclass }
    }
}

impl View for RData {
    type V = SpecRData;

    open spec fn view(&self) -> SpecRData {
        match self {
            RData::A(ip) => SpecRData::A(ip@),
            RData::AAAA(ip) => SpecRData::AAAA(ip@),
            RData::CNAME(n) => SpecRData::CNAME(n@),
            RData::MX { preference, exchange } => SpecRData::MX {
                preference: *preference,
                exchange: exchange@,
            },
            RData::TXT(t) => SpecRData::TXT(t@),
            RData::NS(n) => SpecRData::NS(n@),
            RData::SOA { mname, rname, serial, refresh, retry, expire, minimum } => SpecRData::SOA {
                mname: mname@,
                rname: rname@,
                serial: *serial,
                refresh: *refresh,
                retry: *retry,
                expire: *expire,
                minimum: *minimum,
            },
            RData::SRV { priority, weight, port, target } => SpecRData::SRV {
                priority: *priority,
                weight: *weight,
                port: *port,
                target: target@,
            },
            RData::CAA { flags, tag, value } => SpecRData::CAA {
                flags: *flags,
                tag: tag@,
                value: value@,
            },
            RData::OPT { udp_size } => SpecRData::OPT { udp_size: *udp_size },
            RData::Unknown(d) => SpecRData::Unknown(d@),
        }
    }
}

impl View for Record {
    type V = SpecRecord;

    open spec fn view(&self) -> SpecRecord {
        SpecRecord {
            name: self.name@,
            rtype: self.rtype,
            class: self.class,
            ttl: self.ttl,
            rdata: self.rdata@,
        }
    }
}

/// The models of a sequence of questions.
pub open spec fn questions_view(qs: Seq<Question>) -> Seq<SpecQuestion> {
    qs.map_values(|q: Question| q@)
}

/// The models of a sequence of records.
pub open spec fn records_view(rs: Seq<Record>) -> Seq<SpecRecord> {
    rs.map_values(|r: Record| r@)
}

impl View for Message {
    type V = SpecMessage;

    open spec fn view(&self) -> SpecMessage {
        SpecMessage {
            header: self.header,
            questions: questions_view(self.questions@),
            answers: records_view(self.answers@),
            authority: records_view(self.authority@),
            additional: records_view(self.additional@),
        }
    }
}

// ---------------------------------------------------------------------------
// Copies
// ---------------------------------------------------------------------------

impl Clone for Question {
    fn clone(&self) -> (res: Self)
        ensures
            res@ == self@,
    {
        Question { name: self.name.clone(), qtype: self.qtype, qclass: self.qclass }
    }
}

/// A copy of a byte vector.
pub fn copy_bytes(v: &Vec<u8>) -> (res: Vec<u8>)
    ensures
        res@ == v@,
{
    let mut out: Vec<u8> = Vec::new();
    let mut i: usize = 0;
    while i < v.len()
        invariant
            i <= v.len(),
            out@ == v@.subrange(0, i as int),
        decreases v.len() - i,
    {
        out.push(v[i]);
        i = i + 1;
    }
    out
}

impl Clone for RData {
    fn clone(&self) -> (res: Self)
        ensures
            res@ == self@,
    {
        match self {
            RData::A(ip) => RData::A(*ip),
            RData::AAAA(ip) => RData::AAAA(*ip),
            RData::CNAME(n) => RData::CNAME(n.clone()),
            RData::MX { preference, exchange } => RData::MX {
                preference: *preference,
                exchange: exchange.clone(),
            },
            RData::TXT(t) => RData::TXT(t.clone()),
            RData::NS(n) => RData::NS(n.clone()),
            RData::SOA { mname, rname, serial, refresh, retry, expire, minimum } => RData::SOA {
                mname: mname.clone(),
                rname: rname.clone(),
                serial: *serial,
                refresh: *refresh,
                retry: *retry,
                expire: *expire,
                minimum: *minimum,
            },
            RData::SRV { priority, weight, port, target } => RData::SRV {
                priority: *priority,
                weight: *weight,
                port: *port,
                target: target.clone(),
            },
            RData::CAA { flags, tag, value } => RData::CAA {
                flags: *flags,
                tag: tag.clone(),
                value: value.clone(),
            },
            RData::OPT { udp_size } => RData::OPT { udp_size: *udp_size },
            RData::Unknown(d) => RData::Unknown(copy_bytes(d)),
        }
    }
}

impl Clone for Record {
    fn clone(&self) -> (res: Self)
        ensures
            res@ == self@,
    {
        Record {
            name: self.name.clone(),
            rtype: self.rtype,
            class: self.class,
            ttl: self.ttl,
            rdata: self.rdata.clone(),
        }
    }
}

/// A copy of a list of questions.
pub fn copy_questions(v: &Vec<Question>) -> (res: Vec<Question>)
    ensures
        questions_view(res@) == questions_view(v@),
{
    let mut out: Vec<Question> = Vec::new();
    let mut i: usize = 0;
    while i < v.len()
        invariant
            i <= v.len(),
            out@.len() == i,
            forall|j: int| 0 <= j < i ==> (#[trigger] out@[j])@ == v@[j]@,
        decreases v.len() - i,
    {
        let q = v[i].clone();
        out.push(q);
        i = i + 1;
    }
    assert(questions_view(out@) =~= questions_view(v@));
    out
}

/// A copy of a list of records.
pub fn copy_records(v: &Vec<Record>) -> (res: Vec<Record>)
    ensures
        records_view(res@) == records_view(v@),
{
    let mut out: Vec<Record> = Vec::new();
    let mut i: usize = 0;
    while i < v.len()
        invariant
            i <= v.len(),
            out@.len() == i,
            forall|j: int| 0 <= j < i ==> (#[trigger] out@[j])@ == v@[j]@,
        decreases v.len() - i,
    {
        let r = v[i].clone();
        out.push(r);
        i = i + 1;
    }
    assert(records_view(out@) =~= records_view(v@));
    out
}

impl Clone for Message {
    fn clone(&self) -> (res: Self)
        ensures
            res@ == self@,
    {
        Message {
            header: self.header,
            questions: copy_questions(&self.questions),
            answers: copy_records(&self.answers),
            authority: copy_records(&self.authority),
            additional: copy_records(&self.additional),
        }
    }
}


// ---------------------------------------------------------------------------
// Type codes
// ---------------------------------------------------------------------------

/// The type code that belongs to each kind of record data (0 for unknown data).
pub open spec fn rdata_type_code(r: SpecRData) -> u16 {
    match r {
        SpecRData::A(_) => TYPE_A,
        SpecRData::AAAA(_) => TYPE_AAAA,
        SpecRData::CNAME(_) => TYPE_CNAME,
        SpecRData::MX { .. } => TYPE_MX,
        SpecRData::TXT(_) => TYPE_TXT,
        SpecRData::NS(_) => TYPE_NS,
        SpecRData::SOA { .. } => TYPE_SOA,
        SpecRData::SRV { .. } => TYPE_SRV,
        SpecRData::CAA { .. } => TYPE_CAA,
        SpecRData::OPT { .. } => TYPE_OPT,
        SpecRData::Unknown(_) => 0,
    }
}

impl RData {
    /// Returns the DNS type code for this rdata variant.
    pub fn type_code(&self) -> (res: u16)
        ensures
            res == rdata_type_code(self@),
    {
        match self {
            RData::A(_) => TYPE_A,
            RData::AAAA(_) => TYPE_AAAA,
            RData::CNAME(_) => TYPE_CNAME,
            RData::MX { .. } => TYPE_MX,
            RData::TXT(_) => TYPE_TXT,
            RData::NS(_) => TYPE_NS,
            RData::SOA { .. } => TYPE_SOA,
            RData::SRV { .. } => TYPE_SRV,
            RData::CAA { .. } => TYPE_CAA,
            RData::OPT { .. } => TYPE_OPT,
            RData::Unknown(_) => 0,
        }
    }
}

// ---------------------------------------------------------------------------
// Name normalization
// ---------------------------------------------------------------------------

/// A name in lower case (ASCII letters only) and fully qualified (ending in '.').
pub open spec fn normalized_name(s: Seq<char>) -> Seq<char> {
    let l = ascii_lower_chars(s);
    if l.len() > 0 && l.last() == '.' {
        l
    } else {
        l.push('.')
    }
}

/// Ensure a name is lowercase and FQDN (ends with '.').
pub fn normalize_name(name: &str) -> (res: String)
    ensures
        res@ == normalized_name(name@),
{
    let mut lower = str_to_ascii_lowercase(name);
    let last = last_char(lower.as_str());
    if last == Some('.') {
        lower
    } else {
        proof {
            reveal_strlit(".");
        }
        lower.append(".");
        lower
    }
}

/// Normalizing a name gives a fully qualified name with no upper-case ASCII
/// letter, and normalizing it again changes nothing.
pub proof fn lemma_normalize_name(s: Seq<char>)
    ensures
        normalized_name(s).len() > 0,
        normalized_name(s).last() == '.',
        no_ascii_upper(normalized_name(s)),
        normalized_name(normalized_name(s)) == normalized_name(s),
{
    let l = ascii_lower_chars(s);
    lemma_ascii_lower_no_upper(s);
    let n = normalized_name(s);
    assert(!is_ascii_upper('.'));
    assert forall|i: int| 0 <= i < n.len() implies !is_ascii_upper(#[trigger] n[i]) by {
        if i < l.len() {
            assert(n[i] == l[i]);
        }
    }
    assert(ascii_lower_chars(n) =~= n);
}

// ---------------------------------------------------------------------------
// Record constructors
// ---------------------------------------------------------------------------

/// The record that the constructors build: normalized owner name, class IN.
pub open spec fn record_model(name: Seq<char>, rtype: u16, ttl: u32, rdata: SpecRData) -> SpecRecord {
    SpecRecord { name: normalized_name(name), rtype, class: CLASS_IN, ttl, rdata }
}

impl Record {
    pub fn new_a(name: &str, ttl: u32, ip: [u8; 4]) -> (r: Record)
        ensures
            r@.rtype == rdata_type_code(r@.rdata),
            r@ == record_model(name@, TYPE_A, ttl, SpecRData::A(ip@)),
    {
        Record { name: normalize_name(name), rtype: TYPE_A, class: CLASS_IN, ttl, rdata: RData::A(ip) }
    }

    pub fn new_aaaa(name: &str, ttl: u32, ip: [u8; 16]) -> (r: Record)
        ensures
            r@.rtype == rdata_type_code(r@.rdata),
            r@ == record_model(name@, TYPE_AAAA, ttl, SpecRData::AAAA(ip@)),
    {
        Record {
            name: normalize_name(name),
            rtype: TYPE_AAAA,
            class: CLASS_IN,
            ttl,
            rdata: RData::AAAA(ip),
        }
    }

    pub fn new_cname(name: &str, ttl: u32, target: &str) -> (r: Record)
        ensures
            r@.rtype == rdata_type_code(r@.rdata),
            r@ == record_model(name@, TYPE_CNAME, ttl, SpecRData::CNAME(normalized_name(target@))),
    {
        Record {
            name: normalize_name(name),
            rtype: TYPE_CNAME,
            class: CLASS_IN,
            ttl,
            rdata: RData::CNAME(normalize_name(target)),
        }
    }

    pub fn new_mx(name: &str, ttl: u32, preference: u16, exchange: &str) -> (r: Record)
        ensures
            r@.rtype == rdata_type_code(r@.rdata),
            r@ == record_model(name@, TYPE_MX, ttl, (SpecRData::MX { preference, exchange: normalized_name(exchange@) })),
    {
        Record {
            name: normalize_name(name),
            rtype: TYPE_MX,
            class: CLASS_IN,
            ttl,
            rdata: RData::MX { preference, exchange: normalize_name(exchange) },
        }
    }

    pub fn new_txt(name: &str, ttl: u32, text: &str) -> (r: Record)
        ensures
            r@.rtype == rdata_type_code(r@.rdata),
            r@ == record_model(name@, TYPE_TXT, ttl, SpecRData::TXT(text@)),
    {
        Record {
            name: normalize_name(name),
            rtype: TYPE_TXT,
            class: CLASS_IN,
            ttl,
            rdata: RData::TXT(text.to_owned()),
        }
    }

    pub fn new_ns(name: &str, ttl: u32, nsdname: &str) -> (r: Record)
        ensures
            r@.rtype == rdata_type_code(r@.rdata),
            r@ == record_model(name@, TYPE_NS, ttl, SpecRData::NS(normalized_name(nsdname@))),
    {
        Record {
            name: normalize_name(name),
            rtype: TYPE_NS,
            class: CLASS_IN,
            ttl,
            rdata: RData::NS(normalize_name(nsdname)),
        }
    }

    pub fn new_soa(
        name: &str,
        ttl: u32,
        mname: &str,
        rname: &str,
        serial: u32,
        refresh: u32,
        retry: u32,
        expire: u32,
        minimum: u32,
    ) -> (r: Record)
        ensures
            r@.rtype == rdata_type_code(r@.rdata),
            r@ == record_model(name@, TYPE_SOA, ttl, (SpecRData::SOA {
                    mname: normalized_name(mname@),
                    rname: normalized_name(rname@),
                    serial,
                    refresh,
                    retry,
                    expire,
                    minimum,
                })),
    {
        Record {
            name: normalize_name(name),
            rtype: TYPE_SOA,
            class: CLASS_IN,
            ttl,
            rdata: RData::SOA {
                mname: normalize_name(mname),
                rname: normalize_name(rname),
                serial,
                refresh,
                retry,
                expire,
                minimum,
            },
        }
    }

    pub fn new_srv(name: &str, ttl: u32, priority: u16, weight: u16, port: u16, target: &str) -> (r:
        Record)
        ensures
            r@.rtype == rdata_type_code(r@.rdata),
            r@ == record_model(name@, TYPE_SRV, ttl, (SpecRData::SRV { priority, weight, port, target: normalized_name(target@) })),
    {
        Record {
            name: normalize_name(name),
            rtype: TYPE_SRV,
            class: CLASS_IN,
            ttl,
            rdata: RData::SRV { priority, weight, port, target: normalize_name(target) },
        }
    }

    pub fn new_caa(name: &str, ttl: u32, flags: u8, tag: &str, value: &str) -> (r: Record)
        ensures
            r@.rtype == rdata_type_code(r@.rdata),
            r@ == record_model(name@, TYPE_CAA, ttl, (SpecRData::CAA { flags, tag: tag@, value: value@ })),
    {
        Record {
            name: normalize_name(name),
            rtype: TYPE_CAA,
            class: CLASS_IN,
            ttl,
            rdata: RData::CAA { flags, tag: tag.to_owned(), value: value.to_owned() },
        }
    }
}

// ---------------------------------------------------------------------------
// Message API
// ---------------------------------------------------------------------------

/// The EDNS0 UDP payload size announced by the first OPT-typed record of `rs`:
/// its `udp_size` when its data is OPT data, its class otherwise.
pub open spec fn first_opt_udp_size(rs: Seq<SpecRecord>) -> Option<u16>
    decreases rs.len(),
{
    if rs.len() == 0 {
        None
    } else if rs[0].rtype == TYPE_OPT {
        match rs[0].rdata {
            SpecRData::OPT { udp_size } => Some(udp_size),
            _ => Some(rs[0].class),
        }
    } else {
        first_opt_udp_size(rs.drop_first())
    }
}

/// A section announces an EDNS0 UDP payload size exactly when it holds an
/// OPT-typed record.
pub proof fn lemma_opt_size_iff_opt_record(rs: Seq<SpecRecord>)
    ensures
        first_opt_udp_size(rs) is Some <==> exists|i: int|
            0 <= i < rs.len() && #[trigger] rs[i].rtype == TYPE_OPT,
    decreases rs.len(),
{
    if rs.len() > 0 && rs[0].rtype != TYPE_OPT {
        lemma_opt_size_iff_opt_record(rs.drop_first());
        if exists|i: int| 0 <= i < rs.len() && #[trigger] rs[i].rtype == TYPE_OPT {
            let i = choose|i: int| 0 <= i < rs.len() && #[trigger] rs[i].rtype == TYPE_OPT;
            assert(rs.drop_first()[i - 1].rtype == TYPE_OPT);
        }
        if exists|i: int| 0 <= i < rs.len() - 1 && #[trigger] rs.drop_first()[i].rtype == TYPE_OPT {
            let i = choose|i: int| 0 <= i < rs.len() - 1 && #[trigger] rs.drop_first()[i].rtype
                == TYPE_OPT;
            assert(rs[i + 1].rtype == TYPE_OPT);
        }
    } else if rs.len() > 0 {
        assert(rs[0].rtype == TYPE_OPT);
    }
}

/// A message announces an EDNS0 UDP payload size (`edns_udp_size` is `Some`)
/// exactly when it carries EDNS0 (`has_edns`).
pub proof fn lemma_edns_size_iff_has_edns(m: Message)
    ensures
        first_opt_udp_size(m@.additional) is Some <==> exists|i: int|
            0 <= i < m.additional@.len() && #[trigger] m.additional@[i].rtype == TYPE_OPT,
{
    let rs = m@.additional;
    lemma_opt_size_iff_opt_record(rs);
    assert forall|i: int| 0 <= i < m.additional@.len() implies #[trigger] m.additional@[i].rtype
        == rs[i].rtype by {}
    if exists|i: int| 0 <= i < rs.len() && #[trigger] rs[i].rtype == TYPE_OPT {
        let i = choose|i: int| 0 <= i < rs.len() && #[trigger] rs[i].rtype == TYPE_OPT;
        assert(m.additional@[i].rtype == TYPE_OPT);
    }
    if exists|i: int| 0 <= i < m.additional@.len() && #[trigger] m.additional@[i].rtype == TYPE_OPT {
        let i = choose|i: int| 0 <= i < m.additional@.len() && #[trigger] m.additional@[i].rtype
            == TYPE_OPT;
        assert(rs[i].rtype == TYPE_OPT);
    }
}

/// Once an OPT record advertising `udp_size` is added to a section that had
/// none, the section announces `udp_size`.
pub proof fn lemma_add_edns_size(rs: Seq<SpecRecord>, udp_size: u16)
    requires
        first_opt_udp_size(rs) is None,
    ensures
        first_opt_udp_size(rs.push(opt_record(udp_size))) == Some(udp_size),
    decreases rs.len(),
{
    if rs.len() > 0 {
        assert(rs.push(opt_record(udp_size)).drop_first() =~= rs.drop_first().push(
            opt_record(udp_size),
        ));
        lemma_add_edns_size(rs.drop_first(), udp_size);
    } else {
        assert(rs.push(opt_record(udp_size)) =~= seq![opt_record(udp_size)]);
    }
}

/// The OPT record that advertises a UDP payload size.
pub open spec fn opt_record(udp_size: u16) -> SpecRecord {
    SpecRecord {
        name: seq!['.'],
        rtype: TYPE_OPT,
        class: udp_size,
        ttl: 0,
        rdata: SpecRData::OPT { udp_size },
    }
}

/// The header of the response skeleton for a query header and question count.
pub open spec fn response_header(q: Header, qdcount: nat) -> Header {
    Header {
        id: q.id,
        qr: true,
        opcode: q.opcode,
        aa: true,
        tc: false,
        rd: q.rd,
        ra: false,
        rcode: RCODE_NOERROR,
        qdcount: qdcount as u16,
        ancount: 0,
        nscount: 0,
        arcount: 0,
    }
}

/// The response skeleton for a query.
pub open spec fn response_skeleton(query: SpecMessage) -> SpecMessage {
    SpecMessage {
        header: response_header(query.header, query.questions.len()),
        questions: query.questions,
        answers: seq![],
        authority: seq![],
        additional: seq![],
    }
}

impl Message {
    /// Create a response skeleton from a query. Copies the ID, sets QR=1, AA=1,
    /// copies RD from the query, and copies the question section.
    pub fn new_response(query: &Message) -> (res: Message)
        ensures
            res@ == response_skeleton(query@),
    {
        let questions = copy_questions(&query.questions);
        assert(query@.questions.len() == query.questions@.len());
        let res = Message {
            header: Header {
                id: query.header.id,
                qr: true,
                opcode: query.header.opcode,
                aa: true,
                tc: false,
                rd: query.header.rd,
                ra: false,
                rcode: RCODE_NOERROR,
                qdcount: query.questions.len() as u16,
                ancount: 0,
                nscount: 0,
                arcount: 0,
            },
            questions,
            answers: Vec::new(),
            authority: Vec::new(),
            additional: Vec::new(),
        };
        assert(res@.answers =~= seq![]);
        assert(res@.authority =~= seq![]);
        assert(res@.additional =~= seq![]);
        res
    }

    /// Set the response code.
    pub fn set_rcode(&mut self, rcode: u8)
        ensures
            final(self)@ == (SpecMessage {
                header: Header { rcode, ..old(self)@.header },
                ..old(self)@
            }),
    {
        self.header.rcode = rcode;
    }

    /// Check if the query contains an EDNS0 OPT record.
    pub fn has_edns(&self) -> (res: bool)
        ensures
            res == exists|i: int| 0 <= i < self.additional@.len() && #[trigger] self.additional@[i].rtype
                == TYPE_OPT,
    {
        let mut i: usize = 0;
        while i < self.additional.len()
            invariant
                i <= self.additional@.len(),
                forall|j: int| 0 <= j < i ==> #[trigger] self.additional@[j].rtype != TYPE_OPT,
            decreases self.additional.len() - i,
        {
            if self.additional[i].rtype == TYPE_OPT {
                return true;
            }
            i = i + 1;
        }
        false
    }

    /// Get the EDNS0 UDP payload size from the query, if present.
    pub fn edns_udp_size(&self) -> (res: Option<u16>)
        ensures
            res == first_opt_udp_size(self@.additional),
    {
        let mut i: usize = 0;
        assert(self@.additional.subrange(0, self@.additional.len() as int) =~= self@.additional);
        while i < self.additional.len()
            invariant
                i <= self@.additional.len(),
                self@.additional.len() == self.additional@.len(),
                first_opt_udp_size(self@.additional) == first_opt_udp_size(
                    self@.additional.subrange(i as int, self@.additional.len() as int),
                ),
            decreases self.additional.len() - i,
        {
            let ghost rest = self@.additional.subrange(i as int, self@.additional.len() as int);
            let r = &self.additional[i];
            if r.rtype == TYPE_OPT {
                match &r.rdata {
                    RData::OPT { udp_size } => {
                        return Some(*udp_size);
                    },
                    _ => {
                        return Some(r.class);
                    },
                }
            }
            i = i + 1;
            assert(rest.drop_first() =~= self@.additional.subrange(
                i as int,
                self@.additional.len() as int,
            ));
        }
        None
    }

    /// Add an EDNS0 OPT record to the additional section advertising the given
    /// UDP payload size.
    pub fn add_edns(&mut self, udp_size: u16)
        ensures
            final(self)@ == (SpecMessage {
                additional: old(self)@.additional.push(opt_record(udp_size)),
                ..old(self)@
            }),
    {
        proof {
            reveal_strlit(".");
        }
        let name = ".".to_owned();
        assert(name@ =~= seq!['.']);
        let rec = Record { name, rtype: TYPE_OPT, class: udp_size, ttl: 0, rdata: RData::OPT { udp_size } };
        assert(rec@ == opt_record(udp_size));
        self.additional.push(rec);
        assert(records_view(self.additional@) =~= records_view(old(self).additional@).push(
            opt_record(udp_size),
        ));
    }
}

} // verus!
