//! Encoding DNS messages into wire format, with name compression.
use vstd::prelude::*;
use vstd::utf8::*;
use crate::dns::{
    Header, Question, RData, Record, Message, SpecQuestion, SpecRData, SpecRecord, SpecMessage,
    questions_view, records_view, TYPE_OPT,
};
use crate::text::{ascii_lower_byte, ascii_lower_bytes, lower_copy};

verus! {

// ---------------------------------------------------------------------------
// Specification of the encoder
// ---------------------------------------------------------------------------

/// Big-endian bytes of a 16-bit integer.
pub open spec fn be16(v: u16) -> Seq<u8> {
    seq![(v / 256) as u8, (v % 256) as u8]
}

/// Big-endian bytes of a 32-bit integer.
pub open spec fn be32(v: u32) -> Seq<u8> {
    seq![(v / 16777216) as u8, ((v / 65536) % 256) as u8, ((v / 256) % 256) as u8, (v % 256) as u8]
}

/// A compression table: lower-cased name suffixes and the offsets where they
/// were written.
pub type Table = Seq<(Seq<u8>, u16)>;

/// Offset recorded for `key` (the first entry with that key).
pub open spec fn table_lookup(t: Table, key: Seq<u8>) -> Option<u16>
    decreases t.len(),
{
    if t.len() == 0 {
        None
    } else if t[0].0 == key {
        Some(t[0].1)
    } else {
        table_lookup(t.drop_first(), key)
    }
}

/// Every recorded offset fits in a compression pointer.
pub open spec fn table_wf(t: Table) -> bool {
    forall|i: int| 0 <= i < t.len() ==> #[trigger] t[i].1 < 0x3FFF
}

/// The two bytes of a compression pointer to `off`.
pub open spec fn pointer_bytes(off: u16) -> Seq<u8> {
    be16((0xC000 + off) as u16)
}

/// The first position at or after `i` holding a dot, or the length of `s`.
pub open spec fn next_dot(s: Seq<u8>, i: nat) -> nat
    decreases s.len() - i,
{
    if i >= s.len() {
        s.len()
    } else if s[i as int] == 0x2E {
        i
    } else {
        next_dot(s, i + 1)
    }
}

/// The name without one trailing dot.
pub open spec fn name_body(nb: Seq<u8>) -> Seq<u8> {
    if nb.len() > 0 && nb.last() == 0x2E {
        nb.drop_last()
    } else {
        nb
    }
}

/// Bytes written for the labels of `s` from position `start` when the buffer
/// already holds `off` bytes, and the resulting table. A suffix that is
/// already in the table is written as a pointer; each suffix written out at an
/// offset that fits a pointer is recorded.
pub open spec fn labels_bytes(off: nat, s: Seq<u8>, start: nat, t: Table) -> (Seq<u8>, Table)
    decreases s.len() - start,
{
    let key = ascii_lower_bytes(s.subrange(start as int, s.len() as int));
    match table_lookup(t, key) {
        Some(o) => (pointer_bytes(o), t),
        None => {
            let t2 = if off < 0x3FFF {
                t.push((key, off as u16))
            } else {
                t
            };
            let end = next_dot(s, start);
            let label = s.subrange(start as int, end as int);
            let head = seq![(label.len() % 256) as u8] + label;
            if end >= s.len() || end < start {
                (head.push(0), t2)
            } else {
                let (rest, t3) = labels_bytes(off + head.len(), s, end + 1, t2);
                (head + rest, t3)
            }
        },
    }
}

/// Bytes written for the name whose UTF-8 encoding is `nb`.
pub open spec fn name_bytes(off: nat, nb: Seq<u8>, t: Table) -> (Seq<u8>, Table) {
    let s = name_body(nb);
    if s.len() == 0 {
        (seq![0], t)
    } else {
        labels_bytes(off, s, 0, t)
    }
}

/// A name on the wire, label by label: the root is a single zero byte. From a
/// label on, a suffix written before (its lower-cased bytes are in the table,
/// at an offset below 0x3FFF) is two bytes, 0xC0 plus the high six bits of the
/// offset, then its low byte. Otherwise the label is its length byte followed
/// by its bytes, and then comes a zero byte after the last label or the rest
/// of the name; the suffix is recorded at the current offset when that fits a
/// pointer.
pub proof fn lemma_name_layout(off: nat, s: Seq<u8>, start: nat, t: Table)
    requires
        table_wf(t),
        start < s.len(),
    ensures
        name_bytes(off, seq![], t).0 == seq![0u8],
        name_bytes(off, seq![0x2Eu8], t).0 == seq![0u8],
        ({
            let key = ascii_lower_bytes(s.subrange(start as int, s.len() as int));
            let (b, t2) = labels_bytes(off, s, start, t);
            match table_lookup(t, key) {
                Some(o) => {
                    &&& o < 0x3FFF
                    &&& b == seq![(0xC0 + o / 256) as u8, (o % 256) as u8]
                    &&& t2 == t
                },
                None => {
                    let end = next_dot(s, start);
                    let len = end - start;
                    let rec = if off < 0x3FFF { t.push((key, off as u16)) } else { t };
                    &&& start <= end <= s.len()
                    &&& len < 256 ==> b[0] == len
                    &&& b.subrange(1, 1 + len) == s.subrange(start as int, end as int)
                    &&& end == s.len() ==> b.len() == 2 + len && b[1 + len] == 0 && t2 == rec
                    &&& end < s.len() ==> b.subrange(1 + len, b.len() as int) == labels_bytes(
                        (off + 1 + len) as nat,
                        s,
                        end + 1,
                        rec,
                    ).0
                },
            }
        }),
{
    assert(name_body(seq![0x2Eu8]) =~= Seq::<u8>::empty());
    let key = ascii_lower_bytes(s.subrange(start as int, s.len() as int));
    let (b, t2) = labels_bytes(off, s, start, t);
    match table_lookup(t, key) {
        Some(o) => {
            lemma_lookup_wf(t, key);
            let v = (0xC000 + o) as u16;
            assert(v / 256 == 0xC0 + o / 256 && v % 256 == o % 256);
        },
        None => {
            lemma_next_dot_bounds(s, start);
            let end = next_dot(s, start);
            let label = s.subrange(start as int, end as int);
            let head = seq![(label.len() % 256) as u8] + label;
            let len = end - start;
            assert(b.subrange(1, 1 + len) =~= label);
            if end < s.len() {
                let rec = if off < 0x3FFF { t.push((key, off as u16)) } else { t };
                assert(b.subrange(1 + len, b.len() as int) =~= labels_bytes(
                    off + head.len(),
                    s,
                    end + 1,
                    rec,
                ).0);
            }
        },
    }
}

proof fn lemma_next_dot_bounds(s: Seq<u8>, i: nat)
    requires
        i <= s.len(),
    ensures
        i <= next_dot(s, i) <= s.len(),
    decreases s.len() - i,
{
    if i < s.len() && s[i as int] != 0x2E {
        lemma_next_dot_bounds(s, i + 1);
    }
}

// ---------------------------------------------------------------------------
// Byte helpers
// ---------------------------------------------------------------------------

fn push_u16(buf: &mut Vec<u8>, v: u16)
    ensures
        final(buf)@ == old(buf)@ + be16(v),
{
    buf.push((v / 256) as u8);
    buf.push((v % 256) as u8);
    assert(buf@ =~= old(buf)@ + be16(v));
}

fn push_u32(buf: &mut Vec<u8>, v: u32)
    ensures
        final(buf)@ == old(buf)@ + be32(v),
{
    buf.push((v / 16777216) as u8);
    buf.push(((v / 65536) % 256) as u8);
    buf.push(((v / 256) % 256) as u8);
    buf.push((v % 256) as u8);
    assert(buf@ =~= old(buf)@ + be32(v));
}

fn push_slice(buf: &mut Vec<u8>, s: &[u8])
    ensures
        final(buf)@ == old(buf)@ + s@,
{
    let mut i: usize = 0;
    while i < s.len()
        invariant
            i <= s@.len(),
            buf@ == old(buf)@ + s@.subrange(0, i as int),
        decreases s.len() - i,
    {
        buf.push(s[i]);
        i = i + 1;
        assert(buf@ =~= old(buf)@ + s@.subrange(0, i as int));
    }
    assert(s@.subrange(0, s@.len() as int) =~= s@);
}

/// Equality of two byte vectors.
fn bytes_eq(a: &Vec<u8>, b: &Vec<u8>) -> (res: bool)
    ensures
        res == (a@ == b@),
{
    if a.len() != b.len() {
        return false;
    }
    let mut i: usize = 0;
    while i < a.len()
        invariant
            a@.len() == b@.len(),
            i <= a@.len(),
            forall|j: int| 0 <= j < i ==> a@[j] == b@[j],
        decreases a.len() - i,
    {
        if a[i] != b[i] {
            return false;
        }
        i = i + 1;
    }
    assert(a@ =~= b@);
    true
}


// ---------------------------------------------------------------------------
// Compression table
// ---------------------------------------------------------------------------

/// Name suffixes written so far (lower-cased) and where they were written.
pub struct CompressionMap {
    entries: Vec<(Vec<u8>, u16)>,
}

impl View for CompressionMap {
    type V = Table;

    closed spec fn view(&self) -> Table {
        self.entries@.map_values(|e: (Vec<u8>, u16)| (e.0@, e.1))
    }
}

impl CompressionMap {
    /// Every recorded offset fits in a compression pointer.
    #[verifier::type_invariant]
    spec fn wf(&self) -> bool {
        table_wf(self@)
    }

    pub fn new() -> (res: CompressionMap)
        ensures
            res@ == Seq::<(Seq<u8>, u16)>::empty(),
    {
        let res = CompressionMap { entries: Vec::new() };
        assert(res@ =~= Seq::<(Seq<u8>, u16)>::empty());
        res
    }

    pub fn get(&self, key: &Vec<u8>) -> (res: Option<u16>)
        ensures
            res == table_lookup(self@, key@),
    {
        let mut i: usize = 0;
        assert(self@.subrange(0, self@.len() as int) =~= self@);
        while i < self.entries.len()
            invariant
                i <= self.entries@.len(),
                self@.len() == self.entries@.len(),
                table_lookup(self@, key@) == table_lookup(
                    self@.subrange(i as int, self@.len() as int),
                    key@,
                ),
            decreases self.entries.len() - i,
        {
            let ghost rest = self@.subrange(i as int, self@.len() as int);
            assert(rest[0] == (self.entries@[i as int].0@, self.entries@[i as int].1));
            if bytes_eq(&self.entries[i].0, key) {
                return Some(self.entries[i].1);
            }
            i = i + 1;
            assert(rest.drop_first() =~= self@.subrange(i as int, self@.len() as int));
        }
        None
    }

    /// Records that the suffix `key` was written at `off`, which must fit in
    /// a compression pointer.
    pub fn insert(&mut self, key: Vec<u8>, off: u16)
        requires
            off < 0x3FFF,
        ensures
            final(self)@ == old(self)@.push((key@, off)),
    {
        proof {
            use_type_invariant(&*self);
        }
        let mut entries: Vec<(Vec<u8>, u16)> = Vec::new();
        std::mem::swap(&mut entries, &mut self.entries);
        let ghost before = entries@.map_values(|e: (Vec<u8>, u16)| (e.0@, e.1));
        assert(before == old(self)@);
        entries.push((key, off));
        let ghost after = entries@.map_values(|e: (Vec<u8>, u16)| (e.0@, e.1));
        assert(after =~= before.push((key@, off)));
        proof {
            lemma_table_wf_push(before, key@, off);
        }
        self.entries = entries;
        assert(self@ =~= old(self)@.push((key@, off)));
    }
}


// ---------------------------------------------------------------------------
// Names
// ---------------------------------------------------------------------------

proof fn lemma_lookup_wf(t: Table, key: Seq<u8>)
    requires
        table_wf(t),
    ensures
        table_lookup(t, key) matches Some(o) ==> o < 0x3FFF,
    decreases t.len(),
{
    if t.len() > 0 {
        assert(t[0].1 < 0x3FFF);
        assert forall|i: int| 0 <= i < t.drop_first().len() implies #[trigger] t.drop_first()[i].1
            < 0x3FFF by {
            assert(t.drop_first()[i] == t[i + 1]);
        }
        lemma_lookup_wf(t.drop_first(), key);
    }
}

pub proof fn lemma_table_wf_push(t: Table, key: Seq<u8>, off: u16)
    requires
        table_wf(t),
        off < 0x3FFF,
    ensures
        table_wf(t.push((key, off))),
{
    assert forall|i: int| 0 <= i < t.push((key, off)).len() implies #[trigger] t.push(
        (key, off),
    )[i].1 < 0x3FFF by {
        if i < t.len() {
            assert(t.push((key, off))[i] == t[i]);
        }
    }
}

/// Write a DNS name with compression. The `compression` map tracks
/// previously written name suffixes and their offsets.
#[verifier::spinoff_prover]
pub fn write_name(buf: &mut Vec<u8>, name: &str, compression: &mut CompressionMap)
    ensures
        final(buf)@ == old(buf)@ + name_bytes(
            old(buf)@.len(),
            encode_utf8(name@),
            old(compression)@,
        ).0,
        final(compression)@ == name_bytes(
            old(buf)@.len(),
            encode_utf8(name@),
            old(compression)@,
        ).1,
        table_wf(final(compression)@),
{
    proof {
        use_type_invariant(&*compression);
    }
    let bytes = name.as_bytes();
    let mut n = bytes.len();
    if n > 0 && bytes[n - 1] == 0x2E {
        n = n - 1;
    }
    let ghost s = bytes@.subrange(0, n as int);
    assert(s =~= name_body(bytes@));
    if n == 0 {
        buf.push(0);
        assert(buf@ =~= old(buf)@ + seq![0u8]);
        return ;
    }
    let ghost off0 = buf@.len();
    let ghost t0 = compression@;
    let mut start: usize = 0;
    assert(buf@.subrange(off0 as int, buf@.len() as int) + labels_bytes(
        buf@.len(),
        s,
        0,
        compression@,
    ).0 =~= labels_bytes(off0, s, 0, t0).0);
    loop
        invariant
            start <= n <= bytes@.len(),
            0 < n,
            s == bytes@.subrange(0, n as int),
            s == name_body(encode_utf8(name@)),
            table_wf(compression@),
            off0 <= buf@.len(),
            buf@.subrange(0, off0 as int) == old(buf)@,
            off0 == old(buf)@.len(),
            t0 == old(compression)@,
            labels_bytes(off0, s, 0, t0).0 == buf@.subrange(off0 as int, buf@.len() as int)
                + labels_bytes(buf@.len(), s, start as nat, compression@).0,
            labels_bytes(off0, s, 0, t0).1 == labels_bytes(
                buf@.len(),
                s,
                start as nat,
                compression@,
            ).1,
        decreases n - start,
    {
        let key = lower_copy(bytes, start, n);
        assert(bytes@.subrange(start as int, n as int) =~= s.subrange(start as int, s.len() as int));
        let ghost off = buf@.len();
        let ghost t = compression@;
        let ghost prefix = buf@.subrange(off0 as int, buf@.len() as int);
        match compression.get(&key) {
            Some(ptr) => {
                proof {
                    lemma_lookup_wf(compression@, key@);
                }
                push_u16(buf, 0xC000 + ptr);
                assert(buf@.subrange(off0 as int, buf@.len() as int) =~= prefix + pointer_bytes(
                    ptr,
                ));
                assert(buf@ =~= old(buf)@ + buf@.subrange(off0 as int, buf@.len() as int));
                return ;
            },
            None => {},
        }
        let current = buf.len();
        if current < 0x3FFF {
            proof {
                lemma_table_wf_push(compression@, key@, current as u16);
            }
            compression.insert(key, current as u16);
        }
        let mut end = start;
        while end < n && bytes[end] != 0x2E
            invariant
                start <= end <= n <= bytes@.len(),
                s == bytes@.subrange(0, n as int),
                next_dot(s, start as nat) == next_dot(s, end as nat),
            decreases n - end,
        {
            end = end + 1;
        }
        let label_len = end - start;
        buf.push((label_len % 256) as u8);
        push_slice(buf, &bytes[start..end]);
        assert(bytes@.subrange(start as int, end as int) =~= s.subrange(start as int, end as int));
        if end >= n {
            buf.push(0);
            assert(buf@.subrange(off0 as int, buf@.len() as int) =~= prefix + labels_bytes(
                off,
                s,
                start as nat,
                t,
            ).0);
            assert(buf@ =~= old(buf)@ + buf@.subrange(off0 as int, buf@.len() as int));
            return ;
        }
        let ghost head = buf@.subrange(off as int, buf@.len() as int);
        assert(buf@.subrange(off0 as int, buf@.len() as int) =~= prefix + head);
        start = end + 1;
        assert(prefix + (head + labels_bytes(buf@.len(), s, start as nat, compression@).0) =~= (
        prefix + head) + labels_bytes(buf@.len(), s, start as nat, compression@).0);
    }
}


// ---------------------------------------------------------------------------
// Record data, records, questions and headers
// ---------------------------------------------------------------------------

/// TXT character strings: the text cut into pieces of at most 255 bytes, each
/// preceded by its length.
pub open spec fn txt_chunks(b: Seq<u8>) -> Seq<u8>
    decreases b.len(),
{
    if b.len() == 0 {
        seq![]
    } else {
        let n = if b.len() < 255 {
            b.len()
        } else {
            255
        };
        seq![n as u8] + b.subrange(0, n as int) + txt_chunks(b.subrange(n as int, b.len() as int))
    }
}

/// TXT record data; empty text is a single empty character string.
pub open spec fn txt_bytes(b: Seq<u8>) -> Seq<u8> {
    if b.len() == 0 {
        seq![0]
    } else {
        txt_chunks(b)
    }
}

/// TXT data on the wire: character strings of at most 255 bytes, each its
/// length byte then its bytes, the text cut into 255-byte pieces with the
/// remainder last; empty text is one empty string (a single zero byte).
pub proof fn lemma_txt_layout(b: Seq<u8>)
    ensures
        txt_bytes(seq![]) == seq![0u8],
        b.len() > 0 ==> ({
            let n: int = if b.len() < 255 { b.len() as int } else { 255 };
            let w = txt_bytes(b);
            &&& w[0] == n
            &&& w.subrange(1, 1 + n) == b.subrange(0, n)
            &&& w.subrange(1 + n, w.len() as int) == txt_chunks(b.subrange(n, b.len() as int))
        }),
{
    if b.len() > 0 {
        let n: int = if b.len() < 255 { b.len() as int } else { 255 };
        let w = txt_bytes(b);
        assert(w.subrange(1, 1 + n) =~= b.subrange(0, n));
        assert(w.subrange(1 + n, w.len() as int) =~= txt_chunks(b.subrange(n, b.len() as int)));
    }
}

/// Bytes of the record data `rd` when the buffer holds `off` bytes, and the
/// resulting table.
pub open spec fn rdata_bytes(off: nat, rd: SpecRData, t: Table) -> (Seq<u8>, Table) {
    match rd {
        SpecRData::A(ip) => (ip, t),
        SpecRData::AAAA(ip) => (ip, t),
        SpecRData::CNAME(n) => name_bytes(off, encode_utf8(n), t),
        SpecRData::NS(n) => name_bytes(off, encode_utf8(n), t),
        SpecRData::MX { preference, exchange } => {
            let (nb, t1) = name_bytes(off + 2, encode_utf8(exchange), t);
            (be16(preference) + nb, t1)
        },
        SpecRData::TXT(text) => (txt_bytes(encode_utf8(text)), t),
        SpecRData::SOA { mname, rname, serial, refresh, retry, expire, minimum } => {
            let (mb, t1) = name_bytes(off, encode_utf8(mname), t);
            let (rb, t2) = name_bytes(off + mb.len(), encode_utf8(rname), t1);
            (
                mb + rb + be32(serial) + be32(refresh) + be32(retry) + be32(expire) + be32(
                    minimum,
                ),
                t2,
            )
        },
        SpecRData::SRV { priority, weight, port, target } => {
            let (nb, t1) = name_bytes(off + 6, encode_utf8(target), t);
            (be16(priority) + be16(weight) + be16(port) + nb, t1)
        },
        SpecRData::CAA { flags, tag, value } => {
            let tb = encode_utf8(tag);
            (seq![flags, (tb.len() % 256) as u8] + tb + encode_utf8(value), t)
        },
        SpecRData::OPT { .. } => (seq![], t),
        SpecRData::Unknown(d) => (d, t),
    }
}

/// SRV record data on the wire: priority, weight and port, each as two
/// big-endian bytes at offsets 0, 2 and 4, then the target name.
pub proof fn lemma_srv_rdata_layout(
    off: nat,
    priority: u16,
    weight: u16,
    port: u16,
    target: Seq<char>,
    t: Table,
)
    ensures
        ({
            let b = rdata_bytes(off, SpecRData::SRV { priority, weight, port, target }, t).0;
            &&& b.len() >= 6
            &&& b[0] == (priority / 256) as u8
            &&& b[1] == (priority % 256) as u8
            &&& b[2] == (weight / 256) as u8
            &&& b[3] == (weight % 256) as u8
            &&& b[4] == (port / 256) as u8
            &&& b[5] == (port % 256) as u8
            &&& b.subrange(6, b.len() as int) == name_bytes(off + 6, encode_utf8(target), t).0
        }),
{
    let b = rdata_bytes(off, SpecRData::SRV { priority, weight, port, target }, t).0;
    let nb = name_bytes(off + 6, encode_utf8(target), t).0;
    assert(b == seq![(priority / 256) as u8, (priority % 256) as u8] + seq![
        (weight / 256) as u8,
        (weight % 256) as u8,
    ] + seq![(port / 256) as u8, (port % 256) as u8] + nb);
    assert(b.subrange(6, b.len() as int) =~= nb);
}

/// MX record data on the wire: the preference as two big-endian bytes, then
/// the exchange name.
pub proof fn lemma_mx_rdata_layout(off: nat, preference: u16, exchange: Seq<char>, t: Table)
    ensures
        ({
            let b = rdata_bytes(off, SpecRData::MX { preference, exchange }, t).0;
            &&& b.len() >= 2
            &&& b[0] == (preference / 256) as u8
            &&& b[1] == (preference % 256) as u8
            &&& b.subrange(2, b.len() as int) == name_bytes(off + 2, encode_utf8(exchange), t).0
        }),
{
    let b = rdata_bytes(off, SpecRData::MX { preference, exchange }, t).0;
    let nb = name_bytes(off + 2, encode_utf8(exchange), t).0;
    assert(b.subrange(2, b.len() as int) =~= nb);
}

/// SOA record data on the wire: the primary name server and the mailbox
/// names, then serial, refresh, retry, expire and minimum, each as four
/// big-endian bytes, in that order, as the last twenty bytes.
pub proof fn lemma_soa_rdata_layout(
    off: nat,
    mname: Seq<char>,
    rname: Seq<char>,
    serial: u32,
    refresh: u32,
    retry: u32,
    expire: u32,
    minimum: u32,
    t: Table,
)
    ensures
        ({
            let b = rdata_bytes(
                off,
                SpecRData::SOA { mname, rname, serial, refresh, retry, expire, minimum },
                t,
            ).0;
            let (mb, t1) = name_bytes(off, encode_utf8(mname), t);
            let rb = name_bytes(off + mb.len(), encode_utf8(rname), t1).0;
            let n: int = mb.len() + rb.len() as int;
            &&& b.len() == n + 20
            &&& b.subrange(0, mb.len() as int) == mb
            &&& b.subrange(mb.len() as int, n) == rb
            &&& b[n + 0] == (serial / 16777216) as u8
            &&& b[n + 3] == (serial % 256) as u8
            &&& b[n + 4] == (refresh / 16777216) as u8
            &&& b[n + 5] == ((refresh / 65536) % 256) as u8
            &&& b[n + 6] == ((refresh / 256) % 256) as u8
            &&& b[n + 7] == (refresh % 256) as u8
            &&& b[n + 8] == (retry / 16777216) as u8
            &&& b[n + 9] == ((retry / 65536) % 256) as u8
            &&& b[n + 10] == ((retry / 256) % 256) as u8
            &&& b[n + 11] == (retry % 256) as u8
            &&& b[n + 12] == (expire / 16777216) as u8
            &&& b[n + 15] == (expire % 256) as u8
            &&& b[n + 16] == (minimum / 16777216) as u8
            &&& b[n + 19] == (minimum % 256) as u8
        }),
{
    let b = rdata_bytes(
        off,
        SpecRData::SOA { mname, rname, serial, refresh, retry, expire, minimum },
        t,
    ).0;
    let (mb, t1) = name_bytes(off, encode_utf8(mname), t);
    let rb = name_bytes(off + mb.len(), encode_utf8(rname), t1).0;
    let n: int = mb.len() + rb.len() as int;
    let tail = be32(serial) + (be32(refresh) + (be32(retry) + (be32(expire) + be32(minimum))));
    assert(b =~= mb + rb + tail);
    assert(b.subrange(0, mb.len() as int) =~= mb);
    assert(b.subrange(mb.len() as int, n) =~= rb);
    assert forall|i: int| 0 <= i < 20 implies b[n + i] == #[trigger] tail[i] by {}
}

/// CAA record data on the wire: the flags byte, the tag length, the tag, then
/// the value.
pub proof fn lemma_caa_rdata_layout(off: nat, flags: u8, tag: Seq<char>, value: Seq<char>, t: Table)
    requires
        encode_utf8(tag).len() <= 255,
    ensures
        ({
            let b = rdata_bytes(off, SpecRData::CAA { flags, tag, value }, t).0;
            let tb = encode_utf8(tag);
            &&& b.len() == 2 + tb.len() + encode_utf8(value).len()
            &&& b[0] == flags
            &&& b[1] == tb.len()
            &&& b.subrange(2, 2 + tb.len() as int) == tb
            &&& b.subrange(2 + tb.len() as int, b.len() as int) == encode_utf8(value)
        }),
{
    let b = rdata_bytes(off, SpecRData::CAA { flags, tag, value }, t).0;
    let tb = encode_utf8(tag);
    assert(b.subrange(2, 2 + tb.len() as int) =~= tb);
    assert(b.subrange(2 + tb.len() as int, b.len() as int) =~= encode_utf8(value));
}

/// Bytes of a resource record when the buffer holds `off` bytes, and the
/// resulting table. OPT records carry the root name, the UDP payload size as
/// class and no data.
pub open spec fn record_bytes(off: nat, r: SpecRecord, t: Table) -> (Seq<u8>, Table) {
    if r.rtype == TYPE_OPT {
        let class = match r.rdata {
            SpecRData::OPT { udp_size } => udp_size,
            _ => r.class,
        };
        (seq![0u8] + be16(TYPE_OPT) + be16(class) + be32(r.ttl) + be16(0), t)
    } else {
        let (nb, t1) = name_bytes(off, encode_utf8(r.name), t);
        let fixed = be16(r.rtype) + be16(r.class) + be32(r.ttl);
        let (rd, t2) = rdata_bytes(off + nb.len() + 10, r.rdata, t1);
        (nb + fixed + be16((rd.len() % 65536) as u16) + rd, t2)
    }
}

/// A resource record on the wire: its owner name, then type, class, TTL and
/// the length of the data as big-endian integers (two, two, four and two
/// bytes), then the data.
pub proof fn lemma_record_layout(off: nat, r: SpecRecord, t: Table)
    requires
        r.rtype != TYPE_OPT,
    ensures
        ({
            let (nb, t1) = name_bytes(off, encode_utf8(r.name), t);
            let rd = rdata_bytes(off + nb.len() + 10, r.rdata, t1).0;
            let b = record_bytes(off, r, t).0;
            let k = nb.len() as int;
            &&& b.len() == k + 10 + rd.len()
            &&& b.subrange(0, k) == nb
            &&& b[k] == (r.rtype / 256) as u8
            &&& b[k + 1] == (r.rtype % 256) as u8
            &&& b[k + 2] == (r.class / 256) as u8
            &&& b[k + 3] == (r.class % 256) as u8
            &&& b.subrange(k + 4, k + 8) == be32(r.ttl)
            &&& rd.len() < 65536 ==> b[k + 8] == (rd.len() / 256) as u8 && b[k + 9] == (rd.len()
                % 256) as u8
            &&& b.subrange(k + 10, b.len() as int) == rd
        }),
{
    let (nb, t1) = name_bytes(off, encode_utf8(r.name), t);
    let rd = rdata_bytes(off + nb.len() + 10, r.rdata, t1).0;
    let b = record_bytes(off, r, t).0;
    let k = nb.len() as int;
    let typ_class_ttl = be16(r.rtype) + (be16(r.class) + be32(r.ttl));
    let len16 = be16((rd.len() % 65536) as u16);
    assert(b =~= nb + typ_class_ttl + len16 + rd);
    assert(b.subrange(0, k) =~= nb);
    assert(b.subrange(k + 4, k + 8) =~= be32(r.ttl));
    assert(b.subrange(k + 10, b.len() as int) =~= rd);
    assert(b[k + 8] == len16[0] && b[k + 9] == len16[1]);
}

/// An OPT record on the wire: the root name (one zero byte), type 41, the UDP
/// payload size in the class field, the TTL field, and no data.
pub proof fn lemma_opt_record_layout(off: nat, r: SpecRecord, t: Table)
    requires
        r.rtype == TYPE_OPT,
    ensures
        ({
            let size = match r.rdata {
                SpecRData::OPT { udp_size } => udp_size,
                _ => r.class,
            };
            let b = record_bytes(off, r, t).0;
            &&& b.len() == 11
            &&& b[0] == 0
            &&& b[1] == 0
            &&& b[2] == 41
            &&& b[3] == (size / 256) as u8
            &&& b[4] == (size % 256) as u8
            &&& b.subrange(5, 9) == be32(r.ttl)
            &&& b[9] == 0
            &&& b[10] == 0
        }),
{
    let b = record_bytes(off, r, t).0;
    assert(b.subrange(5, 9) =~= be32(r.ttl));
}

/// Bytes of a question when the buffer holds `off` bytes, and the resulting
/// table.
pub open spec fn question_bytes(off: nat, q: SpecQuestion, t: Table) -> (Seq<u8>, Table) {
    let (nb, t1) = name_bytes(off, encode_utf8(q.name), t);
    (nb + be16(q.qtype) + be16(q.qclass), t1)
}

/// The flags word of a header.
pub open spec fn header_flags(h: Header) -> u16 {
    ((if h.qr {
        32768int
    } else {
        0
    }) + (h.opcode % 16) as int * 2048 + (if h.aa {
        1024int
    } else {
        0
    }) + (if h.tc {
        512int
    } else {
        0
    }) + (if h.rd {
        256int
    } else {
        0
    }) + (if h.ra {
        128int
    } else {
        0
    }) + (h.rcode % 16) as int) as u16
}

/// The twelve bytes of a header.
pub open spec fn header_bytes(h: Header) -> Seq<u8> {
    be16(h.id) + be16(header_flags(h)) + be16(h.qdcount) + be16(h.ancount) + be16(h.nscount)
        + be16(h.arcount)
}

/// The header on the wire: ID, then the flags (QR, opcode, AA, TC, RD in the
/// first byte from the high bit down; RA and the response code in the second),
/// then the four section counts, each as two big-endian bytes.
pub proof fn lemma_header_layout(h: Header)
    ensures
        ({
            let b = header_bytes(h);
            &&& b.len() == 12
            &&& b[0] == (h.id / 256) as u8
            &&& b[1] == (h.id % 256) as u8
            &&& b[2] == (if h.qr { 128int } else { 0 }) + (h.opcode % 16) as int * 8 + (if h.aa {
                4int
            } else {
                0
            }) + (if h.tc { 2int } else { 0 }) + (if h.rd { 1int } else { 0 })
            &&& b[3] == (if h.ra { 128int } else { 0 }) + (h.rcode % 16) as int
            &&& b[4] == (h.qdcount / 256) as u8
            &&& b[5] == (h.qdcount % 256) as u8
            &&& b[6] == (h.ancount / 256) as u8
            &&& b[7] == (h.ancount % 256) as u8
            &&& b[8] == (h.nscount / 256) as u8
            &&& b[9] == (h.nscount % 256) as u8
            &&& b[10] == (h.arcount / 256) as u8
            &&& b[11] == (h.arcount % 256) as u8
        }),
{
    let hi: int = (if h.qr { 128int } else { 0 }) + (h.opcode % 16) as int * 8 + (if h.aa {
        4int
    } else {
        0
    }) + (if h.tc { 2int } else { 0 }) + (if h.rd { 1int } else { 0 });
    let lo: int = (if h.ra { 128int } else { 0 }) + (h.rcode % 16) as int;
    assert(0 <= hi < 256 && 0 <= lo < 256);
    assert(header_flags(h) as int == hi * 256 + lo);
    assert((hi * 256 + lo) / 256 == hi && (hi * 256 + lo) % 256 == lo) by (nonlinear_arith)
        requires
            0 <= hi < 256,
            0 <= lo < 256,
    ;
}

impl Header {
    pub fn serialize(&self, buf: &mut Vec<u8>)
        ensures
            final(buf)@ == old(buf)@ + header_bytes(*self),
    {
        push_u16(buf, self.id);
        let mut flags: u16 = 0;
        if self.qr {
            flags = flags + 32768;
        }
        flags = flags + ((self.opcode % 16) as u16) * 2048;
        if self.aa {
            flags = flags + 1024;
        }
        if self.tc {
            flags = flags + 512;
        }
        if self.rd {
            flags = flags + 256;
        }
        if self.ra {
            flags = flags + 128;
        }
        flags = flags + (self.rcode % 16) as u16;
        push_u16(buf, flags);
        push_u16(buf, self.qdcount);
        push_u16(buf, self.ancount);
        push_u16(buf, self.nscount);
        push_u16(buf, self.arcount);
        assert(buf@ =~= old(buf)@ + header_bytes(*self));
    }
}

/// Writes TXT data: the text in character strings of at most 255 bytes.
fn write_txt(buf: &mut Vec<u8>, text: &str)
    ensures
        final(buf)@ == old(buf)@ + txt_bytes(encode_utf8(text@)),
{
    let bytes = text.as_bytes();
    if bytes.len() == 0 {
        buf.push(0);
        assert(buf@ =~= old(buf)@ + seq![0u8]);
        return ;
    }
    let ghost b = bytes@;
    let mut offset: usize = 0;
    assert(b.subrange(0, b.len() as int) =~= b);
    assert(old(buf)@ + txt_chunks(b) =~= buf@ + txt_chunks(b.subrange(0, b.len() as int)));
    while offset < bytes.len()
        invariant
            b == bytes@,
            offset <= b.len(),
            old(buf)@ + txt_chunks(b) == buf@ + txt_chunks(b.subrange(offset as int, b.len() as int)),
        decreases b.len() - offset,
    {
        let remaining = bytes.len() - offset;
        let chunk_len = if remaining < 255 {
            remaining
        } else {
            255
        };
        let ghost rest = b.subrange(offset as int, b.len() as int);
        let ghost before = buf@;
        buf.push(chunk_len as u8);
        push_slice(buf, &bytes[offset..offset + chunk_len]);
        assert(rest.subrange(0, chunk_len as int) =~= b.subrange(
            offset as int,
            offset + chunk_len as int,
        ));
        assert(rest.subrange(chunk_len as int, rest.len() as int) =~= b.subrange(
            offset + chunk_len as int,
            b.len() as int,
        ));
        offset = offset + chunk_len;
        assert(before + txt_chunks(rest) =~= buf@ + txt_chunks(
            b.subrange(offset as int, b.len() as int),
        ));
    }
    assert(b.subrange(offset as int, b.len() as int) =~= Seq::<u8>::empty());
    assert(buf@ + txt_chunks(Seq::<u8>::empty()) =~= buf@);
}


/// Writes record data.
#[verifier::spinoff_prover]
fn write_rdata(buf: &mut Vec<u8>, rdata: &RData, compression: &mut CompressionMap)
    ensures
        final(buf)@ == old(buf)@ + rdata_bytes(old(buf)@.len(), rdata@, old(compression)@).0,
        final(compression)@ == rdata_bytes(old(buf)@.len(), rdata@, old(compression)@).1,
        table_wf(final(compression)@),
{
    proof {
        use_type_invariant(&*compression);
    }
    match rdata {
        RData::A(ip) => {
            push_slice(buf, ip.as_slice());
        },
        RData::AAAA(ip) => {
            push_slice(buf, ip.as_slice());
        },
        RData::CNAME(name) => {
            write_name(buf, name.as_str(), compression);
        },
        RData::NS(name) => {
            write_name(buf, name.as_str(), compression);
        },
        RData::MX { preference, exchange } => {
            push_u16(buf, *preference);
            write_name(buf, exchange.as_str(), compression);
            assert(buf@ =~= old(buf)@ + rdata_bytes(old(buf)@.len(), rdata@, old(compression)@).0);
        },
        RData::TXT(text) => {
            write_txt(buf, text.as_str());
        },
        RData::SOA { mname, rname, serial, refresh, retry, expire, minimum } => {
            write_name(buf, mname.as_str(), compression);
            write_name(buf, rname.as_str(), compression);
            push_u32(buf, *serial);
            push_u32(buf, *refresh);
            push_u32(buf, *retry);
            push_u32(buf, *expire);
            push_u32(buf, *minimum);
            assert(buf@ =~= old(buf)@ + rdata_bytes(old(buf)@.len(), rdata@, old(compression)@).0);
        },
        RData::SRV { priority, weight, port, target } => {
            push_u16(buf, *priority);
            push_u16(buf, *weight);
            push_u16(buf, *port);
            write_name(buf, target.as_str(), compression);
            assert(buf@ =~= old(buf)@ + rdata_bytes(old(buf)@.len(), rdata@, old(compression)@).0);
        },
        RData::CAA { flags, tag, value } => {
            let tag_bytes = tag.as_str().as_bytes();
            buf.push(*flags);
            buf.push((tag_bytes.len() % 256) as u8);
            push_slice(buf, tag_bytes);
            push_slice(buf, value.as_str().as_bytes());
            assert(buf@ =~= old(buf)@ + rdata_bytes(old(buf)@.len(), rdata@, old(compression)@).0);
        },
        RData::OPT { .. } => {
            assert(buf@ =~= old(buf)@ + Seq::<u8>::empty());
        },
        RData::Unknown(data) => {
            push_slice(buf, data.as_slice());
        },
    }
}

impl Question {
    pub fn serialize(&self, buf: &mut Vec<u8>, compression: &mut CompressionMap)
        ensures
            final(buf)@ == old(buf)@ + question_bytes(old(buf)@.len(), self@, old(compression)@).0,
            final(compression)@ == question_bytes(old(buf)@.len(), self@, old(compression)@).1,
            table_wf(final(compression)@),
    {
        proof {
            use_type_invariant(&*compression);
        }
        write_name(buf, self.name.as_str(), compression);
        push_u16(buf, self.qtype);
        push_u16(buf, self.qclass);
        assert(buf@ =~= old(buf)@ + question_bytes(old(buf)@.len(), self@, old(compression)@).0);
    }
}

impl Record {
    #[verifier::rlimit(40)]
    #[verifier::spinoff_prover]
    pub fn serialize(&self, buf: &mut Vec<u8>, compression: &mut CompressionMap)
        ensures
            final(buf)@ == old(buf)@ + record_bytes(old(buf)@.len(), self@, old(compression)@).0,
            final(compression)@ == record_bytes(old(buf)@.len(), self@, old(compression)@).1,
            table_wf(final(compression)@),
    {
        proof {
            use_type_invariant(&*compression);
        }
        // OPT is special: name is root ".", class is UDP size, TTL encodes
        // extended rcode/flags
        if self.rtype == TYPE_OPT {
            buf.push(0);
            push_u16(buf, self.rtype);
            match &self.rdata {
                RData::OPT { udp_size } => push_u16(buf, *udp_size),
                _ => push_u16(buf, self.class),
            }
            push_u32(buf, self.ttl);
            push_u16(buf, 0);
            assert(buf@ =~= old(buf)@ + record_bytes(old(buf)@.len(), self@, old(compression)@).0);
            return ;
        }
        write_name(buf, self.name.as_str(), compression);
        push_u16(buf, self.rtype);
        push_u16(buf, self.class);
        push_u32(buf, self.ttl);
        let ghost before_len = buf@;
        let rdlength_pos = buf.len();
        push_u16(buf, 0);
        let rdata_start = buf.len();
        write_rdata(buf, &self.rdata, compression);
        let ghost rd = buf@.subrange(rdata_start as int, buf@.len() as int);
        let rdlength = ((buf.len() - rdata_start) % 65536) as u16;
        buf.set(rdlength_pos, (rdlength / 256) as u8);
        buf.set(rdlength_pos + 1, (rdlength % 256) as u8);
        assert(buf@ =~= before_len + be16(rdlength) + rd);
        assert(buf@ =~= old(buf)@ + record_bytes(old(buf)@.len(), self@, old(compression)@).0);
    }
}


// ---------------------------------------------------------------------------
// Messages
// ---------------------------------------------------------------------------

/// Bytes of consecutive questions, and the resulting table.
#[verifier::opaque]
pub open spec fn questions_bytes(off: nat, qs: Seq<SpecQuestion>, t: Table) -> (Seq<u8>, Table)
    decreases qs.len(),
{
    if qs.len() == 0 {
        (seq![], t)
    } else {
        let (b1, t1) = question_bytes(off, qs[0], t);
        let (b2, t2) = questions_bytes(off + b1.len(), qs.drop_first(), t1);
        (b1 + b2, t2)
    }
}

/// Bytes of consecutive records, and the resulting table.
#[verifier::opaque]
pub open spec fn records_bytes(off: nat, rs: Seq<SpecRecord>, t: Table) -> (Seq<u8>, Table)
    decreases rs.len(),
{
    if rs.len() == 0 {
        (seq![], t)
    } else {
        let (b1, t1) = record_bytes(off, rs[0], t);
        let (b2, t2) = records_bytes(off + b1.len(), rs.drop_first(), t1);
        (b1 + b2, t2)
    }
}

/// The header of a message with its counts set to the section lengths.
pub open spec fn counted_header(m: SpecMessage) -> Header {
    Header {
        qdcount: (m.questions.len() % 65536) as u16,
        ancount: (m.answers.len() % 65536) as u16,
        nscount: (m.authority.len() % 65536) as u16,
        arcount: (m.additional.len() % 65536) as u16,
        ..m.header
    }
}

/// The wire format of a message: the header with counts matching the sections,
/// then the questions, answers, authority and additional records, with names
/// compressed across the whole message.
#[verifier::opaque]
pub open spec fn message_bytes(m: SpecMessage) -> Seq<u8> {
    let hb = header_bytes(counted_header(m));
    let (qb, t1) = questions_bytes(12, m.questions, seq![]);
    let (ab, t2) = records_bytes(12 + qb.len(), m.answers, t1);
    let (nb, t3) = records_bytes(12 + qb.len() + ab.len(), m.authority, t2);
    let (xb, _) = records_bytes(12 + qb.len() + ab.len() + nb.len(), m.additional, t3);
    hb + qb + ab + nb + xb
}

/// An encoded message starts with its twelve-byte header, whose four counts
/// are the numbers of questions, answers, authority and additional records.
#[verifier::spinoff_prover]
pub proof fn lemma_message_header_counts(m: SpecMessage)
    requires
        m.questions.len() < 65536,
        m.answers.len() < 65536,
        m.authority.len() < 65536,
        m.additional.len() < 65536,
    ensures
        message_bytes(m).len() >= 12,
        message_bytes(m).subrange(0, 12) == header_bytes(
            Header {
                qdcount: m.questions.len() as u16,
                ancount: m.answers.len() as u16,
                nscount: m.authority.len() as u16,
                arcount: m.additional.len() as u16,
                ..m.header
            },
        ),
{
    reveal(message_bytes);
    let hb = header_bytes(counted_header(m));
    let (qb, t1) = questions_bytes(12, m.questions, seq![]);
    let (ab, t2) = records_bytes(12 + qb.len(), m.answers, t1);
    let (nb, t3) = records_bytes(12 + qb.len() + ab.len(), m.authority, t2);
    let (xb, _) = records_bytes(12 + qb.len() + ab.len() + nb.len(), m.additional, t3);
    let rest = qb + ab + nb + xb;
    assert(hb.len() == 12);
    assert(message_bytes(m) == hb + rest);
    assert((hb + rest).subrange(0, 12) =~= hb);
    assert(counted_header(m) == Header {
        qdcount: m.questions.len() as u16,
        ancount: m.answers.len() as u16,
        nscount: m.authority.len() as u16,
        arcount: m.additional.len() as u16,
        ..m.header
    });
}

#[verifier::spinoff_prover]
fn write_questions(buf: &mut Vec<u8>, qs: &Vec<Question>, compression: &mut CompressionMap)
    requires
        table_wf(old(compression)@),
    ensures
        final(buf)@ == old(buf)@ + questions_bytes(
            old(buf)@.len(),
            questions_view(qs@),
            old(compression)@,
        ).0,
        final(compression)@ == questions_bytes(
            old(buf)@.len(),
            questions_view(qs@),
            old(compression)@,
        ).1,
        table_wf(final(compression)@),
{
    proof {
        reveal(questions_bytes);
    }
    let ghost v = questions_view(qs@);
    let ghost off0 = buf@.len();
    let ghost t0 = compression@;
    let mut i: usize = 0;
    assert(v.subrange(0, v.len() as int) =~= v);
    assert(buf@.subrange(off0 as int, buf@.len() as int) =~= Seq::<u8>::empty());
    while i < qs.len()
        invariant
            v == questions_view(qs@),
            i <= qs@.len(),
            table_wf(compression@),
            off0 == old(buf)@.len(),
            t0 == old(compression)@,
            off0 <= buf@.len(),
            buf@.subrange(0, off0 as int) == old(buf)@,
            questions_bytes(off0, v, t0).0 == buf@.subrange(off0 as int, buf@.len() as int)
                + questions_bytes(buf@.len(), v.subrange(i as int, v.len() as int), compression@).0,
            questions_bytes(off0, v, t0).1 == questions_bytes(
                buf@.len(),
                v.subrange(i as int, v.len() as int),
                compression@,
            ).1,
        decreases qs.len() - i,
    {
        proof {
            reveal(questions_bytes);
        }
        let ghost rest = v.subrange(i as int, v.len() as int);
        let ghost prefix = buf@.subrange(off0 as int, buf@.len() as int);
        let ghost off = buf@.len();
        qs[i].serialize(buf, compression);
        let ghost head = buf@.subrange(off as int, buf@.len() as int);
        assert(rest.drop_first() =~= v.subrange(i + 1, v.len() as int));
        assert(buf@.subrange(off0 as int, buf@.len() as int) =~= prefix + head);
        i = i + 1;
        assert(prefix + (head + questions_bytes(buf@.len(), v.subrange(i as int, v.len() as int), compression@).0) =~= (prefix + head) + questions_bytes(buf@.len(), v.subrange(i as int, v.len() as int), compression@).0);
    }
    assert(buf@ =~= old(buf)@ + buf@.subrange(off0 as int, buf@.len() as int));
    assert(buf@.subrange(off0 as int, buf@.len() as int) + Seq::<u8>::empty() =~= buf@.subrange(off0 as int, buf@.len() as int));
}

#[verifier::spinoff_prover]
fn write_records(buf: &mut Vec<u8>, rs: &Vec<Record>, compression: &mut CompressionMap)
    requires
        table_wf(old(compression)@),
    ensures
        final(buf)@ == old(buf)@ + records_bytes(
            old(buf)@.len(),
            records_view(rs@),
            old(compression)@,
        ).0,
        final(compression)@ == records_bytes(
            old(buf)@.len(),
            records_view(rs@),
            old(compression)@,
        ).1,
        table_wf(final(compression)@),
{
    proof {
        reveal(records_bytes);
    }
    let ghost v = records_view(rs@);
    let ghost off0 = buf@.len();
    let ghost t0 = compression@;
    let mut i: usize = 0;
    assert(v.subrange(0, v.len() as int) =~= v);
    assert(buf@.subrange(off0 as int, buf@.len() as int) =~= Seq::<u8>::empty());
    while i < rs.len()
        invariant
            v == records_view(rs@),
            i <= rs@.len(),
            table_wf(compression@),
            off0 == old(buf)@.len(),
            t0 == old(compression)@,
            off0 <= buf@.len(),
            buf@.subrange(0, off0 as int) == old(buf)@,
            records_bytes(off0, v, t0).0 == buf@.subrange(off0 as int, buf@.len() as int)
                + records_bytes(buf@.len(), v.subrange(i as int, v.len() as int), compression@).0,
            records_bytes(off0, v, t0).1 == records_bytes(
                buf@.len(),
                v.subrange(i as int, v.len() as int),
                compression@,
            ).1,
        decreases rs.len() - i,
    {
        proof {
            reveal(records_bytes);
        }
        let ghost rest = v.subrange(i as int, v.len() as int);
        let ghost prefix = buf@.subrange(off0 as int, buf@.len() as int);
        let ghost off = buf@.len();
        rs[i].serialize(buf, compression);
        let ghost head = buf@.subrange(off as int, buf@.len() as int);
        assert(rest.drop_first() =~= v.subrange(i + 1, v.len() as int));
        assert(buf@.subrange(off0 as int, buf@.len() as int) =~= prefix + head);
        i = i + 1;
        assert(prefix + (head + records_bytes(buf@.len(), v.subrange(i as int, v.len() as int), compression@).0) =~= (prefix + head) + records_bytes(buf@.len(), v.subrange(i as int, v.len() as int), compression@).0);
    }
    assert(buf@ =~= old(buf)@ + buf@.subrange(off0 as int, buf@.len() as int));
    assert(buf@.subrange(off0 as int, buf@.len() as int) + Seq::<u8>::empty() =~= buf@.subrange(off0 as int, buf@.len() as int));
}

proof fn lemma_message_bytes(
    m: SpecMessage,
    hb: Seq<u8>,
    qb: Seq<u8>,
    t1: Table,
    ab: Seq<u8>,
    t2: Table,
    nb: Seq<u8>,
    t3: Table,
    xb: Seq<u8>,
)
    requires
        hb == header_bytes(counted_header(m)),
        qb == questions_bytes(12, m.questions, seq![]).0,
        t1 == questions_bytes(12, m.questions, seq![]).1,
        ab == records_bytes(12 + qb.len(), m.answers, t1).0,
        t2 == records_bytes(12 + qb.len(), m.answers, t1).1,
        nb == records_bytes(12 + qb.len() + ab.len(), m.authority, t2).0,
        t3 == records_bytes(12 + qb.len() + ab.len(), m.authority, t2).1,
        xb == records_bytes(12 + qb.len() + ab.len() + nb.len(), m.additional, t3).0,
    ensures
        message_bytes(m) == hb + qb + ab + nb + xb,
{
    reveal(message_bytes);
}

impl Message {
    /// Serialize this message to wire format.
    #[verifier::rlimit(40)]
    #[verifier::spinoff_prover]
    pub fn serialize(&self) -> (res: Vec<u8>)
        ensures
            res@ == message_bytes(self@),
    {
        let mut buf: Vec<u8> = Vec::with_capacity(512);
        let mut compression = CompressionMap::new();
        // Update header counts to match actual section lengths
        let mut header = self.header;
        header.qdcount = (self.questions.len() % 65536) as u16;
        header.ancount = (self.answers.len() % 65536) as u16;
        header.nscount = (self.authority.len() % 65536) as u16;
        header.arcount = (self.additional.len() % 65536) as u16;
        assert(header == counted_header(self@));
        header.serialize(&mut buf);
        let ghost m = self@;
        let ghost hb = buf@;
        assert(hb.len() == 12);
        write_questions(&mut buf, &self.questions, &mut compression);
        let ghost qb = buf@.subrange(12, buf@.len() as int);
        assert(qb =~= questions_bytes(12, m.questions, seq![]).0);
        let ghost t1 = compression@;
        let ghost l1 = buf@.len();
        write_records(&mut buf, &self.answers, &mut compression);
        let ghost ab = buf@.subrange(l1 as int, buf@.len() as int);
        assert(ab =~= records_bytes(12 + qb.len(), m.answers, t1).0);
        let ghost t2 = compression@;
        let ghost l2 = buf@.len();
        write_records(&mut buf, &self.authority, &mut compression);
        let ghost nb = buf@.subrange(l2 as int, buf@.len() as int);
        assert(nb =~= records_bytes(12 + qb.len() + ab.len(), m.authority, t2).0);
        let ghost t3 = compression@;
        let ghost l3 = buf@.len();
        write_records(&mut buf, &self.additional, &mut compression);
        let ghost xb = buf@.subrange(l3 as int, buf@.len() as int);
        assert(xb =~= records_bytes(12 + qb.len() + ab.len() + nb.len(), m.additional, t3).0);
        proof {
            assert(buf@ =~= hb + qb + ab + nb + xb);
            lemma_message_bytes(m, hb, qb, t1, ab, t2, nb, t3, xb);
        }
        buf
    }
}


/// A message with the TC bit set and the given record sections.
pub open spec fn truncated_message(
    m: SpecMessage,
    answers: Seq<SpecRecord>,
    authority: Seq<SpecRecord>,
    additional: Seq<SpecRecord>,
) -> SpecMessage {
    SpecMessage {
        header: Header { tc: true, ..m.header },
        questions: m.questions,
        answers,
        authority,
        additional,
    }
}

/// The bytes sent under a size limit, and whether the message was truncated:
/// the whole message if it fits; otherwise, with TC set, the first that fits of
/// the message without additional records, without authority and additional
/// records, and finally without any records (which is sent even if too large).
pub open spec fn limited_bytes(m: SpecMessage, max_size: nat) -> (Seq<u8>, bool) {
    let full = message_bytes(m);
    if full.len() <= max_size {
        (full, false)
    } else {
        let b1 = message_bytes(truncated_message(m, m.answers, m.authority, seq![]));
        if b1.len() <= max_size {
            (b1, true)
        } else {
            let b2 = message_bytes(truncated_message(m, m.answers, seq![], seq![]));
            if b2.len() <= max_size {
                (b2, true)
            } else {
                (message_bytes(truncated_message(m, seq![], seq![], seq![])), true)
            }
        }
    }
}

impl Message {
    /// Serialize with a size limit. Returns (bytes, was_truncated).
    /// If the full message exceeds `max_size`, records are dropped from
    /// additional, then authority, then answers until it fits. If still
    /// too large, TC is set and only the header+questions are returned.
    #[verifier::spinoff_prover]
    pub fn serialize_with_limit(&self, max_size: usize) -> (res: (Vec<u8>, bool))
        ensures
            (res.0@, res.1) == limited_bytes(self@, max_size as nat),
    {
        let full = self.serialize();
        if full.len() <= max_size {
            return (full, false);
        }
        // drop additional
        let mut msg = self.clone();
        msg.additional = Vec::new();
        msg.header.tc = true;
        assert(msg@ =~= truncated_message(self@, self@.answers, self@.authority, seq![]));
        let bytes = msg.serialize();
        if bytes.len() <= max_size {
            return (bytes, true);
        }
        // drop authority too
        let mut msg = self.clone();
        msg.authority = Vec::new();
        msg.additional = Vec::new();
        msg.header.tc = true;
        assert(msg@ =~= truncated_message(self@, self@.answers, seq![], seq![]));
        let bytes = msg.serialize();
        if bytes.len() <= max_size {
            return (bytes, true);
        }
        // header + questions only
        let mut msg = self.clone();
        msg.answers = Vec::new();
        msg.authority = Vec::new();
        msg.additional = Vec::new();
        msg.header.tc = true;
        assert(msg@ =~= truncated_message(self@, seq![], seq![], seq![]));
        let bytes = msg.serialize();
        (bytes, true)
    }
}

} // verus!
