//! Decoding an encoded message gives the message back.
use vstd::prelude::*;
use vstd::utf8::*;
use crate::dns::{
    normalized_name, DnsError, Header, SpecQuestion, SpecRData, SpecRecord, SpecMessage, TYPE_A,
    TYPE_AAAA, TYPE_CNAME, TYPE_NS, TYPE_MX, TYPE_TXT, TYPE_SOA, TYPE_SRV, TYPE_CAA, TYPE_OPT,
};
use crate::parse::{
    walk_name, label_text, dotted, name_text, parse_name_spec, u16_at, u32_at, parse_question_spec,
    txt_spec, parse_rdata_spec, parse_record_spec, parse_questions_spec, parse_records_spec,
    parse_message_spec, header_at,
};
use crate::serialize::{
    Table, table_lookup, table_wf, lemma_table_wf_push, next_dot, name_body, labels_bytes,
    name_bytes, pointer_bytes, be16, be32, question_bytes, txt_chunks, txt_bytes, rdata_bytes, record_bytes, questions_bytes,
    records_bytes, message_bytes, counted_header, header_bytes, header_flags, limited_bytes,
    truncated_message,
};
use crate::text::{
    ascii_lower_bytes, ascii_lower_chars, ascii_lower, no_ascii_upper, is_ascii_upper,
    lemma_ascii_lower_no_upper, lemma_lower_decode,
};

verus! {

// ---------------------------------------------------------------------------
// UTF-8 facts
// ---------------------------------------------------------------------------

/// The encoding of two character sequences one after the other.
proof fn lemma_encode_concat(a: Seq<char>, b: Seq<char>)
    ensures
        encode_utf8(a + b) == encode_utf8(a) + encode_utf8(b),
    decreases a.len(),
{
    if a.len() == 0 {
        assert(a + b =~= b);
        assert(encode_utf8(a) =~= Seq::<u8>::empty());
        assert(encode_utf8(a) + encode_utf8(b) =~= encode_utf8(b));
    } else {
        assert((a + b)[0] == a[0]);
        assert((a + b).drop_first() =~= a.drop_first() + b);
        lemma_encode_concat(a.drop_first(), b);
        assert(encode_utf8(a + b) =~= encode_scalar(a[0] as u32) + encode_utf8(a.drop_first())
            + encode_utf8(b));
    }
}

/// Splitting valid UTF-8 at a dot gives two valid pieces whose decodings,
/// around the dot, make the decoding of the whole.
proof fn lemma_dot_split(b: Seq<u8>, i: int)
    requires
        valid_utf8(b),
        0 <= i < b.len(),
        b[i] == 0x2E,
    ensures
        valid_utf8(b.subrange(0, i)),
        valid_utf8(b.subrange(i + 1, b.len() as int)),
        decode_utf8(b) == decode_utf8(b.subrange(0, i)) + seq!['.'] + decode_utf8(
            b.subrange(i + 1, b.len() as int),
        ),
{
    is_char_boundary_iff_not_is_continuation_byte(b, i);
    valid_utf8_split(b, i);
    decode_utf8_split(b, i);
    let r = b.subrange(i, b.len() as int);
    assert(r[0] == 0x2E);
    assert(valid_utf8(r));
    assert(length_of_first_scalar(r) == 1);
    assert(pop_first_scalar(r) =~= b.subrange(i + 1, b.len() as int));
    assert((0x2Eu8 & 0x7F) == 0x2E) by (bit_vector);
    assert(decode_first_scalar(r) == 0x2E);
    char_u32_cast('.', 0x2E);
    assert(decode_utf8(r) =~= seq!['.'] + decode_utf8(b.subrange(i + 1, b.len() as int)));
}


// ---------------------------------------------------------------------------
// Label structure of names
// ---------------------------------------------------------------------------

/// The segments of `s` from `start` (separated by dots) are each 1 to 63 bytes
/// long.
pub open spec fn segs_ok(s: Seq<u8>, start: nat) -> bool
    decreases s.len() - start,
{
    let end = next_dot(s, start);
    if end < start || end - start < 1 || end - start > 63 {
        false
    } else if end >= s.len() {
        true
    } else {
        segs_ok(s, end + 1)
    }
}

/// The number of segments of `s` from `start`.
pub open spec fn seg_count(s: Seq<u8>, start: nat) -> nat
    decreases s.len() - start,
{
    let end = next_dot(s, start);
    if end < start || end >= s.len() {
        1
    } else {
        1 + seg_count(s, end + 1)
    }
}

/// The label texts of the segments of `s` from `start`.
pub open spec fn body_labels(s: Seq<u8>, start: nat) -> Seq<Seq<char>>
    decreases s.len() - start,
{
    let end = next_dot(s, start);
    let head = seq![label_text(s.subrange(start as int, end as int))];
    if end < start || end >= s.len() {
        head
    } else {
        head + body_labels(s, end + 1)
    }
}

/// A name the wire format can carry: without its final dot, if it has one, it
/// is at most 254 bytes long and is either empty (the root) or made of labels
/// of 1 to 63 bytes separated by dots.
pub open spec fn name_wf(n: Seq<char>) -> bool {
    let s = name_body(encode_utf8(n));
    s.len() <= 254 && (s.len() == 0 || segs_ok(s, 0))
}

proof fn lemma_next_dot(s: Seq<u8>, i: nat)
    requires
        i <= s.len(),
    ensures
        i <= next_dot(s, i) <= s.len(),
        next_dot(s, i) < s.len() ==> s[next_dot(s, i) as int] == 0x2E,
        forall|k: int| i <= k < next_dot(s, i) ==> s[k] != 0x2E,
    decreases s.len() - i,
{
    if i < s.len() && s[i as int] != 0x2E {
        lemma_next_dot(s, i + 1);
    }
}

proof fn lemma_seg_count_bound(s: Seq<u8>, start: nat)
    requires
        start <= s.len(),
        segs_ok(s, start),
    ensures
        1 <= seg_count(s, start) <= s.len() - start,
    decreases s.len() - start,
{
    lemma_next_dot(s, start);
    let end = next_dot(s, start);
    if end < s.len() {
        lemma_seg_count_bound(s, end + 1);
    }
}

/// Positions in a suffix correspond to positions in the whole.
proof fn lemma_next_dot_shift(s: Seq<u8>, start: nat, i: nat)
    requires
        start <= i <= s.len(),
    ensures
        next_dot(s.subrange(start as int, s.len() as int), (i - start) as nat) + start == next_dot(
            s,
            i,
        ),
    decreases s.len() - i,
{
    let k = s.subrange(start as int, s.len() as int);
    if i < s.len() {
        assert(k[i - start] == s[i as int]);
        if s[i as int] != 0x2E {
            lemma_next_dot_shift(s, start, i + 1);
        }
    }
}

/// The segments of a suffix are the segments of the whole from where the
/// suffix starts.
proof fn lemma_segs_shift(s: Seq<u8>, start: nat, i: nat)
    requires
        start <= i <= s.len(),
    ensures
        segs_ok(s.subrange(start as int, s.len() as int), (i - start) as nat) == segs_ok(s, i),
        seg_count(s.subrange(start as int, s.len() as int), (i - start) as nat) == seg_count(s, i),
        body_labels(s.subrange(start as int, s.len() as int), (i - start) as nat) == body_labels(
            s,
            i,
        ),
    decreases s.len() - i,
{
    let k = s.subrange(start as int, s.len() as int);
    lemma_next_dot_shift(s, start, i);
    lemma_next_dot(s, i);
    let end = next_dot(s, i);
    assert(k.subrange(i - start, end - start) =~= s.subrange(i as int, end as int));
    if end < s.len() && end >= i {
        lemma_segs_shift(s, start, end + 1);
    }
}

/// Prepending a label to a dotted name.
proof fn lemma_dotted_cons(a: Seq<char>, rest: Seq<Seq<char>>)
    ensures
        dotted(seq![a] + rest) == a + seq!['.'] + dotted(rest),
    decreases rest.len(),
{
    if rest.len() == 0 {
        assert(seq![a] + rest =~= seq![a]);
        assert(seq![a].drop_last() =~= Seq::<Seq<char>>::empty());
        assert(a + seq!['.'] + dotted(rest) =~= dotted(Seq::<Seq<char>>::empty()) + a + seq!['.']);
    } else {
        let l = seq![a] + rest;
        assert(l.drop_last() =~= seq![a] + rest.drop_last());
        lemma_dotted_cons(a, rest.drop_last());
        assert(a + seq!['.'] + dotted(rest) =~= (a + seq!['.'] + dotted(rest.drop_last())) + rest.last() + seq!['.']);
    }
}

proof fn lemma_lower_identity(x: Seq<char>)
    requires
        no_ascii_upper(x),
    ensures
        ascii_lower_chars(x) == x,
{
    assert(ascii_lower_chars(x) =~= x);
}

/// The labels of a valid name body spell the body, lower-cased, followed by a
/// dot.
#[verifier::spinoff_prover]
#[verifier::rlimit(40)]
proof fn lemma_body_text(s: Seq<u8>, start: nat)
    requires
        start <= s.len(),
        segs_ok(s, start),
        valid_utf8(s.subrange(start as int, s.len() as int)),
    ensures
        dotted(body_labels(s, start)) == ascii_lower_chars(
            decode_utf8(s.subrange(start as int, s.len() as int)),
        ) + seq!['.'],
    decreases s.len() - start,
{
    lemma_next_dot(s, start);
    let end = next_dot(s, start);
    let r = s.subrange(start as int, s.len() as int);
    let seg = s.subrange(start as int, end as int);
    let lseg = ascii_lower_chars(decode_utf8(seg));
    if end >= s.len() {
        assert(seg =~= r);
        assert(body_labels(s, start) == seq![lseg]);
        lemma_dotted_cons(lseg, Seq::<Seq<char>>::empty());
        assert(seq![lseg] + Seq::<Seq<char>>::empty() =~= seq![lseg]);
    } else {
        let d = end - start;
        assert(r[d as int] == 0x2E);
        lemma_dot_split(r, d as int);
        assert(r.subrange(0, d as int) =~= seg);
        let rest = s.subrange(end + 1 as int, s.len() as int);
        assert(r.subrange(d + 1, r.len() as int) =~= rest);
        lemma_body_text(s, end + 1);
        lemma_dotted_cons(lseg, body_labels(s, end + 1));
        let lrest = ascii_lower_chars(decode_utf8(rest));
        assert(ascii_lower('.') == '.');
        assert(ascii_lower_chars(decode_utf8(seg) + seq!['.'] + decode_utf8(rest)) =~= lseg
            + seq!['.'] + lrest);
        assert(lseg + seq!['.'] + (lrest + seq!['.']) =~= lseg + seq!['.'] + lrest + seq!['.']);
    }
}

proof fn lemma_lower_next_dot(x: Seq<u8>, i: nat)
    requires
        i <= x.len(),
    ensures
        next_dot(ascii_lower_bytes(x), i) == next_dot(x, i),
    decreases x.len() - i,
{
    if i < x.len() && x[i as int] != 0x2E {
        lemma_lower_next_dot(x, i + 1);
    }
}

/// ASCII lower-casing twice is lower-casing once.
proof fn lemma_lower_twice(z: Seq<char>)
    ensures
        ascii_lower_chars(ascii_lower_chars(z)) == ascii_lower_chars(z),
{
    lemma_ascii_lower_no_upper(z);
    lemma_lower_identity(ascii_lower_chars(z));
}

/// Lower-casing the bytes of a name body changes neither its segments nor the
/// labels read from it.
proof fn lemma_lower_body(x: Seq<u8>, i: nat)
    requires
        i <= x.len(),
        segs_ok(x, i),
        valid_utf8(x.subrange(i as int, x.len() as int)),
    ensures
        segs_ok(ascii_lower_bytes(x), i),
        seg_count(ascii_lower_bytes(x), i) == seg_count(x, i),
        body_labels(ascii_lower_bytes(x), i) == body_labels(x, i),
    decreases x.len() - i,
{
    let lx = ascii_lower_bytes(x);
    lemma_lower_next_dot(x, i);
    lemma_next_dot(x, i);
    lemma_segs_valid(x, i);
    let end = next_dot(x, i);
    let seg = x.subrange(i as int, end as int);
    assert(lx.subrange(i as int, end as int) =~= ascii_lower_bytes(seg));
    lemma_lower_decode(seg);
    lemma_lower_twice(decode_utf8(seg));
    assert(label_text(lx.subrange(i as int, end as int)) == label_text(seg));
    if end < x.len() {
        lemma_lower_body(x, end + 1);
    }
}

/// Every segment of a valid body is valid UTF-8.
proof fn lemma_segs_valid(s: Seq<u8>, start: nat)
    requires
        start <= s.len(),
        segs_ok(s, start),
        valid_utf8(s.subrange(start as int, s.len() as int)),
    ensures
        valid_utf8(s.subrange(start as int, next_dot(s, start) as int)),
        next_dot(s, start) < s.len() ==> valid_utf8(
            s.subrange(next_dot(s, start) + 1 as int, s.len() as int),
        ),
{
    lemma_next_dot(s, start);
    let end = next_dot(s, start);
    let r = s.subrange(start as int, s.len() as int);
    if end >= s.len() {
        assert(s.subrange(start as int, end as int) =~= r);
    } else {
        let d = end - start;
        lemma_dot_split(r, d as int);
        assert(r.subrange(0, d as int) =~= s.subrange(start as int, end as int));
        assert(r.subrange(d + 1, r.len() as int) =~= s.subrange(end + 1 as int, s.len() as int));
    }
}


// ---------------------------------------------------------------------------
// Reading back a written name
// ---------------------------------------------------------------------------

/// The position a walk ends at: where the first pointer ended, if one was
/// followed, else `d`.
pub open spec fn end_or(e: Option<nat>, d: nat) -> nat {
    match e {
        Some(x) => x,
        None => d,
    }
}

/// A successful read of some labels ending at `end`.
pub open spec fn read_ok(labels: Seq<Seq<char>>, end: nat) -> Result<(Seq<Seq<char>>, nat), DnsError> {
    Ok((labels, end))
}

/// Walking from `o`, with any number of pointers already followed that leaves
/// room for the labels of `key`, reads exactly those labels.
pub open spec fn walk_ok(b: Seq<u8>, o: nat, key: Seq<u8>) -> bool {
    forall|j: nat, e: nat|
        j + seg_count(key, 0) <= 256 ==> #[trigger] walk_name(b, o, j, Some(e)) == read_ok(body_labels(key, 0), e)
}

/// Every entry of the table points at a place in `b` where its key can be read
/// back.
pub open spec fn table_walks(b: Seq<u8>, t: Table) -> bool {
    forall|i: int| 0 <= i < t.len() ==> walk_ok(b, t[i].1 as nat, #[trigger] t[i].0)
}

proof fn lemma_lookup_index(t: Table, key: Seq<u8>) -> (i: int)
    requires
        table_lookup(t, key) is Some,
    ensures
        0 <= i < t.len(),
        t[i].0 == key,
        table_lookup(t, key) == Some(t[i].1),
    decreases t.len(),
{
    if t[0].0 == key {
        0
    } else {
        let k = lemma_lookup_index(t.drop_first(), key);
        assert(t.drop_first()[k] == t[k + 1]);
        k + 1
    }
}

/// The bytes that `labels_bytes` writes for the labels of `s` from `start`,
/// placed at `off` in `b`, are read back by the decoder as those labels; every
/// table entry it adds can be read back too.
#[verifier::spinoff_prover]
#[verifier::rlimit(40)]
proof fn lemma_labels_walk(b: Seq<u8>, off: nat, s: Seq<u8>, start: nat, t: Table)
    requires
        start <= s.len(),
        segs_ok(s, start),
        valid_utf8(s.subrange(start as int, s.len() as int)),
        table_wf(t),
        forall|i: int|
            0 <= i < t.len() && (#[trigger] t[i]).0.len() <= s.len() - start ==> walk_ok(
                b,
                t[i].1 as nat,
                t[i].0,
            ),
        off + labels_bytes(off, s, start, t).0.len() <= b.len(),
        b.subrange(off as int, off + labels_bytes(off, s, start, t).0.len() as int)
            == labels_bytes(off, s, start, t).0,
    ensures
        ({
            let (bytes, t2) = labels_bytes(off, s, start, t);
            &&& t.len() <= t2.len()
            &&& forall|i: int| 0 <= i < t.len() ==> #[trigger] t2[i] == t[i]
            &&& forall|i: int|
                t.len() <= i < t2.len() ==> walk_ok(b, t2[i].1 as nat, #[trigger] t2[i].0)
            &&& table_wf(t2)
            &&& forall|j: nat, e: Option<nat>|
                j + seg_count(s, start) <= 255 ==> #[trigger] walk_name(b, off, j, e) == read_ok(
                    body_labels(s, start),
                    end_or(e, off + bytes.len()),
                )
        }),
    decreases s.len() - start,
{
    let suffix = s.subrange(start as int, s.len() as int);
    let key = ascii_lower_bytes(suffix);
    lemma_segs_shift(s, start, start);
    assert(suffix.subrange(0, suffix.len() as int) =~= suffix);
    lemma_lower_body(suffix, 0);
    lemma_next_dot(s, start);
    let c = seg_count(s, start);
    lemma_seg_count_bound(s, start);
    let bytes = labels_bytes(off, s, start, t).0;
    let t2 = labels_bytes(off, s, start, t).1;
    assert(forall|k: int| 0 <= k < bytes.len() ==> b[off + k] == #[trigger] bytes[k]) by {
        assert forall|k: int| 0 <= k < bytes.len() implies b[off + k] == #[trigger] bytes[k] by {
            assert(b.subrange(off as int, off + bytes.len() as int)[k] == b[off + k]);
        }
    }
    match table_lookup(t, key) {
        Some(o) => {
            let i = lemma_lookup_index(t, key);
            assert(t[i].1 < 0x3FFF);
            assert(walk_ok(b, o as nat, key));
            assert(bytes == pointer_bytes(o));
            let v = (0xC000 + o) as u16;
            assert(bytes[0] == (v / 256) as u8);
            assert(bytes[1] == (v % 256) as u8);
            assert(b[off as int] == bytes[0]);
            assert(b[off + 1 as int] == bytes[1]);
            assert(b[off as int] >= 0xC0);
            assert((b[off as int] - 0xC0) * 256 + b[off + 1 as int] == o);
            assert forall|j: nat, e: Option<nat>| j + seg_count(s, start) <= 255 implies #[trigger] walk_name(
                b,
                off,
                j,
                e,
            ) == read_ok(body_labels(s, start), end_or(e, off + bytes.len())) by {
                let e2 = match e {
                    Some(x) => Some(x),
                    None => Some(off + 2),
                };
                assert(walk_name(b, off, j, e) == walk_name(b, o as nat, j + 1, e2));
                assert(walk_name(b, o as nat, (j + 1) as nat, Some(e2->0)) == read_ok(
                    body_labels(key, 0),
                    e2->0,
                ));
            }
        },
        None => {
            let t2a = if off < 0x3FFF {
                t.push((key, off as u16))
            } else {
                t
            };
            let end = next_dot(s, start);
            let label = s.subrange(start as int, end as int);
            let len = (end - start) as nat;
            assert(1 <= len <= 63);
            let head = seq![(label.len() % 256) as u8] + label;
            lemma_segs_valid(s, start);
            let tail = if end >= s.len() {
                seq![0u8]
            } else {
                labels_bytes(off + head.len(), s, end + 1, t2a).0
            };
            assert(bytes =~= head + tail);
            assert(bytes[0] == head[0]);
            assert(b[off as int] == len);
            assert(b.subrange(off + 1 as int, off + 1 + len as int) =~= label) by {
                assert forall|k: int| 0 <= k < len implies b.subrange(
                    off + 1 as int,
                    off + 1 + len as int,
                )[k] == label[k] by {
                    assert(bytes[1 + k] == head[1 + k]);
                    assert(b[off + (1 + k)] == bytes[1 + k]);
                }
            }
            let lt = label_text(label);
            if end >= s.len() {
                assert(bytes == head.push(0));
                assert(b[off + 1 + len as int] == 0) by {
                    assert(bytes[1 + len as int] == 0);
                }
                assert forall|j: nat, e: Option<nat>| j + c <= 256 implies #[trigger] walk_name(
                    b,
                    off,
                    j,
                    e,
                ) == read_ok(body_labels(s, start), end_or(e, off + bytes.len())) by {
                    assert(walk_name(b, off + 1 + len, j, e) == read_ok(
                        seq![],
                        end_or(e, off + 1 + len + 1),
                    ));
                    assert(seq![lt] + Seq::<Seq<char>>::empty() =~= seq![lt]);
                }
            } else {
                let rest = labels_bytes(off + head.len(), s, end + 1, t2a).0;
                let t3 = labels_bytes(off + head.len(), s, end + 1, t2a).1;
                assert(bytes == head + rest);
                assert(t2 == t3);
                if off < 0x3FFF {
                    lemma_table_wf_push(t, key, off as u16);
                }
                assert forall|i: int|
                    0 <= i < t2a.len() && (#[trigger] t2a[i]).0.len() <= s.len() - (end
                        + 1) implies walk_ok(b, t2a[i].1 as nat, t2a[i].0) by {
                    if i < t.len() {
                        assert(t2a[i] == t[i]);
                    }
                }
                assert(b.subrange(off + head.len() as int, off + head.len() + rest.len() as int)
                    =~= rest) by {
                    assert forall|k: int| 0 <= k < rest.len() implies b.subrange(
                        off + head.len() as int,
                        off + head.len() + rest.len() as int,
                    )[k] == rest[k] by {
                        assert(bytes[head.len() + k] == rest[k]);
                    }
                }
                lemma_labels_walk(b, off + head.len(), s, end + 1, t2a);
                assert forall|j: nat, e: Option<nat>| j + c <= 256 implies #[trigger] walk_name(
                    b,
                    off,
                    j,
                    e,
                ) == read_ok(body_labels(s, start), end_or(e, off + bytes.len())) by {
                    assert(walk_name(b, off + head.len(), j, e) == read_ok(
                        body_labels(s, end + 1),
                        end_or(e, off + head.len() + rest.len()),
                    ));
                }
                assert forall|i: int| 0 <= i < t.len() implies #[trigger] t2[i] == t[i] by {
                    assert(t2a[i] == t[i]);
                }
            }
            if off < 0x3FFF {
                assert(t2[t.len() as int] == (key, off as u16));
                assert forall|j: nat, e: nat| j + seg_count(key, 0) <= 256 implies #[trigger] walk_name(
                    b,
                    off,
                    j,
                    Some(e),
                ) == read_ok(body_labels(key, 0), e) by {
                    assert(walk_name(b, off, j, Some(e)) == read_ok(
                        body_labels(s, start),
                        end_or(Some(e), off + bytes.len()),
                    ));
                }
            }
        },
    }
}


/// Bytes added after a name that reads successfully do not change how it
/// reads.
proof fn lemma_walk_extend(b: Seq<u8>, x: Seq<u8>, pos: nat, jumps: nat, end: Option<nat>)
    requires
        walk_name(b, pos, jumps, end) is Ok,
    ensures
        walk_name(b + x, pos, jumps, end) == walk_name(b, pos, jumps, end),
    decreases 257 - jumps, b.len() - pos,
{
    let bx = b + x;
    assert(pos < b.len());
    assert(bx[pos as int] == b[pos as int]);
    let c = b[pos as int];
    if c == 0 {
    } else if c >= 0xC0 {
        assert(bx[pos + 1 as int] == b[pos + 1 as int]);
        let target = ((c - 0xC0) * 256 + b[pos + 1 as int]) as nat;
        let end2 = match end {
            Some(e) => Some(e),
            None => Some(pos + 2),
        };
        lemma_walk_extend(b, x, target, jumps + 1, end2);
    } else if c <= 63 {
        let label = b.subrange(pos + 1 as int, pos + 1 + c as int);
        assert(bx.subrange(pos + 1 as int, pos + 1 + c as int) =~= label);
        lemma_walk_extend(b, x, pos + 1 + c as nat, jumps, end);
    }
}

/// A table that can be read back in `b` can still be read back once bytes
/// are added after `b`.
proof fn lemma_table_walks_extend(b: Seq<u8>, x: Seq<u8>, t: Table)
    requires
        table_walks(b, t),
    ensures
        table_walks(b + x, t),
{
    assert forall|i: int| 0 <= i < t.len() implies walk_ok(b + x, t[i].1 as nat, #[trigger] t[i].0) by {
        assert(walk_ok(b, t[i].1 as nat, t[i].0));
        assert forall|j: nat, e: nat| j + seg_count(t[i].0, 0) <= 256 implies #[trigger] walk_name(
            b + x,
            t[i].1 as nat,
            j,
            Some(e),
        ) == read_ok(body_labels(t[i].0, 0), e) by {
            assert(walk_name(b, t[i].1 as nat, j, Some(e)) == read_ok(body_labels(t[i].0, 0), e));
            lemma_walk_extend(b, x, t[i].1 as nat, j, Some(e));
        }
    }
}

/// A table that grows by entries that can be read back keeps every entry
/// readable.
proof fn lemma_table_walks_grow(b: Seq<u8>, t: Table, t2: Table)
    requires
        table_walks(b, t),
        t.len() <= t2.len(),
        forall|i: int| 0 <= i < t.len() ==> #[trigger] t2[i] == t[i],
        forall|i: int| t.len() <= i < t2.len() ==> walk_ok(b, t2[i].1 as nat, #[trigger] t2[i].0),
    ensures
        table_walks(b, t2),
{
    assert forall|i: int| 0 <= i < t2.len() implies walk_ok(b, t2[i].1 as nat, #[trigger] t2[i].0) by {
        if i < t.len() {
            assert(t2[i] == t[i]);
        }
    }
}

/// The encoding of ".".
proof fn lemma_encode_dot()
    ensures
        encode_utf8(seq!['.']) == seq![0x2Eu8],
{
    let dot = seq!['.'];
    assert(dot[0] == '.');
    assert(('.' as u32) == 0x2E);
    assert(encode_utf8(dot.drop_first()) =~= Seq::<u8>::empty());
    assert((0x2Eu32 & 0x7F) == 0x2E) by (bit_vector);
    assert(encode_scalar(0x2E) =~= seq![0x2Eu8]);
    assert(encode_utf8(dot) =~= seq![0x2Eu8]);
}

/// ASCII lower-casing keeps a final dot and adds none.
proof fn lemma_lower_last_dot(n: Seq<char>)
    ensures
        ascii_lower_chars(n).len() == n.len(),
        n.len() > 0 ==> (ascii_lower_chars(n).last() == '.' <==> n.last() == '.'),
{
    if n.len() > 0 {
        let c = n.last();
        assert(ascii_lower_chars(n).last() == ascii_lower(c));
        if is_ascii_upper(c) {
            assert(((c as u32 + 32) as char) as u32 == c as u32 + 32);
        }
    }
}

/// The text of a name in the wire format: its ASCII letters lower-cased and
/// a final dot added when it has none.
proof fn lemma_wire_name_text(n: Seq<char>)
    requires
        name_wf(n),
    ensures
        ({
            let s = name_body(encode_utf8(n));
            &&& valid_utf8(s)
            &&& s.len() == 0 ==> normalized_name(n) == seq!['.']
            &&& s.len() > 0 ==> normalized_name(n) == ascii_lower_chars(decode_utf8(s)) + seq!['.']
        }),
{
    let nb = encode_utf8(n);
    encode_utf8_valid_utf8(n);
    encode_utf8_decode_utf8(n);
    let s = name_body(nb);
    lemma_lower_last_dot(n);
    assert(ascii_lower('.') == '.');
    if nb.len() > 0 && nb.last() == 0x2E {
        lemma_dot_split(nb, nb.len() - 1);
        assert(nb.subrange(0, nb.len() - 1) =~= s);
        assert(nb.subrange(nb.len() as int, nb.len() as int) =~= Seq::<u8>::empty());
        assert(decode_utf8(Seq::<u8>::empty()) =~= Seq::<char>::empty());
        assert(n == decode_utf8(s) + seq!['.']);
        assert(ascii_lower_chars(decode_utf8(s) + seq!['.']) =~= ascii_lower_chars(decode_utf8(s))
            + seq!['.']);
        if s.len() == 0 {
            assert(decode_utf8(s) =~= Seq::<char>::empty());
        }
    } else {
        assert(s == nb);
        if n.len() > 0 && n.last() == '.' {
            lemma_encode_concat(n.drop_last(), seq!['.']);
            lemma_encode_dot();
            assert(n.drop_last() + seq!['.'] =~= n);
        }
        if s.len() == 0 {
            assert(n =~= Seq::<char>::empty());
        } else {
            assert(n.len() > 0);
        }
    }
}

/// A well-formed name written by `name_bytes` at `off` in `b` decodes to its
/// wire form (lower-cased, fully qualified), ending just after what was
/// written; the table stays readable.
#[verifier::spinoff_prover]
#[verifier::rlimit(40)]
proof fn lemma_name_walk(b: Seq<u8>, off: nat, n: Seq<char>, t: Table)
    requires
        name_wf(n),
        table_wf(t),
        table_walks(b, t),
        off + name_bytes(off, encode_utf8(n), t).0.len() <= b.len(),
        b.subrange(off as int, off + name_bytes(off, encode_utf8(n), t).0.len() as int)
            == name_bytes(off, encode_utf8(n), t).0,
    ensures
        ({
            let (bytes, t2) = name_bytes(off, encode_utf8(n), t);
            &&& t.len() <= t2.len()
            &&& forall|i: int| 0 <= i < t.len() ==> #[trigger] t2[i] == t[i]
            &&& table_wf(t2)
            &&& table_walks(b, t2)
            &&& parse_name_spec(b, off) == Ok::<(Seq<char>, nat), DnsError>(
                (normalized_name(n), off + bytes.len()),
            )
        }),
{
    let nb = encode_utf8(n);
    let bytes = name_bytes(off, nb, t).0;
    let t2 = name_bytes(off, nb, t).1;
    let s = name_body(nb);
    lemma_wire_name_text(n);
    assert(b.subrange(off as int, off + bytes.len() as int)[0] == b[off as int]);
    if s.len() == 0 {
        assert(bytes == seq![0u8]);
        assert(walk_name(b, off, 0, None) == read_ok(seq![], off + 1));
        lemma_encode_dot();
    } else {
        assert(s.subrange(0, s.len() as int) =~= s);
        lemma_seg_count_bound(s, 0);
        lemma_labels_walk(b, off, s, 0, t);
        assert(walk_name(b, off, 0, None) == read_ok(body_labels(s, 0), off + bytes.len()));
        lemma_body_text(s, 0);
        assert(body_labels(s, 0).len() > 0);
        let text = ascii_lower_chars(decode_utf8(s));
        assert(name_text(body_labels(s, 0)) == text + seq!['.']);
        lemma_lower_decode(s);
        decode_utf8_encode_utf8(ascii_lower_bytes(s));
        lemma_encode_concat(text, seq!['.']);
        lemma_encode_dot();
        assert(encode_utf8(text + seq!['.']).len() == s.len() + 1);
        lemma_table_walks_grow(b, t, t2);
    }
}


// ---------------------------------------------------------------------------
// Fixed-size fields and questions
// ---------------------------------------------------------------------------

/// `x` stands in `b` from position `p` on.
pub open spec fn placed(b: Seq<u8>, p: nat, x: Seq<u8>) -> bool {
    p + x.len() <= b.len() && b.subrange(p as int, p + x.len() as int) == x
}

/// `t2` keeps the entries of `t` and may add more after them.
pub open spec fn extends(t2: Table, t: Table) -> bool {
    t.len() <= t2.len() && forall|i: int| 0 <= i < t.len() ==> #[trigger] t2[i] == t[i]
}

proof fn lemma_placed_split(b: Seq<u8>, p: nat, x: Seq<u8>, y: Seq<u8>)
    requires
        placed(b, p, x + y),
    ensures
        placed(b, p, x),
        placed(b, p + x.len(), y),
{
    assert(b.subrange(p as int, p + x.len() as int) =~= (x + y).subrange(0, x.len() as int));
    assert(b.subrange(p + x.len() as int, p + x.len() + y.len() as int) =~= (x + y).subrange(
        x.len() as int,
        (x + y).len() as int,
    ));
    assert((x + y).subrange(0, x.len() as int) =~= x);
    assert((x + y).subrange(x.len() as int, (x + y).len() as int) =~= y);
}

proof fn lemma_placed_byte(b: Seq<u8>, p: nat, x: Seq<u8>, k: int)
    requires
        placed(b, p, x),
        0 <= k < x.len(),
    ensures
        b[p + k] == x[k],
{
    assert(b.subrange(p as int, p + x.len() as int)[k] == b[p + k]);
}

proof fn lemma_placed_be16(b: Seq<u8>, p: nat, v: u16)
    requires
        placed(b, p, be16(v)),
    ensures
        u16_at(b, p) == v,
{
    lemma_placed_byte(b, p, be16(v), 0);
    lemma_placed_byte(b, p, be16(v), 1);
}

proof fn lemma_placed_be32(b: Seq<u8>, p: nat, v: u32)
    requires
        placed(b, p, be32(v)),
    ensures
        u32_at(b, p) == v,
{
    lemma_placed_byte(b, p, be32(v), 0);
    lemma_placed_byte(b, p, be32(v), 1);
    lemma_placed_byte(b, p, be32(v), 2);
    lemma_placed_byte(b, p, be32(v), 3);
}

proof fn lemma_extends_trans(t3: Table, t2: Table, t: Table)
    requires
        extends(t3, t2),
        extends(t2, t),
    ensures
        extends(t3, t),
{
    assert forall|i: int| 0 <= i < t.len() implies #[trigger] t3[i] == t[i] by {
        assert(t3[i] == t2[i]);
    }
}

/// What decoding gives back for an encoded question: its name in wire form
/// (lower-cased, fully qualified).
pub open spec fn wire_question(q: SpecQuestion) -> SpecQuestion {
    SpecQuestion { name: normalized_name(q.name), ..q }
}

/// What decoding gives back for encoded questions.
pub open spec fn wire_questions(qs: Seq<SpecQuestion>) -> Seq<SpecQuestion> {
    qs.map_values(|q: SpecQuestion| wire_question(q))
}

/// A question with a well-formed name, written at `off`, decodes to its wire
/// form.
#[verifier::spinoff_prover]
#[verifier::rlimit(40)]
proof fn lemma_question_walk(b: Seq<u8>, off: nat, q: SpecQuestion, t: Table)
    requires
        name_wf(q.name),
        table_wf(t),
        table_walks(b, t),
        placed(b, off, question_bytes(off, q, t).0),
    ensures
        ({
            let (bytes, t2) = question_bytes(off, q, t);
            &&& extends(t2, t)
            &&& table_wf(t2)
            &&& table_walks(b, t2)
            &&& parse_question_spec(b, off) == Ok::<(SpecQuestion, nat), DnsError>(
                (wire_question(q), off + bytes.len()),
            )
        }),
{
    let nb = name_bytes(off, encode_utf8(q.name), t).0;
    let bytes = question_bytes(off, q, t).0;
    assert(bytes == nb + be16(q.qtype) + be16(q.qclass));
    lemma_placed_split(b, off, nb + be16(q.qtype), be16(q.qclass));
    lemma_placed_split(b, off, nb, be16(q.qtype));
    lemma_name_walk(b, off, q.name, t);
    lemma_placed_be16(b, off + nb.len(), q.qtype);
    lemma_placed_be16(b, off + nb.len() + 2, q.qclass);
}


proof fn lemma_labels_len(off: nat, s: Seq<u8>, start: nat, t: Table)
    requires
        start <= s.len(),
    ensures
        labels_bytes(off, s, start, t).0.len() <= s.len() - start + 2,
    decreases s.len() - start,
{
    lemma_next_dot(s, start);
    let key = ascii_lower_bytes(s.subrange(start as int, s.len() as int));
    if table_lookup(t, key) is None {
        let t2 = if off < 0x3FFF {
            t.push((key, off as u16))
        } else {
            t
        };
        let end = next_dot(s, start);
        if end < s.len() {
            lemma_labels_len((off + 1 + (end - start)) as nat, s, end + 1, t2);
        }
    }
}

/// The bytes of a well-formed name take at most 256 bytes.
proof fn lemma_name_len(off: nat, n: Seq<char>, t: Table)
    requires
        name_wf(n),
    ensures
        name_bytes(off, encode_utf8(n), t).0.len() <= 256,
{
    let s = name_body(encode_utf8(n));
    if s.len() > 0 {
        lemma_labels_len(off, s, 0, t);
    }
}

// ---------------------------------------------------------------------------
// TXT data
// ---------------------------------------------------------------------------

/// The TXT encoding cuts `x` into pieces of 255 bytes only between
/// characters.
pub open spec fn txt_cuts_ok(x: Seq<u8>) -> bool
    decreases x.len(),
{
    if x.len() <= 255 {
        true
    } else {
        !is_continuation_byte(x[255]) && txt_cuts_ok(x.subrange(255, x.len() as int))
    }
}

#[verifier::spinoff_prover]
#[verifier::rlimit(40)]
proof fn lemma_txt_chunks_walk(b: Seq<u8>, p: nat, x: Seq<u8>, end: nat)
    requires
        valid_utf8(x),
        txt_cuts_ok(x),
        placed(b, p, txt_chunks(x)),
        end == p + txt_chunks(x).len(),
    ensures
        txt_spec(b, p, end) == Ok::<Seq<char>, DnsError>(decode_utf8(x)),
    decreases x.len(),
{
    if x.len() > 0 {
        let n: nat = if x.len() < 255 {
            x.len()
        } else {
            255
        };
        let chunk = x.subrange(0, n as int);
        let rest = x.subrange(n as int, x.len() as int);
        assert(txt_chunks(x) == seq![n as u8] + chunk + txt_chunks(rest));
        lemma_placed_split(b, p, seq![n as u8] + chunk, txt_chunks(rest));
        lemma_placed_split(b, p, seq![n as u8], chunk);
        lemma_placed_byte(b, p, seq![n as u8], 0);
        if n < x.len() {
            is_char_boundary_iff_not_is_continuation_byte(x, 255);
        } else {
            is_char_boundary_start_end_of_seq(x);
        }
        valid_utf8_split(x, n as int);
        decode_utf8_split(x, n as int);
        if n < x.len() {
            assert(txt_cuts_ok(rest));
        } else {
            assert(rest =~= Seq::<u8>::empty());
        }
        lemma_txt_chunks_walk(b, p + 1 + n, rest, end);
    } else {
        assert(decode_utf8(x) =~= Seq::<char>::empty());
    }
}

/// TXT data written for `text` decodes back to `text`.
#[verifier::spinoff_prover]
#[verifier::rlimit(40)]
proof fn lemma_txt_walk(b: Seq<u8>, p: nat, text: Seq<char>)
    requires
        txt_cuts_ok(encode_utf8(text)),
        placed(b, p, txt_bytes(encode_utf8(text))),
    ensures
        txt_spec(b, p, p + txt_bytes(encode_utf8(text)).len()) == Ok::<Seq<char>, DnsError>(text),
{
    let x = encode_utf8(text);
    encode_utf8_valid_utf8(text);
    encode_utf8_decode_utf8(text);
    if x.len() == 0 {
        lemma_placed_byte(b, p, seq![0u8], 0);
        assert(b.subrange(p + 1 as int, p + 1 as int) =~= Seq::<u8>::empty());
        assert(decode_utf8(Seq::<u8>::empty()) =~= Seq::<char>::empty());
        assert(text =~= Seq::<char>::empty());
        assert(valid_utf8(Seq::<u8>::empty()));
        assert(txt_spec(b, p + 1, p + 1) == Ok::<Seq<char>, DnsError>(seq![]));
        assert(Seq::<char>::empty() + Seq::<char>::empty() =~= text);
        assert(b[p as int] == 0);
    } else {
        lemma_txt_chunks_walk(b, p, x, p + txt_chunks(x).len());
    }
}


// ---------------------------------------------------------------------------
// Record data
// ---------------------------------------------------------------------------

/// A record type whose data the decoder interprets.
pub open spec fn known_type(rtype: u16) -> bool {
    rtype == TYPE_A || rtype == TYPE_AAAA || rtype == TYPE_CNAME || rtype == TYPE_NS || rtype
        == TYPE_MX || rtype == TYPE_TXT || rtype == TYPE_SOA || rtype == TYPE_SRV || rtype
        == TYPE_CAA || rtype == TYPE_OPT
}

/// Record data that the wire format carries unchanged under the type `rtype`:
/// the data matches the type, addresses have their length, names are
/// well-formed, TXT text is cut between characters, and the data fits its
/// 16-bit length field.
pub open spec fn rdata_wf(rtype: u16, rd: SpecRData) -> bool {
    match rd {
        SpecRData::A(ip) => rtype == TYPE_A && ip.len() == 4,
        SpecRData::AAAA(ip) => rtype == TYPE_AAAA && ip.len() == 16,
        SpecRData::CNAME(n) => rtype == TYPE_CNAME && name_wf(n),
        SpecRData::NS(n) => rtype == TYPE_NS && name_wf(n),
        SpecRData::MX { exchange, .. } => rtype == TYPE_MX && name_wf(exchange),
        SpecRData::TXT(text) => rtype == TYPE_TXT && txt_cuts_ok(encode_utf8(text)) && txt_bytes(
            encode_utf8(text),
        ).len() < 65536,
        SpecRData::SOA { mname, rname, .. } => rtype == TYPE_SOA && name_wf(mname) && name_wf(
            rname,
        ),
        SpecRData::SRV { target, .. } => rtype == TYPE_SRV && name_wf(target),
        SpecRData::CAA { tag, value, .. } => rtype == TYPE_CAA && encode_utf8(tag).len() <= 255
            && 2 + encode_utf8(tag).len() + encode_utf8(value).len() < 65536,
        SpecRData::OPT { .. } => false,
        SpecRData::Unknown(d) => !known_type(rtype) && d.len() < 65536,
    }
}

/// What decoding gives back for encoded record data: the names it holds in
/// wire form, everything else unchanged.
pub open spec fn wire_rdata(rd: SpecRData) -> SpecRData {
    match rd {
        SpecRData::CNAME(n) => SpecRData::CNAME(normalized_name(n)),
        SpecRData::NS(n) => SpecRData::NS(normalized_name(n)),
        SpecRData::MX { preference, exchange } => SpecRData::MX {
            preference,
            exchange: normalized_name(exchange),
        },
        SpecRData::SOA { mname, rname, serial, refresh, retry, expire, minimum } => SpecRData::SOA {
            mname: normalized_name(mname),
            rname: normalized_name(rname),
            serial,
            refresh,
            retry,
            expire,
            minimum,
        },
        SpecRData::SRV { priority, weight, port, target } => SpecRData::SRV {
            priority,
            weight,
            port,
            target: normalized_name(target),
        },
        _ => rd,
    }
}

/// Record data of type `rtype` written at `p` decodes to its wire form,
/// ending where it was written to; the table stays readable.
pub open spec fn rdata_reads_back(
    b: Seq<u8>,
    p: nat,
    rtype: u16,
    class: u16,
    rd: SpecRData,
    t: Table,
) -> bool {
    let (bytes, t2) = rdata_bytes(p, rd, t);
    &&& extends(t2, t)
    &&& table_wf(t2)
    &&& table_walks(b, t2)
    &&& bytes.len() < 65536
    &&& parse_rdata_spec(b, p, rtype, class, bytes.len()) == Ok::<(SpecRData, nat), DnsError>(
        (wire_rdata(rd), p + bytes.len()),
    )
}

#[verifier::spinoff_prover]
proof fn lemma_rdata_plain(b: Seq<u8>, p: nat, rtype: u16, class: u16, rd: SpecRData, t: Table)
    requires
        rdata_wf(rtype, rd),
        rd is A || rd is AAAA || rd is TXT || rd is Unknown,
        table_walks(b, t),
        table_wf(t),
        placed(b, p, rdata_bytes(p, rd, t).0),
    ensures
        rdata_reads_back(b, p, rtype, class, rd, t),
{
    match rd {
        SpecRData::A(ip) => {
            assert(b.subrange(p as int, p + 4 as int) == ip);
        },
        SpecRData::AAAA(ip) => {
            assert(b.subrange(p as int, p + 16 as int) == ip);
        },
        SpecRData::TXT(text) => {
            lemma_txt_walk(b, p, text);
        },
        SpecRData::Unknown(d) => {
            assert(b.subrange(p as int, p + d.len() as int) == d);
        },
        _ => {},
    }
}

#[verifier::spinoff_prover]
proof fn lemma_rdata_name_only(b: Seq<u8>, p: nat, rtype: u16, class: u16, rd: SpecRData, t: Table)
    requires
        rdata_wf(rtype, rd),
        rd is CNAME || rd is NS,
        table_wf(t),
        table_walks(b, t),
        placed(b, p, rdata_bytes(p, rd, t).0),
    ensures
        rdata_reads_back(b, p, rtype, class, rd, t),
{
    match rd {
        SpecRData::CNAME(n) => {
            lemma_name_walk(b, p, n, t);
            lemma_name_len(p, n, t);
        },
        SpecRData::NS(n) => {
            lemma_name_walk(b, p, n, t);
            lemma_name_len(p, n, t);
        },
        _ => {},
    }
}

#[verifier::spinoff_prover]
proof fn lemma_rdata_mx(b: Seq<u8>, p: nat, rtype: u16, class: u16, rd: SpecRData, t: Table)
    requires
        rdata_wf(rtype, rd),
        rd is MX,
        table_wf(t),
        table_walks(b, t),
        placed(b, p, rdata_bytes(p, rd, t).0),
    ensures
        rdata_reads_back(b, p, rtype, class, rd, t),
{
    match rd {
        SpecRData::MX { preference, exchange } => {
            let nb = name_bytes(p + 2, encode_utf8(exchange), t).0;
            lemma_placed_split(b, p, be16(preference), nb);
            lemma_placed_be16(b, p, preference);
            lemma_name_walk(b, p + 2, exchange, t);
            lemma_name_len(p + 2, exchange, t);
        },
        _ => {},
    }
}

#[verifier::spinoff_prover]
proof fn lemma_rdata_srv(b: Seq<u8>, p: nat, rtype: u16, class: u16, rd: SpecRData, t: Table)
    requires
        rdata_wf(rtype, rd),
        rd is SRV,
        table_wf(t),
        table_walks(b, t),
        placed(b, p, rdata_bytes(p, rd, t).0),
    ensures
        rdata_reads_back(b, p, rtype, class, rd, t),
{
    let bytes = rdata_bytes(p, rd, t).0;
    match rd {
        SpecRData::SRV { priority, weight, port, target } => {
            let nb = name_bytes(p + 6, encode_utf8(target), t).0;
            assert(bytes =~= be16(priority) + be16(weight) + be16(port) + nb);
            lemma_placed_split(b, p, be16(priority) + be16(weight) + be16(port), nb);
            lemma_placed_split(b, p, be16(priority) + be16(weight), be16(port));
            lemma_placed_split(b, p, be16(priority), be16(weight));
            lemma_placed_be16(b, p, priority);
            lemma_placed_be16(b, p + 2, weight);
            lemma_placed_be16(b, p + 4, port);
            lemma_name_walk(b, p + 6, target, t);
            lemma_name_len(p + 6, target, t);
        },
        _ => {},
    }
}

/// The five numbers that end SOA data.
proof fn lemma_soa_numbers(
    b: Seq<u8>,
    q: nat,
    serial: u32,
    refresh: u32,
    retry: u32,
    expire: u32,
    minimum: u32,
)
    requires
        placed(
            b,
            q,
            be32(serial) + be32(refresh) + be32(retry) + be32(expire) + be32(minimum),
        ),
    ensures
        u32_at(b, q) == serial,
        u32_at(b, q + 4) == refresh,
        u32_at(b, q + 8) == retry,
        u32_at(b, q + 12) == expire,
        u32_at(b, q + 16) == minimum,
{
    lemma_placed_split(
        b,
        q,
        be32(serial) + be32(refresh) + be32(retry) + be32(expire),
        be32(minimum),
    );
    lemma_placed_split(b, q, be32(serial) + be32(refresh) + be32(retry), be32(expire));
    lemma_placed_split(b, q, be32(serial) + be32(refresh), be32(retry));
    lemma_placed_split(b, q, be32(serial), be32(refresh));
    lemma_placed_be32(b, q, serial);
    lemma_placed_be32(b, q + 4, refresh);
    lemma_placed_be32(b, q + 8, retry);
    lemma_placed_be32(b, q + 12, expire);
    lemma_placed_be32(b, q + 16, minimum);
}

#[verifier::spinoff_prover]
#[verifier::rlimit(40)]
proof fn lemma_rdata_soa(b: Seq<u8>, p: nat, rtype: u16, class: u16, rd: SpecRData, t: Table)
    requires
        rdata_wf(rtype, rd),
        rd is SOA,
        table_wf(t),
        table_walks(b, t),
        placed(b, p, rdata_bytes(p, rd, t).0),
    ensures
        rdata_reads_back(b, p, rtype, class, rd, t),
{
    let bytes = rdata_bytes(p, rd, t).0;
    match rd {
        SpecRData::SOA { mname, rname, serial, refresh, retry, expire, minimum } => {
            let (mb, t1) = name_bytes(p, encode_utf8(mname), t);
            let (rb, t2) = name_bytes(p + mb.len(), encode_utf8(rname), t1);
            let fixed = be32(serial) + be32(refresh) + be32(retry) + be32(expire) + be32(minimum);
            assert(bytes =~= mb + (rb + fixed));
            lemma_placed_split(b, p, mb, rb + fixed);
            lemma_placed_split(b, p + mb.len(), rb, fixed);
            lemma_name_walk(b, p, mname, t);
            lemma_name_len(p, mname, t);
            lemma_name_walk(b, p + mb.len(), rname, t1);
            lemma_name_len(p + mb.len(), rname, t1);
            lemma_extends_trans(t2, t1, t);
            lemma_soa_numbers(b, p + mb.len() + rb.len(), serial, refresh, retry, expire, minimum);
        },
        _ => {},
    }
}

#[verifier::spinoff_prover]
proof fn lemma_rdata_caa(b: Seq<u8>, p: nat, rtype: u16, class: u16, rd: SpecRData, t: Table)
    requires
        rdata_wf(rtype, rd),
        rd is CAA,
        table_wf(t),
        table_walks(b, t),
        placed(b, p, rdata_bytes(p, rd, t).0),
    ensures
        rdata_reads_back(b, p, rtype, class, rd, t),
{
    let bytes = rdata_bytes(p, rd, t).0;
    match rd {
        SpecRData::CAA { flags, tag, value } => {
            let tb = encode_utf8(tag);
            let vb = encode_utf8(value);
            encode_utf8_valid_utf8(tag);
            encode_utf8_decode_utf8(tag);
            encode_utf8_valid_utf8(value);
            encode_utf8_decode_utf8(value);
            let pre = seq![flags, (tb.len() % 256) as u8];
            assert(bytes =~= pre + (tb + vb));
            lemma_placed_split(b, p, pre, tb + vb);
            lemma_placed_split(b, p + 2, tb, vb);
            lemma_placed_byte(b, p, pre, 0);
            lemma_placed_byte(b, p, pre, 1);
        },
        _ => {},
    }
}

/// Well-formed record data written at `p` decodes to itself.
#[verifier::spinoff_prover]
#[verifier::rlimit(40)]
proof fn lemma_rdata_walk(b: Seq<u8>, p: nat, rtype: u16, class: u16, rd: SpecRData, t: Table)
    requires
        rdata_wf(rtype, rd),
        table_wf(t),
        table_walks(b, t),
        placed(b, p, rdata_bytes(p, rd, t).0),
    ensures
        rdata_reads_back(b, p, rtype, class, rd, t),
{
    if rd is A || rd is AAAA || rd is TXT || rd is Unknown {
        lemma_rdata_plain(b, p, rtype, class, rd, t);
    } else if rd is CNAME || rd is NS {
        lemma_rdata_name_only(b, p, rtype, class, rd, t);
    } else if rd is MX {
        lemma_rdata_mx(b, p, rtype, class, rd, t);
    } else if rd is SRV {
        lemma_rdata_srv(b, p, rtype, class, rd, t);
    } else if rd is SOA {
        lemma_rdata_soa(b, p, rtype, class, rd, t);
    } else if rd is CAA {
        lemma_rdata_caa(b, p, rtype, class, rd, t);
    }
}


// ---------------------------------------------------------------------------
// Records
// ---------------------------------------------------------------------------

/// A record the wire format carries: an OPT record, or one with a
/// well-formed name and well-formed data for its type.
pub open spec fn record_wf(r: SpecRecord) -> bool {
    r.rtype == TYPE_OPT || (name_wf(r.name) && rdata_wf(r.rtype, r.rdata))
}

/// What decoding gives back for an encoded record: an OPT record comes back
/// with the root name and its UDP payload size as class and as data; any other
/// record with its names in wire form.
pub open spec fn wire_record(r: SpecRecord) -> SpecRecord {
    if r.rtype == TYPE_OPT {
        let class = match r.rdata {
            SpecRData::OPT { udp_size } => udp_size,
            _ => r.class,
        };
        SpecRecord {
            name: seq!['.'],
            rtype: TYPE_OPT,
            class,
            ttl: r.ttl,
            rdata: SpecRData::OPT { udp_size: class },
        }
    } else {
        SpecRecord { name: normalized_name(r.name), rdata: wire_rdata(r.rdata), ..r }
    }
}

/// The root name: a single zero byte decodes to ".".
proof fn lemma_root_walk(b: Seq<u8>, off: nat)
    requires
        off < b.len(),
        b[off as int] == 0,
    ensures
        parse_name_spec(b, off) == Ok::<(Seq<char>, nat), DnsError>((seq!['.'], off + 1)),
{
    assert(walk_name(b, off, 0, None) == read_ok(seq![], off + 1));
    let dot = seq!['.'];
    assert(dot.drop_first() =~= Seq::<char>::empty());
    assert(dot[0] == '.');
    assert(('.' as u32) == 0x2E);
    assert(encode_scalar(0x2E).len() == 1);
    assert(encode_utf8(dot.drop_first()) =~= Seq::<u8>::empty());
    assert(encode_utf8(dot).len() == 1);
}

/// A record written at `off` decodes to its wire form, ending where it was
/// written to; the table stays readable.
pub open spec fn record_reads_back(b: Seq<u8>, off: nat, r: SpecRecord, t: Table) -> bool {
    let (bytes, t2) = record_bytes(off, r, t);
    &&& extends(t2, t)
    &&& table_wf(t2)
    &&& table_walks(b, t2)
    &&& parse_record_spec(b, off) == Ok::<(SpecRecord, nat), DnsError>(
        (wire_record(r), off + bytes.len()),
    )
}

#[verifier::spinoff_prover]
#[verifier::rlimit(40)]
proof fn lemma_opt_record_walk(b: Seq<u8>, off: nat, r: SpecRecord, t: Table)
    requires
        r.rtype == TYPE_OPT,
        table_wf(t),
        table_walks(b, t),
        placed(b, off, record_bytes(off, r, t).0),
    ensures
        record_reads_back(b, off, r, t),
{
    let bytes = record_bytes(off, r, t).0;
    let class = match r.rdata {
        SpecRData::OPT { udp_size } => udp_size,
        _ => r.class,
    };
    let x1 = seq![0u8] + be16(TYPE_OPT);
    let x2 = x1 + be16(class);
    let x3 = x2 + be32(r.ttl);
    assert(bytes == x3 + be16(0));
    lemma_placed_split(b, off, x3, be16(0));
    lemma_placed_split(b, off, x2, be32(r.ttl));
    lemma_placed_split(b, off, x1, be16(class));
    lemma_placed_split(b, off, seq![0u8], be16(TYPE_OPT));
    lemma_placed_byte(b, off, seq![0u8], 0);
    lemma_root_walk(b, off);
    lemma_placed_be16(b, off + 1, TYPE_OPT);
    lemma_placed_be16(b, off + 3, class);
    lemma_placed_be32(b, off + 5, r.ttl);
    lemma_placed_be16(b, off + 9, 0);
    assert(parse_rdata_spec(b, off + 11, TYPE_OPT, class, 0) == Ok::<(SpecRData, nat), DnsError>(
        (SpecRData::OPT { udp_size: class }, off + 11),
    ));
}

#[verifier::spinoff_prover]
#[verifier::rlimit(40)]
proof fn lemma_plain_record_walk(b: Seq<u8>, off: nat, r: SpecRecord, t: Table)
    requires
        r.rtype != TYPE_OPT,
        name_wf(r.name),
        rdata_wf(r.rtype, r.rdata),
        table_wf(t),
        table_walks(b, t),
        placed(b, off, record_bytes(off, r, t).0),
    ensures
        record_reads_back(b, off, r, t),
{
    let bytes = record_bytes(off, r, t).0;
    let (nb, t1) = name_bytes(off, encode_utf8(r.name), t);
    let fixed = be16(r.rtype) + be16(r.class) + be32(r.ttl);
    let (rd, t2) = rdata_bytes(off + nb.len() + 10, r.rdata, t1);
    let rdl = be16((rd.len() % 65536) as u16);
    assert(bytes == nb + fixed + rdl + rd);
    lemma_placed_split(b, off, nb + fixed + rdl, rd);
    lemma_placed_split(b, off, nb + fixed, rdl);
    lemma_placed_split(b, off, nb, fixed);
    lemma_placed_split(b, off + nb.len(), be16(r.rtype) + be16(r.class), be32(r.ttl));
    lemma_placed_split(b, off + nb.len(), be16(r.rtype), be16(r.class));
    lemma_name_walk(b, off, r.name, t);
    let p1 = off + nb.len();
    lemma_placed_be16(b, p1, r.rtype);
    lemma_placed_be16(b, p1 + 2, r.class);
    lemma_placed_be32(b, p1 + 4, r.ttl);
    lemma_rdata_walk(b, p1 + 10, r.rtype, r.class, r.rdata, t1);
    lemma_placed_be16(b, p1 + 8, (rd.len() % 65536) as u16);
    lemma_extends_trans(t2, t1, t);
}

/// A well-formed record written at `off` decodes to its wire form.
#[verifier::spinoff_prover]
#[verifier::rlimit(40)]
proof fn lemma_record_walk(b: Seq<u8>, off: nat, r: SpecRecord, t: Table)
    requires
        record_wf(r),
        table_wf(t),
        table_walks(b, t),
        placed(b, off, record_bytes(off, r, t).0),
    ensures
        record_reads_back(b, off, r, t),
{
    if r.rtype == TYPE_OPT {
        lemma_opt_record_walk(b, off, r, t);
    } else {
        lemma_plain_record_walk(b, off, r, t);
    }
}


// ---------------------------------------------------------------------------
// Sections and messages
// ---------------------------------------------------------------------------

/// What decoding gives back for encoded records.
pub open spec fn wire_records(rs: Seq<SpecRecord>) -> Seq<SpecRecord> {
    rs.map_values(|r: SpecRecord| wire_record(r))
}

#[verifier::spinoff_prover]
#[verifier::rlimit(40)]
proof fn lemma_questions_walk(b: Seq<u8>, off: nat, qs: Seq<SpecQuestion>, t: Table)
    requires
        forall|i: int| 0 <= i < qs.len() ==> name_wf(#[trigger] qs[i].name),
        table_wf(t),
        table_walks(b, t),
        placed(b, off, questions_bytes(off, qs, t).0),
    ensures
        ({
            let (bytes, t2) = questions_bytes(off, qs, t);
            &&& extends(t2, t)
            &&& table_wf(t2)
            &&& table_walks(b, t2)
            &&& parse_questions_spec(b, off, qs.len()) == Ok::<(Seq<SpecQuestion>, nat), DnsError>(
                (wire_questions(qs), off + bytes.len()),
            )
        }),
    decreases qs.len(),
{
    reveal(questions_bytes);
    if qs.len() == 0 {
        assert(wire_questions(qs) =~= seq![]);
    } else {
        let (b1, t1) = question_bytes(off, qs[0], t);
        let rest = qs.drop_first();
        let (b2, t2) = questions_bytes(off + b1.len(), rest, t1);
        lemma_placed_split(b, off, b1, b2);
        assert(name_wf(qs[0].name));
        lemma_question_walk(b, off, qs[0], t);
        assert forall|i: int| 0 <= i < rest.len() implies name_wf(#[trigger] rest[i].name) by {
            assert(rest[i] == qs[i + 1]);
        }
        lemma_questions_walk(b, off + b1.len(), rest, t1);
        lemma_extends_trans(t2, t1, t);
        assert(seq![wire_question(qs[0])] + wire_questions(rest) =~= wire_questions(qs));
    }
}

#[verifier::spinoff_prover]
#[verifier::rlimit(40)]
proof fn lemma_records_walk(b: Seq<u8>, off: nat, rs: Seq<SpecRecord>, t: Table)
    requires
        forall|i: int| 0 <= i < rs.len() ==> record_wf(#[trigger] rs[i]),
        table_wf(t),
        table_walks(b, t),
        placed(b, off, records_bytes(off, rs, t).0),
    ensures
        ({
            let (bytes, t2) = records_bytes(off, rs, t);
            &&& extends(t2, t)
            &&& table_wf(t2)
            &&& table_walks(b, t2)
            &&& parse_records_spec(b, off, rs.len()) == Ok::<(Seq<SpecRecord>, nat), DnsError>(
                (wire_records(rs), off + bytes.len()),
            )
        }),
    decreases rs.len(),
{
    reveal(records_bytes);
    if rs.len() == 0 {
        assert(wire_records(rs) =~= seq![]);
    } else {
        let (b1, t1) = record_bytes(off, rs[0], t);
        let rest = rs.drop_first();
        let (b2, t2) = records_bytes(off + b1.len(), rest, t1);
        lemma_placed_split(b, off, b1, b2);
        assert(record_wf(rs[0]));
        lemma_record_walk(b, off, rs[0], t);
        assert forall|i: int| 0 <= i < rest.len() implies record_wf(#[trigger] rest[i]) by {
            assert(rest[i] == rs[i + 1]);
        }
        lemma_records_walk(b, off + b1.len(), rest, t1);
        lemma_extends_trans(t2, t1, t);
        assert(seq![wire_record(rs[0])] + wire_records(rest) =~= wire_records(rs));
    }
}

/// The header that decoding gives back: the one written, with the section
/// counts and with the opcode and response code cut to their four bits.
pub open spec fn wire_header(m: SpecMessage) -> Header {
    let h = counted_header(m);
    Header { opcode: h.opcode % 16, rcode: h.rcode % 16, ..h }
}

#[verifier::spinoff_prover]
#[verifier::rlimit(40)]
proof fn lemma_flags_decode(h: Header)
    ensures
        ({
            let f = header_flags(h);
            &&& ((f / 32768) % 2 == 1) == h.qr
            &&& ((f / 2048) % 16) as u8 == h.opcode % 16
            &&& ((f / 1024) % 2 == 1) == h.aa
            &&& ((f / 512) % 2 == 1) == h.tc
            &&& ((f / 256) % 2 == 1) == h.rd
            &&& ((f / 128) % 2 == 1) == h.ra
            &&& (f % 16) as u8 == h.rcode % 16
        }),
{
    let q: int = if h.qr { 1 } else { 0 };
    let a: int = if h.aa { 1 } else { 0 };
    let t: int = if h.tc { 1 } else { 0 };
    let r: int = if h.rd { 1 } else { 0 };
    let v: int = if h.ra { 1 } else { 0 };
    let o: int = (h.opcode % 16) as int;
    let c: int = (h.rcode % 16) as int;
    let f: int = q * 32768 + o * 2048 + a * 1024 + t * 512 + r * 256 + v * 128 + c;
    assert(header_flags(h) as int == f);
    assert(f / 32768 == q) by (nonlinear_arith)
        requires
            f == q * 32768 + o * 2048 + a * 1024 + t * 512 + r * 256 + v * 128 + c,
            0 <= q <= 1, 0 <= o < 16, 0 <= a <= 1, 0 <= t <= 1, 0 <= r <= 1, 0 <= v <= 1,
            0 <= c < 16;
    assert(f / 2048 == q * 16 + o) by (nonlinear_arith)
        requires
            f == q * 32768 + o * 2048 + a * 1024 + t * 512 + r * 256 + v * 128 + c,
            0 <= q <= 1, 0 <= o < 16, 0 <= a <= 1, 0 <= t <= 1, 0 <= r <= 1, 0 <= v <= 1,
            0 <= c < 16;
    assert(f / 1024 == q * 32 + o * 2 + a) by (nonlinear_arith)
        requires
            f == q * 32768 + o * 2048 + a * 1024 + t * 512 + r * 256 + v * 128 + c,
            0 <= q <= 1, 0 <= o < 16, 0 <= a <= 1, 0 <= t <= 1, 0 <= r <= 1, 0 <= v <= 1,
            0 <= c < 16;
    assert(f / 512 == q * 64 + o * 4 + a * 2 + t) by (nonlinear_arith)
        requires
            f == q * 32768 + o * 2048 + a * 1024 + t * 512 + r * 256 + v * 128 + c,
            0 <= q <= 1, 0 <= o < 16, 0 <= a <= 1, 0 <= t <= 1, 0 <= r <= 1, 0 <= v <= 1,
            0 <= c < 16;
    assert(f / 256 == q * 128 + o * 8 + a * 4 + t * 2 + r) by (nonlinear_arith)
        requires
            f == q * 32768 + o * 2048 + a * 1024 + t * 512 + r * 256 + v * 128 + c,
            0 <= q <= 1, 0 <= o < 16, 0 <= a <= 1, 0 <= t <= 1, 0 <= r <= 1, 0 <= v <= 1,
            0 <= c < 16;
    assert(f / 128 == q * 256 + o * 16 + a * 8 + t * 4 + r * 2 + v) by (nonlinear_arith)
        requires
            f == q * 32768 + o * 2048 + a * 1024 + t * 512 + r * 256 + v * 128 + c,
            0 <= q <= 1, 0 <= o < 16, 0 <= a <= 1, 0 <= t <= 1, 0 <= r <= 1, 0 <= v <= 1,
            0 <= c < 16;
    assert(f % 16 == c) by (nonlinear_arith)
        requires
            f == q * 32768 + o * 2048 + a * 1024 + t * 512 + r * 256 + v * 128 + c,
            0 <= q <= 1, 0 <= o < 16, 0 <= a <= 1, 0 <= t <= 1, 0 <= r <= 1, 0 <= v <= 1,
            0 <= c < 16;
}


/// A message that the wire format carries: each section fits its 16-bit count,
/// every question has a well-formed name and every record is well-formed.
pub open spec fn message_wf(m: SpecMessage) -> bool {
    &&& m.questions.len() < 65536
    &&& m.answers.len() < 65536
    &&& m.authority.len() < 65536
    &&& m.additional.len() < 65536
    &&& forall|i: int| 0 <= i < m.questions.len() ==> name_wf(#[trigger] m.questions[i].name)
    &&& forall|i: int| 0 <= i < m.answers.len() ==> record_wf(#[trigger] m.answers[i])
    &&& forall|i: int| 0 <= i < m.authority.len() ==> record_wf(#[trigger] m.authority[i])
    &&& forall|i: int| 0 <= i < m.additional.len() ==> record_wf(#[trigger] m.additional[i])
}

/// What decoding gives back for an encoded message: the header with the
/// section counts, and the questions and records in their wire form.
pub open spec fn wire_message(m: SpecMessage) -> SpecMessage {
    SpecMessage {
        header: wire_header(m),
        questions: wire_questions(m.questions),
        answers: wire_records(m.answers),
        authority: wire_records(m.authority),
        additional: wire_records(m.additional),
    }
}

/// The header written for a message decodes to its wire form.
#[verifier::spinoff_prover]
#[verifier::rlimit(40)]
proof fn lemma_header_walk(b: Seq<u8>, m: SpecMessage)
    requires
        m.questions.len() < 65536,
        m.answers.len() < 65536,
        m.authority.len() < 65536,
        m.additional.len() < 65536,
        placed(b, 0, header_bytes(counted_header(m))),
    ensures
        header_at(b, 0) == wire_header(m),
{
    let hb = header_bytes(counted_header(m));
    let h = counted_header(m);
    let x1 = be16(h.id) + be16(header_flags(h));
    let x2 = x1 + be16(h.qdcount);
    let x3 = x2 + be16(h.ancount);
    let x4 = x3 + be16(h.nscount);
    assert(hb == x4 + be16(h.arcount));
    lemma_placed_split(b, 0, x4, be16(h.arcount));
    lemma_placed_split(b, 0, x3, be16(h.nscount));
    lemma_placed_split(b, 0, x2, be16(h.ancount));
    lemma_placed_split(b, 0, x1, be16(h.qdcount));
    lemma_placed_split(b, 0, be16(h.id), be16(header_flags(h)));
    lemma_placed_be16(b, 0, h.id);
    lemma_placed_be16(b, 2, header_flags(h));
    lemma_placed_be16(b, 4, h.qdcount);
    lemma_placed_be16(b, 6, h.ancount);
    lemma_placed_be16(b, 8, h.nscount);
    lemma_placed_be16(b, 10, h.arcount);
    lemma_flags_decode(h);
}

/// Decoding a message from the outcomes of its parts.
#[verifier::spinoff_prover]
#[verifier::rlimit(40)]
proof fn lemma_parse_message_parts(b: Seq<u8>, m: SpecMessage, p1: nat, p2: nat, p3: nat, p4: nat)
    requires
        b.len() >= 12,
        m.questions.len() < 65536,
        m.answers.len() < 65536,
        m.authority.len() < 65536,
        m.additional.len() < 65536,
        header_at(b, 0) == wire_header(m),
        parse_questions_spec(b, 12, m.questions.len()) == Ok::<(Seq<SpecQuestion>, nat), DnsError>(
            (wire_questions(m.questions), p1),
        ),
        parse_records_spec(b, p1, m.answers.len()) == Ok::<(Seq<SpecRecord>, nat), DnsError>(
            (wire_records(m.answers), p2),
        ),
        parse_records_spec(b, p2, m.authority.len()) == Ok::<(Seq<SpecRecord>, nat), DnsError>(
            (wire_records(m.authority), p3),
        ),
        parse_records_spec(b, p3, m.additional.len()) == Ok::<(Seq<SpecRecord>, nat), DnsError>(
            (wire_records(m.additional), p4),
        ),
    ensures
        parse_message_spec(b) == Ok::<SpecMessage, DnsError>(wire_message(m)),
{
    reveal(parse_message_spec);
    lemma_counts(m);
}

proof fn lemma_counts(m: SpecMessage)
    requires
        m.questions.len() < 65536,
        m.answers.len() < 65536,
        m.authority.len() < 65536,
        m.additional.len() < 65536,
    ensures
        wire_header(m).qdcount as nat == m.questions.len(),
        wire_header(m).ancount as nat == m.answers.len(),
        wire_header(m).nscount as nat == m.authority.len(),
        wire_header(m).arcount as nat == m.additional.len(),
{
}

/// The sections written after the header decode back in order.
#[verifier::spinoff_prover]
proof fn lemma_sections_walk(
    b: Seq<u8>,
    m: SpecMessage,
    qb: Seq<u8>,
    t1: Table,
    ab: Seq<u8>,
    t2: Table,
    nb: Seq<u8>,
    t3: Table,
    xb: Seq<u8>,
)
    requires
        message_wf(m),
        (qb, t1) == questions_bytes(12, m.questions, seq![]),
        (ab, t2) == records_bytes(12 + qb.len(), m.answers, t1),
        (nb, t3) == records_bytes(12 + qb.len() + ab.len(), m.authority, t2),
        xb == records_bytes(12 + qb.len() + ab.len() + nb.len(), m.additional, t3).0,
        placed(b, 12, qb),
        placed(b, 12 + qb.len(), ab),
        placed(b, 12 + qb.len() + ab.len(), nb),
        placed(b, 12 + qb.len() + ab.len() + nb.len(), xb),
    ensures
        parse_questions_spec(b, 12, m.questions.len()) == Ok::<(Seq<SpecQuestion>, nat), DnsError>(
            (wire_questions(m.questions), 12 + qb.len()),
        ),
        parse_records_spec(b, 12 + qb.len(), m.answers.len()) == Ok::<
            (Seq<SpecRecord>, nat),
            DnsError,
        >((wire_records(m.answers), 12 + qb.len() + ab.len())),
        parse_records_spec(b, 12 + qb.len() + ab.len(), m.authority.len()) == Ok::<
            (Seq<SpecRecord>, nat),
            DnsError,
        >((wire_records(m.authority), 12 + qb.len() + ab.len() + nb.len())),
        parse_records_spec(b, 12 + qb.len() + ab.len() + nb.len(), m.additional.len()) == Ok::<
            (Seq<SpecRecord>, nat),
            DnsError,
        >((wire_records(m.additional), 12 + qb.len() + ab.len() + nb.len() + xb.len())),
{
    let empty = Seq::<(Seq<u8>, u16)>::empty();
    assert(empty =~= seq![]);
    assert(table_walks(b, empty));
    lemma_questions_walk(b, 12, m.questions, empty);
    lemma_records_walk(b, 12 + qb.len(), m.answers, t1);
    lemma_records_walk(b, 12 + qb.len() + ab.len(), m.authority, t2);
    lemma_records_walk(b, 12 + qb.len() + ab.len() + nb.len(), m.additional, t3);
}

/// Decoding what `Message::serialize` writes for a well-formed message gives
/// the message back: the same header (with its section counts set, and opcode
/// and response code in their four bits), the same questions and the same
/// records, with names lower-cased and fully qualified and OPT records in their
/// wire form. This holds whatever names the compression shares between
/// records, whatever their letter case.
#[verifier::spinoff_prover]
#[verifier::rlimit(40)]
pub proof fn lemma_parse_serialize(m: SpecMessage)
    requires
        message_wf(m),
    ensures
        parse_message_spec(message_bytes(m)) == Ok::<SpecMessage, DnsError>(wire_message(m)),
{
    reveal(message_bytes);
    let hb = header_bytes(counted_header(m));
    let (qb, t1) = questions_bytes(12, m.questions, seq![]);
    let (ab, t2) = records_bytes(12 + qb.len(), m.answers, t1);
    let (nb, t3) = records_bytes(12 + qb.len() + ab.len(), m.authority, t2);
    let xb = records_bytes(12 + qb.len() + ab.len() + nb.len(), m.additional, t3).0;
    let b = message_bytes(m);
    assert(b == hb + qb + ab + nb + xb);
    assert(placed(b, 0, b)) by {
        assert(b.subrange(0, b.len() as int) =~= b);
    }
    lemma_placed_split(b, 0, hb + qb + ab + nb, xb);
    lemma_placed_split(b, 0, hb + qb + ab, nb);
    lemma_placed_split(b, 0, hb + qb, ab);
    lemma_placed_split(b, 0, hb, qb);
    lemma_header_walk(b, m);
    lemma_sections_walk(b, m, qb, t1, ab, t2, nb, t3, xb);
    lemma_parse_message_parts(
        b,
        m,
        12 + qb.len(),
        12 + qb.len() + ab.len(),
        12 + qb.len() + ab.len() + nb.len(),
        12 + qb.len() + ab.len() + nb.len() + xb.len(),
    );
}


/// What `Message::serialize_with_limit` sends for a well-formed message
/// decodes, and says whether records were left out: untruncated it is the
/// whole message; truncated, its header has the TC bit set.
#[verifier::spinoff_prover]
#[verifier::rlimit(40)]
pub proof fn lemma_limited_bytes_decode(m: SpecMessage, max_size: nat)
    requires
        message_wf(m),
    ensures
        !limited_bytes(m, max_size).1 ==> limited_bytes(m, max_size).0 == message_bytes(m),
        parse_message_spec(limited_bytes(m, max_size).0) is Ok,
        limited_bytes(m, max_size).1 ==> parse_message_spec(limited_bytes(m, max_size).0)->Ok_0.header.tc,
{
    let m1 = truncated_message(m, m.answers, m.authority, seq![]);
    let m2 = truncated_message(m, m.answers, seq![], seq![]);
    let m3 = truncated_message(m, seq![], seq![], seq![]);
    lemma_parse_serialize(m);
    lemma_parse_serialize(m1);
    lemma_parse_serialize(m2);
    lemma_parse_serialize(m3);
}


/// What `Message::serialize_with_limit` sends keeps as many sections as fit:
/// the whole message when it fits; otherwise the additional records are
/// dropped first, then the authority records, then the answers. So the
/// answers come through whenever the message with its answers alone fits, and
/// the authority records too whenever the message without its additional
/// records fits. Output larger than the limit carries no records at all.
#[verifier::spinoff_prover]
#[verifier::rlimit(40)]
pub proof fn lemma_limited_keeps_sections(m: SpecMessage, max_size: nat)
    requires
        message_wf(m),
    ensures
        ({
            let (out, tc) = limited_bytes(m, max_size);
            let d = parse_message_spec(out)->Ok_0;
            let tc_header = Header { tc: true, ..m.header };
            let answers_only = SpecMessage {
                header: tc_header,
                questions: m.questions,
                answers: m.answers,
                authority: seq![],
                additional: seq![],
            };
            let no_additional = SpecMessage {
                header: tc_header,
                questions: m.questions,
                answers: m.answers,
                authority: m.authority,
                additional: seq![],
            };
            &&& parse_message_spec(out) is Ok
            &&& d.questions == wire_questions(m.questions)
            &&& message_bytes(m).len() <= max_size ==> !tc && d == wire_message(m)
            &&& message_bytes(m).len() > max_size ==> tc && d.header.tc && d.additional.len() == 0
            &&& message_bytes(answers_only).len() <= max_size ==> d.answers == wire_records(
                m.answers,
            )
            &&& message_bytes(no_additional).len() <= max_size ==> d.answers == wire_records(
                m.answers,
            ) && d.authority == wire_records(m.authority)
            &&& out.len() > max_size ==> d.answers.len() == 0 && d.authority.len() == 0
                && d.additional.len() == 0
        }),
{
    let m1 = truncated_message(m, m.answers, m.authority, seq![]);
    let m2 = truncated_message(m, m.answers, seq![], seq![]);
    let m3 = truncated_message(m, seq![], seq![], seq![]);
    lemma_parse_serialize(m);
    lemma_parse_serialize(m1);
    lemma_parse_serialize(m2);
    lemma_parse_serialize(m3);
    assert(wire_records(seq![]) =~= Seq::<SpecRecord>::empty());
}


// ---------------------------------------------------------------------------
// Names, records and messages read back
// ---------------------------------------------------------------------------

/// What `write_name` appends to `b` for a well-formed name decodes, at the
/// position where it was written, to the name's wire form (ASCII letters
/// lower-cased, fully qualified) and ends where the writing ended, provided
/// the compression table can be read back in `b`. The new table keeps the old
/// entries, its offsets fit a pointer, and it can be read back in the longer
/// buffer.
pub proof fn lemma_write_name_parses(b: Seq<u8>, n: Seq<char>, t: Table)
    requires
        name_wf(n),
        table_wf(t),
        table_walks(b, t),
    ensures
        ({
            let (bytes, t2) = name_bytes(b.len(), encode_utf8(n), t);
            let out = b + bytes;
            &&& parse_name_spec(out, b.len()) == Ok::<(Seq<char>, nat), DnsError>(
                (normalized_name(n), out.len()),
            )
            &&& extends(t2, t)
            &&& table_wf(t2)
            &&& table_walks(out, t2)
        }),
{
    let bytes = name_bytes(b.len(), encode_utf8(n), t).0;
    let out = b + bytes;
    lemma_table_walks_extend(b, bytes, t);
    assert(out.subrange(b.len() as int, out.len() as int) =~= bytes);
    lemma_name_walk(out, b.len(), n, t);
}

/// What `Record::serialize` appends to `b` for a well-formed record decodes,
/// at the position where it was written, to the record's wire form and ends
/// where the writing ended, provided the compression table can be read back
/// in `b`; the new table can be read back in the longer buffer.
pub proof fn lemma_record_parse_serialize(b: Seq<u8>, r: SpecRecord, t: Table)
    requires
        record_wf(r),
        table_wf(t),
        table_walks(b, t),
    ensures
        ({
            let (bytes, t2) = record_bytes(b.len(), r, t);
            let out = b + bytes;
            &&& parse_record_spec(out, b.len()) == Ok::<(SpecRecord, nat), DnsError>(
                (wire_record(r), out.len()),
            )
            &&& extends(t2, t)
            &&& table_wf(t2)
            &&& table_walks(out, t2)
        }),
{
    let bytes = record_bytes(b.len(), r, t).0;
    let out = b + bytes;
    lemma_table_walks_extend(b, bytes, t);
    assert(out.subrange(b.len() as int, out.len() as int) =~= bytes);
    lemma_record_walk(out, b.len(), r, t);
}

/// A record already in its wire form: an OPT record named "." whose data
/// carries its class as payload size, or a record whose names are in lower
/// case and fully qualified.
pub open spec fn record_canonical(r: SpecRecord) -> bool {
    if r.rtype == TYPE_OPT {
        r.name == seq!['.'] && r.rdata == (SpecRData::OPT { udp_size: r.class })
    } else {
        normalized_name(r.name) == r.name && wire_rdata(r.rdata) == r.rdata
    }
}

/// A message already in its wire form: opcode and response code fit their
/// four bits, question names and records are in wire form.
pub open spec fn message_canonical(m: SpecMessage) -> bool {
    &&& m.header.opcode < 16
    &&& m.header.rcode < 16
    &&& forall|i: int| 0 <= i < m.questions.len() ==> #[trigger] wire_question(m.questions[i]) == m.questions[i]
    &&& forall|i: int| 0 <= i < m.answers.len() ==> record_canonical(#[trigger] m.answers[i])
    &&& forall|i: int| 0 <= i < m.authority.len() ==> record_canonical(#[trigger] m.authority[i])
    &&& forall|i: int| 0 <= i < m.additional.len() ==> record_canonical(#[trigger] m.additional[i])
}

/// A record in wire form is its own wire form.
pub proof fn lemma_wire_record_canonical(r: SpecRecord)
    requires
        record_canonical(r),
    ensures
        wire_record(r) == r,
{
}

proof fn lemma_wire_records_canonical(rs: Seq<SpecRecord>)
    requires
        forall|i: int| 0 <= i < rs.len() ==> record_canonical(#[trigger] rs[i]),
    ensures
        wire_records(rs) == rs,
{
    assert forall|i: int| 0 <= i < rs.len() implies wire_records(rs)[i] == rs[i] by {
        lemma_wire_record_canonical(rs[i]);
    }
    assert(wire_records(rs) =~= rs);
}

/// Decoding what `Message::serialize` writes for a well-formed message that is
/// already in wire form gives back the message itself, with only the header's
/// section counts set to the section lengths.
pub proof fn lemma_parse_serialize_canonical(m: SpecMessage)
    requires
        message_wf(m),
        message_canonical(m),
    ensures
        parse_message_spec(message_bytes(m)) == Ok::<SpecMessage, DnsError>(
            SpecMessage { header: counted_header(m), ..m },
        ),
{
    lemma_parse_serialize(m);
    assert(wire_header(m) == counted_header(m));
    assert(wire_questions(m.questions) =~= m.questions);
    lemma_wire_records_canonical(m.answers);
    lemma_wire_records_canonical(m.authority);
    lemma_wire_records_canonical(m.additional);
    assert(wire_message(m) == SpecMessage { header: counted_header(m), ..m });
}


/// The fields of a header placed at `p`.
#[verifier::spinoff_prover]
proof fn lemma_header_fields(out: Seq<u8>, p: nat, h: Header)
    requires
        placed(out, p, header_bytes(h)),
    ensures
        u16_at(out, p) == h.id,
        u16_at(out, p + 2) == header_flags(h),
        u16_at(out, p + 4) == h.qdcount,
        u16_at(out, p + 6) == h.ancount,
        u16_at(out, p + 8) == h.nscount,
        u16_at(out, p + 10) == h.arcount,
{
    let x1 = be16(h.id) + be16(header_flags(h));
    let x2 = x1 + be16(h.qdcount);
    let x3 = x2 + be16(h.ancount);
    let x4 = x3 + be16(h.nscount);
    assert(header_bytes(h) == x4 + be16(h.arcount));
    lemma_placed_split(out, p, x4, be16(h.arcount));
    lemma_placed_split(out, p, x3, be16(h.nscount));
    lemma_placed_split(out, p, x2, be16(h.ancount));
    lemma_placed_split(out, p, x1, be16(h.qdcount));
    lemma_placed_split(out, p, be16(h.id), be16(header_flags(h)));
    lemma_placed_be16(out, p, h.id);
    lemma_placed_be16(out, p + 2, header_flags(h));
    lemma_placed_be16(out, p + 4, h.qdcount);
    lemma_placed_be16(out, p + 6, h.ancount);
    lemma_placed_be16(out, p + 8, h.nscount);
    lemma_placed_be16(out, p + 10, h.arcount);
}

/// The twelve bytes `Header::serialize` writes for a header whose opcode and
/// response code fit their four bits decode, wherever they stand, to that
/// header.
#[verifier::spinoff_prover]
pub proof fn lemma_header_parse_serialize(b: Seq<u8>, h: Header, x: Seq<u8>)
    requires
        h.opcode < 16,
        h.rcode < 16,
    ensures
        header_at(b + header_bytes(h) + x, b.len()) == h,
{
    let out = b + header_bytes(h) + x;
    let p = b.len();
    assert(out.subrange(p as int, p + 12 as int) =~= header_bytes(h));
    lemma_header_fields(out, p, h);
    lemma_flags_decode(h);
    let f = header_flags(h);
    assert(h.opcode % 16 == h.opcode);
    assert(h.rcode % 16 == h.rcode);
    assert(header_at(out, p) == h);
}

} // verus!
