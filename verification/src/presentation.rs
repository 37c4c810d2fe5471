//! The text form of record data, as shown in logs: numbers in decimal,
//! addresses in their usual notation (RFC 5952 for IPv6), names and text as
//! they are.
use vstd::prelude::*;
use crate::dns::{RData, SpecRData};

verus! {

// ---------------------------------------------------------------------------
// Numbers
// ---------------------------------------------------------------------------

/// The character of a digit (0 to 15) in lower-case hexadecimal.
pub open spec fn digit_char(d: nat) -> char {
    if d < 10 {
        (48 + d) as char
    } else {
        (87 + d) as char
    }
}

/// `n` written in base `base` (10 or 16), without leading zeros.
pub open spec fn in_base(n: nat, base: nat) -> Seq<char>
    decreases n,
{
    if base < 2 || n < base {
        seq![digit_char(n)]
    } else {
        proof {
            assert(n / base < n) by (nonlinear_arith)
                requires
                    base >= 2,
                    n >= base,
            ;
        }
        in_base(n / base, base).push(digit_char(n % base))
    }
}

/// `n` in decimal.
pub open spec fn decimal(n: nat) -> Seq<char> {
    in_base(n, 10)
}

/// `n` in lower-case hexadecimal.
pub open spec fn hexadecimal(n: nat) -> Seq<char> {
    in_base(n, 16)
}

fn digit_str(d: u64) -> (s: &'static str)
    requires
        d < 16,
    ensures
        s@ == seq![digit_char(d as nat)],
{
    proof {
        reveal_strlit("0");
        reveal_strlit("1");
        reveal_strlit("2");
        reveal_strlit("3");
        reveal_strlit("4");
        reveal_strlit("5");
        reveal_strlit("6");
        reveal_strlit("7");
        reveal_strlit("8");
        reveal_strlit("9");
        reveal_strlit("a");
        reveal_strlit("b");
        reveal_strlit("c");
        reveal_strlit("d");
        reveal_strlit("e");
        reveal_strlit("f");
    }
    let s = match d {
        0 => "0",
        1 => "1",
        2 => "2",
        3 => "3",
        4 => "4",
        5 => "5",
        6 => "6",
        7 => "7",
        8 => "8",
        9 => "9",
        10 => "a",
        11 => "b",
        12 => "c",
        13 => "d",
        14 => "e",
        _ => "f",
    };
    assert(s@ =~= seq![digit_char(d as nat)]);
    s
}

/// Appends `n` written in base `base` (10 or 16).
fn push_number(buf: &mut String, n: u64, base: u64)
    requires
        base == 10 || base == 16,
    ensures
        final(buf)@ == old(buf)@ + in_base(n as nat, base as nat),
    decreases n,
{
    if n >= base {
        push_number(buf, n / base, base);
    } else {
        assert(n % base == n) by (nonlinear_arith)
            requires
                n < base,
        ;
    }
    buf.append(digit_str(n % base));
    assert(buf@ =~= old(buf)@ + in_base(n as nat, base as nat));
}

// ---------------------------------------------------------------------------
// Addresses
// ---------------------------------------------------------------------------

/// An IPv4 address in dotted decimal.
pub open spec fn ipv4_text(ip: Seq<u8>) -> Seq<char> {
    decimal(ip[0] as nat) + seq!['.'] + decimal(ip[1] as nat) + seq!['.'] + decimal(ip[2] as nat)
        + seq!['.'] + decimal(ip[3] as nat)
}

/// The `i`-th 16-bit group of an IPv6 address.
pub open spec fn group(ip: Seq<u8>, i: int) -> nat {
    ip[2 * i] as nat * 256 + ip[2 * i + 1] as nat
}

/// The number of zero groups from group `i` on, up to the first non-zero one.
pub open spec fn zero_run_len(ip: Seq<u8>, i: int) -> nat
    decreases 8 - i,
{
    if 0 <= i < 8 && group(ip, i) == 0 {
        1 + zero_run_len(ip, i + 1)
    } else {
        0
    }
}

/// A run of zero groups starts at group `i`.
pub open spec fn run_start(ip: Seq<u8>, i: int) -> bool {
    0 <= i < 8 && group(ip, i) == 0 && (i == 0 || group(ip, i - 1) != 0)
}

/// `(start, len)` is the first longest run of zero groups, or `(0, 0)` when
/// no group is zero.
pub open spec fn longest_zero_run(ip: Seq<u8>, start: int, len: nat) -> bool {
    ||| (start == 0 && len == 0 && forall|i: int| 0 <= i < 8 ==> #[trigger] group(ip, i) != 0)
    ||| (run_start(ip, start) && len == zero_run_len(ip, start) && forall|i: int|
        #[trigger] run_start(ip, i) ==> zero_run_len(ip, i) < len || (zero_run_len(ip, i) == len
            && start <= i))
}

/// The first longest run of zero groups.
pub open spec fn zero_span(ip: Seq<u8>) -> (int, nat) {
    choose|start: int, len: nat| longest_zero_run(ip, start, len)
}

/// Groups `from` to `to` (exclusive) in hexadecimal, separated by colons.
pub open spec fn groups_text(ip: Seq<u8>, from: int, to: int) -> Seq<char>
    decreases to - from,
{
    if to <= from {
        seq![]
    } else if to == from + 1 {
        hexadecimal(group(ip, from))
    } else {
        groups_text(ip, from, to - 1) + seq![':'] + hexadecimal(group(ip, to - 1))
    }
}

/// An IPv6 address in the canonical text form of RFC 5952: an IPv4-mapped
/// address as `::ffff:` and the IPv4 address; otherwise the groups in
/// hexadecimal, with the first longest run of two or more zero groups written
/// as `::`.
pub open spec fn ipv6_text(ip: Seq<u8>) -> Seq<char> {
    if (forall|i: int| 0 <= i < 5 ==> #[trigger] group(ip, i) == 0) && group(ip, 5) == 0xffff {
        seq![':', ':', 'f', 'f', 'f', 'f', ':'] + ipv4_text(ip.subrange(12, 16))
    } else {
        let (start, len) = zero_span(ip);
        if len > 1 {
            groups_text(ip, 0, start) + seq![':', ':'] + groups_text(ip, start + len, 8)
        } else {
            groups_text(ip, 0, 8)
        }
    }
}

/// Two first longest runs are the same run.
proof fn lemma_zero_span_unique(ip: Seq<u8>, s1: int, l1: nat, s2: int, l2: nat)
    requires
        longest_zero_run(ip, s1, l1),
        longest_zero_run(ip, s2, l2),
    ensures
        s1 == s2,
        l1 == l2,
{
    if run_start(ip, s1) && run_start(ip, s2) {
        assert(run_start(ip, s1));
        assert(run_start(ip, s2));
    } else if run_start(ip, s1) {
        assert(group(ip, s1) == 0);
    } else if run_start(ip, s2) {
        assert(group(ip, s2) == 0);
    }
}

/// A zero group belongs to a run that starts at or before it.
proof fn lemma_run_start_before(ip: Seq<u8>, i: int)
    requires
        0 <= i < 8,
        group(ip, i) == 0,
    ensures
        exists|k: int| 0 <= k <= i && #[trigger] run_start(ip, k),
    decreases i,
{
    if i == 0 || group(ip, i - 1) != 0 {
        assert(run_start(ip, i));
    } else {
        lemma_run_start_before(ip, i - 1);
    }
}

/// The groups of an IPv6 address.
fn groups_of(ip: &[u8; 16]) -> (g: Vec<u16>)
    ensures
        g@.len() == 8,
        forall|i: int| 0 <= i < 8 ==> #[trigger] g@[i] == group(ip@, i),
{
    let mut g: Vec<u16> = Vec::new();
    let mut i: usize = 0;
    while i < 8
        invariant
            i <= 8,
            ip@.len() == 16,
            g@.len() == i,
            forall|k: int| 0 <= k < i ==> #[trigger] g@[k] == group(ip@, k),
        decreases 8 - i,
    {
        g.push((ip[2 * i] as u16) * 256 + ip[2 * i + 1] as u16);
        i = i + 1;
    }
    g
}

/// The first longest run of zero groups.
fn find_zero_span(ip: &[u8; 16], g: &Vec<u16>) -> (res: (usize, usize))
    requires
        g@.len() == 8,
        forall|i: int| 0 <= i < 8 ==> #[trigger] g@[i] == group(ip@, i),
    ensures
        res.0 <= 8,
        res.0 + res.1 <= 8,
        longest_zero_run(ip@, res.0 as int, res.1 as nat),
{
    let ghost b = ip@;
    let mut best_start: usize = 0;
    let mut best_len: usize = 0;
    let mut i: usize = 0;
    while i < 8
        invariant
            i <= 8,
            b == ip@,
            g@.len() == 8,
            forall|k: int| 0 <= k < 8 ==> #[trigger] g@[k] == group(b, k),
            best_start + best_len <= 8,
            best_len == 0 ==> best_start == 0 && forall|k: int| 0 <= k < i ==> !#[trigger] run_start(b, k),
            best_len > 0 ==> run_start(b, best_start as int) && best_start < i && best_len
                == zero_run_len(b, best_start as int),
            forall|k: int|
                0 <= k < i && #[trigger] run_start(b, k) ==> zero_run_len(b, k) < best_len || (
                zero_run_len(b, k) == best_len && best_start <= k),
        decreases 8 - i,
    {
        if g[i] == 0 && (i == 0 || g[i - 1] != 0) {
            assert(run_start(b, i as int));
            let mut j: usize = i;
            while j < 8 && g[j] == 0
                invariant
                    i <= j <= 8,
                    g@.len() == 8,
                    forall|k: int| 0 <= k < 8 ==> #[trigger] g@[k] == group(b, k),
                    zero_run_len(b, i as int) == (j - i) + zero_run_len(b, j as int),
                decreases 8 - j,
            {
                j = j + 1;
            }
            let len = j - i;
            assert(zero_run_len(b, i as int) == len);
            if len > best_len {
                best_start = i;
                best_len = len;
            }
        } else {
            assert(!run_start(b, i as int));
        }
        i = i + 1;
    }
    if best_len == 0 {
        assert forall|k: int| 0 <= k < 8 implies #[trigger] group(b, k) != 0 by {
            if group(b, k) == 0 {
                lemma_run_start_before(b, k);
            }
        }
    }
    (best_start, best_len)
}

/// Appends groups `from` to `to` (exclusive) in hexadecimal, separated by
/// colons.
fn push_groups(buf: &mut String, ip: &[u8; 16], g: &Vec<u16>, from: usize, to: usize)
    requires
        from <= to <= 8,
        g@.len() == 8,
        forall|i: int| 0 <= i < 8 ==> #[trigger] g@[i] == group(ip@, i),
    ensures
        final(buf)@ == old(buf)@ + groups_text(ip@, from as int, to as int),
{
    proof {
        reveal_strlit(":");
    }
    assert(":"@ =~= seq![':']);
    let mut k = from;
    assert(old(buf)@ + groups_text(ip@, from as int, from as int) =~= buf@);
    while k < to
        invariant
            from <= k <= to <= 8,
            g@.len() == 8,
            forall|i: int| 0 <= i < 8 ==> #[trigger] g@[i] == group(ip@, i),
            buf@ == old(buf)@ + groups_text(ip@, from as int, k as int),
            ":"@ == seq![':'],
        decreases to - k,
    {
        let ghost before = buf@;
        let ghost prev = groups_text(ip@, from as int, k as int);
        assert(g@[k as int] == group(ip@, k as int));
        if k > from {
            buf.append(":");
        }
        push_number(buf, g[k] as u64, 16);
        assert(groups_text(ip@, from as int, k + 1) == if k == from {
            hexadecimal(group(ip@, k as int))
        } else {
            prev + seq![':'] + hexadecimal(group(ip@, k as int))
        });
        k = k + 1;
        assert(buf@ =~= old(buf)@ + groups_text(ip@, from as int, k as int));
    }
}

/// Appends an IPv4 address in dotted decimal.
fn push_ipv4(buf: &mut String, a: u8, b: u8, c: u8, d: u8)
    ensures
        final(buf)@ == old(buf)@ + ipv4_text(seq![a, b, c, d]),
{
    proof {
        reveal_strlit(".");
    }
    assert("."@ =~= seq!['.']);
    push_number(buf, a as u64, 10);
    buf.append(".");
    push_number(buf, b as u64, 10);
    buf.append(".");
    push_number(buf, c as u64, 10);
    buf.append(".");
    push_number(buf, d as u64, 10);
    assert(buf@ =~= old(buf)@ + ipv4_text(seq![a, b, c, d]));
}

/// Appends an IPv6 address in the canonical form of RFC 5952.
fn push_ipv6(buf: &mut String, ip: &[u8; 16])
    ensures
        final(buf)@ == old(buf)@ + ipv6_text(ip@),
{
    proof {
        reveal_strlit("::ffff:");
        reveal_strlit("::");
    }
    assert("::ffff:"@ =~= seq![':', ':', 'f', 'f', 'f', 'f', ':']);
    assert("::"@ =~= seq![':', ':']);
    let g = groups_of(ip);
    if g[0] == 0 && g[1] == 0 && g[2] == 0 && g[3] == 0 && g[4] == 0 && g[5] == 0xffff {
        assert(forall|i: int| 0 <= i < 5 ==> #[trigger] group(ip@, i) == 0) by {
            assert(g@[0] == group(ip@, 0) && g@[1] == group(ip@, 1) && g@[2] == group(ip@, 2)
                && g@[3] == group(ip@, 3) && g@[4] == group(ip@, 4));
        }
        assert(group(ip@, 5) == g@[5]);
        buf.append("::ffff:");
        push_ipv4(buf, ip[12], ip[13], ip[14], ip[15]);
        assert(ip@.subrange(12, 16) =~= seq![ip@[12], ip@[13], ip@[14], ip@[15]]);
        assert(buf@ =~= old(buf)@ + ipv6_text(ip@));
        return ;
    }
    assert(!((forall|i: int| 0 <= i < 5 ==> #[trigger] group(ip@, i) == 0) && group(ip@, 5) == 0xffff)) by {
        if forall|i: int| 0 <= i < 5 ==> #[trigger] group(ip@, i) == 0 {
            assert(group(ip@, 0) == g@[0] && group(ip@, 1) == g@[1] && group(ip@, 2) == g@[2]
                && group(ip@, 3) == g@[3] && group(ip@, 4) == g@[4] && group(ip@, 5) == g@[5]);
        }
    }
    let (start, len) = find_zero_span(ip, &g);
    proof {
        let (s2, l2) = zero_span(ip@);
        assert(longest_zero_run(ip@, s2, l2));
        lemma_zero_span_unique(ip@, start as int, len as nat, s2, l2);
    }
    if len > 1 {
        push_groups(buf, ip, &g, 0, start);
        buf.append("::");
        push_groups(buf, ip, &g, start + len, 8);
    } else {
        push_groups(buf, ip, &g, 0, 8);
    }
    assert(buf@ =~= old(buf)@ + ipv6_text(ip@));
}

// ---------------------------------------------------------------------------
// Record data
// ---------------------------------------------------------------------------

/// The text form of record data.
pub open spec fn rdata_text(rd: SpecRData) -> Seq<char> {
    match rd {
        SpecRData::A(ip) => ipv4_text(ip),
        SpecRData::AAAA(ip) => ipv6_text(ip),
        SpecRData::CNAME(name) => name,
        SpecRData::NS(name) => name,
        SpecRData::MX { preference, exchange } => decimal(preference as nat) + seq![' '] + exchange,
        SpecRData::TXT(text) => seq!['"'] + text + seq!['"'],
        SpecRData::SOA { mname, rname, serial, refresh, retry, expire, minimum } => mname + seq![
            ' ',
        ] + rname + seq![' '] + decimal(serial as nat) + seq![' '] + decimal(refresh as nat)
            + seq![' '] + decimal(retry as nat) + seq![' '] + decimal(expire as nat) + seq![' ']
            + decimal(minimum as nat),
        SpecRData::SRV { priority, weight, port, target } => decimal(priority as nat) + seq![' ']
            + decimal(weight as nat) + seq![' '] + decimal(port as nat) + seq![' '] + target,
        SpecRData::CAA { flags, tag, value } => decimal(flags as nat) + seq![' '] + tag + seq![
            ' ',
            '"',
        ] + value + seq!['"'],
        SpecRData::OPT { udp_size } => "OPT udp_size="@ + decimal(udp_size as nat),
        SpecRData::Unknown(data) => "<unknown "@ + decimal(data.len()) + " bytes>"@,
    }
}

impl RData {
    /// The text form of this record data, as shown in logs.
    pub fn to_text(&self) -> (res: String)
        ensures
            res@ == rdata_text(self@),
    {
        proof {
            reveal_strlit(" ");
            reveal_strlit("\"");
            reveal_strlit(" \"");
        }
        assert(" "@ =~= seq![' ']);
        assert("\""@ =~= seq!['"']);
        assert(" \""@ =~= seq![' ', '"']);
        let mut out = String::new();
        match self {
            RData::A(ip) => {
                push_ipv4(&mut out, ip[0], ip[1], ip[2], ip[3]);
                assert(ip@ =~= seq![ip@[0], ip@[1], ip@[2], ip@[3]]);
            },
            RData::AAAA(ip) => {
                push_ipv6(&mut out, ip);
            },
            RData::CNAME(name) => {
                out.append(name.as_str());
            },
            RData::NS(name) => {
                out.append(name.as_str());
            },
            RData::MX { preference, exchange } => {
                push_number(&mut out, *preference as u64, 10);
                out.append(" ");
                out.append(exchange.as_str());
            },
            RData::TXT(text) => {
                out.append("\"");
                out.append(text.as_str());
                out.append("\"");
            },
            RData::SOA { mname, rname, serial, refresh, retry, expire, minimum } => {
                out.append(mname.as_str());
                out.append(" ");
                out.append(rname.as_str());
                out.append(" ");
                push_number(&mut out, *serial as u64, 10);
                out.append(" ");
                push_number(&mut out, *refresh as u64, 10);
                out.append(" ");
                push_number(&mut out, *retry as u64, 10);
                out.append(" ");
                push_number(&mut out, *expire as u64, 10);
                out.append(" ");
                push_number(&mut out, *minimum as u64, 10);
            },
            RData::SRV { priority, weight, port, target } => {
                push_number(&mut out, *priority as u64, 10);
                out.append(" ");
                push_number(&mut out, *weight as u64, 10);
                out.append(" ");
                push_number(&mut out, *port as u64, 10);
                out.append(" ");
                out.append(target.as_str());
            },
            RData::CAA { flags, tag, value } => {
                push_number(&mut out, *flags as u64, 10);
                out.append(" ");
                out.append(tag.as_str());
                out.append(" \"");
                out.append(value.as_str());
                out.append("\"");
            },
            RData::OPT { udp_size } => {
                out.append("OPT udp_size=");
                push_number(&mut out, *udp_size as u64, 10);
            },
            RData::Unknown(data) => {
                out.append("<unknown ");
                push_number(&mut out, data.len() as u64, 10);
                out.append(" bytes>");
            },
        }
        assert(out@ =~= rdata_text(self@));
        out
    }
}

} // verus!
