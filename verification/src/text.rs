//! Character-level helpers shared by the wire codec and the zone logic,
//! together with the few string functions of `std` that they rely on.
use vstd::prelude::*;
use vstd::utf8::*;

verus! {

/// The character is one of `A`..=`Z`.
pub open spec fn is_ascii_upper(c: char) -> bool {
    65 <= (c as u32) && (c as u32) <= 90
}

/// ASCII lower-casing of one character: `A`..=`Z` become `a`..=`z`, every other
/// character is left alone.
pub open spec fn ascii_lower(c: char) -> char {
    if is_ascii_upper(c) {
        ((c as u32) + 32) as char
    } else {
        c
    }
}

/// ASCII lower-casing of a character sequence.
pub open spec fn ascii_lower_chars(s: Seq<char>) -> Seq<char> {
    s.map_values(|c: char| ascii_lower(c))
}

/// True when no character of `s` is an upper-case ASCII letter.
pub open spec fn no_ascii_upper(s: Seq<char>) -> bool {
    forall|i: int| 0 <= i < s.len() ==> !is_ascii_upper(#[trigger] s[i])
}

/// ASCII lower-casing leaves no upper-case ASCII letter.
pub proof fn lemma_ascii_lower_no_upper(s: Seq<char>)
    ensures
        no_ascii_upper(ascii_lower_chars(s)),
{
    let l = ascii_lower_chars(s);
    assert forall|i: int| 0 <= i < l.len() implies !is_ascii_upper(#[trigger] l[i]) by {
        let c = s[i];
        if is_ascii_upper(c) {
            let v = (c as u32) + 32;
            assert(97 <= v <= 122);
            assert(((v as u32) as char) as u32 == v);
        }
    }
}

/// ASCII lower-casing of one byte.
pub open spec fn ascii_lower_byte(b: u8) -> u8 {
    if 0x41 <= b && b <= 0x5A {
        (b + 32) as u8
    } else {
        b
    }
}

/// ASCII lower-casing of a byte sequence.
pub open spec fn ascii_lower_bytes(s: Seq<u8>) -> Seq<u8> {
    s.map_values(|b: u8| ascii_lower_byte(b))
}

/// What `str::to_lowercase` returns for a character sequence (full Unicode
/// lower-casing).
pub uninterp spec fn unicode_lowercase(s: Seq<char>) -> Seq<char>;

/// What `str::to_uppercase` returns for a character sequence (full Unicode
/// upper-casing).
pub uninterp spec fn unicode_uppercase(s: Seq<char>) -> Seq<char>;

/// `std::str::from_utf8`: succeeds exactly on well-formed UTF-8 and then yields
/// the decoded characters.
#[verifier::external_body]
pub fn str_from_utf8(bytes: &[u8]) -> (res: Option<&str>)
    ensures
        res is Some <==> valid_utf8(bytes@),
        res matches Some(s) ==> s@ == decode_utf8(bytes@),
{
    std::str::from_utf8(bytes).ok()
}

/// ASCII lower-casing of the bytes is ASCII lower-casing of the characters:
/// it keeps UTF-8 valid and commutes with decoding.
pub proof fn lemma_lower_decode(y: Seq<u8>)
    requires
        valid_utf8(y),
    ensures
        valid_utf8(ascii_lower_bytes(y)),
        decode_utf8(ascii_lower_bytes(y)) == ascii_lower_chars(decode_utf8(y)),
    decreases y.len(),
{
    let ly = ascii_lower_bytes(y);
    if y.len() > 0 {
        let b0 = y[0];
        let rest = pop_first_scalar(y);
        let k = length_of_first_scalar(y);
        assert(ly.subrange(k, ly.len() as int) =~= ascii_lower_bytes(rest));
        lemma_lower_decode(rest);
        if b0 <= 0x7F {
            let l0 = ly[0];
            assert(l0 <= 0x7F);
            assert((b0 & 0x7F) == b0) by (bit_vector)
                requires
                    b0 <= 0x7F,
            ;
            assert((l0 & 0x7F) == l0) by (bit_vector)
                requires
                    l0 <= 0x7F,
            ;
            assert(valid_first_scalar(ly));
            assert(length_of_first_scalar(ly) == 1);
            assert(pop_first_scalar(ly) =~= ascii_lower_bytes(rest));
            let c = decode_first_scalar(y) as char;
            assert(decode_first_scalar(y) == b0 as u32);
            assert(decode_first_scalar(ly) == l0 as u32);
            assert((b0 as u32) as char as u32 == b0 as u32);
            assert((l0 as u32) as char as u32 == l0 as u32);
            assert(ascii_lower(c) == (l0 as u32) as char);
            assert(decode_utf8(ly) =~= ascii_lower_chars(decode_utf8(y)));
        } else {
            assert(forall|i: int| 0 <= i < k ==> #[trigger] ly[i] == y[i]);
            assert(ly[0] == y[0]);
            assert(valid_first_scalar(ly) == valid_first_scalar(y));
            assert(decode_first_scalar(ly) == decode_first_scalar(y));
            assert(length_of_first_scalar(ly) == k);
            assert(pop_first_scalar(ly) =~= ascii_lower_bytes(rest));
            let c = decode_first_scalar(y) as char;
            decode_utf8_first_scalar(y);
            char_is_scalar(c);
            assert(take_first_scalar(y).len() == k);
            assert(k >= 2);
            assert(!has_width_1_encoding(c as u32));
            assert(!is_ascii_upper(c));
            assert(decode_utf8(ly) =~= ascii_lower_chars(decode_utf8(y)));
        }
    }
}


/// ASCII lower-cased copy of `bytes[start..end]`.
pub fn lower_copy(bytes: &[u8], start: usize, end: usize) -> (res: Vec<u8>)
    requires
        start <= end <= bytes@.len(),
    ensures
        res@ == ascii_lower_bytes(bytes@.subrange(start as int, end as int)),
{
    let mut out: Vec<u8> = Vec::new();
    let mut i = start;
    while i < end
        invariant
            start <= i <= end <= bytes@.len(),
            out@ == ascii_lower_bytes(bytes@.subrange(start as int, i as int)),
        decreases end - i,
    {
        let b = bytes[i];
        let l = if b >= 0x41 && b <= 0x5A {
            b + 32
        } else {
            b
        };
        out.push(l);
        i = i + 1;
        assert(out@ =~= ascii_lower_bytes(bytes@.subrange(start as int, i as int)));
    }
    out
}

/// A copy of `s` with `A`..=`Z` mapped to `a`..=`z` and every other character
/// kept.
pub fn str_to_ascii_lowercase(s: &str) -> (res: String)
    ensures
        res@ == ascii_lower_chars(s@),
{
    let bytes = s.as_bytes();
    let lower = lower_copy(bytes, 0, bytes.len());
    proof {
        encode_utf8_valid_utf8(s@);
        encode_utf8_decode_utf8(s@);
        assert(bytes@.subrange(0, bytes@.len() as int) =~= bytes@);
        lemma_lower_decode(bytes@);
    }
    match str_from_utf8(lower.as_slice()) {
        Some(t) => t.to_owned(),
        None => String::new(),
    }
}

/// `str::to_lowercase`: the result is named by `unicode_lowercase`; nothing else
/// about the Unicode case tables is stated.
#[verifier::external_body]
pub fn str_to_lowercase(s: &str) -> (res: String)
    ensures
        res@ == unicode_lowercase(s@),
{
    s.to_lowercase()
}

/// `str::to_uppercase`: the result is named by `unicode_uppercase`; nothing else
/// about the Unicode case tables is stated.
#[verifier::external_body]
pub fn str_to_uppercase(s: &str) -> (res: String)
    ensures
        res@ == unicode_uppercase(s@),
{
    s.to_uppercase()
}

/// Equality of two string slices, character by character.
pub fn str_eq(a: &str, b: &str) -> (res: bool)
    ensures
        res == (a@ == b@),
{
    let x = a.to_owned();
    let y = b.to_owned();
    x == y
}

/// The last character of `s`, if any.
pub fn last_char(s: &str) -> (res: Option<char>)
    ensures
        res == (if s@.len() == 0 { None } else { Some(s@.last()) }),
{
    let n = s.unicode_len();
    if n == 0 {
        None
    } else {
        Some(s.get_char(n - 1))
    }
}

} // verus!
