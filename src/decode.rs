//! Decoding of the fields of one trace frame: payload bytes, identifier and timestamp text.
use vstd::prelude::*;
use vstd::string::StrSliceExecFns;

use crate::text::{chars_of, string_of_span, strip_parens, trim_span};

verus! {

/// The largest identifier a frame may carry: 29 bits.
pub const MAX_IDENTIFIER: u32 = 0x1FFF_FFFF;

/// The most hex characters a payload may have: 8 bytes.
pub const MAX_PAYLOAD_DIGITS: usize = 16;

pub open spec fn is_hex_digit(c: char) -> bool {
    ('0' <= c && c <= '9') || ('a' <= c && c <= 'f') || ('A' <= c && c <= 'F')
}

pub open spec fn hex_digit_value(c: char) -> nat {
    if '0' <= c && c <= '9' {
        (c as u32 - '0' as u32) as nat
    } else if 'a' <= c && c <= 'f' {
        (c as u32 - 'a' as u32 + 10) as nat
    } else {
        (c as u32 - 'A' as u32 + 10) as nat
    }
}

pub open spec fn all_hex(s: Seq<char>) -> bool {
    forall|i: int| 0 <= i < s.len() ==> is_hex_digit(#[trigger] s[i])
}

/// The bytes spelled by consecutive pairs of hex digits, high digit first.
pub open spec fn hex_bytes(s: Seq<char>) -> Seq<u8> {
    Seq::new(
        s.len() / 2,
        |i: int| (hex_digit_value(s[2 * i]) * 16 + hex_digit_value(s[2 * i + 1])) as u8,
    )
}

/// The number that the hex digits of `s` spell.
pub open spec fn hex_value(s: Seq<char>) -> nat
    decreases s.len(),
{
    if s.len() == 0 {
        0
    } else {
        hex_value(s.drop_last()) * 16 + hex_digit_value(s.last())
    }
}

#[derive(Debug, Clone, Copy, PartialEq, Eq, Structural)]
pub enum PayloadError {
    /// Hex digits come in pairs; this payload has an odd number of characters.
    OddLength,
    /// More than eight bytes.
    TooLong,
    /// A character that is not a hex digit.
    InvalidDigit,
}

/// What a payload text decodes to.
pub open spec fn payload_spec(s: Seq<char>) -> Result<Seq<u8>, PayloadError> {
    if s.len() == 0 {
        Ok(seq![])
    } else if s.len() % 2 != 0 {
        Err(PayloadError::OddLength)
    } else if s.len() > MAX_PAYLOAD_DIGITS {
        Err(PayloadError::TooLong)
    } else if !all_hex(s) {
        Err(PayloadError::InvalidDigit)
    } else {
        Ok(hex_bytes(s))
    }
}

#[verifier::external_type_specification]
#[verifier::external_body]
pub struct ExFromHexError(hex::FromHexError);

/// Relies on `hex::decode`: it succeeds exactly on an even number of hex digits
/// (either case) and nothing else, and turns each pair into one byte, high digit first.
#[verifier::external_body]
fn hex_decode(s: &str) -> (r: Result<Vec<u8>, hex::FromHexError>)
    ensures
        r is Ok <==> (s@.len() % 2 == 0 && all_hex(s@)),
        r is Ok ==> r->Ok_0@ == hex_bytes(s@),
{
    hex::decode(s)
}

/// Decodes the payload text of a frame into its bytes.
pub fn decode_hex_bytes(s: &str) -> (r: Result<Vec<u8>, PayloadError>)
    ensures
        r is Ok ==> payload_spec(s@) == Ok::<Seq<u8>, PayloadError>(r->Ok_0@),
        r is Err ==> payload_spec(s@) == Err::<Seq<u8>, PayloadError>(r->Err_0),
{
    let n = s.unicode_len();
    if n == 0 {
        return Ok(Vec::new());
    }
    if n % 2 != 0 {
        return Err(PayloadError::OddLength);
    }
    if n > MAX_PAYLOAD_DIGITS {
        return Err(PayloadError::TooLong);
    }
    match hex_decode(s) {
        Ok(v) => Ok(v),
        Err(_) => Err(PayloadError::InvalidDigit),
    }
}

/// The digits of an identifier text: one leading `0x` (lower case only) and then one
/// leading `+` are dropped, as `u32::from_str_radix` accepts a `+` sign.
pub open spec fn identifier_digits(s: Seq<char>) -> Seq<char> {
    let t = if s.len() >= 2 && s[0] == '0' && s[1] == 'x' {
        s.subrange(2, s.len() as int)
    } else {
        s
    };
    if t.len() > 0 && t[0] == '+' {
        t.drop_first()
    } else {
        t
    }
}

/// The identifier an identifier text stands for, if it is one: at least one hex
/// digit, nothing else, and a value that fits in 29 bits.
pub open spec fn identifier_spec(s: Seq<char>) -> Option<u32> {
    let d = identifier_digits(s);
    if d.len() > 0 && all_hex(d) && hex_value(d) <= MAX_IDENTIFIER {
        Some(hex_value(d) as u32)
    } else {
        None
    }
}

proof fn lemma_hex_value_grows(s: Seq<char>, k: int)
    requires
        0 <= k <= s.len(),
    ensures
        hex_value(s.subrange(0, k)) <= hex_value(s),
    decreases s.len() - k,
{
    if k < s.len() {
        lemma_hex_value_grows(s, k + 1);
        assert(s.subrange(0, k + 1).drop_last() =~= s.subrange(0, k));
    } else {
        assert(s.subrange(0, k) =~= s);
    }
}

fn hex_digit(c: char) -> (r: Option<u64>)
    ensures
        r is Some <==> is_hex_digit(c),
        r is Some ==> r->Some_0 == hex_digit_value(c) && r->Some_0 < 16,
{
    if '0' <= c && c <= '9' {
        Some((c as u32 - '0' as u32) as u64)
    } else if 'a' <= c && c <= 'f' {
        Some((c as u32 - 'a' as u32 + 10) as u64)
    } else if 'A' <= c && c <= 'F' {
        Some((c as u32 - 'A' as u32 + 10) as u64)
    } else {
        None
    }
}

/// Parses the identifier text `cs[lo..hi]`.
pub fn identifier_of_span(cs: &Vec<char>, lo: usize, hi: usize) -> (r: Option<u32>)
    requires
        lo <= hi <= cs@.len(),
    ensures
        r == identifier_spec(cs@.subrange(lo as int, hi as int)),
{
    let ghost s = cs@.subrange(lo as int, hi as int);
    let mut start: usize = lo;
    if hi - lo >= 2 && cs[lo] == '0' && cs[lo + 1] == 'x' {
        start = lo + 2;
    }
    if start < hi && cs[start] == '+' {
        start = start + 1;
    }
    let ghost d = cs@.subrange(start as int, hi as int);
    proof {
        let t = if s.len() >= 2 && s[0] == '0' && s[1] == 'x' {
            s.subrange(2, s.len() as int)
        } else {
            s
        };
        let t_lo: int = if s.len() >= 2 && s[0] == '0' && s[1] == 'x' { lo + 2 } else { lo as int };
        assert(t =~= cs@.subrange(t_lo, hi as int));
        assert(t.len() > 0 ==> t.drop_first() =~= cs@.subrange(t_lo + 1, hi as int));
        assert(identifier_digits(s) =~= d);
    }
    if start == hi {
        return None;
    }
    let mut acc: u64 = 0;
    let mut i: usize = start;
    while i < hi
        invariant
            start <= i <= hi <= cs@.len(),
            d == cs@.subrange(start as int, hi as int),
            s == cs@.subrange(lo as int, hi as int),
            identifier_digits(s) == d,
            acc == hex_value(cs@.subrange(start as int, i as int)),
            acc <= MAX_IDENTIFIER,
            all_hex(cs@.subrange(start as int, i as int)),
        decreases hi - i,
    {
        let ghost prev = cs@.subrange(start as int, i as int);
        let ghost cur = cs@.subrange(start as int, i + 1);
        assert(cur.drop_last() =~= prev);
        match hex_digit(cs[i]) {
            None => {
                assert(d[i - start] == cs@[i as int]);
                assert(!is_hex_digit(d[i - start]));
                return None;
            },
            Some(v) => {
                let next = acc * 16 + v;
                if next > MAX_IDENTIFIER as u64 {
                    proof {
                        lemma_hex_value_grows(d, i + 1 - start);
                        assert(d.subrange(0, i + 1 - start) =~= cur);
                    }
                    return None;
                }
                acc = next;
            },
        }
        i = i + 1;
    }
    assert(cs@.subrange(start as int, i as int) =~= d);
    Some(acc as u32)
}

/// Parses an identifier text: hex digits, optionally after `0x`, at most `MAX_IDENTIFIER`.
pub fn parse_identifier(s: &str) -> (r: Option<u32>)
    ensures
        r == identifier_spec(s@),
{
    let cs = chars_of(s);
    assert(cs@.subrange(0, cs@.len() as int) =~= s@);
    identifier_of_span(&cs, 0, cs.len())
}

/// The timestamp text of a timestamp token: every `(` and `)` at either end removed.
pub fn timestamp_text(token: &str) -> (r: String)
    ensures
        r@ == strip_parens(token@),
{
    let cs = chars_of(token);
    assert(cs@.subrange(0, cs@.len() as int) =~= token@);
    let (a, b) = trim_span(&cs, 0, cs.len(), true);
    string_of_span(&cs, a, b)
}

/// A payload text of odd length, of more than sixteen characters, or holding a
/// character that is not a hex digit, never decodes.
pub proof fn lemma_malformed_payload_rejected(s: Seq<char>)
    requires
        s.len() % 2 != 0 || s.len() > MAX_PAYLOAD_DIGITS || exists|i: int|
            0 <= i < s.len() && !is_hex_digit(#[trigger] s[i]),
    ensures
        payload_spec(s) is Err,
{
}

/// An identifier text reads the same with a leading `0x` as without it.
pub proof fn lemma_hex_prefix_optional(s: Seq<char>)
    requires
        !(s.len() >= 2 && s[0] == '0' && s[1] == 'x'),
    ensures
        identifier_spec(seq!['0', 'x'] + s) == identifier_spec(s),
{
    let p = seq!['0', 'x'] + s;
    assert(p.subrange(2, p.len() as int) =~= s);
}

/// An identifier is accepted only when it fits in 29 bits, and one spelled with a
/// larger value is rejected.
pub proof fn lemma_identifier_fits(s: Seq<char>)
    ensures
        identifier_spec(s) is Some ==> identifier_spec(s)->Some_0 <= MAX_IDENTIFIER
            && identifier_spec(s)->Some_0 == hex_value(identifier_digits(s)),
        hex_value(identifier_digits(s)) > MAX_IDENTIFIER ==> identifier_spec(s) is None,
{
}

} // verus!
