//! Percent-encoding of cookie values, through the `percent-encoding` crate.

use vstd::prelude::*;
use vstd::utf8::*;

verus! {

pub open spec fn is_alnum(b: u8) -> bool {
    (48 <= b && b <= 57) || (65 <= b && b <= 90) || (97 <= b && b <= 122)
}

/// The upper-case hexadecimal digit of `d`, for `d < 16`.
pub open spec fn hex_digit(d: u8) -> char {
    if d < 10 {
        ((d + 48) as u8) as char
    } else {
        ((d + 55) as u8) as char
    }
}

/// One byte on the wire: letters and digits stand for themselves, every other
/// byte becomes `%XX`.
pub open spec fn encode_byte(b: u8) -> Seq<char> {
    if is_alnum(b) {
        seq![b as char]
    } else {
        seq!['%', hex_digit(b / 16), hex_digit(b % 16)]
    }
}

/// The wire form of a byte string.
pub open spec fn pct_encode(s: Seq<u8>) -> Seq<char>
    decreases s.len(),
{
    if s.len() == 0 {
        seq![]
    } else {
        encode_byte(s[0]) + pct_encode(s.drop_first())
    }
}

pub open spec fn is_hex(b: u8) -> bool {
    (48 <= b && b <= 57) || (65 <= b && b <= 70) || (97 <= b && b <= 102)
}

pub open spec fn hex_value(b: u8) -> u8 {
    if 48 <= b && b <= 57 {
        (b - 48) as u8
    } else if 65 <= b && b <= 70 {
        (b - 55) as u8
    } else {
        (b - 87) as u8
    }
}

/// Decoding: `%` with two hexadecimal digits (either case) is the byte they
/// denote; every other byte, a lone `%` included, stands for itself.
pub open spec fn pct_decode(s: Seq<u8>) -> Seq<u8>
    decreases s.len(),
{
    if s.len() == 0 {
        seq![]
    } else if s[0] == 37 && s.len() >= 3 && is_hex(s[1]) && is_hex(s[2]) {
        seq![(hex_value(s[1]) * 16 + hex_value(s[2])) as u8] + pct_decode(s.subrange(3, s.len() as int))
    } else {
        seq![s[0]] + pct_decode(s.drop_first())
    }
}

proof fn lemma_hex_digit(d: u8)
    requires
        d < 16,
    ensures
        (hex_digit(d) as u32) < 128,
        is_hex(hex_digit(d) as u8),
        hex_value(hex_digit(d) as u8) == d,
{
}

/// A character that percent-encoded text is made of: `%`, a letter or a digit.
pub open spec fn is_pct_char(c: char) -> bool {
    c == '%' || is_alnum(c as u8) && (c as u32) < 128
}

/// Percent-encoded text is ASCII, made of `%`, letters and digits.
pub proof fn lemma_pct_encode_ascii(x: Seq<u8>)
    ensures
        is_ascii_chars(pct_encode(x)),
        forall|i: int| 0 <= i < pct_encode(x).len() ==> is_pct_char(#[trigger] pct_encode(x)[i]),
    decreases x.len(),
{
    if x.len() > 0 {
        lemma_pct_encode_ascii(x.drop_first());
        let h = encode_byte(x[0]);
        let t = pct_encode(x.drop_first());
        if !is_alnum(x[0]) {
            lemma_hex_digit(x[0] / 16);
            lemma_hex_digit(x[0] % 16);
        }
        assert forall|i: int| 0 <= i < h.len() + t.len() implies '\0' <= #[trigger] (h + t)[i]
            <= '\u{7f}' && is_pct_char((h + t)[i]) by {
            if i >= h.len() {
                assert((h + t)[i] == t[i - h.len()]);
            }
        }
    }
}

/// Decoding percent-encoded bytes gives the bytes back, whatever they are.
pub proof fn lemma_percent_round_trip(x: Seq<u8>)
    ensures
        pct_decode(encode_utf8(pct_encode(x))) == x,
    decreases x.len(),
{
    let p = pct_encode(x);
    lemma_pct_encode_ascii(x);
    is_ascii_chars_encode_utf8(p);
    let e = encode_utf8(p);
    if x.len() == 0 {
        assert(pct_decode(e) =~= x);
    } else {
        let x_rest = x.drop_first();
        let h = encode_byte(x[0]);
        let p_rest = pct_encode(x_rest);
        lemma_percent_round_trip(x_rest);
        lemma_pct_encode_ascii(x_rest);
        is_ascii_chars_encode_utf8(p_rest);
        let e_rest = encode_utf8(p_rest);
        assert(p == h + p_rest);
        let k = h.len() as int;
        assert(e.subrange(k, e.len() as int) =~= e_rest) by {
            assert forall|i: int| 0 <= i < e_rest.len() implies #[trigger] e.subrange(
                k,
                e.len() as int,
            )[i] == e_rest[i] by {
                assert(p[k + i] == p_rest[i]);
            }
        }
        if is_alnum(x[0]) {
            assert(e[0] == p[0] as u8);
            assert(e.drop_first() =~= e.subrange(1, e.len() as int));
            assert(pct_decode(e) =~= x);
        } else {
            let hi = x[0] / 16;
            let lo = x[0] % 16;
            lemma_hex_digit(hi);
            lemma_hex_digit(lo);
            assert(e[0] == p[0] as u8);
            assert(e[1] == p[1] as u8);
            assert(e[2] == p[2] as u8);
            assert(e[0] == 37);
            assert(e[1] == hex_digit(hi) as u8);
            assert(e[2] == hex_digit(lo) as u8);
            assert((hex_value(e[1]) * 16 + hex_value(e[2])) as u8 == x[0]);
            assert(pct_decode(e) =~= x);
        }
    }
}

/// Relies on `percent_encoding::percent_encode` with `NON_ALPHANUMERIC`: every
/// byte but an ASCII letter or digit is written as `%` and two upper-case
/// hexadecimal digits.
#[verifier::external_body]
pub(crate) fn percent_encode(b: &[u8]) -> (r: String)
    ensures
        r@ == pct_encode(b@),
{
    percent_encoding::percent_encode(b, percent_encoding::NON_ALPHANUMERIC).to_string()
}

/// Relies on `percent_encoding::percent_decode`: `%` and two hexadecimal digits
/// become one byte, all else is copied.
#[verifier::external_body]
pub(crate) fn percent_decode(b: &[u8]) -> (r: Vec<u8>)
    ensures
        r@ == pct_decode(b@),
{
    percent_encoding::percent_decode(b).collect()
}

} // verus!
