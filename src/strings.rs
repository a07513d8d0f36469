//! Text helpers: the std string operations the codec relies on, and facts on
//! where UTF-8 text may be cut.

use vstd::prelude::*;
use vstd::string::StringSliceAdditionalSpecFns;
use vstd::utf8::*;

verus! {

/// A character that starts at a cut and whose first byte says it is `w`
/// bytes long ends at a cut.
pub proof fn lemma_boundary_step(b: Seq<u8>, p: int, w: int)
    requires
        valid_utf8(b),
        0 <= p < b.len(),
        is_char_boundary(b, p),
        (w == 1 && b[p] < 128) || (w == 2 && 0xC0 <= b[p] <= 0xDF) || (w == 3 && 0xE0 <= b[p]
            <= 0xEF),
    ensures
        p + w <= b.len(),
        is_char_boundary(b, p + w),
    decreases b.len(),
{
    let l = length_of_first_scalar(b);
    let rest = pop_first_scalar(b);
    if p == 0 {
        assert(l == w);
        assert(is_char_boundary(rest, 0));
    } else {
        assert(is_char_boundary(rest, p - l));
        assert(rest.len() == b.len() - l);
        assert(rest[p - l] == b[p]);
        lemma_boundary_step(rest, p - l, w);
    }
}

/// A byte that starts a character stands at a cut: an ASCII byte, or the
/// first byte of a longer encoding.
pub proof fn lemma_lead_boundary(b: Seq<u8>, p: int)
    requires
        valid_utf8(b),
        0 <= p < b.len(),
        b[p] < 128 || 0xC0 <= b[p] <= 0xF7,
    ensures
        is_char_boundary(b, p),
{
    is_char_boundary_iff_is_leading_byte(b, p);
}

/// The text of `s` between two cuts between characters.
pub fn sub_str(s: &str, lo: usize, hi: usize) -> (r: &str)
    requires
        lo <= hi <= s.spec_bytes().len(),
        is_char_boundary(s.spec_bytes(), lo as int),
        is_char_boundary(s.spec_bytes(), hi as int),
    ensures
        r.spec_bytes() == s.spec_bytes().subrange(lo as int, hi as int),
        r@ == decode_utf8(s.spec_bytes().subrange(lo as int, hi as int)),
{
    proof {
        encode_utf8_valid_utf8(s@);
    }
    let (head, _) = s.split_at(hi);
    proof {
        valid_utf8_split(s.spec_bytes(), hi as int);
        assert(is_char_boundary(head.spec_bytes(), lo as int)) by {
            if lo < hi {
                is_char_boundary_iff_is_leading_byte(s.spec_bytes(), lo as int);
                is_char_boundary_iff_is_leading_byte(head.spec_bytes(), lo as int);
            } else {
                is_char_boundary_start_end_of_seq(head.spec_bytes());
            }
        }
    }
    let (_, r) = head.split_at(lo);
    proof {
        assert(r.spec_bytes() =~= s.spec_bytes().subrange(lo as int, hi as int));
        encode_utf8_decode_utf8(r@);
    }
    r
}

/// Relies on `String::from_utf8`: it succeeds exactly on valid UTF-8, and the
/// string then holds the characters those bytes encode.
#[verifier::external_body]
pub(crate) fn string_from_utf8(b: Vec<u8>) -> (r: Option<String>)
    ensures
        r is Some <==> valid_utf8(b@),
        r matches Some(s) ==> s@ == decode_utf8(b@),
{
    String::from_utf8(b).ok()
}

/// Relies on `String::push_str`: it appends the characters of `t`.
#[verifier::external_body]
pub(crate) fn push_str(s: &mut String, t: &str)
    ensures
        final(s)@ == old(s)@ + t@,
{
    s.push_str(t)
}

/// Relies on `String::push`: it appends one character.
#[verifier::external_body]
pub(crate) fn push_char(s: &mut String, c: char)
    ensures
        final(s)@ == old(s)@.push(c),
{
    s.push(c)
}

/// ASCII case folding of one character; other characters are kept.
pub open spec fn lower_char(c: char) -> char {
    if 'A' <= c && c <= 'Z' {
        ((c as u32) + 32) as char
    } else {
        c
    }
}

/// Relies on `str::to_ascii_lowercase`: ASCII letters `A` to `Z` become `a` to
/// `z`, every other character is kept.
#[verifier::external_body]
pub(crate) fn to_ascii_lowercase(s: &str) -> (r: String)
    ensures
        r@ == s@.map_values(|c: char| lower_char(c)),
{
    s.to_ascii_lowercase()
}

} // verus!
