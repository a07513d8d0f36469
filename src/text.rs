//! Byte-level scanning of header text: whitespace trimming, searching for a
//! delimiter, ASCII case folding and decimal numbers.

use vstd::prelude::*;
use vstd::utf8::*;
use crate::strings::{lemma_boundary_step, lemma_lead_boundary};

verus! {

/// ASCII whitespace: space, tab, line feed, vertical tab, form feed, return.
pub open spec fn is_ws(b: u8) -> bool {
    b == 32 || (9 <= b && b <= 13)
}

/// The UTF-8 encodings of U+0085 and U+00A0.
pub open spec fn is_ws2(a: u8, b: u8) -> bool {
    a == 0xC2 && (b == 0x85 || b == 0xA0)
}

/// The UTF-8 encodings of U+1680, U+2000 to U+200A, U+2028, U+2029, U+202F,
/// U+205F and U+3000.
pub open spec fn is_ws3(a: u8, b: u8, c: u8) -> bool {
    ||| (a == 0xE1 && b == 0x9A && c == 0x80)
    ||| (a == 0xE2 && b == 0x80 && ((0x80 <= c && c <= 0x8A) || c == 0xA8 || c == 0xA9 || c
        == 0xAF))
    ||| (a == 0xE2 && b == 0x81 && c == 0x9F)
    ||| (a == 0xE3 && b == 0x80 && c == 0x80)
}

/// The length of the Unicode whitespace character that `s` starts with, 0 if none.
pub open spec fn ws_prefix_len(s: Seq<u8>) -> int {
    if s.len() >= 1 && is_ws(s[0]) {
        1
    } else if s.len() >= 2 && is_ws2(s[0], s[1]) {
        2
    } else if s.len() >= 3 && is_ws3(s[0], s[1], s[2]) {
        3
    } else {
        0
    }
}

/// The length of the Unicode whitespace character that `s` ends with, 0 if none.
pub open spec fn ws_suffix_len(s: Seq<u8>) -> int {
    let n = s.len() as int;
    if n >= 1 && is_ws(s[n - 1]) {
        1
    } else if n >= 2 && is_ws2(s[n - 2], s[n - 1]) {
        2
    } else if n >= 3 && is_ws3(s[n - 3], s[n - 2], s[n - 1]) {
        3
    } else {
        0
    }
}

pub open spec fn trim_start(s: Seq<u8>) -> Seq<u8>
    decreases s.len(),
{
    let k = ws_prefix_len(s);
    if k > 0 {
        trim_start(s.subrange(k, s.len() as int))
    } else {
        s
    }
}

pub open spec fn trim_end(s: Seq<u8>) -> Seq<u8>
    decreases s.len(),
{
    let k = ws_suffix_len(s);
    if k > 0 {
        trim_end(s.subrange(0, s.len() - k))
    } else {
        s
    }
}

/// The UTF-8 text `s` without leading and trailing Unicode whitespace.
pub open spec fn trim(s: Seq<u8>) -> Seq<u8> {
    trim_end(trim_start(s))
}

/// Index of the first `c` in `s`, or -1 when there is none.
pub open spec fn find(s: Seq<u8>, c: u8) -> int
    decreases s.len(),
{
    if s.len() == 0 {
        -1
    } else if s[0] == c {
        0
    } else {
        let r = find(s.drop_first(), c);
        if r < 0 {
            -1
        } else {
            r + 1
        }
    }
}

pub open spec fn ascii_lower(b: u8) -> u8 {
    if 65 <= b && b <= 90 {
        (b + 32) as u8
    } else {
        b
    }
}

/// `s` equals the lower-case word `w` when ASCII letters are folded.
pub open spec fn eq_ignore_case(s: Seq<u8>, w: Seq<u8>) -> bool {
    s.len() == w.len() && forall|i: int| 0 <= i < s.len() ==> ascii_lower(#[trigger] s[i]) == w[i]
}

pub open spec fn is_digit(b: u8) -> bool {
    48 <= b && b <= 57
}

/// The number that a sequence of decimal digits denotes.
pub open spec fn digits_value(s: Seq<u8>) -> nat
    decreases s.len(),
{
    if s.len() == 0 {
        0
    } else {
        digits_value(s.drop_last()) * 10 + (s.last() - 48) as nat
    }
}

/// The decimal number in `s`, when `s` is a non-empty run of digits whose
/// value fits in a `u64`.
pub open spec fn parse_u64(s: Seq<u8>) -> Option<u64> {
    if s.len() > 0 && (forall|i: int| 0 <= i < s.len() ==> is_digit(#[trigger] s[i]))
        && digits_value(s) <= u64::MAX {
        Some(digits_value(s) as u64)
    } else {
        None
    }
}

/// Where the first `c` in `s` stands.
pub proof fn lemma_find_at(s: Seq<u8>, c: u8, i: int)
    requires
        0 <= i <= s.len(),
        forall|k: int| 0 <= k < i ==> s[k] != c,
        i == s.len() || s[i] == c,
    ensures
        find(s, c) == (if i == s.len() { -1 } else { i }),
    decreases s.len(),
{
    if s.len() > 0 && i > 0 {
        lemma_find_at(s.drop_first(), c, i - 1);
    }
}

/// Finds the first `c` in `b[lo..hi]`; returns `hi` when there is none.
pub fn find_byte(b: &[u8], lo: usize, hi: usize, c: u8) -> (r: usize)
    requires
        lo <= hi <= b@.len(),
    ensures
        lo <= r <= hi,
        r < hi ==> b@[r as int] == c,
        forall|k: int| lo <= k < r ==> b@[k] != c,
        find(b@.subrange(lo as int, hi as int), c) == (if r == hi { -1 } else { r - lo }),
{
    let mut i: usize = lo;
    while i < hi && b[i] != c
        invariant
            lo <= i <= hi <= b@.len(),
            forall|k: int| lo <= k < i ==> b@[k] != c,
        decreases hi - i,
    {
        i = i + 1;
    }
    proof {
        let s = b@.subrange(lo as int, hi as int);
        assert forall|k: int| 0 <= k < i - lo implies s[k] != c by {
            assert(s[k] == b@[lo + k]);
        }
        if i < hi {
            assert(s[i - lo] == b@[i as int]);
        }
        lemma_find_at(s, c, i - lo);
    }
    i
}

/// Text that starts and ends with an ASCII byte that is no whitespace is
/// already trimmed.
pub proof fn lemma_trim_id(s: Seq<u8>)
    requires
        s.len() == 0 || (s[0] < 128 && !is_ws(s[0]) && s.last() < 128 && !is_ws(s.last())),
    ensures
        trim(s) == s,
{
    assert(ws_prefix_len(s) == 0);
    assert(trim_start(s) == s);
    assert(ws_suffix_len(s) == 0);
}

/// The length of the whitespace character at the start of `b[i..hi]`.
fn ws_len_at(b: &[u8], i: usize, hi: usize) -> (r: usize)
    requires
        i <= hi <= b@.len(),
    ensures
        r as int == ws_prefix_len(b@.subrange(i as int, hi as int)),
{
    let ghost s = b@.subrange(i as int, hi as int);
    if i < hi && (b[i] == 32 || (9 <= b[i] && b[i] <= 13)) {
        assert(s[0] == b@[i as int]);
        return 1;
    }
    if i < hi {
        assert(s[0] == b@[i as int]);
    }
    if hi - i > 1 && b[i] == 0xC2 && (b[i + 1] == 0x85 || b[i + 1] == 0xA0) {
        assert(s[1] == b@[i + 1]);
        return 2;
    }
    if hi - i > 1 {
        assert(s[1] == b@[i + 1]);
    }
    if hi - i > 2 {
        let x = b[i];
        let y = b[i + 1];
        let z = b[i + 2];
        assert(s[2] == b@[i + 2]);
        if (x == 0xE1 && y == 0x9A && z == 0x80) || (x == 0xE2 && y == 0x80 && ((0x80 <= z && z
            <= 0x8A) || z == 0xA8 || z == 0xA9 || z == 0xAF)) || (x == 0xE2 && y == 0x81 && z
            == 0x9F) || (x == 0xE3 && y == 0x80 && z == 0x80) {
            return 3;
        }
    }
    0
}

/// The length of the whitespace character at the end of `b[lo..j]`.
fn ws_len_before(b: &[u8], lo: usize, j: usize) -> (r: usize)
    requires
        lo <= j <= b@.len(),
    ensures
        r as int == ws_suffix_len(b@.subrange(lo as int, j as int)),
{
    let ghost s = b@.subrange(lo as int, j as int);
    let n = j - lo;
    if n >= 1 && (b[j - 1] == 32 || (9 <= b[j - 1] && b[j - 1] <= 13)) {
        assert(s[n - 1] == b@[j - 1]);
        return 1;
    }
    if n >= 1 {
        assert(s[n - 1] == b@[j - 1]);
    }
    if n >= 2 && b[j - 2] == 0xC2 && (b[j - 1] == 0x85 || b[j - 1] == 0xA0) {
        assert(s[n - 2] == b@[j - 2]);
        return 2;
    }
    if n >= 2 {
        assert(s[n - 2] == b@[j - 2]);
    }
    if n >= 3 {
        let x = b[j - 3];
        let y = b[j - 2];
        let z = b[j - 1];
        assert(s[n - 3] == b@[j - 3]);
        if (x == 0xE1 && y == 0x9A && z == 0x80) || (x == 0xE2 && y == 0x80 && ((0x80 <= z && z
            <= 0x8A) || z == 0xA8 || z == 0xA9 || z == 0xAF)) || (x == 0xE2 && y == 0x81 && z
            == 0x9F) || (x == 0xE3 && y == 0x80 && z == 0x80) {
            return 3;
        }
    }
    0
}

/// The bounds of `b[lo..hi]` with surrounding Unicode whitespace removed; the
/// new bounds are again cuts between characters.
pub fn trim_range(b: &[u8], lo: usize, hi: usize) -> (r: (usize, usize))
    requires
        lo <= hi <= b@.len(),
        valid_utf8(b@),
        is_char_boundary(b@, lo as int),
        is_char_boundary(b@, hi as int),
    ensures
        lo <= r.0 <= r.1 <= hi,
        b@.subrange(r.0 as int, r.1 as int) == trim(b@.subrange(lo as int, hi as int)),
        is_char_boundary(b@, r.0 as int),
        is_char_boundary(b@, r.1 as int),
{
    let mut i: usize = lo;
    let mut k = ws_len_at(b, i, hi);
    assert(b@.subrange(lo as int, hi as int) =~= b@.subrange(i as int, hi as int));
    while k > 0
        invariant
            lo <= i <= hi <= b@.len(),
            valid_utf8(b@),
            is_char_boundary(b@, i as int),
            k as int == ws_prefix_len(b@.subrange(i as int, hi as int)),
            trim_start(b@.subrange(lo as int, hi as int)) == trim_start(
                b@.subrange(i as int, hi as int),
            ),
        decreases hi - i,
    {
        let ghost s = b@.subrange(i as int, hi as int);
        proof {
            assert(s[0] == b@[i as int]);
            lemma_boundary_step(b@, i as int, k as int);
            assert(s.subrange(k as int, s.len() as int) =~= b@.subrange(i + k, hi as int));
        }
        i = i + k;
        k = ws_len_at(b, i, hi);
    }
    let mut j: usize = hi;
    k = ws_len_before(b, i, j);
    assert(b@.subrange(i as int, hi as int) =~= b@.subrange(i as int, j as int));
    while k > 0
        invariant
            lo <= i <= j <= hi <= b@.len(),
            valid_utf8(b@),
            is_char_boundary(b@, j as int),
            k as int == ws_suffix_len(b@.subrange(i as int, j as int)),
            trim_end(b@.subrange(i as int, hi as int)) == trim_end(b@.subrange(i as int, j as int)),
        decreases j - i,
    {
        let ghost s = b@.subrange(i as int, j as int);
        proof {
            assert(s[s.len() - k] == b@[j - k]);
            lemma_lead_boundary(b@, j - k);
            assert(s.subrange(0, s.len() - k) =~= b@.subrange(i as int, j - k));
        }
        j = j - k;
        k = ws_len_before(b, i, j);
    }
    (i, j)
}

/// Whether `b[lo..hi]` equals the lower-case word `w`, ignoring ASCII case.
pub fn eq_ignore_case_at(b: &[u8], lo: usize, hi: usize, w: &[u8]) -> (r: bool)
    requires
        lo <= hi <= b@.len(),
    ensures
        r == eq_ignore_case(b@.subrange(lo as int, hi as int), w@),
{
    if hi - lo != w.len() {
        return false;
    }
    let mut i: usize = 0;
    while i < w.len()
        invariant
            hi - lo == w@.len(),
            lo <= hi <= b@.len(),
            0 <= i <= w@.len(),
            forall|k: int| 0 <= k < i ==> ascii_lower(b@[lo + k]) == w@[k],
        decreases w@.len() - i,
    {
        let c = b[lo + i];
        let l = if 65 <= c && c <= 90 { c + 32 } else { c };
        if l != w[i] {
            assert(ascii_lower(b@.subrange(lo as int, hi as int)[i as int]) != w@[i as int]);
            return false;
        }
        i = i + 1;
    }
    assert forall|k: int| 0 <= k < hi - lo implies ascii_lower(
        #[trigger] b@.subrange(lo as int, hi as int)[k],
    ) == w@[k] by {
        assert(b@.subrange(lo as int, hi as int)[k] == b@[lo + k]);
    }
    true
}

/// Reads the decimal number in `b[lo..hi]`.
pub fn read_u64(b: &[u8], lo: usize, hi: usize) -> (r: Option<u64>)
    requires
        lo <= hi <= b@.len(),
    ensures
        r == parse_u64(b@.subrange(lo as int, hi as int)),
{
    let ghost s = b@.subrange(lo as int, hi as int);
    if lo == hi {
        return None;
    }
    let mut acc: u64 = 0;
    let mut i: usize = lo;
    while i < hi
        invariant
            lo <= i <= hi <= b@.len(),
            s == b@.subrange(lo as int, hi as int),
            forall|k: int| lo <= k < i ==> is_digit(b@[k]),
            acc as nat == digits_value(b@.subrange(lo as int, i as int)),
        decreases hi - i,
    {
        let c = b[i];
        let ghost p = b@.subrange(lo as int, i as int);
        assert(b@.subrange(lo as int, i + 1).drop_last() =~= p);
        if c < 48 || c > 57 {
            assert(!is_digit(s[i - lo]));
            return None;
        }
        let d: u64 = (c - 48) as u64;
        if acc > (u64::MAX - d) / 10 {
            proof {
                assert(b@.subrange(lo as int, i + 1).drop_last() =~= p);
                if forall|k: int| 0 <= k < s.len() ==> is_digit(#[trigger] s[k]) {
                    lemma_digits_grow(s, i + 1 - lo);
                }
                assert(b@.subrange(lo as int, hi as int).subrange(0, i + 1 - lo) =~= b@.subrange(
                    lo as int,
                    i + 1,
                ));
                assert(digits_value(b@.subrange(lo as int, i + 1)) > u64::MAX) by (nonlinear_arith)
                    requires
                        digits_value(b@.subrange(lo as int, i + 1)) == acc * 10 + d,
                        acc > (u64::MAX - d) / 10,
                        d <= 9,
                ;
            }
            return None;
        }
        acc = acc * 10 + d;
        i = i + 1;
    }
    assert(b@.subrange(lo as int, i as int) =~= s);
    Some(acc)
}

/// The value of a run of digits does not shrink as digits are added.
proof fn lemma_digits_grow(s: Seq<u8>, n: int)
    requires
        0 <= n <= s.len(),
        forall|k: int| 0 <= k < s.len() ==> is_digit(#[trigger] s[k]),
    ensures
        digits_value(s.subrange(0, n)) <= digits_value(s),
    decreases s.len() - n,
{
    if n < s.len() {
        assert(s.drop_last() =~= s.subrange(0, s.len() - 1));
        lemma_digits_grow(s.drop_last(), n);
        assert(s.drop_last().subrange(0, n) =~= s.subrange(0, n));
    } else {
        assert(s.subrange(0, n) =~= s);
    }
}

} // verus!
