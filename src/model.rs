//! The mathematical model of a cookie, and what parsing and writing one mean
//! on it.

use vstd::prelude::*;
use vstd::string::StringSliceAdditionalSpecFns;
use vstd::utf8::*;
use crate::percent::pct_encode;
use crate::strings::lower_char;
use crate::text::{eq_ignore_case, find, parse_u64, trim};
use crate::timestamp::{rfc822_text, strptime_of, Timestamp};

verus! {

/// A cookie as values: its texts as characters, its extra attributes as a list
/// of key and value, in ascending order of key.
pub struct CookieView {
    pub name: Seq<char>,
    pub value: Seq<char>,
    pub expires: Option<Timestamp>,
    pub max_age: Option<u64>,
    pub domain: Option<Seq<char>>,
    pub path: Option<Seq<char>>,
    pub secure: bool,
    pub httponly: bool,
    pub custom: Seq<(Seq<char>, Seq<char>)>,
}

/// Three-way comparison of byte strings in lexicographic order: -1, 0 or 1.
pub open spec fn lex_cmp(a: Seq<u8>, b: Seq<u8>) -> int
    decreases a.len(),
{
    if a.len() == 0 {
        if b.len() == 0 {
            0
        } else {
            -1
        }
    } else if b.len() == 0 {
        1
    } else if a[0] < b[0] {
        -1
    } else if a[0] > b[0] {
        1
    } else {
        lex_cmp(a.drop_first(), b.drop_first())
    }
}

/// Keys are ordered as `String` orders them: by their UTF-8 bytes.
pub open spec fn key_cmp(a: Seq<char>, b: Seq<char>) -> int {
    lex_cmp(encode_utf8(a), encode_utf8(b))
}

/// Inserts `(k, v)` into a list in ascending key order, replacing the entry
/// with the same key.
pub open spec fn insert_sorted(s: Seq<(Seq<char>, Seq<char>)>, k: Seq<char>, v: Seq<char>) -> Seq<
    (Seq<char>, Seq<char>),
>
    decreases s.len(),
{
    if s.len() == 0 {
        seq![(k, v)]
    } else if key_cmp(k, s[0].0) == 0 {
        seq![(k, v)] + s.drop_first()
    } else if key_cmp(k, s[0].0) < 0 {
        seq![(k, v)] + s
    } else {
        seq![s[0]] + insert_sorted(s.drop_first(), k, v)
    }
}

/// The keys of the list are strictly ascending.
pub open spec fn keys_ascending(s: Seq<(Seq<char>, Seq<char>)>) -> bool {
    forall|i: int, j: int| 0 <= i < j < s.len() ==> key_cmp(s[i].0, s[j].0) < 0
}

proof fn lemma_lex_antisym(a: Seq<u8>, b: Seq<u8>)
    ensures
        lex_cmp(a, b) == -lex_cmp(b, a),
    decreases a.len(),
{
    if a.len() > 0 && b.len() > 0 && a[0] == b[0] {
        lemma_lex_antisym(a.drop_first(), b.drop_first());
    }
}

proof fn lemma_lex_eq(a: Seq<u8>, b: Seq<u8>)
    requires
        lex_cmp(a, b) == 0,
    ensures
        a == b,
    decreases a.len(),
{
    if a.len() > 0 && b.len() > 0 {
        lemma_lex_eq(a.drop_first(), b.drop_first());
        assert(a =~= seq![a[0]] + a.drop_first());
        assert(b =~= seq![b[0]] + b.drop_first());
    } else {
        assert(a =~= b);
    }
}

proof fn lemma_lex_trans(a: Seq<u8>, b: Seq<u8>, c: Seq<u8>)
    requires
        lex_cmp(a, b) < 0,
        lex_cmp(b, c) < 0,
    ensures
        lex_cmp(a, c) < 0,
    decreases a.len(),
{
    if a.len() > 0 && b.len() > 0 && c.len() > 0 && a[0] == b[0] && b[0] == c[0] {
        lemma_lex_trans(a.drop_first(), b.drop_first(), c.drop_first());
    }
}

/// The key order is strict and total: antisymmetric, transitive, and equal
/// only on equal keys.
pub proof fn lemma_key_order(a: Seq<char>, b: Seq<char>, c: Seq<char>)
    ensures
        key_cmp(a, b) == -key_cmp(b, a),
        key_cmp(a, b) < 0 && key_cmp(b, c) < 0 ==> key_cmp(a, c) < 0,
        key_cmp(a, b) == 0 ==> a == b,
{
    lemma_lex_antisym(encode_utf8(a), encode_utf8(b));
    if key_cmp(a, b) < 0 && key_cmp(b, c) < 0 {
        lemma_lex_trans(encode_utf8(a), encode_utf8(b), encode_utf8(c));
    }
    if key_cmp(a, b) == 0 {
        lemma_lex_eq(encode_utf8(a), encode_utf8(b));
        encode_utf8_decode_utf8(a);
        encode_utf8_decode_utf8(b);
    }
}

/// Every key of an insertion is the new key or a key that was there.
proof fn lemma_insert_keys(s: Seq<(Seq<char>, Seq<char>)>, k: Seq<char>, v: Seq<char>)
    ensures
        forall|i: int| 0 <= i < insert_sorted(s, k, v).len() ==> (#[trigger] insert_sorted(s, k, v)[i]).0 == k
            || exists|j: int| 0 <= j < s.len() && s[j].0 == insert_sorted(s, k, v)[i].0,
    decreases s.len(),
{
    let r = insert_sorted(s, k, v);
    if s.len() > 0 {
        let s1 = s.drop_first();
        lemma_insert_keys(s1, k, v);
        assert forall|i: int| 0 <= i < r.len() implies (#[trigger] r[i]).0 == k || exists|j: int|
            0 <= j < s.len() && s[j].0 == r[i].0 by {
            if key_cmp(k, s[0].0) == 0 {
                if i > 0 {
                    assert(r[i] == s[i]);
                }
            } else if key_cmp(k, s[0].0) < 0 {
                if i > 0 {
                    assert(r[i] == s[i - 1]);
                }
            } else if i == 0 {
                assert(r[0] == s[0]);
            } else {
                let t = insert_sorted(s1, k, v);
                assert(r[i] == t[i - 1]);
                if t[i - 1].0 != k {
                    let j = choose|j: int| 0 <= j < s1.len() && s1[j].0 == t[i - 1].0;
                    assert(s[j + 1] == s1[j]);
                }
            }
        }
    }
}

/// Insertion keeps the keys strictly ascending.
pub proof fn lemma_insert_ascending(s: Seq<(Seq<char>, Seq<char>)>, k: Seq<char>, v: Seq<char>)
    requires
        keys_ascending(s),
    ensures
        keys_ascending(insert_sorted(s, k, v)),
    decreases s.len(),
{
    let r = insert_sorted(s, k, v);
    if s.len() == 0 {
    } else {
        let s1 = s.drop_first();
        assert forall|i: int, j: int| 0 <= i < j < s1.len() implies key_cmp(s1[i].0, s1[j].0) < 0 by {
            assert(s1[i] == s[i + 1] && s1[j] == s[j + 1]);
        }
        let c = key_cmp(k, s[0].0);
        if c == 0 {
            lemma_key_order(k, s[0].0, k);
            assert forall|i: int, j: int| 0 <= i < j < r.len() implies key_cmp(r[i].0, r[j].0) < 0 by {
                assert(r[j] == s[j]);
                if i > 0 {
                    assert(r[i] == s[i]);
                }
            }
        } else if c < 0 {
            assert forall|i: int, j: int| 0 <= i < j < r.len() implies key_cmp(r[i].0, r[j].0) < 0 by {
                assert(r[j] == s[j - 1]);
                if i > 0 {
                    assert(r[i] == s[i - 1]);
                } else if j > 1 {
                    lemma_key_order(k, s[0].0, s[j - 1].0);
                }
            }
        } else {
            lemma_insert_ascending(s1, k, v);
            lemma_insert_keys(s1, k, v);
            let t = insert_sorted(s1, k, v);
            lemma_key_order(k, s[0].0, k);
            assert forall|i: int, j: int| 0 <= i < j < r.len() implies key_cmp(r[i].0, r[j].0) < 0 by {
                assert(r[j] == t[j - 1]);
                if i > 0 {
                    assert(r[i] == t[i - 1]);
                } else {
                    assert(r[0] == s[0]);
                    if t[j - 1].0 != k {
                        let m = choose|m: int| 0 <= m < s1.len() && s1[m].0 == t[j - 1].0;
                        assert(s[m + 1] == s1[m]);
                    }
                }
            }
        }
    }
}

/// A cookie made from a name and a value: path `/`, nothing else set.
pub open spec fn fresh_cookie(name: Seq<char>, value: Seq<char>) -> CookieView {
    CookieView {
        name,
        value,
        expires: None,
        max_age: None,
        domain: None,
        path: Some("/"@),
        secure: false,
        httponly: false,
        custom: seq![],
    }
}

/// The cookie that the name/value pair of a header starts: no attribute set.
pub open spec fn parsed_pair(name: Seq<char>, value: Seq<char>) -> CookieView {
    CookieView { path: None, ..fresh_cookie(name, value) }
}

/// `key=value` split at the first `=`, after trimming.
pub open spec fn split_pair(t: Seq<u8>) -> Option<(Seq<u8>, Seq<u8>)> {
    let u = trim(t);
    let j = find(u, 61);
    if j < 0 {
        None
    } else {
        Some((u.subrange(0, j), u.subrange(j + 1, u.len() as int)))
    }
}

/// An `Expires` value read in the first of the accepted date formats that fits.
pub open spec fn expires_of(v: Seq<char>) -> Option<Timestamp> {
    if strptime_of(v, "%a, %d %b %Y %H:%M:%S %Z"@) is Some {
        strptime_of(v, "%a, %d %b %Y %H:%M:%S %Z"@)
    } else if strptime_of(v, "%A, %d-%b-%y %H:%M:%S %Z"@) is Some {
        strptime_of(v, "%A, %d-%b-%y %H:%M:%S %Z"@)
    } else if strptime_of(v, "%a, %d-%b-%Y %H:%M:%S %Z"@) is Some {
        strptime_of(v, "%a, %d-%b-%Y %H:%M:%S %Z"@)
    } else {
        strptime_of(v, "%a %b %d %H:%M:%S %Y"@)
    }
}

/// A `Domain` value without one leading dot, in lower case.
pub open spec fn domain_of(v: Seq<u8>) -> Seq<char> {
    let d = if v.len() > 0 && v[0] == 46 {
        v.drop_first()
    } else {
        v
    };
    decode_utf8(d).map_values(|c: char| lower_char(c))
}

/// The effect of one attribute segment on a cookie; `None` where it is malformed.
pub open spec fn apply_attr(c: CookieView, seg: Seq<u8>) -> Option<CookieView> {
    let t = trim(seg);
    if eq_ignore_case(t, "secure".spec_bytes()) {
        Some(CookieView { secure: true, ..c })
    } else if eq_ignore_case(t, "httponly".spec_bytes()) {
        Some(CookieView { httponly: true, ..c })
    } else {
        match split_pair(t) {
            None => None,
            Some(kv) => {
                let (k, v) = kv;
                if eq_ignore_case(k, "max-age".spec_bytes()) {
                    match parse_u64(v) {
                        Some(n) => Some(CookieView { max_age: Some(n), ..c }),
                        None => None,
                    }
                } else if eq_ignore_case(k, "domain".spec_bytes()) {
                    Some(CookieView { domain: Some(domain_of(v)), ..c })
                } else if eq_ignore_case(k, "path".spec_bytes()) {
                    Some(CookieView { path: Some(decode_utf8(v)), ..c })
                } else if eq_ignore_case(k, "expires".spec_bytes()) {
                    match expires_of(decode_utf8(v)) {
                        Some(e) => Some(CookieView { expires: Some(e), ..c }),
                        None => None,
                    }
                } else {
                    Some(
                        CookieView {
                            custom: insert_sorted(c.custom, decode_utf8(k), decode_utf8(v)),
                            ..c
                        },
                    )
                }
            },
        }
    }
}

/// Applies the `;`-separated attribute segments of `r` from left to right.
pub open spec fn parse_attrs(c: CookieView, r: Seq<u8>) -> Option<CookieView>
    decreases r.len(),
{
    let i = find(r, 59);
    let seg = if 0 <= i < r.len() {
        r.subrange(0, i)
    } else {
        r
    };
    match apply_attr(c, seg) {
        None => None,
        Some(d) => if 0 <= i < r.len() {
            parse_attrs(d, r.subrange(i + 1, r.len() as int))
        } else {
            Some(d)
        },
    }
}

/// The cookie that a header text (as UTF-8 bytes) denotes, if it is well formed.
pub open spec fn parse_spec(b: Seq<u8>) -> Option<CookieView> {
    let t = trim(b);
    let i = find(t, 59);
    let first = if 0 <= i < t.len() {
        t.subrange(0, i)
    } else {
        t
    };
    match split_pair(first) {
        None => None,
        Some(kv) => {
            let name = crate::percent::pct_decode(kv.0);
            let value = crate::percent::pct_decode(kv.1);
            if !valid_utf8(name) || !valid_utf8(value) {
                None
            } else if 0 <= i < t.len() {
                parse_attrs(
                    parsed_pair(decode_utf8(name), decode_utf8(value)),
                    t.subrange(i + 1, t.len() as int),
                )
            } else {
                Some(parsed_pair(decode_utf8(name), decode_utf8(value)))
            }
        },
    }
}

/// `key=value` with the value percent-encoded.
pub open spec fn pair_text(key: Seq<char>, value: Seq<char>) -> Seq<char> {
    key + seq!['='] + pct_encode(encode_utf8(value))
}

pub open spec fn digit_char(d: nat) -> char {
    ((d + 48) as u8) as char
}

/// The decimal digits of `n`.
pub open spec fn decimal(n: nat) -> Seq<char>
    decreases n,
{
    if n < 10 {
        seq![digit_char(n)]
    } else {
        decimal(n / 10) + seq![digit_char(n % 10)]
    }
}

/// `; key=value` for each extra attribute, in list order.
pub open spec fn custom_text(s: Seq<(Seq<char>, Seq<char>)>) -> Seq<char>
    decreases s.len(),
{
    if s.len() == 0 {
        seq![]
    } else {
        custom_text(s.drop_last()) + "; "@ + pair_text(s.last().0, s.last().1)
    }
}

/// `text` when `on`, else nothing.
pub open spec fn flag_part(on: bool, text: Seq<char>) -> Seq<char> {
    if on {
        text
    } else {
        seq![]
    }
}

/// `label` and the value when there is one, else nothing.
pub open spec fn opt_part(label: Seq<char>, v: Option<Seq<char>>) -> Seq<char> {
    match v {
        Some(x) => label + x,
        None => seq![],
    }
}

/// The known attributes of a cookie that are set, in their fixed order.
pub open spec fn attrs_text(c: CookieView) -> Seq<char> {
    flag_part(c.httponly, "; HttpOnly"@) + flag_part(c.secure, "; Secure"@) + opt_part(
        "; Path="@,
        c.path,
    ) + opt_part("; Domain="@, c.domain) + opt_part(
        "; Max-Age="@,
        match c.max_age {
            Some(n) => Some(decimal(n as nat)),
            None => None,
        },
    ) + opt_part(
        "; Expires="@,
        match c.expires {
            Some(t) => Some(rfc822_text(t)),
            None => None,
        },
    )
}

/// The header text of a cookie: the encoded name and value, the known
/// attributes, then the extra ones.
pub open spec fn cookie_text(c: CookieView) -> Seq<char> {
    pair_text(pct_encode(encode_utf8(c.name)), c.value) + attrs_text(c) + custom_text(c.custom)
}

} // verus!
