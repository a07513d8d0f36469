//! Reading back what was written: `parse(to_string(c)) == c` for every cookie
//! whose attribute texts can stand in a header as they are.

use vstd::prelude::*;
use vstd::string::StringSliceAdditionalSpecFns;
use vstd::utf8::*;
use crate::model::{
    apply_attr, attrs_text, cookie_text, custom_text, decimal, digit_char, domain_of, expires_of,
    fresh_cookie,
    insert_sorted, key_cmp, keys_ascending, lemma_key_order, pair_text, parse_attrs, parse_spec,
    parsed_pair, split_pair, CookieView,
};
use crate::percent::{is_pct_char, lemma_pct_encode_ascii, lemma_percent_round_trip, pct_encode};
use crate::text::{
    ascii_lower, digits_value, eq_ignore_case, is_digit, is_ws, lemma_find_at, lemma_trim_id, parse_u64,
    trim,
};
use crate::strings::lower_char;
use crate::timestamp::{rfc822_text, strptime_of, Timestamp};

verus! {

/// The bytes of ASCII text.
pub open spec fn bytes_of(t: Seq<char>) -> Seq<u8> {
    t.map_values(|c: char| c as u8)
}

/// Attribute segments joined as they are written: `; ` before each.
pub open spec fn join(l: Seq<Seq<char>>) -> Seq<char>
    decreases l.len(),
{
    if l.len() == 0 {
        seq![]
    } else {
        seq![';', ' '] + l[0] + join(l.drop_first())
    }
}

/// Applies attribute segments from left to right.
pub open spec fn apply_all(c: CookieView, l: Seq<Seq<char>>) -> Option<CookieView>
    decreases l.len(),
{
    if l.len() == 0 {
        Some(c)
    } else {
        match apply_attr(c, bytes_of(l[0])) {
            None => None,
            Some(d) => apply_all(d, l.drop_first()),
        }
    }
}

/// ASCII text without `;`.
pub open spec fn plain_text(t: Seq<char>) -> bool {
    is_ascii_chars(t) && forall|i: int| 0 <= i < t.len() ==> #[trigger] t[i] != ';'
}

proof fn lemma_join_push(l: Seq<Seq<char>>, x: Seq<char>)
    ensures
        join(l.push(x)) == join(l) + seq![';', ' '] + x,
    decreases l.len(),
{
    if l.len() == 0 {
        assert(l.push(x).drop_first() =~= Seq::<Seq<char>>::empty());
        assert(l.push(x)[0] == x);
        assert(join(Seq::<Seq<char>>::empty()) == Seq::<char>::empty());
        assert(join(l.push(x)) =~= join(l) + seq![';', ' '] + x);
    } else {
        assert(l.push(x)[0] == l[0]);
        assert(l.push(x).drop_first() =~= l.drop_first().push(x));
        lemma_join_push(l.drop_first(), x);
        assert(join(l.push(x)) =~= join(l) + seq![';', ' '] + x);
    }
}

proof fn lemma_join_concat(a: Seq<Seq<char>>, b: Seq<Seq<char>>)
    ensures
        join(a + b) == join(a) + join(b),
    decreases a.len(),
{
    if a.len() == 0 {
        assert(a + b =~= b);
        assert(join(a + b) =~= join(a) + join(b));
    } else {
        assert((a + b).drop_first() =~= a.drop_first() + b);
        lemma_join_concat(a.drop_first(), b);
        assert(join(a + b) =~= join(a) + join(b));
    }
}

proof fn lemma_apply_all_concat(c: CookieView, a: Seq<Seq<char>>, b: Seq<Seq<char>>)
    ensures
        apply_all(c, a + b) == match apply_all(c, a) {
            None => None,
            Some(d) => apply_all(d, b),
        },
    decreases a.len(),
{
    if a.len() == 0 {
        assert(a + b =~= b);
    } else {
        assert((a + b).drop_first() =~= a.drop_first() + b);
        assert((a + b)[0] == a[0]);
        match apply_attr(c, bytes_of(a[0])) {
            None => {},
            Some(d) => {
                lemma_apply_all_concat(d, a.drop_first(), b);
            },
        }
    }
}

proof fn lemma_apply_all_push(c: CookieView, l: Seq<Seq<char>>, x: Seq<char>)
    ensures
        apply_all(c, l.push(x)) == match apply_all(c, l) {
            None => None,
            Some(d) => apply_attr(d, bytes_of(x)),
        },
{
    lemma_apply_all_concat(c, l, seq![x]);
    assert(l + seq![x] =~= l.push(x));
    match apply_all(c, l) {
        None => {},
        Some(d) => {
            assert(seq![x].drop_first() =~= Seq::<Seq<char>>::empty());
            assert(seq![x][0] == x);
            match apply_attr(d, bytes_of(x)) {
                None => {
                    assert(apply_all(d, seq![x]) is None);
                },
                Some(e) => {
                    assert(apply_all(e, Seq::<Seq<char>>::empty()) == Some(e));
                    assert(apply_all(d, seq![x]) == Some(e));
                },
            }
        },
    }
}

/// The bytes of ASCII text are its characters, and they decode to it.
proof fn lemma_ascii_text(t: Seq<char>)
    requires
        is_ascii_chars(t),
    ensures
        encode_utf8(t) == bytes_of(t),
        valid_utf8(bytes_of(t)),
        decode_utf8(bytes_of(t)) == t,
{
    is_ascii_chars_encode_utf8(t);
    assert(encode_utf8(t) =~= bytes_of(t));
    encode_utf8_valid_utf8(t);
    encode_utf8_decode_utf8(t);
}

/// Leading spaces do not change what an attribute segment does.
proof fn lemma_apply_space(c: CookieView, x: Seq<u8>)
    ensures
        apply_attr(c, seq![32u8] + x) == apply_attr(c, x),
{
    assert((seq![32u8] + x).drop_first() =~= x);
    assert(trim(seq![32u8] + x) == trim(x));
}

/// Reading the written attribute segments applies each of them in turn.
proof fn lemma_parse_join(c: CookieView, l: Seq<Seq<char>>)
    requires
        l.len() > 0,
        forall|i: int| 0 <= i < l.len() ==> plain_text(#[trigger] l[i]),
    ensures
        parse_attrs(c, bytes_of(join(l)).drop_first()) == apply_all(c, l),
    decreases l.len(),
{
    let l0 = l[0];
    let rest = l.drop_first();
    let r = bytes_of(join(l)).drop_first();
    let n0 = l0.len() as int;
    assert(plain_text(l0));
    assert(join(l) == seq![';', ' '] + l0 + join(rest));
    assert(r =~= seq![32u8] + bytes_of(l0) + bytes_of(join(rest)));
    assert forall|k: int| 0 <= k < 1 + n0 implies r[k] != 59 by {
        if k > 0 {
            assert(r[k] == l0[k - 1] as u8);
            assert(l0[k - 1] != ';');
        }
    }
    lemma_apply_space(c, bytes_of(l0));
    if rest.len() == 0 {
        assert(r =~= seq![32u8] + bytes_of(l0));
        lemma_find_at(r, 59, r.len() as int);
        assert(apply_all(c, l) == match apply_attr(c, bytes_of(l0)) {
            None => None,
            Some(d) => apply_all(d, rest),
        });
    } else {
        let rj = bytes_of(join(rest));
        assert(join(rest) == seq![';', ' '] + rest[0] + join(rest.drop_first()));
        assert(rj[0] == 59);
        assert(r[1 + n0] == 59);
        lemma_find_at(r, 59, 1 + n0);
        assert(r.subrange(0, 1 + n0) =~= seq![32u8] + bytes_of(l0));
        assert(r.subrange(2 + n0, r.len() as int) =~= rj.drop_first());
        assert forall|i: int| 0 <= i < rest.len() implies plain_text(#[trigger] rest[i]) by {
            assert(rest[i] == l[i + 1]);
        }
        match apply_attr(c, bytes_of(l0)) {
            None => {},
            Some(d) => {
                lemma_parse_join(d, rest);
            },
        }
    }
}

/// The bytes of the attribute names the parser knows.
proof fn lemma_keywords()
    ensures
        "secure".spec_bytes() == seq![115u8, 101, 99, 117, 114, 101],
        "httponly".spec_bytes() == seq![104u8, 116, 116, 112, 111, 110, 108, 121],
        "max-age".spec_bytes() == seq![109u8, 97, 120, 45, 97, 103, 101],
        "domain".spec_bytes() == seq![100u8, 111, 109, 97, 105, 110],
        "path".spec_bytes() == seq![112u8, 97, 116, 104],
        "expires".spec_bytes() == seq![101u8, 120, 112, 105, 114, 101, 115],
{
    reveal_strlit("secure");
    reveal_strlit("httponly");
    reveal_strlit("max-age");
    reveal_strlit("domain");
    reveal_strlit("path");
    reveal_strlit("expires");
    lemma_ascii_text("secure"@);
    lemma_ascii_text("httponly"@);
    lemma_ascii_text("max-age"@);
    lemma_ascii_text("domain"@);
    lemma_ascii_text("path"@);
    lemma_ascii_text("expires"@);
    assert("secure".spec_bytes() =~= seq![115u8, 101, 99, 117, 114, 101]);
    assert("httponly".spec_bytes() =~= seq![104u8, 116, 116, 112, 111, 110, 108, 121]);
    assert("max-age".spec_bytes() =~= seq![109u8, 97, 120, 45, 97, 103, 101]);
    assert("domain".spec_bytes() =~= seq![100u8, 111, 109, 97, 105, 110]);
    assert("path".spec_bytes() =~= seq![112u8, 97, 116, 104]);
    assert("expires".spec_bytes() =~= seq![101u8, 120, 112, 105, 114, 101, 115]);
}

/// A word of lower-case letters never matches text with `=` at a place it has.
proof fn lemma_no_match_eq(t: Seq<u8>, w: Seq<u8>, j: int)
    requires
        0 <= j < t.len(),
        t[j] == 61,
        forall|i: int| 0 <= i < w.len() ==> #[trigger] w[i] != 61,
    ensures
        !eq_ignore_case(t, w),
{
    if t.len() == w.len() {
        assert(ascii_lower(t[j]) != w[j]);
    }
}

/// A written `key=value` segment: already trimmed, no flag, split at its `=`.
proof fn lemma_kv_seg(k: Seq<char>, x: Seq<char>)
    requires
        plain_text(k),
        plain_text(x),
        forall|j: int| 0 <= j < k.len() ==> #[trigger] k[j] != '=',
        k.len() == 0 || !is_ws(k[0] as u8),
        x.len() == 0 || !is_ws(x.last() as u8),
    ensures
        ({
            let t = bytes_of(k + seq!['='] + x);
            &&& trim(t) == t
            &&& !eq_ignore_case(t, "secure".spec_bytes())
            &&& !eq_ignore_case(t, "httponly".spec_bytes())
            &&& split_pair(t) == Some((bytes_of(k), bytes_of(x)))
        }),
{
    let t = bytes_of(k + seq!['='] + x);
    let n = k.len() as int;
    assert(t.len() == n + 1 + x.len());
    assert(t[n] == 61);
    assert(!is_ws(t[0])) by {
        if n > 0 {
            assert(t[0] == k[0] as u8);
        }
    }
    assert(!is_ws(t.last())) by {
        if x.len() > 0 {
            assert(t.last() == x.last() as u8);
        }
    }
    assert(trim(t) == t);
    lemma_keywords();
    lemma_no_match_eq(t, "secure".spec_bytes(), n);
    lemma_no_match_eq(t, "httponly".spec_bytes(), n);
    assert forall|j: int| 0 <= j < n implies t[j] != 61 by {
        assert(t[j] == k[j] as u8);
    }
    lemma_find_at(t, 61, n);
    assert(t.subrange(0, n) =~= bytes_of(k));
    assert(t.subrange(n + 1, t.len() as int) =~= bytes_of(x));
}

/// The digits of a number read back as that number.
proof fn lemma_decimal(n: nat)
    ensures
        decimal(n).len() > 0,
        plain_text(decimal(n)),
        !is_ws(decimal(n).last() as u8),
        forall|i: int| 0 <= i < decimal(n).len() ==> is_digit(#[trigger] bytes_of(decimal(n))[i]),
        digits_value(bytes_of(decimal(n))) == n,
    decreases n,
{
    let s = bytes_of(decimal(n));
    if n < 10 {
        assert(s.drop_last() =~= Seq::<u8>::empty());
        assert(s.last() == n + 48);
        assert(digits_value(s) == digits_value(s.drop_last()) * 10 + (s.last() - 48) as nat);
    } else {
        lemma_decimal(n / 10);
        let p = decimal(n / 10);
        assert(decimal(n) == p + seq![digit_char(n % 10)]);
        assert(s.drop_last() =~= bytes_of(p));
        assert(s.last() == n % 10 + 48);
        assert(digits_value(s) == digits_value(s.drop_last()) * 10 + (s.last() - 48) as nat);
        assert((n / 10) * 10 + n % 10 == n) by (nonlinear_arith);
        assert forall|i: int| 0 <= i < decimal(n).len() implies is_digit(#[trigger] s[i]) && decimal(
            n,
        )[i] != ';' && '\0' <= decimal(n)[i] <= '\u{7f}' by {
            if i < p.len() {
                assert(decimal(n)[i] == p[i]);
                assert(s[i] == bytes_of(p)[i]);
            }
        }
    }
}

/// Inserting a key above all keys of the list appends it.
proof fn lemma_insert_last(s: Seq<(Seq<char>, Seq<char>)>, k: Seq<char>, v: Seq<char>)
    requires
        forall|j: int| 0 <= j < s.len() ==> key_cmp(#[trigger] s[j].0, k) < 0,
    ensures
        insert_sorted(s, k, v) == s.push((k, v)),
    decreases s.len(),
{
    if s.len() > 0 {
        lemma_key_order(s[0].0, k, k);
        assert(key_cmp(s[0].0, k) < 0);
        assert forall|j: int| 0 <= j < s.drop_first().len() implies key_cmp(
            #[trigger] s.drop_first()[j].0,
            k,
        ) < 0 by {
            assert(s.drop_first()[j] == s[j + 1]);
        }
        lemma_insert_last(s.drop_first(), k, v);
        assert(insert_sorted(s, k, v) =~= s.push((k, v)));
    } else {
        assert(insert_sorted(s, k, v) =~= s.push((k, v)));
    }
}

/// An ASCII letter or digit.
pub open spec fn is_alnum_char(c: char) -> bool {
    ('0' <= c && c <= '9') || ('A' <= c && c <= 'Z') || ('a' <= c && c <= 'z')
}

/// Text of ASCII letters and digits is its own percent-encoding.
proof fn lemma_alnum_encode(v: Seq<char>)
    requires
        forall|j: int| 0 <= j < v.len() ==> is_alnum_char(#[trigger] v[j]),
    ensures
        pct_encode(encode_utf8(v)) == v,
    decreases v.len(),
{
    assert(is_ascii_chars(v));
    lemma_ascii_text(v);
    if v.len() > 0 {
        let v1 = v.drop_first();
        assert(is_ascii_chars(v1));
        lemma_ascii_text(v1);
        lemma_alnum_encode(v1);
        assert(bytes_of(v).drop_first() =~= bytes_of(v1));
        assert(bytes_of(v)[0] == v[0] as u8);
        assert(pct_encode(bytes_of(v)) =~= v);
    }
}

/// A written attribute segment: ASCII without `;`, ending in no whitespace.
pub open spec fn seg_ok(x: Seq<char>) -> bool {
    plain_text(x) && x.len() > 0 && !is_ws(x.last() as u8)
}

/// The text of an attribute value that reads back as it is.
pub open spec fn value_text_ok(t: Seq<char>) -> bool {
    plain_text(t) && (t.len() == 0 || !is_ws(t.last() as u8))
}

/// A key that the parser reads as one of its known attributes.
pub open spec fn is_known_key(k: Seq<u8>) -> bool {
    ||| eq_ignore_case(k, "max-age".spec_bytes())
    ||| eq_ignore_case(k, "domain".spec_bytes())
    ||| eq_ignore_case(k, "path".spec_bytes())
    ||| eq_ignore_case(k, "expires".spec_bytes())
}

/// An extra attribute that reads back as it is: a plain key of no known name
/// with no `=` and no leading whitespace, and a value of letters and digits
/// (values are written encoded and read as they stand).
pub open spec fn custom_ok(k: Seq<char>, v: Seq<char>) -> bool {
    &&& plain_text(k)
    &&& forall|j: int| 0 <= j < k.len() ==> #[trigger] k[j] != '='
    &&& (k.len() == 0 || !is_ws(k[0] as u8))
    &&& !is_known_key(bytes_of(k))
    &&& forall|j: int| 0 <= j < v.len() ==> is_alnum_char(#[trigger] v[j])
}

/// A cookie whose attributes can stand in a header as they are: texts that
/// are ASCII without `;` and end in no whitespace, a domain in normal form,
/// a time that reads back from its own rendering, extra attributes in
/// ascending order of key.
pub open spec fn writable(c: CookieView) -> bool {
    &&& (c.path matches Some(p) ==> value_text_ok(p))
    &&& (c.domain matches Some(d) ==> value_text_ok(d) && (d.len() == 0 || d[0] != '.') && d.map_values(
        |ch: char| lower_char(ch),
    ) == d)
    &&& (c.expires matches Some(t) ==> value_text_ok(rfc822_text(t)) && strptime_of(
        rfc822_text(t),
        "%a, %d %b %Y %H:%M:%S %Z"@,
    ) == Some(t))
    &&& keys_ascending(c.custom)
    &&& forall|i: int| 0 <= i < c.custom.len() ==> custom_ok(#[trigger] c.custom[i].0, c.custom[i].1)
}

/// The segments that the known attributes of a cookie are written as.
pub open spec fn known_segs(c: CookieView) -> Seq<Seq<char>> {
    (if c.httponly {
        seq!["HttpOnly"@]
    } else {
        seq![]
    }) + (if c.secure {
        seq!["Secure"@]
    } else {
        seq![]
    }) + (match c.path {
        Some(p) => seq!["Path"@ + seq!['='] + p],
        None => seq![],
    }) + (match c.domain {
        Some(d) => seq!["Domain"@ + seq!['='] + d],
        None => seq![],
    }) + (match c.max_age {
        Some(n) => seq!["Max-Age"@ + seq!['='] + decimal(n as nat)],
        None => seq![],
    }) + (match c.expires {
        Some(t) => seq!["Expires"@ + seq!['='] + rfc822_text(t)],
        None => seq![],
    })
}

/// The segments that the extra attributes are written as.
pub open spec fn custom_segs(s: Seq<(Seq<char>, Seq<char>)>) -> Seq<Seq<char>> {
    s.map_values(|e: (Seq<char>, Seq<char>)| e.0 + seq!['='] + e.1)
}

/// The bytes of the written attribute names.
proof fn lemma_labels()
    ensures
        bytes_of("HttpOnly"@) == seq![72u8, 116, 116, 112, 79, 110, 108, 121],
        bytes_of("Secure"@) == seq![83u8, 101, 99, 117, 114, 101],
        bytes_of("Path"@) == seq![80u8, 97, 116, 104],
        bytes_of("Domain"@) == seq![68u8, 111, 109, 97, 105, 110],
        bytes_of("Max-Age"@) == seq![77u8, 97, 120, 45, 65, 103, 101],
        bytes_of("Expires"@) == seq![69u8, 120, 112, 105, 114, 101, 115],
        plain_text("HttpOnly"@),
        plain_text("Secure"@),
        plain_text("Path"@),
        plain_text("Domain"@),
        plain_text("Max-Age"@),
        plain_text("Expires"@),
        "HttpOnly"@.len() == 8,
        "Secure"@.len() == 6,
        "Path"@.len() == 4,
        "Domain"@.len() == 6,
        "Max-Age"@.len() == 7,
        "Expires"@.len() == 7,
        forall|j: int| 0 <= j < 4 ==> #[trigger] "Path"@[j] != '=',
        forall|j: int| 0 <= j < 6 ==> #[trigger] "Domain"@[j] != '=',
        forall|j: int| 0 <= j < 7 ==> #[trigger] "Max-Age"@[j] != '=',
        forall|j: int| 0 <= j < 7 ==> #[trigger] "Expires"@[j] != '=',
        !is_ws("Path"@[0] as u8),
        !is_ws("Domain"@[0] as u8),
        !is_ws("Max-Age"@[0] as u8),
        !is_ws("Expires"@[0] as u8),
        !is_ws("HttpOnly"@.last() as u8),
        !is_ws("Secure"@.last() as u8),
{
    reveal_strlit("HttpOnly");
    reveal_strlit("Secure");
    reveal_strlit("Path");
    reveal_strlit("Domain");
    reveal_strlit("Max-Age");
    reveal_strlit("Expires");
    assert(bytes_of("HttpOnly"@) =~= seq![72u8, 116, 116, 112, 79, 110, 108, 121]);
    assert(bytes_of("Secure"@) =~= seq![83u8, 101, 99, 117, 114, 101]);
    assert(bytes_of("Path"@) =~= seq![80u8, 97, 116, 104]);
    assert(bytes_of("Domain"@) =~= seq![68u8, 111, 109, 97, 105, 110]);
    assert(bytes_of("Max-Age"@) =~= seq![77u8, 97, 120, 45, 65, 103, 101]);
    assert(bytes_of("Expires"@) =~= seq![69u8, 120, 112, 105, 114, 101, 115]);
}

proof fn lemma_apply_one(c: CookieView, x: Seq<char>)
    ensures
        apply_all(c, seq![x]) == apply_attr(c, bytes_of(x)),
{
    assert(seq![x][0] == x);
    assert(seq![x].drop_first() =~= Seq::<Seq<char>>::empty());
    match apply_attr(c, bytes_of(x)) {
        None => {},
        Some(d) => {
            assert(apply_all(d, Seq::<Seq<char>>::empty()) == Some(d));
        },
    }
}

proof fn lemma_attr_flags(c: CookieView)
    ensures
        apply_attr(c, bytes_of("HttpOnly"@)) == Some(CookieView { httponly: true, ..c }),
        apply_attr(c, bytes_of("Secure"@)) == Some(CookieView { secure: true, ..c }),
{
    lemma_labels();
    lemma_keywords();
    let h = bytes_of("HttpOnly"@);
    let s = bytes_of("Secure"@);
    assert(trim(h) == h);
    assert(trim(s) == s);
    assert(eq_ignore_case(h, "httponly".spec_bytes()));
    assert(eq_ignore_case(s, "secure".spec_bytes()));
}

proof fn lemma_attr_path(c: CookieView, p: Seq<char>)
    requires
        value_text_ok(p),
    ensures
        apply_attr(c, bytes_of("Path"@ + seq!['='] + p)) == Some(CookieView { path: Some(p), ..c }),
{
    lemma_labels();
    lemma_keywords();
    lemma_kv_seg("Path"@, p);
    let k = bytes_of("Path"@);
    assert(!eq_ignore_case(k, "max-age".spec_bytes()));
    assert(!eq_ignore_case(k, "domain".spec_bytes()));
    assert(eq_ignore_case(k, "path".spec_bytes()));
    lemma_ascii_text(p);
}

proof fn lemma_attr_domain(c: CookieView, d: Seq<char>)
    requires
        value_text_ok(d),
        d.len() == 0 || d[0] != '.',
        d.map_values(|ch: char| lower_char(ch)) == d,
    ensures
        apply_attr(c, bytes_of("Domain"@ + seq!['='] + d)) == Some(
            CookieView { domain: Some(d), ..c },
        ),
{
    lemma_labels();
    lemma_keywords();
    lemma_kv_seg("Domain"@, d);
    let k = bytes_of("Domain"@);
    assert(!eq_ignore_case(k, "max-age".spec_bytes()));
    assert(eq_ignore_case(k, "domain".spec_bytes()));
    lemma_ascii_text(d);
    if d.len() > 0 {
        assert(bytes_of(d)[0] == d[0] as u8);
    }
    assert(domain_of(bytes_of(d)) == d);
}

proof fn lemma_attr_max_age(c: CookieView, n: u64)
    ensures
        apply_attr(c, bytes_of("Max-Age"@ + seq!['='] + decimal(n as nat))) == Some(
            CookieView { max_age: Some(n), ..c },
        ),
{
    lemma_labels();
    lemma_keywords();
    lemma_decimal(n as nat);
    lemma_kv_seg("Max-Age"@, decimal(n as nat));
    let k = bytes_of("Max-Age"@);
    assert(eq_ignore_case(k, "max-age".spec_bytes()));
    assert(parse_u64(bytes_of(decimal(n as nat))) == Some(n));
}

proof fn lemma_attr_expires(c: CookieView, t: Timestamp)
    requires
        value_text_ok(rfc822_text(t)),
        strptime_of(rfc822_text(t), "%a, %d %b %Y %H:%M:%S %Z"@) == Some(t),
    ensures
        apply_attr(c, bytes_of("Expires"@ + seq!['='] + rfc822_text(t))) == Some(
            CookieView { expires: Some(t), ..c },
        ),
{
    lemma_labels();
    lemma_keywords();
    lemma_kv_seg("Expires"@, rfc822_text(t));
    let k = bytes_of("Expires"@);
    assert(!eq_ignore_case(k, "max-age".spec_bytes())) by {
        assert(ascii_lower(k[0]) != "max-age".spec_bytes()[0]);
    }
    assert(!eq_ignore_case(k, "domain".spec_bytes()));
    assert(!eq_ignore_case(k, "path".spec_bytes()));
    assert(eq_ignore_case(k, "expires".spec_bytes()));
    lemma_ascii_text(rfc822_text(t));
    assert(expires_of(rfc822_text(t)) == Some(t));
}

proof fn lemma_attr_custom(c: CookieView, k: Seq<char>, v: Seq<char>)
    requires
        custom_ok(k, v),
    ensures
        apply_attr(c, bytes_of(k + seq!['='] + v)) == Some(
            CookieView { custom: insert_sorted(c.custom, k, v), ..c },
        ),
{
    assert forall|j: int| 0 <= j < v.len() implies #[trigger] v[j] != ';' && '\0' <= v[j] <= '\u{7f}' by {
        assert(is_alnum_char(v[j]));
    }
    if v.len() > 0 {
        assert(is_alnum_char(v.last()));
    }
    lemma_kv_seg(k, v);
    lemma_ascii_text(k);
    lemma_ascii_text(v);
}

proof fn lemma_known_chain(c: CookieView)
    requires
        writable(c),
    ensures
        apply_all(parsed_pair(c.name, c.value), known_segs(c)) == Some(
            CookieView { custom: seq![], ..c },
        ),
{
    let c0 = parsed_pair(c.name, c.value);
    let a1: Seq<Seq<char>> = if c.httponly { seq!["HttpOnly"@] } else { seq![] };
    let a2: Seq<Seq<char>> = if c.secure { seq!["Secure"@] } else { seq![] };
    let a3: Seq<Seq<char>> = match c.path {
        Some(p) => seq!["Path"@ + seq!['='] + p],
        None => seq![],
    };
    let a4: Seq<Seq<char>> = match c.domain {
        Some(d) => seq!["Domain"@ + seq!['='] + d],
        None => seq![],
    };
    let a5: Seq<Seq<char>> = match c.max_age {
        Some(n) => seq!["Max-Age"@ + seq!['='] + decimal(n as nat)],
        None => seq![],
    };
    let a6: Seq<Seq<char>> = match c.expires {
        Some(t) => seq!["Expires"@ + seq!['='] + rfc822_text(t)],
        None => seq![],
    };
    assert(known_segs(c) == a1 + a2 + a3 + a4 + a5 + a6);
    let d1 = CookieView { httponly: c.httponly, ..c0 };
    let d2 = CookieView { secure: c.secure, ..d1 };
    let d3 = CookieView { path: c.path, ..d2 };
    let d4 = CookieView { domain: c.domain, ..d3 };
    let d5 = CookieView { max_age: c.max_age, ..d4 };
    let d6 = CookieView { expires: c.expires, ..d5 };
    lemma_attr_flags(c0);
    lemma_attr_flags(d1);
    if c.httponly {
        lemma_apply_one(c0, "HttpOnly"@);
    }
    assert(apply_all(c0, a1) == Some(d1));
    if c.secure {
        lemma_apply_one(d1, "Secure"@);
    }
    assert(apply_all(d1, a2) == Some(d2));
    if let Some(p) = c.path {
        lemma_apply_one(d2, "Path"@ + seq!['='] + p);
        lemma_attr_path(d2, p);
    }
    assert(apply_all(d2, a3) == Some(d3));
    if let Some(d) = c.domain {
        lemma_apply_one(d3, "Domain"@ + seq!['='] + d);
        lemma_attr_domain(d3, d);
    }
    assert(apply_all(d3, a4) == Some(d4));
    if let Some(n) = c.max_age {
        lemma_apply_one(d4, "Max-Age"@ + seq!['='] + decimal(n as nat));
        lemma_attr_max_age(d4, n);
    }
    assert(apply_all(d4, a5) == Some(d5));
    if let Some(t) = c.expires {
        lemma_apply_one(d5, "Expires"@ + seq!['='] + rfc822_text(t));
        lemma_attr_expires(d5, t);
    }
    assert(apply_all(d5, a6) == Some(d6));
    lemma_apply_all_concat(c0, a1, a2);
    lemma_apply_all_concat(c0, a1 + a2, a3);
    lemma_apply_all_concat(c0, a1 + a2 + a3, a4);
    lemma_apply_all_concat(c0, a1 + a2 + a3 + a4, a5);
    lemma_apply_all_concat(c0, a1 + a2 + a3 + a4 + a5, a6);
    assert(d6 == CookieView { custom: seq![], ..c });
}

proof fn lemma_custom_chain(d: CookieView, s: Seq<(Seq<char>, Seq<char>)>)
    requires
        d.custom == Seq::<(Seq<char>, Seq<char>)>::empty(),
        keys_ascending(s),
        forall|i: int| 0 <= i < s.len() ==> custom_ok(#[trigger] s[i].0, s[i].1),
    ensures
        apply_all(d, custom_segs(s)) == Some(CookieView { custom: s, ..d }),
    decreases s.len(),
{
    if s.len() == 0 {
        assert(custom_segs(s) =~= Seq::<Seq<char>>::empty());
        assert(s =~= d.custom);
        assert(CookieView { custom: s, ..d } == d);
    } else {
        let s1 = s.drop_last();
        let (k, v) = s.last();
        assert forall|i: int, j: int| 0 <= i < j < s1.len() implies key_cmp(s1[i].0, s1[j].0) < 0 by {
            assert(s1[i] == s[i] && s1[j] == s[j]);
        }
        assert forall|i: int| 0 <= i < s1.len() implies custom_ok(#[trigger] s1[i].0, s1[i].1) by {
            assert(s1[i] == s[i]);
        }
        lemma_custom_chain(d, s1);
        assert(custom_segs(s) =~= custom_segs(s1).push(k + seq!['='] + v));
        lemma_apply_all_push(d, custom_segs(s1), k + seq!['='] + v);
        let e = CookieView { custom: s1, ..d };
        assert(custom_ok(s[s.len() - 1].0, s[s.len() - 1].1));
        lemma_attr_custom(e, k, v);
        assert forall|j: int| 0 <= j < s1.len() implies key_cmp(#[trigger] s1[j].0, k) < 0 by {
            assert(s1[j] == s[j]);
        }
        lemma_insert_last(s1, k, v);
        assert(s1.push((k, v)) =~= s);
    }
}

proof fn lemma_join_one(x: Seq<char>)
    ensures
        join(seq![x]) == seq![';', ' '] + x,
{
    assert(seq![x][0] == x);
    assert(seq![x].drop_first() =~= Seq::<Seq<char>>::empty());
    assert(join(Seq::<Seq<char>>::empty()) == Seq::<char>::empty());
    assert(join(seq![x]) == seq![';', ' '] + x + join(seq![x].drop_first()));
    assert(join(seq![x]) =~= seq![';', ' '] + x);
}

proof fn lemma_custom_text(s: Seq<(Seq<char>, Seq<char>)>)
    requires
        forall|i: int| 0 <= i < s.len() ==> custom_ok(#[trigger] s[i].0, s[i].1),
    ensures
        custom_text(s) == join(custom_segs(s)),
    decreases s.len(),
{
    reveal_strlit("; ");
    if s.len() == 0 {
        assert(custom_segs(s) =~= Seq::<Seq<char>>::empty());
    } else {
        let s1 = s.drop_last();
        let (k, v) = s.last();
        assert forall|i: int| 0 <= i < s1.len() implies custom_ok(#[trigger] s1[i].0, s1[i].1) by {
            assert(s1[i] == s[i]);
        }
        lemma_custom_text(s1);
        assert(custom_ok(s[s.len() - 1].0, s[s.len() - 1].1));
        lemma_alnum_encode(v);
        assert(custom_segs(s) =~= custom_segs(s1).push(k + seq!['='] + v));
        lemma_join_push(custom_segs(s1), k + seq!['='] + v);
        assert("; "@ =~= seq![';', ' ']);
        assert(custom_text(s) =~= join(custom_segs(s)));
    }
}

proof fn lemma_attrs_text(c: CookieView)
    ensures
        attrs_text(c) == join(known_segs(c)),
{
    reveal_strlit("; HttpOnly");
    reveal_strlit("; Secure");
    reveal_strlit("; Path=");
    reveal_strlit("; Domain=");
    reveal_strlit("; Max-Age=");
    reveal_strlit("; Expires=");
    reveal_strlit("HttpOnly");
    reveal_strlit("Secure");
    reveal_strlit("Path");
    reveal_strlit("Domain");
    reveal_strlit("Max-Age");
    reveal_strlit("Expires");
    let a1: Seq<Seq<char>> = if c.httponly { seq!["HttpOnly"@] } else { seq![] };
    let a2: Seq<Seq<char>> = if c.secure { seq!["Secure"@] } else { seq![] };
    let a3: Seq<Seq<char>> = match c.path {
        Some(p) => seq!["Path"@ + seq!['='] + p],
        None => seq![],
    };
    let a4: Seq<Seq<char>> = match c.domain {
        Some(d) => seq!["Domain"@ + seq!['='] + d],
        None => seq![],
    };
    let a5: Seq<Seq<char>> = match c.max_age {
        Some(n) => seq!["Max-Age"@ + seq!['='] + decimal(n as nat)],
        None => seq![],
    };
    let a6: Seq<Seq<char>> = match c.expires {
        Some(t) => seq!["Expires"@ + seq!['='] + rfc822_text(t)],
        None => seq![],
    };
    assert(known_segs(c) == a1 + a2 + a3 + a4 + a5 + a6);
    lemma_join_concat(a1, a2);
    lemma_join_concat(a1 + a2, a3);
    lemma_join_concat(a1 + a2 + a3, a4);
    lemma_join_concat(a1 + a2 + a3 + a4, a5);
    lemma_join_concat(a1 + a2 + a3 + a4 + a5, a6);
    assert(join(Seq::<Seq<char>>::empty()) == Seq::<char>::empty());
    if c.httponly {
        lemma_join_one("HttpOnly"@);
        assert("; HttpOnly"@ =~= seq![';', ' '] + "HttpOnly"@);
    }
    if c.secure {
        lemma_join_one("Secure"@);
        assert("; Secure"@ =~= seq![';', ' '] + "Secure"@);
    }
    if let Some(p) = c.path {
        lemma_join_one("Path"@ + seq!['='] + p);
        assert("; Path="@ + p =~= seq![';', ' '] + ("Path"@ + seq!['='] + p));
    }
    if let Some(d) = c.domain {
        lemma_join_one("Domain"@ + seq!['='] + d);
        assert("; Domain="@ + d =~= seq![';', ' '] + ("Domain"@ + seq!['='] + d));
    }
    if let Some(n) = c.max_age {
        let x = decimal(n as nat);
        lemma_join_one("Max-Age"@ + seq!['='] + x);
        assert("; Max-Age="@ + x =~= seq![';', ' '] + ("Max-Age"@ + seq!['='] + x));
    }
    if let Some(t) = c.expires {
        let x = rfc822_text(t);
        lemma_join_one("Expires"@ + seq!['='] + x);
        assert("; Expires="@ + x =~= seq![';', ' '] + ("Expires"@ + seq!['='] + x));
    }
    assert(attrs_text(c) =~= join(a1) + join(a2) + join(a3) + join(a4) + join(a5) + join(a6));
}

proof fn lemma_join_facts(l: Seq<Seq<char>>)
    requires
        forall|i: int| 0 <= i < l.len() ==> seg_ok(#[trigger] l[i]),
    ensures
        is_ascii_chars(join(l)),
        l.len() > 0 ==> join(l).len() > 0 && join(l)[0] == ';' && !is_ws(join(l).last() as u8),
    decreases l.len(),
{
    if l.len() > 0 {
        let l1 = l.drop_first();
        assert forall|i: int| 0 <= i < l1.len() implies seg_ok(#[trigger] l1[i]) by {
            assert(l1[i] == l[i + 1]);
        }
        lemma_join_facts(l1);
        let x = l[0];
        assert(seg_ok(x));
        let j = join(l);
        assert(j == seq![';', ' '] + x + join(l1));
        assert forall|i: int| 0 <= i < j.len() implies '\0' <= #[trigger] j[i] <= '\u{7f}' by {
            if 2 <= i < 2 + x.len() {
                assert(j[i] == x[i - 2]);
            } else if i >= 2 + x.len() {
                assert(j[i] == join(l1)[i - 2 - x.len()]);
            }
        }
        if l1.len() == 0 {
            assert(join(l1) == Seq::<char>::empty());
            assert(j.last() == x.last());
        } else {
            assert(j.last() == join(l1).last());
        }
    }
}

proof fn lemma_seg_kv(k: Seq<char>, x: Seq<char>)
    requires
        plain_text(k),
        value_text_ok(x),
    ensures
        seg_ok(k + seq!['='] + x),
{
    let t = k + seq!['='] + x;
    assert forall|i: int| 0 <= i < t.len() implies #[trigger] t[i] != ';' && '\0' <= t[i] <= '\u{7f}' by {
        if i < k.len() {
            assert(t[i] == k[i]);
        } else if i > k.len() {
            assert(t[i] == x[i - k.len() - 1]);
        }
    }
    if x.len() > 0 {
        assert(t.last() == x.last());
    }
}

proof fn lemma_all_ok_concat(a: Seq<Seq<char>>, b: Seq<Seq<char>>)
    requires
        forall|i: int| 0 <= i < a.len() ==> seg_ok(#[trigger] a[i]),
        forall|i: int| 0 <= i < b.len() ==> seg_ok(#[trigger] b[i]),
    ensures
        forall|i: int| 0 <= i < (a + b).len() ==> seg_ok(#[trigger] (a + b)[i]),
{
    assert forall|i: int| 0 <= i < (a + b).len() implies seg_ok(#[trigger] (a + b)[i]) by {
        if i < a.len() {
            assert((a + b)[i] == a[i]);
        } else {
            assert((a + b)[i] == b[i - a.len()]);
        }
    }
}

proof fn lemma_segs_ok(c: CookieView)
    requires
        writable(c),
    ensures
        forall|i: int| 0 <= i < (known_segs(c) + custom_segs(c.custom)).len() ==> seg_ok(
            #[trigger] (known_segs(c) + custom_segs(c.custom))[i],
        ),
{
    lemma_labels();
    let a1: Seq<Seq<char>> = if c.httponly { seq!["HttpOnly"@] } else { seq![] };
    let a2: Seq<Seq<char>> = if c.secure { seq!["Secure"@] } else { seq![] };
    let a3: Seq<Seq<char>> = match c.path {
        Some(p) => seq!["Path"@ + seq!['='] + p],
        None => seq![],
    };
    let a4: Seq<Seq<char>> = match c.domain {
        Some(d) => seq!["Domain"@ + seq!['='] + d],
        None => seq![],
    };
    let a5: Seq<Seq<char>> = match c.max_age {
        Some(n) => seq!["Max-Age"@ + seq!['='] + decimal(n as nat)],
        None => seq![],
    };
    let a6: Seq<Seq<char>> = match c.expires {
        Some(t) => seq!["Expires"@ + seq!['='] + rfc822_text(t)],
        None => seq![],
    };
    assert(known_segs(c) == a1 + a2 + a3 + a4 + a5 + a6);
    if let Some(p) = c.path {
        lemma_seg_kv("Path"@, p);
    }
    if let Some(d) = c.domain {
        lemma_seg_kv("Domain"@, d);
    }
    if let Some(n) = c.max_age {
        lemma_decimal(n as nat);
        lemma_seg_kv("Max-Age"@, decimal(n as nat));
    }
    if let Some(t) = c.expires {
        lemma_seg_kv("Expires"@, rfc822_text(t));
    }
    let cs = custom_segs(c.custom);
    assert forall|i: int| 0 <= i < cs.len() implies seg_ok(#[trigger] cs[i]) by {
        let (k, v) = c.custom[i];
        assert(custom_ok(c.custom[i].0, c.custom[i].1));
        assert forall|j: int| 0 <= j < v.len() implies #[trigger] v[j] != ';' && '\0' <= v[j]
            <= '\u{7f}' by {
            assert(is_alnum_char(v[j]));
        }
        if v.len() > 0 {
            assert(is_alnum_char(v.last()));
        }
        lemma_seg_kv(k, v);
    }
    lemma_all_ok_concat(a1, a2);
    lemma_all_ok_concat(a1 + a2, a3);
    lemma_all_ok_concat(a1 + a2 + a3, a4);
    lemma_all_ok_concat(a1 + a2 + a3 + a4, a5);
    lemma_all_ok_concat(a1 + a2 + a3 + a4 + a5, a6);
    lemma_all_ok_concat(known_segs(c), cs);
}

/// Reading a written name/value pair followed by attribute text `j`.
proof fn lemma_pair_prefix(name: Seq<char>, value: Seq<char>, j: Seq<char>)
    requires
        is_ascii_chars(j),
        j.len() == 0 || (j[0] == ';' && !is_ws(j.last() as u8)),
    ensures
        parse_spec(encode_utf8(pair_text(pct_encode(encode_utf8(name)), value) + j)) == if j.len()
            == 0 {
            Some(parsed_pair(name, value))
        } else {
            parse_attrs(parsed_pair(name, value), bytes_of(j).drop_first())
        },
{
    let n8 = encode_utf8(name);
    let v8 = encode_utf8(value);
    let enc_name = pct_encode(n8);
    let enc_value = pct_encode(v8);
    let t = enc_name + seq!['='] + enc_value + j;
    assert(pair_text(enc_name, value) + j == t);
    lemma_pct_encode_ascii(n8);
    lemma_pct_encode_ascii(v8);
    let a = enc_name.len() as int;
    let b = enc_value.len() as int;
    assert forall|i: int| 0 <= i < t.len() implies '\0' <= #[trigger] t[i] <= '\u{7f}' by {
        if i < a {
            assert(t[i] == enc_name[i]);
        } else if a < i < a + 1 + b {
            assert(t[i] == enc_value[i - a - 1]);
        } else if i >= a + 1 + b {
            assert(t[i] == j[i - a - 1 - b]);
        }
    }
    lemma_ascii_text(t);
    let bytes = bytes_of(t);
    assert(bytes.len() == a + b + 1 + j.len());
    assert forall|i: int| 0 <= i < a implies #[trigger] bytes[i] == enc_name[i] as u8 && is_pct_char(enc_name[i]) by {
        assert(t[i] == enc_name[i]);
    }
    assert forall|i: int| a < i < a + 1 + b implies #[trigger] bytes[i] == enc_value[i - a - 1] as u8
        && is_pct_char(enc_value[i - a - 1]) by {
        assert(t[i] == enc_value[i - a - 1]);
    }
    assert(bytes[a] == 61) by {
        assert(t[a] == '=');
    }
    assert(!is_ws(bytes[0])) by {
        if a > 0 {
            assert(bytes[0] == enc_name[0] as u8);
        }
    }
    let e = a + 1 + b;
    assert(!is_ws(bytes[e - 1])) by {
        if b > 0 {
            assert(bytes[e - 1] == enc_value[b - 1] as u8);
        }
    }
    if j.len() > 0 {
        assert(bytes.last() == j.last() as u8);
        assert(bytes[e] == 59) by {
            assert(t[e] == j[0]);
        }
    }
    lemma_trim_id(bytes);
    assert forall|k: int| 0 <= k < e implies bytes[k] != 59 by {
        if k < a {
            assert(bytes[k] == enc_name[k] as u8);
        } else if k > a {
            assert(bytes[k] == enc_value[k - a - 1] as u8);
        }
    }
    if j.len() > 0 {
        lemma_find_at(bytes, 59, e);
    } else {
        lemma_find_at(bytes, 59, bytes.len() as int);
    }
    let first = bytes.subrange(0, e);
    assert(first.len() == e);
    assert(first[a] == 61);
    assert forall|k: int| 0 <= k < a implies first[k] != 61 by {
        assert(first[k] == bytes[k]);
        assert(bytes[k] == enc_name[k] as u8);
    }
    assert(!is_ws(first[0]));
    assert(!is_ws(first.last()));
    lemma_trim_id(first);
    lemma_find_at(first, 61, a);
    let k8 = first.subrange(0, a);
    let w8 = first.subrange(a + 1, first.len() as int);
    assert(split_pair(first) == Some((k8, w8)));
    lemma_ascii_text(enc_name);
    lemma_ascii_text(enc_value);
    assert(k8 =~= encode_utf8(enc_name)) by {
        assert forall|i: int| 0 <= i < a implies k8[i] == encode_utf8(enc_name)[i] by {
            assert(k8[i] == bytes[i]);
        }
    }
    assert(w8 =~= encode_utf8(enc_value)) by {
        assert forall|i: int| 0 <= i < b implies w8[i] == encode_utf8(enc_value)[i] by {
            assert(w8[i] == bytes[a + 1 + i]);
        }
    }
    lemma_percent_round_trip(n8);
    lemma_percent_round_trip(v8);
    encode_utf8_valid_utf8(name);
    encode_utf8_valid_utf8(value);
    encode_utf8_decode_utf8(name);
    encode_utf8_decode_utf8(value);
    if j.len() > 0 {
        assert(bytes.subrange(e + 1, bytes.len() as int) =~= bytes_of(j).drop_first());
    } else {
        assert(first =~= bytes);
    }
}

/// Writing a cookie out and reading it back gives the same cookie, for every
/// cookie whose attributes can stand in a header as they are (see
/// `writable`): its name and value may be any text.
pub proof fn lemma_write_parse_round_trip(c: CookieView)
    requires
        writable(c),
    ensures
        parse_spec(encode_utf8(cookie_text(c))) == Some(c),
{
    let known = known_segs(c);
    let cs = custom_segs(c.custom);
    let segs = known + cs;
    let j = join(segs);
    lemma_attrs_text(c);
    lemma_custom_text(c.custom);
    lemma_join_concat(known, cs);
    let p = pair_text(pct_encode(encode_utf8(c.name)), c.value);
    assert(cookie_text(c) =~= p + j);
    lemma_segs_ok(c);
    lemma_join_facts(segs);
    lemma_pair_prefix(c.name, c.value, j);
    let c0 = parsed_pair(c.name, c.value);
    if j.len() == 0 {
        assert(segs.len() == 0);
        assert(known.len() == 0);
        assert(c.custom.len() == cs.len());
        assert(c.custom =~= Seq::<(Seq<char>, Seq<char>)>::empty());
        assert(c == c0);
    } else {
        assert forall|i: int| 0 <= i < segs.len() implies plain_text(#[trigger] segs[i]) by {
            assert(seg_ok(segs[i]));
        }
        assert(segs.len() > 0);
        lemma_parse_join(c0, segs);
        lemma_apply_all_concat(c0, known, cs);
        lemma_known_chain(c);
        let d = CookieView { custom: seq![], ..c };
        lemma_custom_chain(d, c.custom);
        assert(CookieView { custom: c.custom, ..d } == c);
    }
}

/// A cookie made by `Cookie::new`, written out and read back, is the same
/// cookie, its path `/` included: for every name and value.
pub proof fn lemma_new_cookie_round_trip(name: Seq<char>, value: Seq<char>)
    ensures
        parse_spec(encode_utf8(cookie_text(fresh_cookie(name, value)))) == Some(
            fresh_cookie(name, value),
        ),
{
    reveal_strlit("/");
    let c = fresh_cookie(name, value);
    assert(value_text_ok("/"@));
    assert(writable(c));
    lemma_write_parse_round_trip(c);
}

} // verus!
