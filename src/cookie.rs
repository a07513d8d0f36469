//! The cookie value, and its parser and writer.

use vstd::prelude::*;
use vstd::slice::slice_subrange;
use vstd::string::StringSliceAdditionalSpecFns;
use vstd::utf8::*;
use crate::model::{
    apply_attr, attrs_text, cookie_text, flag_part, opt_part, custom_text, decimal, digit_char, expires_of, fresh_cookie, insert_sorted,
    key_cmp, keys_ascending, lemma_insert_ascending, lex_cmp, pair_text, parse_attrs, parse_spec, parsed_pair, split_pair, CookieView,
};
use crate::percent::{percent_decode, percent_encode};
use crate::strings::{
    lemma_boundary_step, lemma_lead_boundary, push_char, push_str, string_from_utf8, sub_str, to_ascii_lowercase,
};
use crate::text::{eq_ignore_case_at, find_byte, read_u64, trim_range};
use crate::timestamp::{rfc822, strptime, Timestamp};

verus! {

/// One HTTP cookie and its attributes.
#[derive(Clone, Debug, PartialEq)]
pub struct Cookie {
    pub name: String,
    pub value: String,
    pub expires: Option<Timestamp>,
    pub max_age: Option<u64>,
    pub domain: Option<String>,
    pub path: Option<String>,
    pub secure: bool,
    pub httponly: bool,
    /// Attributes of no known name, in ascending order of key.
    pub custom: Vec<(String, String)>,
}

pub open spec fn opt_text(o: Option<String>) -> Option<Seq<char>> {
    match o {
        Some(s) => Some(s@),
        None => None,
    }
}

pub open spec fn entries_view(v: Seq<(String, String)>) -> Seq<(Seq<char>, Seq<char>)> {
    v.map_values(|p: (String, String)| (p.0@, p.1@))
}

impl View for Cookie {
    type V = CookieView;

    open spec fn view(&self) -> CookieView {
        CookieView {
            name: self.name@,
            value: self.value@,
            expires: self.expires,
            max_age: self.max_age,
            domain: opt_text(self.domain),
            path: opt_text(self.path),
            secure: self.secure,
            httponly: self.httponly,
            custom: entries_view(self.custom@),
        }
    }
}

/// Three-way comparison of two byte strings.
fn compare_bytes(a: &[u8], b: &[u8]) -> (r: i8)
    ensures
        r as int == lex_cmp(a@, b@),
{
    let mut i: usize = 0;
    assert(a@.subrange(0, a@.len() as int) =~= a@);
    assert(b@.subrange(0, b@.len() as int) =~= b@);
    while i < a.len() && i < b.len() && a[i] == b[i]
        invariant
            0 <= i <= a@.len(),
            i <= b@.len(),
            lex_cmp(a@, b@) == lex_cmp(a@.subrange(i as int, a@.len() as int), b@.subrange(i as int, b@.len() as int)),
        decreases a@.len() - i,
    {
        let ghost sa = a@.subrange(i as int, a@.len() as int);
        let ghost sb = b@.subrange(i as int, b@.len() as int);
        assert(sa.drop_first() =~= a@.subrange(i + 1, a@.len() as int));
        assert(sb.drop_first() =~= b@.subrange(i + 1, b@.len() as int));
        i = i + 1;
    }
    let ghost sa = a@.subrange(i as int, a@.len() as int);
    let ghost sb = b@.subrange(i as int, b@.len() as int);
    if i == a.len() {
        if i == b.len() {
            0
        } else {
            -1
        }
    } else if i == b.len() {
        1
    } else if a[i] < b[i] {
        assert(sa[0] == a@[i as int] && sb[0] == b@[i as int]);
        -1
    } else {
        assert(sa[0] == a@[i as int] && sb[0] == b@[i as int]);
        1
    }
}

/// Splits `b[lo..hi]`, trimmed, at its first `=`.
fn split_pair_range(b: &[u8], lo: usize, hi: usize) -> (r: Option<(usize, usize, usize)>)
    requires
        lo <= hi <= b@.len(),
        valid_utf8(b@),
        is_char_boundary(b@, lo as int),
        is_char_boundary(b@, hi as int),
    ensures
        match split_pair(b@.subrange(lo as int, hi as int)) {
            None => r is None,
            Some(kv) => r matches Some(x) && lo <= x.0 <= x.1 < x.1 + 1 <= x.2 <= hi
                && kv.0 == b@.subrange(x.0 as int, x.1 as int)
                && kv.1 == b@.subrange(x.1 + 1, x.2 as int)
                && is_char_boundary(b@, x.0 as int) && is_char_boundary(b@, x.1 as int)
                && is_char_boundary(b@, x.1 + 1) && is_char_boundary(b@, x.2 as int),
        },
{
    let (t0, t1) = trim_range(b, lo, hi);
    let j = find_byte(b, t0, t1, 61);
    if j == t1 {
        return None;
    }
    proof {
        let u = b@.subrange(t0 as int, t1 as int);
        assert(u.subrange(0, j - t0) =~= b@.subrange(t0 as int, j as int));
        assert(u.subrange(j - t0 + 1, u.len() as int) =~= b@.subrange(j + 1, t1 as int));
        lemma_lead_boundary(b@, j as int);
        lemma_boundary_step(b@, j as int, 1);
    }
    Some((t0, j, t1))
}

/// Reads an `Expires` value, trying each accepted date format in turn.
fn parse_expires(v: &str) -> (r: Option<Timestamp>)
    ensures
        r == expires_of(v@),
        r matches Some(t) ==> t.wf(),
{
    let t = strptime(v, "%a, %d %b %Y %H:%M:%S %Z");
    if t.is_some() {
        return t;
    }
    let t = strptime(v, "%A, %d-%b-%y %H:%M:%S %Z");
    if t.is_some() {
        return t;
    }
    let t = strptime(v, "%a, %d-%b-%Y %H:%M:%S %Z");
    if t.is_some() {
        return t;
    }
    strptime(v, "%a %b %d %H:%M:%S %Y")
}

/// Appends the decimal digits of `n`.
fn push_decimal(out: &mut String, n: u64)
    ensures
        final(out)@ == old(out)@ + decimal(n as nat),
    decreases n,
{
    if n >= 10 {
        push_decimal(out, n / 10);
    }
    let d: u8 = (n % 10) as u8;
    push_char(out, (d + 48) as char);
    proof {
        assert(digit_char((n % 10) as nat) == (d + 48) as char);
    }
}

/// Appends `text` when `on`.
fn push_flag(out: &mut String, on: bool, text: &str)
    ensures
        final(out)@ == old(out)@ + flag_part(on, text@),
{
    if on {
        push_str(out, text);
    } else {
        assert(old(out)@ + flag_part(on, text@) =~= old(out)@);
    }
}

/// Appends `label` and the value, when there is a value.
fn push_opt(out: &mut String, label: &str, v: &Option<String>)
    ensures
        final(out)@ == old(out)@ + opt_part(label@, opt_text(*v)),
{
    match v {
        Some(x) => {
            push_str(out, label);
            push_str(out, x.as_str());
            assert(final(out)@ =~= old(out)@ + (label@ + x@));
        },
        None => {
            assert(old(out)@ + opt_part(label@, None) =~= old(out)@);
        },
    }
}

/// A key and a value of an attribute, to be written as `key=value`.
pub struct AttrVal<'a>(pub &'a str, pub &'a str);

impl<'a> AttrVal<'a> {
    /// `key=value`, the value percent-encoded.
    pub fn to_string(&self) -> (r: String)
        ensures
            r@ == pair_text(self.0@, self.1@),
    {
        let mut out = self.0.to_owned();
        push_char(&mut out, '=');
        let v = percent_encode(self.1.as_bytes());
        push_str(&mut out, v.as_str());
        proof {
            assert(out@ =~= pair_text(self.0@, self.1@));
        }
        out
    }
}

impl Cookie {
    /// The extra attributes are in strictly ascending order of key, and the
    /// time, if any, is in range so that it can be written out.
    pub open spec fn wf(&self) -> bool {
        &&& keys_ascending(entries_view(self.custom@))
        &&& (self.expires matches Some(t) ==> t.wf())
    }

    /// A cookie with the given name and value, path `/` and nothing else set.
    pub fn new(name: String, value: String) -> (r: Cookie)
        ensures
            r@ == fresh_cookie(name@, value@),
            r.wf(),
    {
        let r = Cookie {
            name,
            value,
            expires: None,
            max_age: None,
            domain: None,
            path: Some("/".to_owned()),
            secure: false,
            httponly: false,
            custom: Vec::new(),
        };
        proof {
            assert(entries_view(r.custom@) =~= seq![]);
        }
        r
    }

    /// Sets the extra attribute `key` to `value`, keeping keys in ascending order.
    pub fn insert_custom(&mut self, key: String, value: String)
        ensures
            final(self)@ == (CookieView {
                custom: insert_sorted(old(self)@.custom, key@, value@),
                ..old(self)@
            }),
            final(self).expires == old(self).expires,
            old(self).wf() ==> final(self).wf(),
    {
        let ghost s0 = entries_view(self.custom@);
        let mut i: usize = 0;
        let mut c: i8 = 1;
        proof {
            assert(s0.subrange(0, 0) =~= Seq::<(Seq<char>, Seq<char>)>::empty());
            assert(s0.subrange(0, s0.len() as int) =~= s0);
        }
        while i < self.custom.len()
            invariant
                0 <= i <= self.custom@.len(),
                self.custom@ == old(self).custom@,
                *self == *old(self),
                s0 == entries_view(self.custom@),
                insert_sorted(s0, key@, value@) == s0.subrange(0, i as int) + insert_sorted(
                    s0.subrange(i as int, s0.len() as int),
                    key@,
                    value@,
                ),
            ensures
                0 <= i <= self.custom@.len(),
                self.custom@ == old(self).custom@,
                *self == *old(self),
                s0 == entries_view(self.custom@),
                insert_sorted(s0, key@, value@) == s0.subrange(0, i as int) + insert_sorted(
                    s0.subrange(i as int, s0.len() as int),
                    key@,
                    value@,
                ),
                i < self.custom@.len() ==> c <= 0 && c as int == key_cmp(key@, s0[i as int].0),
            decreases self.custom@.len() - i,
        {
            c = compare_bytes(key.as_str().as_bytes(), self.custom[i].0.as_str().as_bytes());
            assert(s0[i as int].0 == self.custom@[i as int].0@);
            if c <= 0 {
                break;
            }
            proof {
                let t = s0.subrange(i as int, s0.len() as int);
                assert(t[0] == s0[i as int]);
                assert(key_cmp(key@, t[0].0) > 0);
                assert(t.drop_first() =~= s0.subrange(i + 1, s0.len() as int));
                assert(s0.subrange(0, i as int) + seq![s0[i as int]] =~= s0.subrange(0, i + 1));
                assert(insert_sorted(s0, key@, value@) =~= s0.subrange(0, i + 1) + insert_sorted(
                    s0.subrange(i + 1, s0.len() as int),
                    key@,
                    value@,
                ));
            }
            i = i + 1;
        }
        let ghost t = s0.subrange(i as int, s0.len() as int);
        if i < self.custom.len() {
            proof {
                assert(t[0] == s0[i as int]);
                assert(c as int == key_cmp(key@, t[0].0));
            }
            if c == 0 {
                self.custom.remove(i);
                proof {
                    assert(t.drop_first() =~= s0.subrange(i + 1, s0.len() as int));
                }
            }
        } else {
            assert(t.len() == 0);
        }
        self.custom.insert(i, (key, value));
        proof {
            assert(entries_view(self.custom@) =~= insert_sorted(s0, key@, value@));
            if keys_ascending(s0) {
                lemma_insert_ascending(s0, key@, value@);
            }
        }
    }

    /// Applies the attribute segment `b[lo..hi]` of the header `s`; false where
    /// it is malformed.
    fn parse_attr(&mut self, s: &str, b: &[u8], lo: usize, hi: usize) -> (ok: bool)
        requires
            b@ == s.spec_bytes(),
            lo <= hi <= b@.len(),
            is_char_boundary(b@, lo as int),
            is_char_boundary(b@, hi as int),
            old(self).wf(),
        ensures
            match apply_attr(old(self)@, b@.subrange(lo as int, hi as int)) {
                Some(v) => ok && final(self)@ == v && final(self).wf(),
                None => !ok,
            },
    {
        proof {
            encode_utf8_valid_utf8(s@);
        }
        let (t0, t1) = trim_range(b, lo, hi);
        if eq_ignore_case_at(b, t0, t1, "secure".as_bytes()) {
            self.secure = true;
            return true;
        }
        if eq_ignore_case_at(b, t0, t1, "httponly".as_bytes()) {
            self.httponly = true;
            return true;
        }
        let (k0, j, v1) = match split_pair_range(b, t0, t1) {
            Some(x) => x,
            None => return false,
        };
        let v0 = j + 1;
        if eq_ignore_case_at(b, k0, j, "max-age".as_bytes()) {
            match read_u64(b, v0, v1) {
                Some(n) => {
                    self.max_age = Some(n);
                    return true;
                },
                None => return false,
            }
        }
        if eq_ignore_case_at(b, k0, j, "domain".as_bytes()) {
            let d0 = if v0 < v1 && b[v0] == 46 {
                v0 + 1
            } else {
                v0
            };
            proof {
                if d0 > v0 {
                    lemma_boundary_step(b@, v0 as int, 1);
                }
                let v = b@.subrange(v0 as int, v1 as int);
                if v0 < v1 && b@[v0 as int] == 46 {
                    assert(v.drop_first() =~= b@.subrange(d0 as int, v1 as int));
                }
            }
            self.domain = Some(to_ascii_lowercase(sub_str(s, d0, v1)));
            return true;
        }
        if eq_ignore_case_at(b, k0, j, "path".as_bytes()) {
            self.path = Some(sub_str(s, v0, v1).to_owned());
            return true;
        }
        if eq_ignore_case_at(b, k0, j, "expires".as_bytes()) {
            match parse_expires(sub_str(s, v0, v1)) {
                Some(t) => {
                    self.expires = Some(t);
                    return true;
                },
                None => return false,
            }
        }
        let key = sub_str(s, k0, j).to_owned();
        let value = sub_str(s, v0, v1).to_owned();
        self.insert_custom(key, value);
        true
    }

    /// Parses the text of one cookie header: `name=value` and then attributes,
    /// separated by `;`.
    pub fn parse(s: &str) -> (r: Result<Cookie, ()>)
        ensures
            match parse_spec(s.spec_bytes()) {
                Some(v) => r matches Ok(c) && c@ == v && c.wf(),
                None => r is Err,
            },
    {
        let b = s.as_bytes();
        let n = b.len();
        proof {
            encode_utf8_valid_utf8(s@);
            is_char_boundary_start_end_of_seq(b@);
        }
        let (lo, hi) = trim_range(b, 0, n);
        let i = find_byte(b, lo, hi, 59);
        let ghost t = b@.subrange(lo as int, hi as int);
        proof {
            assert(b@.subrange(0, n as int) =~= b@);
            if i < hi {
                lemma_lead_boundary(b@, i as int);
                lemma_boundary_step(b@, i as int, 1);
                assert(t.subrange(0, i - lo) =~= b@.subrange(lo as int, i as int));
                assert(t.subrange(i - lo + 1, t.len() as int) =~= b@.subrange(i + 1, hi as int));
            } else {
                assert(t =~= b@.subrange(lo as int, i as int));
            }
        }
        let (k0, j, v1) = match split_pair_range(b, lo, i) {
            Some(x) => x,
            None => return Err(()),
        };
        let name = match string_from_utf8(percent_decode(slice_subrange(b, k0, j))) {
            Some(x) => x,
            None => return Err(()),
        };
        let value = match string_from_utf8(percent_decode(slice_subrange(b, j + 1, v1))) {
            Some(x) => x,
            None => return Err(()),
        };
        let mut c = Cookie {
            name,
            value,
            expires: None,
            max_age: None,
            domain: None,
            path: None,
            secure: false,
            httponly: false,
            custom: Vec::new(),
        };
        proof {
            assert(entries_view(c.custom@) =~= seq![]);
            assert(c@ == parsed_pair(c.name@, c.value@));
        }
        if i == hi {
            return Ok(c);
        }
        let ghost start = c@;
        assert(parse_spec(s.spec_bytes()) == parse_attrs(start, b@.subrange(i + 1, hi as int)));
        let mut p: usize = i + 1;
        loop
            invariant
                lo <= i < p <= hi <= b@.len(),
                b@ == s.spec_bytes(),
                valid_utf8(b@),
                b@[p - 1] == 59,
                is_char_boundary(b@, p as int),
                is_char_boundary(b@, hi as int),
                c.wf(),
                parse_spec(s.spec_bytes()) == parse_attrs(start, b@.subrange(i + 1, hi as int)),
                parse_attrs(start, b@.subrange(i + 1, hi as int)) == parse_attrs(
                    c@,
                    b@.subrange(p as int, hi as int),
                ),
            decreases hi - p,
        {
            let e = find_byte(b, p, hi, 59);
            let ghost c0 = c@;
            let ghost r = b@.subrange(p as int, hi as int);
            proof {
                if e < hi {
                    assert(r.subrange(0, e - p) =~= b@.subrange(p as int, e as int));
                    assert(r.subrange(e - p + 1, r.len() as int) =~= b@.subrange(e + 1, hi as int));
                } else {
                    assert(r =~= b@.subrange(p as int, e as int));
                }
            }
            proof {
                if e < hi {
                    lemma_lead_boundary(b@, e as int);
                }
            }
            let ok = c.parse_attr(s, b, p, e);
            proof {
                let seg = b@.subrange(p as int, e as int);
                if e < hi {
                    assert(r.subrange(0, e - p) == seg);
                }
                assert(parse_attrs(c0, r) == match apply_attr(c0, seg) {
                    None => None,
                    Some(d) => if e < hi {
                        parse_attrs(d, b@.subrange(e + 1, hi as int))
                    } else {
                        Some(d)
                    },
                });
            }
            if !ok {
                return Err(());
            }
            if e == hi {
                return Ok(c);
            }
            proof {
                lemma_lead_boundary(b@, e as int);
                lemma_boundary_step(b@, e as int, 1);
            }
            p = e + 1;
        }
    }

    /// The name and the value, to be written as `name=value`.
    pub fn pair(&self) -> (r: AttrVal<'_>)
        ensures
            r.0@ == self.name@,
            r.1@ == self.value@,
    {
        AttrVal(self.name.as_str(), self.value.as_str())
    }

    /// Appends the known attributes that are set, in their fixed order.
    fn push_attrs(&self, out: &mut String)
        requires
            self.wf(),
        ensures
            final(out)@ == old(out)@ + attrs_text(self@),
    {
        let ghost c = self@;
        let ghost o0 = out@;
        push_flag(out, self.httponly, "; HttpOnly");
        let ghost part_httponly = flag_part(c.httponly, "; HttpOnly"@);
        push_flag(out, self.secure, "; Secure");
        let ghost part_secure = flag_part(c.secure, "; Secure"@);
        push_opt(out, "; Path=", &self.path);
        let ghost part_path = opt_part("; Path="@, c.path);
        push_opt(out, "; Domain=", &self.domain);
        let ghost part_domain = opt_part("; Domain="@, c.domain);
        let ghost o4 = out@;
        assert(o4 == o0 + part_httponly + part_secure + part_path + part_domain);
        let age = match self.max_age {
            Some(n) => {
                let mut d = String::new();
                push_decimal(&mut d, n);
                Some(d)
            },
            None => None,
        };
        push_opt(out, "; Max-Age=", &age);
        let expires = match &self.expires {
            Some(t) => Some(rfc822(t)),
            None => None,
        };
        push_opt(out, "; Expires=", &expires);
        proof {
            let part_age = opt_part("; Max-Age="@, opt_text(age));
            let part_expires = opt_part("; Expires="@, opt_text(expires));
            assert(out@ == o4 + part_age + part_expires);
            assert(opt_text(age) == match c.max_age {
                Some(n) => Some(decimal(n as nat)),
                None => None::<Seq<char>>,
            }) by {
                if let Some(n) = c.max_age {
                    assert(seq![] + decimal(n as nat) =~= decimal(n as nat));
                }
            }
            assert(attrs_text(c) == part_httponly + part_secure + part_path + part_domain + part_age + part_expires);
            assert(o0 + part_httponly + part_secure + part_path + part_domain + part_age + part_expires =~= o0 + (part_httponly + part_secure + part_path + part_domain + part_age + part_expires));
        }
    }

    /// The header text of the cookie: `name=value`, then `HttpOnly`, `Secure`,
    /// `Path`, `Domain`, `Max-Age`, `Expires` where set, then the extra
    /// attributes in ascending order of key.
    pub fn to_string(&self) -> (r: String)
        requires
            self.wf(),
        ensures
            r@ == cookie_text(self@),
    {
        let name = percent_encode(self.name.as_str().as_bytes());
        let mut out = AttrVal(name.as_str(), self.value.as_str()).to_string();
        let ghost c = self@;
        self.push_attrs(&mut out);
        let ghost o5 = out@;
        let mut i: usize = 0;
        while i < self.custom.len()
            invariant
                0 <= i <= self.custom@.len(),
                c == self@,
                out@ == o5 + custom_text(c.custom.subrange(0, i as int)),
            decreases self.custom@.len() - i,
        {
            push_str(&mut out, "; ");
            let entry = AttrVal(self.custom[i].0.as_str(), self.custom[i].1.as_str()).to_string();
            push_str(&mut out, entry.as_str());
            proof {
                let s = c.custom.subrange(0, i + 1);
                assert(s.drop_last() =~= c.custom.subrange(0, i as int));
                assert(s.last() == c.custom[i as int]);
            }
            i = i + 1;
        }
        proof {
            assert(c.custom.subrange(0, i as int) =~= c.custom);
        }
        out
    }
}

impl core::str::FromStr for Cookie {
    type Err = ();

    fn from_str(s: &str) -> (r: Result<Cookie, ()>)
        ensures
            match parse_spec(s.spec_bytes()) {
                Some(v) => r matches Ok(c) && c@ == v && c.wf(),
                None => r is Err,
            },
    {
        Cookie::parse(s)
    }
}

} // verus!
