use cookie::cookie::Cookie;
use cookie::timestamp::Timestamp;

fn bare(name: &str, value: &str) -> Cookie {
    let mut c = Cookie::new(name.to_string(), value.to_string());
    c.path = None;
    c
}

#[test]
fn parse() {
    let mut expected = bare("foo", "bar");
    assert_eq!(Cookie::parse("foo=bar").unwrap(), expected);
    assert_eq!(Cookie::parse(" foo=bar ").unwrap(), expected);
    expected.httponly = true;
    assert_eq!(Cookie::parse(" foo=bar ;HttpOnly").unwrap(), expected);
    expected.secure = true;
    assert_eq!(Cookie::parse(" foo=bar ;HttpOnly; Secure").unwrap(), expected);
    expected.max_age = Some(4);
    assert_eq!(Cookie::parse(" foo=bar ;HttpOnly; Secure; \
                              Max-Age=4").unwrap(), expected);
    expected.path = Some("/foo".to_string());
    assert_eq!(Cookie::parse(" foo=bar ;HttpOnly; Secure; \
                              Max-Age=4; Path=/foo").unwrap(), expected);
    expected.domain = Some("foo.com".to_string());
    assert_eq!(Cookie::parse(" foo=bar ;HttpOnly; Secure; \
                              Max-Age=4; Path=/foo; \
                              Domain=foo.com").unwrap(), expected);
    expected.insert_custom("wut".to_string(), "lol".to_string());
    assert_eq!(Cookie::parse(" foo=bar ;HttpOnly; Secure; \
                              Max-Age=4; Path=/foo; \
                              Domain=foo.com; wut=lol").unwrap(), expected);

    assert_eq!(expected.to_string().as_str(),
               "foo=bar; HttpOnly; Secure; Path=/foo; Domain=foo.com; \
                Max-Age=4; wut=lol");
}

#[test]
fn odd_characters() {
    let expected = bare("foo", "b/r");
    assert_eq!(Cookie::parse("foo=b%2Fr").unwrap(), expected);
}

#[test]
fn pair() {
    let cookie = Cookie::new("foo".to_string(), "bar".to_string());
    assert_eq!(cookie.pair().to_string(), "foo=bar".to_string());
}

#[test]
fn new_sets_defaults() {
    let c = Cookie::new("a".to_string(), "b".to_string());
    assert_eq!(c.path, Some("/".to_string()));
    assert_eq!(c.domain, None);
    assert_eq!(c.max_age, None);
    assert_eq!(c.expires, None);
    assert!(!c.secure && !c.httponly);
    assert!(c.custom.is_empty());
}

#[test]
fn new_then_write_then_parse() {
    let c = Cookie::new("session".to_string(), "abc123".to_string());
    let text = c.to_string();
    assert_eq!(text, "session=abc123; Path=/");
    assert_eq!(Cookie::parse(&text).unwrap(), c);
}

#[test]
fn full_cookie_writes_fixed_order() {
    let c = Cookie::parse(" foo=bar ;HttpOnly; Secure; Max-Age=4; Path=/foo; Domain=foo.com; wut=lol").unwrap();
    assert!(c.httponly && c.secure);
    assert_eq!(c.max_age, Some(4));
    assert_eq!(c.path, Some("/foo".to_string()));
    assert_eq!(c.domain, Some("foo.com".to_string()));
    assert_eq!(c.custom, vec![("wut".to_string(), "lol".to_string())]);
    assert_eq!(c.to_string(), "foo=bar; HttpOnly; Secure; Path=/foo; Domain=foo.com; Max-Age=4; wut=lol");
}

#[test]
fn malformed_headers_fail() {
    assert!(Cookie::parse("").is_err());
    assert!(Cookie::parse("novalue").is_err());
    assert!(Cookie::parse("foo=bar; Max-Age=notanumber").is_err());
    assert!(Cookie::parse("foo=bar; Expires=not-a-date").is_err());
    assert!(Cookie::parse("foo=bar; noequals").is_err());
    assert!(Cookie::parse("foo=%FF").is_err());
    assert!(Cookie::parse("foo=bar; Max-Age=18446744073709551616").is_err());
    assert!(Cookie::parse("foo=bar; Max-Age=-1").is_err());
}

#[test]
fn largest_max_age() {
    let c = Cookie::parse("foo=bar; Max-Age=18446744073709551615").unwrap();
    assert_eq!(c.max_age, Some(u64::MAX));
    assert_eq!(c.to_string(), "foo=bar; Max-Age=18446744073709551615");
}

#[test]
fn domain_is_normalized() {
    let c = Cookie::parse("foo=bar; Domain=.Example.COM").unwrap();
    assert_eq!(c.domain, Some("example.com".to_string()));
    let d = Cookie::parse("foo=bar; Domain=").unwrap();
    assert_eq!(d.domain, Some(String::new()));
}

#[test]
fn keys_match_in_any_case() {
    let c = Cookie::parse("foo=bar; SECURE; httpOnly; max-AGE=7; PATH=/x").unwrap();
    assert!(c.secure && c.httponly);
    assert_eq!(c.max_age, Some(7));
    assert_eq!(c.path, Some("/x".to_string()));
}

#[test]
fn value_may_hold_equals() {
    let c = Cookie::parse("foo=a=b").unwrap();
    assert_eq!(c.name, "foo");
    assert_eq!(c.value, "a=b");
}

#[test]
fn custom_attributes_sorted_last_wins() {
    let c = Cookie::parse("a=b; zeta=1; Alpha=2; mid=3; zeta=4").unwrap();
    assert_eq!(
        c.custom,
        vec![
            ("Alpha".to_string(), "2".to_string()),
            ("mid".to_string(), "3".to_string()),
            ("zeta".to_string(), "4".to_string()),
        ]
    );
    assert_eq!(c.to_string(), "a=b; Alpha=2; mid=3; zeta=4");
}

#[test]
fn custom_values_are_kept_raw() {
    let c = Cookie::parse("a=b; x=c%20d").unwrap();
    assert_eq!(c.custom, vec![("x".to_string(), "c%20d".to_string())]);
}

#[test]
fn write_encodes_name_and_value() {
    let c = Cookie::new("a b".to_string(), "x;y=z/é".to_string());
    assert_eq!(c.to_string(), "a%20b=x%3By%3Dz%2F%C3%A9; Path=/");
    assert_eq!(Cookie::parse(&c.to_string()).unwrap(), c);
}

#[test]
fn pair_encodes_value_only() {
    let c = Cookie::new("k".to_string(), "v v".to_string());
    assert_eq!(c.pair().to_string(), "k=v%20v");
}

#[test]
fn expires_in_each_format() {
    let a = Cookie::parse("foo=bar; Expires=Wed, 21 Oct 2015 07:28:00 GMT").unwrap();
    let t = a.expires.unwrap();
    assert_eq!((t.year, t.mon, t.mday, t.hour, t.min, t.sec, t.wday), (115, 9, 21, 7, 28, 0, 3));
    let b = Cookie::parse("foo=bar; Expires=Wednesday, 21-Oct-15 07:28:00 GMT").unwrap();
    assert_eq!(b.expires.unwrap().mday, 21);
    let c = Cookie::parse("foo=bar; Expires=Wed, 21-Oct-2015 07:28:00 GMT").unwrap();
    assert_eq!(c.expires.unwrap().year, 115);
    let d = Cookie::parse("foo=bar; Expires=Wed Oct 21 07:28:00 2015").unwrap();
    assert_eq!(d.expires.unwrap().hour, 7);
}

#[test]
fn expires_written_canonically() {
    let a = Cookie::parse("foo=bar; Expires=Wed, 21 Oct 2015 07:28:00 GMT").unwrap();
    assert_eq!(a.to_string(), "foo=bar; Expires=Wed, 21 Oct 2015 07:28:00 GMT");
    assert_eq!(Cookie::parse(&a.to_string()).unwrap(), a);
    let d = Cookie::parse("foo=bar; Expires=Wed Oct 21 07:28:00 2015").unwrap();
    assert_eq!(d.to_string(), "foo=bar; Expires=Wed, 21 Oct 2015 07:28:00 GMT");
}

#[test]
fn written_form_parses_back() {
    let mut c = Cookie::new("id".to_string(), "a b;c".to_string());
    c.secure = true;
    c.httponly = true;
    c.max_age = Some(3600);
    c.domain = Some("example.org".to_string());
    c.path = Some("/app".to_string());
    c.insert_custom("SameSite".to_string(), "Lax".to_string());
    c.insert_custom("Priority".to_string(), "High".to_string());
    assert_eq!(Cookie::parse(&c.to_string()).unwrap(), c);
}

#[test]
fn from_str_parses() {
    let c: Cookie = "foo=bar".parse().unwrap();
    assert_eq!(c, bare("foo", "bar"));
    assert!("".parse::<Cookie>().is_err());
}

#[test]
fn timestamp_fields_are_plain() {
    let t = Timestamp { sec: 0, min: 0, hour: 0, mday: 1, mon: 0, year: 70, wday: 4, yday: 0, isdst: 0, utcoff: 0, nsec: 0 };
    let mut c = Cookie::new("a".to_string(), "b".to_string());
    c.expires = Some(t);
    assert_eq!(c.to_string(), "a=b; Path=/; Expires=Thu, 01 Jan 1970 00:00:00 GMT");
}

#[test]
fn flag_with_value_is_extra() {
    let c = Cookie::parse("a=b; Secure=1").unwrap();
    assert!(!c.secure);
    assert_eq!(c.custom, vec![("Secure".to_string(), "1".to_string())]);
}

#[test]
fn empty_segment_fails() {
    assert!(Cookie::parse("foo=bar;").is_err());
    assert!(Cookie::parse("foo=bar; ; Secure").is_err());
}

#[test]
fn empty_name_and_value_parse() {
    let c = Cookie::parse("=").unwrap();
    assert_eq!(c, bare("", ""));
}

#[test]
fn unicode_whitespace_is_trimmed() {
    let c = Cookie::parse("\u{A0}foo=bar\u{3000}").unwrap();
    assert_eq!(c, bare("foo", "bar"));
    let d = Cookie::parse("a=b;\u{A0}Secure\u{2009}; \u{85}Path=/x\u{205F}").unwrap();
    assert!(d.secure);
    assert_eq!(d.path, Some("/x".to_string()));
    let e = Cookie::parse("a=b; \u{1680}\u{2028}k=v\u{2029}\u{202F}").unwrap();
    assert_eq!(e.custom, vec![("k".to_string(), "v".to_string())]);
}

#[test]
fn other_non_ascii_is_kept() {
    let c = Cookie::parse("a=b; Path=/é\u{00A1}").unwrap();
    assert_eq!(c.path, Some("/é\u{00A1}".to_string()));
}

#[test]
fn from_str_matches_parse() {
    let text = " x=1 ; Max-Age=9; Domain=.A.b";
    let a: Cookie = text.parse().unwrap();
    assert_eq!(a, Cookie::parse(text).unwrap());
    assert_eq!(a.domain, Some("a.b".to_string()));
}

#[test]
fn largest_year_writes() {
    let t = Timestamp { sec: 0, min: 0, hour: 0, mday: 1, mon: 0, year: i32::MAX - 1900, wday: 0, yday: 0, isdst: 0, utcoff: 0, nsec: 0 };
    let mut c = Cookie::new("a".to_string(), "b".to_string());
    c.expires = Some(t);
    assert!(c.to_string().ends_with("2147483647 00:00:00 GMT"));
}

#[test]
fn expires_away_from_utc_and_odd_fields() {
    let t = Timestamp { sec: 5, min: -3, hour: 23, mday: 9, mon: 11, year: -1901, wday: 6, yday: 0, isdst: 0, utcoff: 3600, nsec: 0 };
    let mut c = Cookie::new("a".to_string(), "b".to_string());
    c.path = None;
    c.expires = Some(t);
    assert_eq!(c.to_string(), "a=b; Expires=Sat, 09 Dec -1 23:-3:05 ");
}
