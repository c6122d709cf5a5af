use servo_session::origin::{
    decimal_string, default_port, serialize_tuple, str_eq, url_origin, Origin, ServoOrigin,
};
use servo_session::servo_url::{Host, ServoUrl};

fn url(s: &str) -> ServoUrl {
    ServoUrl::parse(s).expect("a valid URL")
}

#[test]
fn default_ports_of_known_schemes() {
    assert_eq!(default_port("http"), Some(80));
    assert_eq!(default_port("ws"), Some(80));
    assert_eq!(default_port("https"), Some(443));
    assert_eq!(default_port("wss"), Some(443));
    assert_eq!(default_port("ftp"), Some(21));
    assert_eq!(default_port("gopher"), Some(70));
    assert_eq!(default_port("file"), None);
    assert_eq!(default_port("HTTP"), None);
    assert_eq!(default_port(""), None);
}

#[test]
fn string_equality() {
    assert!(str_eq("abc", "abc"));
    assert!(!str_eq("abc", "abd"));
    assert!(!str_eq("abc", "ab"));
}

#[test]
fn decimal_text_of_ports() {
    assert_eq!(decimal_string(0), "0");
    assert_eq!(decimal_string(7), "7");
    assert_eq!(decimal_string(80), "80");
    assert_eq!(decimal_string(8080), "8080");
    assert_eq!(decimal_string(65535), "65535");
}

#[test]
fn tuple_serialization_omits_default_port() {
    assert_eq!(serialize_tuple("https", "example.com", 443), "https://example.com");
    assert_eq!(serialize_tuple("https", "example.com", 80), "https://example.com:80");
    assert_eq!(serialize_tuple("foo", "h", 1), "foo://h:1");
}

#[test]
fn parse_reads_components() {
    let u = url("HTTP://Example.COM:8080/a/b?q#f");
    assert_eq!(u.scheme(), "http");
    assert_eq!(u.path(), "/a/b");
    assert_eq!(u.port_or_known_default(), Some(8080));
    match u.host() {
        Some(Host::Domain(d)) => assert_eq!(d, "example.com"),
        other => panic!("unexpected host {:?}", other),
    }
    assert_eq!(u.as_str(), "http://example.com:8080/a/b?q#f");
    let d = url("https://example.com");
    assert_eq!(d.port_or_known_default(), Some(443));
    assert!(ServoUrl::parse("not a url").is_none());
    assert!(ServoUrl::parse("http://").is_none());
}

#[test]
fn parse_reads_ip_hosts() {
    match url("http://127.0.0.1/").host() {
        Some(Host::Ipv4(a)) => assert_eq!(*a, 0x7f00_0001),
        other => panic!("unexpected host {:?}", other),
    }
    match url("http://[::1]/").host() {
        Some(Host::Ipv6(a)) => assert_eq!(*a, 1),
        other => panic!("unexpected host {:?}", other),
    }
}

#[test]
fn http_url_has_tuple_origin() {
    let o = url_origin(&url("http://example.com/index.html"), 1);
    assert!(o.is_tuple());
    assert_eq!(o.ascii_serialization(), "http://example.com");
    let o = url_origin(&url("http://example.com:8000/"), 1);
    assert_eq!(o.ascii_serialization(), "http://example.com:8000");
    let o = url_origin(&url("wss://example.com:443/"), 1);
    assert_eq!(o.ascii_serialization(), "wss://example.com");
    let o = url_origin(&url("gopher://example.com/"), 1);
    assert_eq!(o.ascii_serialization(), "gopher://example.com");
}

#[test]
fn ip_hosts_serialize_as_url_displays_them() {
    let o = url_origin(&url("http://127.0.0.1:8000/"), 1);
    assert_eq!(o.ascii_serialization(), "http://127.0.0.1:8000");
    let o = url_origin(&url("https://[2001:db8::1]/"), 1);
    assert_eq!(o.ascii_serialization(), "https://[2001:db8::1]");
    assert_eq!(o.unicode_serialization(), "https://[2001:db8::1]");
}

#[test]
fn blob_url_has_origin_of_inner_url() {
    let o = url_origin(&url("blob:https://example.com:8443/uuid"), 1);
    assert!(o.is_tuple());
    assert_eq!(o.ascii_serialization(), "https://example.com:8443");
    let o = url_origin(&url("blob:blob:http://example.com/x"), 1);
    assert_eq!(o.ascii_serialization(), "http://example.com");
}

#[test]
fn blob_url_with_bad_inner_url_is_opaque() {
    let o = url_origin(&url("blob:not%20a%20url"), 1);
    assert!(!o.is_tuple());
    assert_eq!(o.ascii_serialization(), "null");
}

#[test]
fn other_schemes_are_opaque() {
    for s in ["file:///tmp/foo", "data:text/plain,hi", "about:blank", "foo://bar/"] {
        let o = url_origin(&url(s), 1);
        assert!(!o.is_tuple(), "{}", s);
        assert_eq!(o.ascii_serialization(), "null");
        assert_eq!(o.unicode_serialization(), "null");
    }
}

#[test]
fn unicode_serialization_decodes_punycode() {
    let o = url_origin(&url("http://xn--9ca.com/"), 1);
    assert_eq!(o.ascii_serialization(), "http://xn--9ca.com");
    assert_eq!(o.unicode_serialization(), "http://é.com");
    let o = url_origin(&url("https://example.com:444/"), 1);
    assert_eq!(o.unicode_serialization(), "https://example.com:444");
}

#[test]
fn opaque_origins_differ() {
    let a = Origin::new_opaque(0x1234);
    let b = Origin::new_opaque(0x1235);
    assert!(!a.is_tuple());
    assert!(a.same_as(&a));
    assert!(!a.same_as(&b));
    assert_eq!(a.ascii_serialization(), "null");
}

#[test]
fn origins_compare_by_value() {
    let a = url_origin(&url("http://example.com/a"), 1);
    let b = url_origin(&url("http://example.com:80/b"), 1);
    let c = url_origin(&url("http://example.com:81/"), 1);
    let d = url_origin(&url("https://example.com/"), 1);
    assert!(a.same_as(&b));
    assert!(!a.same_as(&c));
    assert!(!a.same_as(&d));
    assert!(!a.same_as(&Origin::new_opaque(7)));
}

#[test]
fn servo_origin_of_url() {
    let u = url("https://example.com/page");
    let o = ServoOrigin::new(&u, 2);
    assert!(o.is_scheme_host_port_tuple());
    match o.host() {
        Some(Host::Domain(d)) => assert_eq!(d, "example.com"),
        other => panic!("unexpected host {:?}", other),
    }
    let same = ServoOrigin::new(&url("https://example.com:443/other"), 2);
    assert!(o.same_origin(&same));
    let other = ServoOrigin::new(&url("http://example.com/page"), 2);
    assert!(!o.same_origin(&other));
}

#[test]
fn servo_origin_opaque_identifier() {
    let o = ServoOrigin::opaque_identifier(42);
    assert!(!o.is_scheme_host_port_tuple());
    assert!(o.host().is_none());
    assert!(o.same_origin(&o));
    assert!(!o.same_origin(&ServoOrigin::opaque_identifier(43)));
    assert!(o.same_origin(&ServoOrigin::opaque_identifier(42)));
}

#[test]
fn copy_and_alias_are_same_origin() {
    let o = ServoOrigin::opaque_identifier(5);
    assert!(o.same_origin(&o.copy()));
    assert!(o.same_origin(&o.alias()));
    let t = ServoOrigin::new(&url("ws://example.com:9000/"), 2);
    assert!(t.same_origin(&t.copy()));
    assert!(t.same_origin(&t.alias()));
}

#[test]
fn url_origin_method_agrees() {
    let u = url("ftp://example.com/file");
    assert_eq!(u.origin(3).ascii_serialization(), "ftp://example.com");
}

#[test]
fn derived_equality_agrees_with_same_as() {
    let a = url_origin(&url("http://example.com/a"), 1);
    let b = url_origin(&url("http://example.com/b"), 1);
    assert_eq!(a, b);
    assert!(a.same_as(&b));
    let o = ServoOrigin::new(&url("http://example.com/"), 2);
    assert_eq!(o.clone(), o.alias());
}

#[test]
fn opaque_identifier_is_a_version_4_uuid() {
    // The version nibble and the variant bits are set from the drawn bits:
    // all-zero bits give the same identifier as bits that already carry
    // version 4 and the RFC 4122 variant.
    let marked: u128 = 0x0000_0000_0000_4000_8000_0000_0000_0000;
    assert!(Origin::new_opaque(0).same_as(&Origin::new_opaque(marked)));
    assert!(Origin::new_opaque(0xF << 76).same_as(&Origin::new_opaque(0)));
    assert!(!Origin::new_opaque(0).same_as(&Origin::new_opaque(1)));
}

#[test]
fn opaque_url_origin_uses_drawn_bits() {
    let u = url("file:///tmp/x");
    assert!(url_origin(&u, 9).same_as(&Origin::new_opaque(9)));
    assert!(!url_origin(&u, 9).same_as(&url_origin(&u, 10)));
}

#[test]
fn plain_ascii_domain_serializes_the_same_both_ways() {
    let o = url_origin(&url("http://a-1.example.org:8080/"), 1);
    assert_eq!(o.ascii_serialization(), "http://a-1.example.org:8080");
    assert_eq!(o.unicode_serialization(), o.ascii_serialization());
}
