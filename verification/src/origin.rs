//! Origins of URLs: opaque identifiers and (scheme, host, port) tuples.

use std::sync::Arc;

use vstd::prelude::*;

use crate::servo_url::{
    decimal, digit_char, domain_to_unicode, host_text, host_to_string, plain_ascii_domain,
    unicode_domain, url_parse, url_view_wf, Host, HostView, ServoUrl, UrlView,
};

verus! {

/// Whether two strings hold the same characters.
pub fn str_eq(a: &str, b: &str) -> (r: bool)
    ensures
        r == (a@ == b@),
{
    let x = String::from_str(a);
    let y = String::from_str(b);
    x == y
}

/// The default port of the schemes whose default port is known.
pub open spec fn spec_default_port(scheme: Seq<char>) -> Option<u16> {
    if scheme == "http"@ || scheme == "ws"@ {
        Some(80u16)
    } else if scheme == "https"@ || scheme == "wss"@ {
        Some(443u16)
    } else if scheme == "ftp"@ {
        Some(21u16)
    } else if scheme == "gopher"@ {
        Some(70u16)
    } else {
        None
    }
}

/// The default port of `scheme`, where it is known.
pub fn default_port(scheme: &str) -> (r: Option<u16>)
    ensures
        r == spec_default_port(scheme@),
{
    if str_eq(scheme, "http") || str_eq(scheme, "ws") {
        Some(80)
    } else if str_eq(scheme, "https") || str_eq(scheme, "wss") {
        Some(443)
    } else if str_eq(scheme, "ftp") {
        Some(21)
    } else if str_eq(scheme, "gopher") {
        Some(70)
    } else {
        None
    }
}

/// The schemes whose URLs have a (scheme, host, port) tuple origin:
/// `ftp`, `gopher`, `http`, `https`, `ws` and `wss`.
pub open spec fn is_tuple_scheme(scheme: Seq<char>) -> bool {
    spec_default_port(scheme) is Some
}

/// Opaque identifier for URLs that have file or other schemes: the 128
/// bits of a random UUID.
#[derive(PartialEq, Eq, Structural, Clone, Copy, Debug)]
pub struct OpaqueOrigin(u128);

impl View for OpaqueOrigin {
    type V = u128;

    closed spec fn view(&self) -> u128 {
        self.0
    }
}

/// The origin of an URL
#[derive(Debug, PartialEq, Eq)]
pub enum Origin {
    /// A globally unique identifier
    Opaque(OpaqueOrigin),
    /// Consists of the URL's scheme, host and port
    Tuple(String, Host, u16),
}

/// The mathematical value of an [`Origin`].
pub enum OriginView {
    Opaque(u128),
    Tuple(Seq<char>, HostView, u16),
}

impl View for Origin {
    type V = OriginView;

    open spec fn view(&self) -> OriginView {
        match self {
            Origin::Opaque(o) => OriginView::Opaque(o@),
            Origin::Tuple(s, h, p) => OriginView::Tuple(s@, h@, *p),
        }
    }
}

impl Clone for Origin {
    fn clone(&self) -> (r: Self)
        ensures
            r == *self,
    {
        match self {
            Origin::Opaque(o) => Origin::Opaque(*o),
            Origin::Tuple(s, h, p) => Origin::Tuple(s.clone(), h.clone(), *p),
        }
    }
}

/// The version number of a UUID held as a big-endian `u128`.
pub open spec fn uuid_version(id: u128) -> u128 {
    (id >> 76u128) & 0xfu128
}

/// The two variant bits of a UUID held as a big-endian `u128`
/// (`0b10` for RFC 4122).
pub open spec fn uuid_variant_bits(id: u128) -> u128 {
    (id >> 62u128) & 0x3u128
}

/// The version-4 (random) RFC 4122 UUID made of `bits`: the version
/// nibble set to 4 and the two variant bits to `0b10`, the 122 other bits
/// kept.
pub open spec fn v4_uuid(bits: u128) -> u128 {
    (bits & 0xFFFF_FFFF_FFFF_0FFF_3FFF_FFFF_FFFF_FFFFu128) | 0x0000_0000_0000_4000_8000_0000_0000_0000u128
}

/// Builds a random-version UUID from 128 drawn bits with `uuid::Builder`
/// (`from_u128`, `set_variant(RFC4122)`, `set_version(Random)`, `build`)
/// and returns its 128 bits (`Uuid::as_u128`, big-endian).
///
/// Claims: the result is `v4_uuid(bits)`, as the builder's source shows
/// (`set_version` rewrites the high nibble of byte 6, `set_variant` the two
/// high bits of byte 8).
#[verifier::external_body]
fn uuid_v4_from_bits(bits: u128) -> (r: u128)
    ensures
        r == v4_uuid(bits),
{
    uuid::Builder::from_u128(bits).set_variant(uuid::Variant::RFC4122).set_version(
        uuid::Version::Random,
    ).build().as_u128()
}

/// A UUID made by `v4_uuid` has version 4 and the RFC 4122 variant; it
/// keeps every other bit of the drawn bits.
pub proof fn lemma_v4_uuid_shape(bits: u128)
    ensures
        uuid_version(v4_uuid(bits)) == 4,
        uuid_variant_bits(v4_uuid(bits)) == 2,
        v4_uuid(bits) & 0xFFFF_FFFF_FFFF_0FFF_3FFF_FFFF_FFFF_FFFFu128 == bits
            & 0xFFFF_FFFF_FFFF_0FFF_3FFF_FFFF_FFFF_FFFFu128,
{
    assert(((bits & 0xFFFF_FFFF_FFFF_0FFF_3FFF_FFFF_FFFF_FFFFu128) | 0x0000_0000_0000_4000_8000_0000_0000_0000u128)
        >> 76u128 & 0xfu128 == 4) by (bit_vector);
    assert(((bits & 0xFFFF_FFFF_FFFF_0FFF_3FFF_FFFF_FFFF_FFFFu128) | 0x0000_0000_0000_4000_8000_0000_0000_0000u128)
        >> 62u128 & 0x3u128 == 2) by (bit_vector);
    assert(((bits & 0xFFFF_FFFF_FFFF_0FFF_3FFF_FFFF_FFFF_FFFFu128) | 0x0000_0000_0000_4000_8000_0000_0000_0000u128)
        & 0xFFFF_FFFF_FFFF_0FFF_3FFF_FFFF_FFFF_FFFFu128 == bits & 0xFFFF_FFFF_FFFF_0FFF_3FFF_FFFF_FFFF_FFFFu128)
        by (bit_vector);
}

/// The text `:` and the port, unless the port is the scheme's default.
pub open spec fn port_suffix(scheme: Seq<char>, port: u16) -> Seq<char> {
    if spec_default_port(scheme) == Some(port) {
        Seq::empty()
    } else {
        ":"@ + decimal(port as nat)
    }
}

/// The serialization of a tuple origin whose host is written as `host`.
pub open spec fn tuple_text(scheme: Seq<char>, host: Seq<char>, port: u16) -> Seq<char> {
    scheme + "://"@ + host + port_suffix(scheme, port)
}

/// The ASCII serialization of an origin.
pub open spec fn ascii_text(o: OriginView) -> Seq<char> {
    match o {
        OriginView::Opaque(_) => "null"@,
        OriginView::Tuple(s, h, p) => tuple_text(s, host_text(h), p),
    }
}

/// The Unicode serialization of an origin: a domain is mapped to Unicode.
pub open spec fn unicode_text(o: OriginView) -> Seq<char> {
    match o {
        OriginView::Opaque(_) => "null"@,
        OriginView::Tuple(s, h, p) => match h {
            HostView::Domain(d) => tuple_text(s, unicode_domain(d), p),
            _ => tuple_text(s, host_text(h), p),
        },
    }
}

/// The text of one decimal digit.
fn digit_str(d: u16) -> (r: &'static str)
    requires
        d < 10,
    ensures
        r@ == seq![digit_char(d as nat)],
{
    proof {
        reveal_strlit("0");
        reveal_strlit("1");
        reveal_strlit("2");
        reveal_strlit("3");
        reveal_strlit("4");
        reveal_strlit("5");
        reveal_strlit("6");
        reveal_strlit("7");
        reveal_strlit("8");
        reveal_strlit("9");
    }
    if d == 0 {
        "0"
    } else if d == 1 {
        "1"
    } else if d == 2 {
        "2"
    } else if d == 3 {
        "3"
    } else if d == 4 {
        "4"
    } else if d == 5 {
        "5"
    } else if d == 6 {
        "6"
    } else if d == 7 {
        "7"
    } else if d == 8 {
        "8"
    } else {
        "9"
    }
}

/// The decimal text of `n`.
pub fn decimal_string(n: u16) -> (r: String)
    ensures
        r@ == decimal(n as nat),
    decreases n,
{
    if n < 10 {
        String::from_str(digit_str(n))
    } else {
        let mut s = decimal_string(n / 10);
        s.append(digit_str(n % 10));
        s
    }
}

/// The serialization of a (scheme, host, port) origin, with the host given
/// as text: `scheme://host`, followed by `:port` unless the port is the
/// scheme's default port.
pub fn serialize_tuple(scheme: &str, host: &str, port: u16) -> (r: String)
    ensures
        r@ == tuple_text(scheme@, host@, port),
        spec_default_port(scheme@) == Some(port) ==> r@ == scheme@ + "://"@ + host@,
        spec_default_port(scheme@) != Some(port) ==> r@ == scheme@ + "://"@ + host@ + ":"@ + decimal(
            port as nat,
        ),
{
    proof {
        reveal_strlit("://");
        reveal_strlit(":");
    }
    let mut s = String::from_str(scheme);
    s.append("://");
    s.append(host);
    if default_port(scheme) != Some(port) {
        s.append(":");
        let p = decimal_string(port);
        s.append(p.as_str());
    }
    assert(s@ =~= tuple_text(scheme@, host@, port));
    s
}

impl Origin {
    /// Creates a new opaque origin that is only equal to itself: its
    /// identifier is the version-4 UUID made of `random_bits`, 128 bits
    /// drawn at random by the caller.
    pub fn new_opaque(random_bits: u128) -> (r: Origin)
        ensures
            r@ == OriginView::Opaque(v4_uuid(random_bits)),
    {
        Origin::Opaque(OpaqueOrigin(uuid_v4_from_bits(random_bits)))
    }

    /// Return whether this origin is a (scheme, host, port) tuple
    /// (as opposed to an opaque origin).
    pub fn is_tuple(&self) -> (r: bool)
        ensures
            r == (self@ is Tuple),
    {
        match self {
            Origin::Opaque(..) => false,
            Origin::Tuple(..) => true,
        }
    }

    /// The ASCII serialization of this origin.
    pub fn ascii_serialization(&self) -> (r: String)
        ensures
            r@ == ascii_text(self@),
            self@ is Opaque ==> r@ == "null"@,
            self@ matches OriginView::Tuple(s, h, p) ==> r@ == s + "://"@ + host_text(h) + (if spec_default_port(
                s,
            ) == Some(p) {
                Seq::<char>::empty()
            } else {
                ":"@ + decimal(p as nat)
            }),
    {
        match self {
            Origin::Opaque(_) => {
                proof {
                    reveal_strlit("null");
                }
                String::from_str("null")
            },
            Origin::Tuple(scheme, host, port) => {
                let h = host_to_string(host);
                serialize_tuple(scheme.as_str(), h.as_str(), *port)
            },
        }
    }

    /// The Unicode serialization of this origin.
    pub fn unicode_serialization(&self) -> (r: String)
        ensures
            r@ == unicode_text(self@),
            (self@ matches OriginView::Tuple(_, HostView::Domain(d), _) && plain_ascii_domain(d)) ==> r@
                == ascii_text(self@),
            self@ is Opaque ==> r@ == "null"@,
            self@ matches OriginView::Tuple(s, HostView::Domain(d), p) ==> r@ == s + "://"@ + unicode_domain(d)
                + (if spec_default_port(s) == Some(p) {
                Seq::<char>::empty()
            } else {
                ":"@ + decimal(p as nat)
            }),
            self@ matches OriginView::Tuple(s, h, p) ==> (!(h is Domain) ==> r@ == s + "://"@ + host_text(h) + (
            if spec_default_port(s) == Some(p) {
                Seq::<char>::empty()
            } else {
                ":"@ + decimal(p as nat)
            })),
    {
        match self {
            Origin::Opaque(_) => {
                proof {
                    reveal_strlit("null");
                }
                String::from_str("null")
            },
            Origin::Tuple(scheme, host, port) => {
                let h = match host {
                    Host::Domain(domain) => domain_to_unicode(domain.as_str()),
                    _ => host_to_string(host),
                };
                serialize_tuple(scheme.as_str(), h.as_str(), *port)
            },
        }
    }

    /// Whether two origins are equal.
    pub fn same_as(&self, other: &Origin) -> (r: bool)
        ensures
            r == (self@ == other@),
    {
        match (self, other) {
            (Origin::Opaque(a), Origin::Opaque(b)) => a.0 == b.0,
            (Origin::Tuple(s1, h1, p1), Origin::Tuple(s2, h2, p2)) => {
                *p1 == *p2 && s1.eq(s2) && h1.same_host(h2)
            },
            _ => false,
        }
    }
}

/// The (scheme, host, port) origin of a URL, unwrapping at most `fuel`
/// levels of `blob:` URLs; `None` for an opaque origin, and where the
/// levels run out.
pub open spec fn tuple_origin_within(u: UrlView, fuel: nat) -> Option<(Seq<char>, HostView, u16)>
    decreases fuel,
{
    if fuel == 0 {
        None
    } else if u.scheme == "blob"@ {
        match url_parse(u.path) {
            Some(inner) => tuple_origin_within(inner, (fuel - 1) as nat),
            None => None,
        }
    } else if is_tuple_scheme(u.scheme) {
        Some((u.scheme, u.host.unwrap(), u.port.unwrap()))
    } else {
        None
    }
}

/// The tuple origin of a URL, if it has one: a `blob:` URL has the origin
/// of the URL in its path, an `ftp`, `gopher`, `http`, `https`, `ws` or
/// `wss` URL its scheme, host and port. (Chains of `blob:` URLs deeper than
/// `u64::MAX` levels count as opaque.)
pub open spec fn spec_tuple_origin(u: UrlView) -> Option<(Seq<char>, HostView, u16)> {
    tuple_origin_within(u, u64::MAX as nat)
}

/// The origin of a URL whose tuple origin is `t`, where an opaque origin
/// gets the identifier made of `random_bits`.
pub open spec fn origin_from(t: Option<(Seq<char>, HostView, u16)>, random_bits: u128) -> OriginView {
    match t {
        Some((s, h, p)) => OriginView::Tuple(s, h, p),
        None => OriginView::Opaque(v4_uuid(random_bits)),
    }
}

/// The origin of `url`, unwrapping at most `fuel` levels of `blob:` URLs.
fn origin_within(url: &ServoUrl, fuel: u64, random_bits: u128) -> (r: Origin)
    ensures
        r@ == origin_from(tuple_origin_within(url@, fuel as nat), random_bits),
    decreases fuel,
{
    proof {
        use_type_invariant(url);
    }
    if fuel == 0 {
        return Origin::new_opaque(random_bits);
    }
    let scheme = url.scheme();
    if str_eq(scheme, "blob") {
        match ServoUrl::parse(url.path()) {
            Some(inner) => origin_within(&inner, fuel - 1, random_bits),
            None => Origin::new_opaque(random_bits),
        }
    } else if default_port(scheme).is_some() {
        let host = url.host().unwrap().clone();
        let port: u16 = url.port_or_known_default().unwrap();
        Origin::Tuple(String::from_str(scheme), host, port)
    } else {
        Origin::new_opaque(random_bits)
    }
}

/// The origin of an URL: for a `blob:` URL the origin of the URL in its
/// path (opaque where that does not parse); for `ftp`, `gopher`, `http`,
/// `https`, `ws` and `wss` its (scheme, host, port); else a new opaque
/// origin, made of `random_bits` (128 bits drawn at random by the caller).
pub fn url_origin(url: &ServoUrl, random_bits: u128) -> (r: Origin)
    ensures
        r@ == origin_from(spec_tuple_origin(url@), random_bits),
        is_special_scheme(url@.scheme) ==> r@ == OriginView::Tuple(
            url@.scheme,
            url@.host.unwrap(),
            url@.port.unwrap(),
        ),
        !is_special_scheme(url@.scheme) && url@.scheme != "blob"@ ==> r@ == OriginView::Opaque(
            v4_uuid(random_bits),
        ),
{
    proof {
        use_type_invariant(url);
        lemma_special_schemes_have_tuple_origin(url@);
        lemma_default_ports();
    }
    origin_within(url, u64::MAX, random_bits)
}

impl ServoUrl {
    /// The origin of this URL; an opaque one is made of `random_bits`.
    pub fn origin(&self, random_bits: u128) -> (r: Origin)
        ensures
            r@ == origin_from(spec_tuple_origin(self@), random_bits),
    {
        url_origin(self, random_bits)
    }
}

/// Clones the `Arc`, sharing the value it points to.
///
/// Claims: the clone points to the same value (std's `Arc::clone`).
#[verifier::external_body]
fn arc_clone<T>(a: &Arc<T>) -> (r: Arc<T>)
    ensures
        r == *a,
{
    Arc::clone(a)
}

/// A representation of an origin, shared behind an `Arc`.
#[derive(Debug, PartialEq, Eq)]
pub struct ServoOrigin(Arc<Origin>);

impl Clone for ServoOrigin {
    /// A new handle on the same shared origin.
    fn clone(&self) -> (r: Self)
        ensures
            r@ == self@,
    {
        ServoOrigin(arc_clone(&self.0))
    }
}

impl View for ServoOrigin {
    type V = OriginView;

    closed spec fn view(&self) -> OriginView {
        (*self.0)@
    }
}

impl ServoOrigin {
    /// Create a new origin comprising a unique, opaque identifier, made of
    /// `random_bits` (128 bits drawn at random by the caller).
    pub fn opaque_identifier(random_bits: u128) -> (r: ServoOrigin)
        ensures
            r@ == OriginView::Opaque(v4_uuid(random_bits)),
    {
        ServoOrigin(Arc::new(Origin::new_opaque(random_bits)))
    }

    /// Create a new origin for the given URL; an opaque one is made of
    /// `random_bits`.
    pub fn new(url: &ServoUrl, random_bits: u128) -> (r: ServoOrigin)
        ensures
            r@ == origin_from(spec_tuple_origin(url@), random_bits),
    {
        ServoOrigin(Arc::new(url.origin(random_bits)))
    }

    /// Does this origin represent a host/scheme/port tuple?
    pub fn is_scheme_host_port_tuple(&self) -> (r: bool)
        ensures
            r == (self@ is Tuple),
    {
        self.0.is_tuple()
    }

    /// Return the host associated with this origin.
    pub fn host(&self) -> (r: Option<&Host>)
        ensures
            match self@ {
                OriginView::Tuple(_, h, _) => r matches Some(x) && x@ == h,
                OriginView::Opaque(_) => r is None,
            },
    {
        match &*self.0 {
            Origin::Tuple(_, host, _) => Some(host),
            Origin::Opaque(..) => None,
        }
    }

    /// Whether the two origins are the same origin.
    pub fn same_origin(&self, other: &ServoOrigin) -> (r: bool)
        ensures
            r == (self@ == other@),
    {
        self.0.same_as(&other.0)
    }

    /// A new origin, equal to this one, that shares nothing with it.
    pub fn copy(&self) -> (r: ServoOrigin)
        ensures
            r@ == self@,
    {
        ServoOrigin(Arc::new((*self.0).clone()))
    }

    /// A new handle on this same origin.
    pub fn alias(&self) -> (r: ServoOrigin)
        ensures
            r@ == self@,
    {
        ServoOrigin(arc_clone(&self.0))
    }
}

/// Once an origin is found within some levels of `blob:` unwrapping, more
/// levels find the same origin.
pub proof fn lemma_origin_levels_monotone(u: UrlView, n: nat, m: nat)
    requires
        n <= m,
        tuple_origin_within(u, n) is Some,
    ensures
        tuple_origin_within(u, m) == tuple_origin_within(u, n),
    decreases n,
{
    if u.scheme == "blob"@ {
        match url_parse(u.path) {
            Some(inner) => lemma_origin_levels_monotone(inner, (n - 1) as nat, (m - 1) as nat),
            None => {},
        }
    }
}

/// A `blob:` URL whose path parses as a URL has the origin of that URL.
pub proof fn lemma_blob_has_inner_origin(u: UrlView, inner: UrlView)
    requires
        u.scheme == "blob"@,
        url_parse(u.path) == Some(inner),
    ensures
        spec_tuple_origin(u) is Some ==> spec_tuple_origin(u) == spec_tuple_origin(inner),
        spec_tuple_origin(inner) is None ==> spec_tuple_origin(u) is None,
{
    assert(spec_tuple_origin(u) == tuple_origin_within(inner, (u64::MAX - 1) as nat));
    if tuple_origin_within(inner, (u64::MAX - 1) as nat) is Some {
        lemma_origin_levels_monotone(inner, (u64::MAX - 1) as nat, u64::MAX as nat);
    }
}

/// The two serializations of an origin differ only where its host is a
/// domain.
pub proof fn lemma_serializations_agree_without_domain(o: OriginView)
    requires
        !(o matches OriginView::Tuple(_, HostView::Domain(_), _)),
    ensures
        unicode_text(o) == ascii_text(o),
{
}

/// Two opaque origins are the same origin exactly when their drawn bits
/// agree outside the six bits that mark a version-4 UUID; in particular,
/// bits that differ there give origins that differ.
pub proof fn lemma_opaque_origins_differ(a: u128, b: u128)
    ensures
        (OriginView::Opaque(v4_uuid(a)) == OriginView::Opaque(v4_uuid(b))) == (a
            & 0xFFFF_FFFF_FFFF_0FFF_3FFF_FFFF_FFFF_FFFFu128 == b & 0xFFFF_FFFF_FFFF_0FFF_3FFF_FFFF_FFFF_FFFFu128),
{
    lemma_v4_uuid_shape(a);
    lemma_v4_uuid_shape(b);
    assert((a & 0xFFFF_FFFF_FFFF_0FFF_3FFF_FFFF_FFFF_FFFFu128 == b & 0xFFFF_FFFF_FFFF_0FFF_3FFF_FFFF_FFFF_FFFFu128)
        ==> ((a & 0xFFFF_FFFF_FFFF_0FFF_3FFF_FFFF_FFFF_FFFFu128) | 0x0000_0000_0000_4000_8000_0000_0000_0000u128)
        == ((b & 0xFFFF_FFFF_FFFF_0FFF_3FFF_FFFF_FFFF_FFFFu128) | 0x0000_0000_0000_4000_8000_0000_0000_0000u128))
        by (bit_vector);
}

/// The schemes `ftp`, `gopher`, `http`, `https`, `ws` and `wss`.
pub open spec fn is_special_scheme(s: Seq<char>) -> bool {
    s == "ftp"@ || s == "gopher"@ || s == "http"@ || s == "https"@ || s == "ws"@ || s == "wss"@
}

/// The known default ports: 80 for `http` and `ws`, 443 for `https` and
/// `wss`, 21 for `ftp`, 70 for `gopher`; none for any other scheme (such
/// as `blob` or `file`).
pub proof fn lemma_default_ports()
    ensures
        spec_default_port("http"@) == Some(80u16),
        spec_default_port("ws"@) == Some(80u16),
        spec_default_port("https"@) == Some(443u16),
        spec_default_port("wss"@) == Some(443u16),
        spec_default_port("ftp"@) == Some(21u16),
        spec_default_port("gopher"@) == Some(70u16),
        forall|s: Seq<char>| #[trigger] spec_default_port(s) is Some <==> is_special_scheme(s),
        !is_special_scheme("blob"@),
        !is_special_scheme("file"@),
{
    reveal_strlit("http");
    reveal_strlit("ws");
    reveal_strlit("https");
    reveal_strlit("wss");
    reveal_strlit("ftp");
    reveal_strlit("gopher");
    reveal_strlit("blob");
    reveal_strlit("file");
    assert("http"@.len() == 4 && "ws"@.len() == 2 && "https"@.len() == 5 && "wss"@.len() == 3);
    assert("ftp"@.len() == 3 && "gopher"@.len() == 6 && "blob"@.len() == 4 && "file"@.len() == 4);
    assert("http"@ != "blob"@ && "http"@ != "file"@) by {
        assert("http"@[0] != "blob"@[0] && "http"@[0] != "file"@[0]);
    }
    assert("ftp"@ != "wss"@) by {
        assert("ftp"@[0] != "wss"@[0]);
    }
}

/// A URL of scheme `ftp`, `gopher`, `http`, `https`, `ws` or `wss` has the
/// tuple origin of its scheme, its host and its port (or the scheme's
/// default port).
pub proof fn lemma_special_schemes_have_tuple_origin(u: UrlView)
    requires
        url_view_wf(u),
    ensures
        is_special_scheme(u.scheme) ==> spec_tuple_origin(u) == Some((u.scheme, u.host.unwrap(), u.port.unwrap())),
        !is_special_scheme(u.scheme) && u.scheme != "blob"@ ==> spec_tuple_origin(u) is None,
{
    lemma_default_ports();
}

/// The serializations of a tuple origin: the scheme, `://`, the host
/// (for the Unicode one, a domain mapped to Unicode, whichever of its
/// labels holds punycode), then `:` and the port only where the port is
/// not the scheme's default.
pub proof fn lemma_tuple_serializations(s: Seq<char>, h: HostView, p: u16)
    ensures
        ascii_text(OriginView::Tuple(s, h, p)) == s + "://"@ + host_text(h) + (if spec_default_port(s) == Some(p) {
            Seq::<char>::empty()
        } else {
            ":"@ + decimal(p as nat)
        }),
        h matches HostView::Domain(d) ==> unicode_text(OriginView::Tuple(s, h, p)) == s + "://"@ + unicode_domain(d)
            + (if spec_default_port(s) == Some(p) {
            Seq::<char>::empty()
        } else {
            ":"@ + decimal(p as nat)
        }),
        !(h is Domain) ==> unicode_text(OriginView::Tuple(s, h, p)) == ascii_text(OriginView::Tuple(s, h, p)),
        h matches HostView::Domain(d) ==> host_text(h) == d,
        spec_default_port(s) == Some(p) ==> ascii_text(OriginView::Tuple(s, h, p)) == s + "://"@ + host_text(h),
        ascii_text(OriginView::Opaque(0)) == "null"@,
{
    assert(Seq::<char>::empty() + Seq::<char>::empty() =~= Seq::<char>::empty());
    assert(s + "://"@ + host_text(h) + Seq::<char>::empty() =~= s + "://"@ + host_text(h));
}

/// The value of a sequence of decimal digits, most significant first.
pub open spec fn digits_value(s: Seq<char>) -> nat
    decreases s.len(),
{
    if s.len() == 0 {
        0
    } else {
        digits_value(s.drop_last()) * 10 + (s.last() as nat - 48) as nat
    }
}

/// The decimal text of `n` is made of digits, has no leading zero unless
/// it is `0`, and reads back as `n`.
pub proof fn lemma_decimal_reads_back(n: nat)
    ensures
        decimal(n).len() > 0,
        forall|i: int| 0 <= i < decimal(n).len() ==> '0' <= #[trigger] decimal(n)[i] <= '9',
        decimal(n)[0] == '0' ==> n == 0,
        digits_value(decimal(n)) == n,
    decreases n,
{
    if n >= 10 {
        lemma_decimal_reads_back(n / 10);
        let x = decimal(n / 10);
        let c = digit_char(n % 10);
        assert(decimal(n) == x + seq![c]);
        assert((x + seq![c]).drop_last() =~= x);
        assert((x + seq![c])[0] == x[0]);
        assert(c as nat == 48 + n % 10);
        assert((n / 10) * 10 + n % 10 == n) by (nonlinear_arith);
        assert((x + seq![c]).last() == c);
        assert(digits_value(decimal(n)) == digits_value(x) * 10 + (c as nat - 48) as nat);
        assert forall|i: int| 0 <= i < decimal(n).len() implies '0' <= #[trigger] decimal(n)[i] <= '9' by {
            if i < x.len() {
                assert(decimal(n)[i] == x[i]);
            }
        }
    } else {
        assert(digit_char(n) as nat == 48 + n);
        assert(seq![digit_char(n)].drop_last() =~= Seq::<char>::empty());
        assert(digits_value(Seq::<char>::empty()) == 0);
        assert(digits_value(decimal(n)) == digits_value(Seq::<char>::empty()) * 10 + (digit_char(n) as nat - 48) as nat);
    }
}

} // verus!
