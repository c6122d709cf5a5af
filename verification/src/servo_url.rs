//! Parsed URLs and their hosts, as plain values taken from the `url` crate.

use vstd::prelude::*;

use crate::origin::spec_default_port;

verus! {

/// The host of a URL.
///
/// `Ipv4` holds the address as a big-endian `u32` (its first octet is the
/// most significant byte), `Ipv6` as a big-endian `u128`.
#[derive(Debug, PartialEq, Eq)]
pub enum Host {
    /// A domain name, as `.`-separated labels (punycode for special URLs).
    Domain(String),
    /// An IPv4 address.
    Ipv4(u32),
    /// An IPv6 address.
    Ipv6(u128),
}

/// The mathematical value of a [`Host`].
pub enum HostView {
    Domain(Seq<char>),
    Ipv4(u32),
    Ipv6(u128),
}

impl View for Host {
    type V = HostView;

    open spec fn view(&self) -> HostView {
        match self {
            Host::Domain(d) => HostView::Domain(d@),
            Host::Ipv4(a) => HostView::Ipv4(*a),
            Host::Ipv6(a) => HostView::Ipv6(*a),
        }
    }
}

impl Clone for Host {
    fn clone(&self) -> (r: Self)
        ensures
            r == *self,
    {
        match self {
            Host::Domain(d) => Host::Domain(d.clone()),
            Host::Ipv4(a) => Host::Ipv4(*a),
            Host::Ipv6(a) => Host::Ipv6(*a),
        }
    }
}

impl Host {
    /// Whether two hosts are the same host.
    pub fn same_host(&self, other: &Host) -> (r: bool)
        ensures
            r == (self@ == other@),
    {
        match (self, other) {
            (Host::Domain(a), Host::Domain(b)) => a.eq(b),
            (Host::Ipv4(a), Host::Ipv4(b)) => *a == *b,
            (Host::Ipv6(a), Host::Ipv6(b)) => *a == *b,
            _ => false,
        }
    }
}

/// The mathematical value of a [`ServoUrl`]: its serialization and the
/// components that the library reads.
pub struct UrlView {
    pub serialization: Seq<char>,
    pub scheme: Seq<char>,
    pub host: Option<HostView>,
    /// The port, or the scheme's default port where that is known.
    pub port: Option<u16>,
    pub path: Seq<char>,
}

/// What `url::Url::parse` makes of `input`: `None` where it refuses the
/// input, else the URL's serialization, scheme, host, port (or known
/// default port) and path.
pub uninterp spec fn url_parse(input: Seq<char>) -> Option<UrlView>;

/// A parsed absolute URL.
#[derive(Debug, PartialEq, Eq)]
pub struct ServoUrl {
    serialization: String,
    scheme: String,
    host: Option<Host>,
    port: Option<u16>,
    path: String,
}

impl View for ServoUrl {
    type V = UrlView;

    closed spec fn view(&self) -> UrlView {
        UrlView {
            serialization: self.serialization@,
            scheme: self.scheme@,
            host: match self.host {
                Some(h) => Some(h@),
                None => None,
            },
            port: self.port,
            path: self.path@,
        }
    }
}

/// Whether a URL view has what every URL of a scheme with a known default
/// port has: a host and a port.
pub open spec fn url_view_wf(u: UrlView) -> bool {
    spec_default_port(u.scheme) is Some ==> (u.host is Some && u.port is Some)
}

/// The view of an optional URL.
pub open spec fn opt_url_view(u: Option<ServoUrl>) -> Option<UrlView> {
    match u {
        Some(v) => Some(v@),
        None => None,
    }
}

/// Calls `url::Url::parse` on `input` and takes the plain components of
/// the URL it returns.
///
/// Claims: the result is the named value `url_parse(input@)`; and, as the
/// source of `url` 1.7 shows, a URL whose scheme is one of `http`, `https`,
/// `ws`, `wss`, `ftp`, `gopher` has a host (the parser refuses an empty
/// host for these schemes) and `port_or_known_default` is `Some` for them
/// (documented).
#[verifier::external_body]
fn parse_url(input: &str) -> (r: Option<ServoUrl>)
    ensures
        opt_url_view(r) == url_parse(input@),
        r matches Some(u) ==> url_view_wf(u@),
{
    match url::Url::parse(input) {
        Ok(u) => Some(ServoUrl {
            serialization: u.as_str().to_owned(),
            scheme: u.scheme().to_owned(),
            host: u.host().map(|h| match h {
                url::Host::Domain(d) => Host::Domain(d.to_owned()),
                url::Host::Ipv4(a) => Host::Ipv4(a.into()),
                url::Host::Ipv6(a) => Host::Ipv6(a.into()),
            }),
            port: u.port_or_known_default(),
            path: u.path().to_owned(),
        }),
        Err(_) => None,
    }
}

/// The character of the decimal digit `d`.
pub open spec fn digit_char(d: nat) -> char {
    (48 + d) as char
}

/// The decimal representation of `n`, without leading zeros.
pub open spec fn decimal(n: nat) -> Seq<char>
    decreases n,
{
    if n < 10 {
        seq![digit_char(n)]
    } else {
        decimal(n / 10) + seq![digit_char(n % 10)]
    }
}

/// An IPv4 address in dot-decimal notation.
pub open spec fn dotted_quad(a: u32) -> Seq<char> {
    decimal((a / 0x100_0000) as nat) + "."@ + decimal(((a / 0x1_0000) % 0x100) as nat) + "."@
        + decimal(((a / 0x100) % 0x100) as nat) + "."@ + decimal((a % 0x100) as nat)
}

/// What `url::Host`'s `Display` writes for an IPv6 address: RFC 5952 text
/// between `[` and `]`.
pub uninterp spec fn ipv6_host_text(a: u128) -> Seq<char>;

/// The text of a host, as `url::Host` displays it.
pub open spec fn host_text(h: HostView) -> Seq<char> {
    match h {
        HostView::Domain(d) => d,
        HostView::Ipv4(a) => dotted_quad(a),
        HostView::Ipv6(a) => ipv6_host_text(a),
    }
}

/// Formats the host with the `Display` impl of `url::Host`.
///
/// Claims: a domain is written as it is; an IPv4 address in dot-decimal
/// notation (std's `Ipv4Addr` display, to which `url` defers); an IPv6
/// address as the named value `ipv6_host_text`, whose RFC 5952 form is
/// left unstated.
#[verifier::external_body]
pub(crate) fn host_to_string(h: &Host) -> (r: String)
    ensures
        h@ is Ipv6 ==> r@ == ipv6_host_text(h@->Ipv6_0),
        r@ == host_text(h@),
{
    match h {
        Host::Domain(d) => url::Host::Domain(d.as_str()).to_string(),
        Host::Ipv4(a) => url::Host::<&str>::Ipv4((*a).into()).to_string(),
        Host::Ipv6(a) => url::Host::<&str>::Ipv6((*a).into()).to_string(),
    }
}

/// What `url::idna::domain_to_unicode` maps a domain to.
pub uninterp spec fn unicode_domain(domain: Seq<char>) -> Seq<char>;

/// Whether `d` is a plain ASCII domain: lower-case letters, digits, `-`
/// and `.` only, with no label that starts with the punycode prefix `xn--`.
pub open spec fn plain_ascii_domain(d: Seq<char>) -> bool {
    &&& forall|i: int|
        0 <= i < d.len() ==> ('a' <= #[trigger] d[i] <= 'z' || '0' <= d[i] <= '9' || d[i] == '-' || d[i]
            == '.')
    &&& forall|i: int|
        0 <= i && i + 4 <= d.len() && (i == 0 || d[i - 1] == '.') ==> !(#[trigger] d[i] == 'x' && d[i + 1]
            == 'n' && d[i + 2] == '-' && d[i + 3] == '-')
}

/// Calls `url::idna::domain_to_unicode` and keeps the mapped domain,
/// dropping the list of syntax violations that comes with it.
///
/// Claims: the result is the named value `unicode_domain(domain@)`; and, as
/// the source of `idna` 0.1 shows, a plain ASCII domain is returned as it
/// is (its characters are valid in the UTS 46 mapping table, so mapping
/// and NFC leave them unchanged, and only labels that start with `xn--`
/// are decoded).
#[verifier::external_body]
pub(crate) fn domain_to_unicode(domain: &str) -> (r: String)
    ensures
        r@ == unicode_domain(domain@),
        plain_ascii_domain(domain@) ==> r@ == domain@,
{
    url::idna::domain_to_unicode(domain).0
}

impl ServoUrl {
    /// Every URL whose scheme has a known default port has a host and a port.
    #[verifier::type_invariant]
    pub open spec fn wf(self) -> bool {
        url_view_wf(self@)
    }

    /// Parses an absolute URL; `None` where the `url` crate refuses `input`.
    pub fn parse(input: &str) -> (r: Option<ServoUrl>)
        ensures
            opt_url_view(r) == url_parse(input@),
    {
        parse_url(input)
    }

    /// The URL's scheme, lower-cased, without the `:`.
    pub fn scheme(&self) -> (r: &str)
        ensures
            r@ == self@.scheme,
    {
        self.scheme.as_str()
    }

    /// The URL's path.
    pub fn path(&self) -> (r: &str)
        ensures
            r@ == self@.path,
    {
        self.path.as_str()
    }

    /// The serialization of the URL.
    pub fn as_str(&self) -> (r: &str)
        ensures
            r@ == self@.serialization,
    {
        self.serialization.as_str()
    }

    /// The URL's host, if it has one.
    pub fn host(&self) -> (r: Option<&Host>)
        ensures
            match r {
                Some(h) => self@.host == Some(h@),
                None => self@.host is None,
            },
    {
        match &self.host {
            Some(h) => Some(h),
            None => None,
        }
    }

    /// The URL's port, or its scheme's default port where that is known.
    pub fn port_or_known_default(&self) -> (r: Option<u16>)
        ensures
            r == self@.port,
    {
        self.port
    }
}

impl Clone for ServoUrl {
    fn clone(&self) -> (r: Self)
        ensures
            r == *self,
    {
        proof {
            use_type_invariant(self);
        }
        let host = match &self.host {
            Some(h) => Some(h.clone()),
            None => None,
        };
        ServoUrl {
            serialization: self.serialization.clone(),
            scheme: self.scheme.clone(),
            host,
            port: self.port,
            path: self.path.clone(),
        }
    }
}

} // verus!
