//! Addresses of web servers.
//!
//! A [`Url`] holds, as plain values, what the shell reads of a parsed address.
//! Parsing itself is the `url` crate's.
use vstd::prelude::*;

use crate::text;

verus! {

/// What kind of host a URL names.
#[derive(Debug, Clone, Copy, PartialEq, Eq)]
pub enum HostKind {
    /// A domain name.
    Domain,
    /// An IPv4 address, by its octets.
    Ipv4([u8; 4]),
    /// An IPv6 address, by its segments.
    Ipv6([u16; 8]),
}

/// The host of a URL: its text in the URL, and what it is.
#[derive(Debug, PartialEq, Eq)]
pub struct UrlHost {
    pub text: String,
    pub kind: HostKind,
}

/// A parsed URL.
#[derive(Debug, PartialEq, Eq)]
pub struct Url {
    /// The whole URL in its normal form.
    pub text: String,
    /// The scheme, in lower case and without the colon.
    pub scheme: String,
    /// The host, if the URL has one.
    pub host: Option<UrlHost>,
    /// The port, or the one that the scheme stands for.
    pub port: Option<u16>,
    /// The path.
    pub path: String,
    /// The query, without the question mark.
    pub query: Option<String>,
}

/// `UrlHost` as a mathematical value.
pub struct HostView {
    pub text: Seq<char>,
    pub kind: HostKind,
}

/// `Url` as a mathematical value.
pub struct UrlView {
    pub text: Seq<char>,
    pub scheme: Seq<char>,
    pub host: Option<HostView>,
    pub port: Option<u16>,
    pub path: Seq<char>,
    pub query: Option<Seq<char>>,
}

impl View for UrlHost {
    type V = HostView;

    open spec fn view(&self) -> HostView {
        HostView { text: self.text@, kind: self.kind }
    }
}

impl View for Url {
    type V = UrlView;

    open spec fn view(&self) -> UrlView {
        UrlView {
            text: self.text@,
            scheme: self.scheme@,
            host: match self.host {
                Some(host) => Some(host@),
                None => None,
            },
            port: self.port,
            path: self.path@,
            query: text::text_view(self.query),
        }
    }
}

impl Clone for UrlHost {
    fn clone(&self) -> (r: Self)
        ensures
            r@ == self@,
    {
        UrlHost { text: self.text.clone(), kind: self.kind }
    }
}

impl Clone for Url {
    fn clone(&self) -> (r: Self)
        ensures
            r@ == self@,
    {
        Url {
            text: self.text.clone(),
            scheme: self.scheme.clone(),
            host: match &self.host {
                Some(host) => Some(host.clone()),
                None => None,
            },
            port: self.port,
            path: self.path.clone(),
            query: match &self.query {
                Some(query) => Some(query.clone()),
                None => None,
            },
        }
    }
}

/// The view of the outcome of parsing a URL.
pub open spec fn parse_view(r: Result<Url, String>) -> Result<UrlView, Seq<char>> {
    match r {
        Ok(url) => Ok(url@),
        Err(error) => Err(error@),
    }
}

/// The scheme is `http` or `https`.
pub open spec fn is_web_scheme(scheme: Seq<char>) -> bool {
    scheme == "http"@ || scheme == "https"@
}

/// What `url::Url::parse` makes of a text: the URL, or the message of its
/// error.
pub uninterp spec fn parsed_url(text: Seq<char>) -> Result<UrlView, Seq<char>>;

/// What holds of every parsed URL whose scheme is `http` or `https`: it has a
/// host whose text is not empty, it has a port, and its own text is not empty
/// and holds no white space.
pub open spec fn well_parsed(url: UrlView) -> bool {
    is_web_scheme(url.scheme) ==> {
        &&& url.host is Some
        &&& url.host->0.text.len() > 0
        &&& url.port is Some
        &&& url.text.len() > 0
        &&& forall|i: int| 0 <= i < url.text.len() ==> !text::is_white(#[trigger] url.text[i])
    }
}

/// `url::Url::parse`, with the parts of the result read by the accessors of
/// `url::Url`. The outcome is a function of the text, named `parsed_url`. A
/// URL that comes out is `well_parsed`: in these schemes the parser refuses an
/// empty host, knows the default port and percent-encodes white space. How a
/// text is parsed otherwise is left unsaid; nor is it said that the text of a
/// URL parses to that URL, which very long international host names do not.
#[verifier::external_body]
fn parse_parts(input: &str) -> (r: Result<Url, String>)
    ensures
        parse_view(r) == parsed_url(input@),
        r matches Ok(url) ==> well_parsed(url@),
{
    let url = url::Url::parse(input).map_err(|error| error.to_string())?;
    let kind = url.host().map(|host| match host {
        url::Host::Domain(_) => HostKind::Domain,
        url::Host::Ipv4(address) => HostKind::Ipv4(address.octets()),
        url::Host::Ipv6(address) => HostKind::Ipv6(address.segments()),
    });
    Ok(Url {
        text: url.as_str().to_string(),
        scheme: url.scheme().to_string(),
        host: kind.map(|kind| UrlHost { text: url.host_str().unwrap_or_default().to_string(), kind }),
        port: url.port_or_known_default(),
        path: url.path().to_string(),
        query: url.query().map(|query| query.to_string()),
    })
}

impl Url {
    /// Parses an absolute URL; the error is the parser's message.
    pub fn parse(input: &str) -> (r: Result<Url, String>)
        ensures
            parse_view(r) == parsed_url(input@),
            r matches Ok(url) ==> well_parsed(url@),
    {
        parse_parts(input)
    }

    /// Whether the scheme is `http` or `https`.
    pub fn is_web(&self) -> (r: bool)
        ensures
            r == is_web_scheme(self@.scheme),
    {
        text::same_text(self.scheme.as_str(), "http") || text::same_text(
            self.scheme.as_str(),
            "https",
        )
    }

    /// The whole URL.
    pub fn as_str(&self) -> (r: &str)
        ensures
            r@ == self@.text,
    {
        self.text.as_str()
    }
}

/// The web has two schemes.
pub proof fn law_web_schemes(scheme: Seq<char>)
    ensures
        is_web_scheme(scheme) <==> scheme == seq!['h', 't', 't', 'p'] || scheme == seq![
            'h',
            't',
            't',
            'p',
            's',
        ],
{
    reveal_strlit("http");
    reveal_strlit("https");
    assert("http"@ =~= seq!['h', 't', 't', 'p']);
    assert("https"@ =~= seq!['h', 't', 't', 'p', 's']);
}

} // verus!
