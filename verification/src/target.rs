//! The URLs to follow.

use vstd::prelude::*;

use crate::host::fits;
#[allow(unused_imports)]
use crate::host::host_fits;

verus! {

/// A parsed URL: its text, and the parts of it that a request is made from.
#[derive(Debug)]
pub struct Url {
    /// The whole URL in normal form. Two URLs are the same if this is.
    pub href: String,
    /// The scheme, in lower case and without the colon.
    pub scheme: String,
    /// The host, if there is one.
    pub host: Option<String>,
    /// The port, or the one that the scheme implies.
    pub port: Option<u16>,
    /// The path, without query and fragment.
    pub path: String,
}

/// What a [`Url`] says.
#[verifier::ext_equal]
pub struct UrlParts {
    pub href: Seq<char>,
    pub scheme: Seq<char>,
    pub host: Option<Seq<char>>,
    pub port: Option<u16>,
    pub path: Seq<char>,
}

impl UrlParts {
    /// Whether the scheme is one that can be followed.
    pub open spec fn is_web(self) -> bool {
        self.scheme == "http"@ || self.scheme == "https"@
    }

    /// Whether there is a host and a port to connect to.
    pub open spec fn is_routable(self) -> bool {
        self.host is Some && self.port is Some
    }
}

/// The characters of an optional text.
pub open spec fn text_of(text: Option<String>) -> Option<Seq<char>> {
    match text {
        Some(text) => Some(text@),
        None => None,
    }
}

impl View for Url {
    type V = UrlParts;

    open spec fn view(&self) -> UrlParts {
        UrlParts {
            href: self.href@,
            scheme: self.scheme@,
            host: text_of(self.host),
            port: self.port,
            path: self.path@,
        }
    }
}

impl Clone for Url {
    fn clone(&self) -> (r: Url)
        ensures
            r@ == self@,
    {
        let host: Option<String> = match &self.host {
            Some(host) => Some(host.clone()),
            None => None,
        };
        Url {
            href: self.href.clone(),
            scheme: self.scheme.clone(),
            host,
            port: self.port,
            path: self.path.clone(),
        }
    }
}

/// The reason why `url::Url::parse` refuses a text.
#[verifier::external_type_specification]
#[verifier::external_body]
pub struct ExParseError(url::ParseError);

/// What `url::Url::parse` makes of a text: the parts of the URL, if the text is one.
pub uninterp spec fn url_parse(text: Seq<char>) -> Option<UrlParts>;

/// Calls `url::Url::parse`, and takes the parts out of its result by `as_str`, `scheme`,
/// `host_str`, `port_or_known_default` and `path`.
///
/// Claimed of that call: the result depends on the text alone, and a URL of the scheme
/// `http` or `https` has a host and a port.
///
/// Demanded for it: the text has no more characters than the parser can count, and
/// `idna::punycode::encode` does not overflow on a label of the host. Beyond that the call fails,
/// or panics where overflow is checked.
#[verifier::external_body]
fn parse_parts(text: &str) -> (r: Result<Url, url::ParseError>)
    requires
        host_fits(text@),
    ensures
        match r {
            Ok(url) => url_parse(text@) == Some(url@),
            Err(_) => url_parse(text@) is None,
        },
        r matches Ok(url) ==> url@.is_web() ==> url@.is_routable(),
{
    url::Url::parse(text).map(
        |url| Url {
            href: url.as_str().to_owned(),
            scheme: url.scheme().to_owned(),
            host: url.host_str().map(str::to_owned),
            port: url.port_or_known_default(),
            path: url.path().to_owned(),
        },
    )
}

/// What the program is asked to do.
#[derive(Debug)]
pub struct Options {
    /// The URLs to follow.
    pub urls: Vec<Url>,
}

/// A text that is no URL, which takes in one with a host whose Punycode cannot be computed.
#[derive(Debug, Clone, Copy, PartialEq, Eq, Structural)]
pub struct BadUrl;

impl Url {
    /// Parses a URL.
    ///
    /// Of the schemes that can be followed, every URL can be: it names a host and a port.
    /// A text with a host whose Punycode cannot be computed is refused.
    pub fn parse(text: &str) -> (r: Result<Url, BadUrl>)
        ensures
            r is Ok <==> host_fits(text@) && url_parse(text@) is Some,
            r matches Ok(url) ==> url_parse(text@) == Some(url@),
            r matches Ok(url) ==> url@.is_web() ==> url@.is_routable(),
    {
        if !fits(text) {
            return Err(BadUrl);
        }
        match parse_parts(text) {
            Ok(url) => Ok(url),
            Err(_) => Err(BadUrl),
        }
    }
}

/// What a URL says is what its fields hold.
pub proof fn law_url_says_its_fields(url: Url)
    ensures
        url@.href == url.href@,
        url@.scheme == url.scheme@,
        url@.host is Some <==> url.host is Some,
        url.host matches Some(host) ==> url@.host == Some(host@),
        url@.port == url.port,
        url@.path == url.path@,
{
}

/// A URL can be followed if its scheme is `http` or `https`, and connected to if it has both a
/// host and a port.
pub proof fn law_followable(url: UrlParts)
    ensures
        url.is_web() <==> url.scheme == "http"@ || url.scheme == "https"@,
        url.is_routable() <==> url.host != None::<Seq<char>> && url.port != None::<u16>,
{
}

/// A call of `Url::parse` gives a URL exactly for a text that fits and is one, and that URL as it
/// was parsed. One of the schemes that can be followed has a host and a port.
pub proof fn law_parse(text: &str, r: Result<Url, BadUrl>)
    requires
        call_ensures(Url::parse, (text,), r),
    ensures
        r is Ok <==> host_fits(text@) && url_parse(text@) is Some,
        r matches Ok(url) ==> {
            let parsed = url_parse(text@)->0;
            &&& url.href@ == parsed.href
            &&& url.scheme@ == parsed.scheme
            &&& url.host is Some <==> parsed.host is Some
            &&& url.host matches Some(host) ==> parsed.host == Some(host@)
            &&& url.port == parsed.port
            &&& url.path@ == parsed.path
            &&& url.scheme@ == "http"@ || url.scheme@ == "https"@ ==> url.host is Some && url.port
                is Some
        },
{
}

} // verus!
