//! Validation of connection addresses: a string is accepted only when it
//! parses as an absolute URL, uses the secure WebSocket scheme, and carries
//! no fragment component.

use vstd::prelude::*;
use vstd::string::*;

verus! {

#[verifier::external_type_specification]
#[verifier::external_body]
pub struct ExUrl(url::Url);

#[verifier::external_type_specification]
#[verifier::external_body]
pub struct ExParseError(url::ParseError);

/// Relies on the derived url::Url::clone, called by this type's own derived
/// clone; nothing is assumed of the copy.
pub assume_specification[ <url::Url as Clone>::clone ](u: &url::Url) -> url::Url;

/// Whether url::Url::parse accepts the string: parsing is deterministic.
pub uninterp spec fn url_parse_ok(s: Seq<char>) -> bool;

/// The scheme of the URL parsed from the string, a function of the string
/// alone.
pub uninterp spec fn url_scheme_of(s: Seq<char>) -> Seq<char>;

/// Whether the URL parsed from the string carries a fragment component.
pub uninterp spec fn url_has_fragment(s: Seq<char>) -> bool;

/// The normalized serialization of the URL parsed from the string.
pub uninterp spec fn url_text_of(s: Seq<char>) -> Seq<char>;

/// Relies on url::Url::parse, url::Url::scheme, url::Url::fragment and
/// url::Url::as_str: parsing either rejects the string or yields a URL whose
/// scheme, fragment presence and normalized serialization are functions of
/// the string alone; the extra tuple fields carry those three out as plain
/// values.
#[verifier::external_body]
fn parse_url_parts(s: &str) -> (r: Result<(url::Url, String, bool, String), url::ParseError>)
    ensures
        r is Ok <==> url_parse_ok(s@),
        r matches Ok(p) ==> p.1@ == url_scheme_of(s@) && p.2 == url_has_fragment(s@) && p.3@
            == url_text_of(s@),
{
    match url::Url::parse(s) {
        Ok(u) => {
            let scheme = u.scheme().to_string();
            let frag = u.fragment().is_some();
            let text = u.as_str().to_string();
            Ok((u, scheme, frag, text))
        },
        Err(e) => Err(e),
    }
}

/// A validated address for a secure WebSocket connection.
#[derive(Clone, Debug, Eq, PartialEq)]
pub struct StompUrl {
    url: url::Url,
    text: String,
}

impl View for StompUrl {
    type V = Seq<char>;

    closed spec fn view(&self) -> Seq<char> {
        self.text@
    }
}

/// An error which can be returned by `StompUrl::new`.
#[derive(Debug, Eq, PartialEq)]
pub enum StompUrlError {
    /// The string is not an absolute URL.
    InvalidUrl(url::ParseError),
    /// The URL does not use the secure WebSocket scheme.
    InvalidScheme,
    /// The URL carries a fragment component, which a WebSocket address may
    /// not.
    HasFragment,
}

impl StompUrl {
    /// Parses a secure WebSocket address from a string: rejected when the
    /// string is not an absolute URL, when its scheme is not the secure
    /// WebSocket scheme, or when it carries a fragment; accepted otherwise,
    /// with the URL's normalized serialization as the value's text.
    pub fn new(url: &str) -> (r: Result<Self, StompUrlError>)
        ensures
            !url_parse_ok(url@) ==> (r matches Err(e) && e is InvalidUrl),
            url_parse_ok(url@) && url_scheme_of(url@) != "wss"@ ==> r matches Err(
                StompUrlError::InvalidScheme,
            ),
            url_parse_ok(url@) && url_scheme_of(url@) == "wss"@ && url_has_fragment(url@)
                ==> r matches Err(StompUrlError::HasFragment),
            url_parse_ok(url@) && url_scheme_of(url@) == "wss"@ && !url_has_fragment(url@) ==> (
            r matches Ok(u) && u@ == url_text_of(url@)),
    {
        match parse_url_parts(url) {
            Err(e) => Err(StompUrlError::InvalidUrl(e)),
            Ok((parsed, scheme, has_fragment, text)) => {
                let wss = String::from_str("wss");
                if !scheme.eq(&wss) {
                    Err(StompUrlError::InvalidScheme)
                } else if has_fragment {
                    Err(StompUrlError::HasFragment)
                } else {
                    Ok(StompUrl { url: parsed, text })
                }
            },
        }
    }

    /// The normalized serialization of the address.
    pub fn text(&self) -> (r: String)
        ensures
            r@ == self@,
    {
        self.text.clone()
    }
}

} // verus!
