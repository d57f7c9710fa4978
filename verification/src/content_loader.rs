//! Where content is loaded from: gateway addresses, and what to make of the
//! answers of the sources that are asked.

use crate::codec::{cid_text, cid_to_string_v1, choose_one, join_url, parse_url, set_url_query, starts_with, url_joined, url_parsed, url_with_query};
use crate::ident::Cid;
use vstd::prelude::*;
use vstd::string::StringExecFns;

verus! {

/// What can go wrong when content is loaded.
#[derive(Clone, Copy, PartialEq, Eq, Structural, Debug)]
pub enum Error {
    /// A text is no URL.
    UrlParse,
    /// An identifier has no text form in version 1.
    CidFormat,
    /// A gateway answered with a status that is no success.
    UnexpectedHttpStatus,
    /// What a gateway sent does not hash to the identifier asked for.
    InvalidHash,
    /// No source has the content.
    FailedToFind(Cid),
}

/// The address of an HTTP gateway.
#[derive(Debug, Clone, PartialEq, Eq)]
pub enum GatewayUrl {
    /// A whole URL, in its normal form; content is found under its path.
    Full(String),
    /// A host name; content is found under a subdomain of it.
    Subdomain(String),
}

/// The URL of `cid_text` at the subdomain gateway `host`, before it is
/// brought into normal form.
pub open spec fn subdomain_url(cid_text: Seq<char>, host: Seq<char>) -> Seq<char> {
    "https://"@ + cid_text + ".ipfs."@ + host + "?format=raw"@
}

impl GatewayUrl {
    /// The text of the address.
    pub open spec fn text(&self) -> Seq<char> {
        match self {
            GatewayUrl::Full(url) => url@,
            GatewayUrl::Subdomain(host) => host@,
        }
    }

    /// Reads a gateway address. A text that starts with `http` has to be a
    /// URL and is taken as a whole one; any other text is taken as a host
    /// name.
    pub fn from_str(input: &str) -> (r: Result<GatewayUrl, Error>)
        ensures
            "http"@.is_prefix_of(input@) ==> (match url_parsed(input@) {
                Some(url) => r matches Ok(GatewayUrl::Full(u)) && u@ == url,
                None => r == Err::<GatewayUrl, Error>(Error::UrlParse),
            }),
            !"http"@.is_prefix_of(input@) ==> (r matches Ok(GatewayUrl::Subdomain(h)) && h@
                == input@),
    {
        if starts_with(input, "http") || starts_with(input, "https") {
            proof {
                reveal_strlit("http");
                reveal_strlit("https");
                if "https"@.is_prefix_of(input@) {
                    assert("http"@ =~= "https"@.subrange(0, 4));
                    assert(input@.subrange(0, 4) =~= input@.subrange(0, 5).subrange(0, 4));
                }
            }
            return match parse_url(input) {
                Some(url) => Ok(GatewayUrl::Full(url)),
                None => Err(Error::UrlParse),
            };
        }
        Ok(GatewayUrl::Subdomain(String::from_str(input)))
    }

    /// The address as text.
    pub fn as_string(&self) -> (s: String)
        ensures
            s@ == self.text(),
    {
        match self {
            GatewayUrl::Full(url) => url.clone(),
            GatewayUrl::Subdomain(host) => host.clone(),
        }
    }

    /// The URL under which the gateway serves the raw block `cid`.
    pub open spec fn url_for(&self, cid: Cid) -> Result<Seq<char>, Error> {
        match cid_text(cid) {
            None => Err(Error::CidFormat),
            Some(text) => match self {
                GatewayUrl::Full(raw) => match url_joined(raw@, text) {
                    None => Err(Error::UrlParse),
                    Some(joined) => match url_with_query(joined, "format=raw"@) {
                        None => Err(Error::UrlParse),
                        Some(url) => Ok(url),
                    },
                },
                GatewayUrl::Subdomain(host) => match url_parsed(subdomain_url(text, host@)) {
                    None => Err(Error::UrlParse),
                    Some(url) => Ok(url),
                },
            },
        }
    }

    /// The URL under which the gateway serves the raw block `cid`: for a
    /// whole URL, the identifier's text resolved against it; for a host
    /// name, the identifier's text as a subdomain of `ipfs.` and the host.
    /// Either way the query asks for the raw format.
    pub fn as_url(&self, cid: &Cid) -> (r: Result<String, Error>)
        ensures
            match r {
                Ok(url) => self.url_for(*cid) == Ok::<Seq<char>, Error>(url@),
                Err(e) => self.url_for(*cid) == Err::<Seq<char>, Error>(e),
            },
    {
        let text = match cid_to_string_v1(cid) {
            Some(t) => t,
            None => {
                return Err(Error::CidFormat);
            },
        };
        match self {
            GatewayUrl::Full(raw) => {
                let joined = match join_url(raw.as_str(), text.as_str()) {
                    Some(j) => j,
                    None => {
                        return Err(Error::UrlParse);
                    },
                };
                match set_url_query(joined.as_str(), "format=raw") {
                    Some(url) => Ok(url),
                    None => Err(Error::UrlParse),
                }
            },
            GatewayUrl::Subdomain(host) => {
                let mut s = String::from_str("https://");
                s.append(text.as_str());
                s.append(".ipfs.");
                s.append(host.as_str());
                s.append("?format=raw");
                match parse_url(s.as_str()) {
                    Some(url) => Ok(url),
                    None => Err(Error::UrlParse),
                }
            },
        }
    }
}

/// Picks the gateway to ask next: one of `gateways`, by chance, or none
/// where there is none.
pub fn next_gateway(gateways: &Vec<GatewayUrl>) -> (r: Option<&GatewayUrl>)
    ensures
        gateways@.len() == 0 <==> r is None,
        r matches Some(g) ==> gateways@.contains(*g),
{
    if gateways.len() == 0 {
        return None;
    }
    choose_one(gateways)
}

/// Judges the answer of a gateway: `status_is_success` says whether the
/// status was a success, `hash_matches` whether the body hashes to the
/// identifier asked for, where that could be checked. The body is taken
/// only with a success status and a hash that is known to match.
pub fn check_gateway_response(status_is_success: bool, hash_matches: Option<bool>) -> (r: Result<
    (),
    Error,
>)
    ensures
        !status_is_success ==> r == Err::<(), Error>(Error::UnexpectedHttpStatus),
        status_is_success && hash_matches != Some(true) ==> r == Err::<(), Error>(
            Error::InvalidHash,
        ),
        status_is_success && hash_matches == Some(true) ==> r is Ok,
{
    if !status_is_success {
        return Err(Error::UnexpectedHttpStatus);
    }
    match hash_matches {
        Some(true) => Ok(()),
        _ => Err(Error::InvalidHash),
    }
}

/// What to do with the answer of the source that answered first, when two
/// sources are asked at once: content that it found is taken; on anything
/// else the other source is waited for.
pub fn first_of_race<T>(first: Result<Option<T>, Error>) -> (r: Option<T>)
    ensures
        r == match first {
            Ok(Some(loaded)) => Some(loaded),
            _ => None,
        },
{
    match first {
        Ok(Some(loaded)) => Some(loaded),
        _ => None,
    }
}

/// What to do with the answer of the source that answered second: content
/// that it found is taken, its error is passed on, and where it found
/// nothing the content counts as not to be found.
pub fn second_of_race<T>(second: Result<Option<T>, Error>, cid: Cid) -> (r: Result<T, Error>)
    ensures
        r == match second {
            Ok(Some(loaded)) => Ok::<T, Error>(loaded),
            Ok(None) => Err::<T, Error>(Error::FailedToFind(cid)),
            Err(e) => Err::<T, Error>(e),
        },
{
    match second {
        Ok(Some(loaded)) => Ok(loaded),
        Ok(None) => Err(Error::FailedToFind(cid)),
        Err(e) => Err(e),
    }
}

} // verus!
