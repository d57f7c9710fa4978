//! Content identifiers and addresses in their outside forms: the binary and
//! text encodings of an identifier, and the parsing of URLs.

use crate::ident::{Cid, Multihash};
use vstd::prelude::*;

verus! {

/// The fields of the content identifier that a byte string starts with:
/// version, codec, hash code and digest. `None` where the bytes start with
/// no identifier.
pub uninterp spec fn cid_decoded(bytes: Seq<u8>) -> Option<(u64, u64, u64, Seq<u8>)>;

/// The text form of an identifier in version 1, base 32, lower case, from
/// its version, codec, hash code and digest. `None` where these make no
/// identifier, or one that has no version 1 form.
pub uninterp spec fn cid_v1_base32(version: u64, codec: u64, code: u64, digest: Seq<u8>) -> Option<
    Seq<char>,
>;

/// The normal form of an absolute URL. `None` where the text is none.
pub uninterp spec fn url_parsed(input: Seq<char>) -> Option<Seq<char>>;

/// The URL that a reference gives when it is resolved against a base URL.
/// `None` where the base is no absolute URL or the reference cannot be
/// resolved.
pub uninterp spec fn url_joined(base: Seq<char>, reference: Seq<char>) -> Option<Seq<char>>;

/// A URL with its query replaced. `None` where the text is no absolute
/// URL.
pub uninterp spec fn url_with_query(url: Seq<char>, query: Seq<char>) -> Option<Seq<char>>;

/// `cid::Cid::read_bytes` on a cursor over `bytes`: the identifier at the
/// head of the bytes, handed out as its fields (`version`, `codec`,
/// `hash().code()`, `hash().digest()`). Bytes behind the identifier are not
/// looked at.
#[verifier::external_body]
pub(crate) fn read_cid(bytes: &Vec<u8>) -> (r: Option<(u64, u64, u64, Vec<u8>)>)
    ensures
        match r {
            Some(f) => cid_decoded(bytes@) == Some((f.0, f.1, f.2, f.3@)),
            None => cid_decoded(bytes@) is None,
        },
{
    let c = cid::Cid::read_bytes(std::io::Cursor::new(bytes)).ok()?;
    Some((c.version().into(), c.codec(), c.hash().code(), c.hash().digest().to_vec()))
}

/// `cid::Cid::into_v1` followed by `cid::Cid::to_string_of_base` with
/// `Base::Base32Lower`, on the identifier built from the fields by
/// `Multihash::wrap` and `Cid::new`.
#[verifier::external_body]
pub(crate) fn cid_to_v1_base32(version: u64, codec: u64, code: u64, digest: &Vec<u8>) -> (r: Option<
    String,
>)
    ensures
        match r {
            Some(s) => cid_v1_base32(version, codec, code, digest@) == Some(s@),
            None => cid_v1_base32(version, codec, code, digest@) is None,
        },
{
    let hash = cid::multihash::Multihash::<64>::wrap(code, digest).ok()?;
    let version = cid::Version::try_from(version).ok()?;
    let c = cid::Cid::new(version, codec, hash).ok()?;
    c.into_v1().ok()?.to_string_of_base(cid::multibase::Base::Base32Lower).ok()
}

/// `url::Url::parse`, with the URL handed out as text.
#[verifier::external_body]
pub(crate) fn parse_url(input: &str) -> (r: Option<String>)
    ensures
        match r {
            Some(s) => url_parsed(input@) == Some(s@),
            None => url_parsed(input@) is None,
        },
{
    match url::Url::parse(input) {
        Ok(u) => Some(u.to_string()),
        Err(_) => None,
    }
}

/// `url::Url::join` on the URL parsed from `base`, with the URL handed out
/// as text.
#[verifier::external_body]
pub(crate) fn join_url(base: &str, reference: &str) -> (r: Option<String>)
    ensures
        match r {
            Some(s) => url_joined(base@, reference@) == Some(s@),
            None => url_joined(base@, reference@) is None,
        },
{
    match url::Url::parse(base).ok()?.join(reference) {
        Ok(u) => Some(u.to_string()),
        Err(_) => None,
    }
}

/// `url::Url::set_query` on the URL parsed from `url`, with the URL handed
/// out as text.
#[verifier::external_body]
pub(crate) fn set_url_query(url: &str, query: &str) -> (r: Option<String>)
    ensures
        match r {
            Some(s) => url_with_query(url@, query@) == Some(s@),
            None => url_with_query(url@, query@) is None,
        },
{
    let mut u = url::Url::parse(url).ok()?;
    u.set_query(Some(query));
    Some(u.to_string())
}

/// `str::starts_with` with a string as the pattern: whether `prefix` is a
/// prefix of `s`.
#[verifier::external_body]
pub(crate) fn starts_with(s: &str, prefix: &str) -> (b: bool)
    ensures
        b == prefix@.is_prefix_of(s@),
{
    s.starts_with(prefix)
}

/// `rand::seq::SliceRandom::choose` with the thread's generator: one of the
/// items, or none where there is no item. Which item is a matter of chance.
#[verifier::external_body]
pub(crate) fn choose_one<'a, T>(items: &'a Vec<T>) -> (r: Option<&'a T>)
    ensures
        items@.len() == 0 <==> r is None,
        r matches Some(x) ==> items@.contains(*x),
{
    rand::seq::SliceRandom::choose(items.as_slice(), &mut rand::thread_rng())
}

/// What went wrong with an identifier in bytes.
#[derive(Clone, Copy, PartialEq, Eq, Structural, Debug)]
pub enum CidError {
    /// The bytes start with no identifier.
    Malformed,
    /// The identifier's digest is longer than 64 bytes.
    DigestTooLong,
}

/// Whether `cid` has the fields `f`.
pub open spec fn has_fields(cid: Cid, f: (u64, u64, u64, Seq<u8>)) -> bool {
    cid.version == f.0 && cid.codec == f.1 && cid.hash.wraps(f.2, f.3)
}

/// Whether reading `bytes` gives the identifier `cid`.
pub open spec fn reads_as(bytes: Seq<u8>, cid: Cid) -> bool {
    match cid_decoded(bytes) {
        Some(f) => f.3.len() <= 64 && has_fields(cid, f),
        None => false,
    }
}

/// Reads the identifier at the head of `b`. Reading fails where the bytes
/// start with no identifier, and where the identifier's digest is longer
/// than an identifier here can hold.
pub fn cid_from_bytes(b: &Vec<u8>) -> (r: Result<Cid, CidError>)
    ensures
        match r {
            Ok(c) => first_error(b@) is None && reads_as(b@, c),
            Err(e) => first_error(b@) == Some(e),
        },
{
    match read_cid(b) {
        None => Err(CidError::Malformed),
        Some(f) => match Multihash::wrap(f.2, &f.3) {
            Some(hash) => Ok(Cid { version: f.0, codec: f.1, hash }),
            None => Err(CidError::DigestTooLong),
        },
    }
}

/// Reads one identifier from the head of each of `l`. The first that
/// cannot be read makes the whole fail, with its error.
pub fn links_from_bytes(l: &Vec<Vec<u8>>) -> (r: Result<Vec<Cid>, CidError>)
    ensures
        match r {
            Ok(v) => v@.len() == l@.len() && forall|i: int|
                0 <= i < l@.len() ==> reads_as(#[trigger] l@[i]@, v@[i]),
            Err(e) => exists|i: int|
                0 <= i < l@.len() && readable_before(l@, i) && first_error(#[trigger] l@[i]@)
                    == Some(e),
        },
{
    let mut v: Vec<Cid> = Vec::new();
    let mut i: usize = 0;
    while i < l.len()
        invariant
            i <= l@.len(),
            v@.len() == i,
            readable_before(l@, i as int),
            forall|j: int| 0 <= j < i ==> reads_as(#[trigger] l@[j]@, v@[j]),
        decreases l@.len() - i,
    {
        match cid_from_bytes(&l[i]) {
            Ok(c) => {
                v.push(c);
            },
            Err(e) => {
                return Err(e);
            },
        }
        i += 1;
    }
    Ok(v)
}

/// The error that reading an identifier from `bytes` gives, if it gives
/// one.
pub open spec fn first_error(bytes: Seq<u8>) -> Option<CidError> {
    match cid_decoded(bytes) {
        None => Some(CidError::Malformed),
        Some(f) => if f.3.len() <= 64 {
            None
        } else {
            Some(CidError::DigestTooLong)
        },
    }
}

/// Whether an identifier can be read from each of the first `n` of `l`.
pub open spec fn readable_before(l: Seq<Vec<u8>>, n: int) -> bool {
    forall|j: int| 0 <= j < n ==> first_error(#[trigger] l[j]@) is None
}

/// The text form of `cid` in version 1 and base 32, if it has one.
pub fn cid_to_string_v1(cid: &Cid) -> (r: Option<String>)
    ensures
        match r {
            Some(s) => cid_text(*cid) == Some(s@),
            None => cid_text(*cid) is None,
        },
{
    let digest = cid.hash.digest_bytes();
    cid_to_v1_base32(cid.version, cid.codec, cid.hash.code, &digest)
}

/// The text form of `cid` in version 1 and base 32.
pub open spec fn cid_text(cid: Cid) -> Option<Seq<char>> {
    cid_v1_base32(cid.version, cid.codec, cid.hash.code, cid.hash.digest_seq())
}

} // verus!
