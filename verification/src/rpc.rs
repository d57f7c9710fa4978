//! The checks that the remote interfaces make on what they take in and
//! give out.

use crate::codec::{cid_from_bytes, first_error, reads_as, CidError};
use crate::ident::Cid;
use vstd::prelude::*;

verus! {

/// What can be wrong with a request or its answer.
#[derive(Clone, Copy, PartialEq, Eq, Structural, Debug)]
pub enum Error {
    /// The identifier in the request cannot be read.
    Cid(CidError),
    /// The request for the block names no providers.
    MissingProviders(Cid),
    /// The block that came is not the block that was asked for.
    UnexpBitswapResponse { expected: Cid, got: Cid },
}

/// Reads a request to fetch a block: the identifier in bytes and the list
/// of providers, each in bytes. The identifier has to be readable and the
/// list has to be there, though it may be empty.
pub fn fetch_bitswap_request(cid: &Vec<u8>, providers: Option<Vec<Vec<u8>>>) -> (r: Result<
    (Cid, Vec<Vec<u8>>),
    Error,
>)
    ensures
        match r {
            Ok(req) => first_error(cid@) is None && reads_as(cid@, req.0) && providers == Some(
                req.1,
            ),
            Err(Error::Cid(e)) => first_error(cid@) == Some(e),
            Err(Error::MissingProviders(c)) => first_error(cid@) is None && reads_as(cid@, c)
                && providers is None,
            Err(_) => false,
        },
{
    let c = match cid_from_bytes(cid) {
        Ok(c) => c,
        Err(e) => {
            return Err(Error::Cid(e));
        },
    };
    match providers {
        Some(p) => Ok((c, p)),
        None => Err(Error::MissingProviders(c)),
    }
}

/// Checks that the block that came is the block that was asked for.
pub fn check_bitswap_response(expected: Cid, got: Cid) -> (r: Result<(), Error>)
    ensures
        expected == got ==> r is Ok,
        expected != got ==> r == Err::<(), Error>(Error::UnexpBitswapResponse { expected, got }),
{
    if !(expected == got) {
        return Err(Error::UnexpBitswapResponse { expected, got });
    }
    Ok(())
}

/// Whether a peer has to be looked up in the routing table before it is
/// dialled: it has when no address of it is known.
pub fn needs_dht_lookup(known_addresses: usize) -> (b: bool)
    ensures
        b == (known_addresses == 0),
{
    known_addresses == 0
}

} // verus!
