//! Transports move request and response bytes between repositories; the
//! protocol above them does not depend on which one is used.

use vstd::prelude::*;
use crate::refs::strip_prefix;

verus! {

/// A failed transfer, with what went wrong.
#[derive(Debug)]
pub struct TransportError {
    pub message: String,
}

/// Moves bytes to and from a remote repository (HTTP, a peer connection, a
/// test double, ...).
pub trait Transport {
    /// Fetches the resource at `path`.
    fn get(&self, path: &str) -> Result<Vec<u8>, TransportError>;

    /// Sends `body` to `path` and returns the reply.
    fn post(&self, path: &str, body: Vec<u8>) -> Result<Vec<u8>, TransportError>;
}

/// The address of a peer reached over the SDAL peer protocol.
pub struct P2pTransport {
    address: String,
}

impl P2pTransport {
    /// The peer's `host:port`.
    pub closed spec fn spec_address(&self) -> Seq<char> {
        self.address@
    }

    /// A transport to `address`, given as `sdalp://host:port` or `host:port`.
    pub fn new(address: &str) -> (r: Self)
        ensures
            crate::refs::starts_with(address@, "sdalp://"@) ==> r.spec_address() == address@.skip(8),
            !crate::refs::starts_with(address@, "sdalp://"@) ==> r.spec_address() == address@,
    {
        proof {
            reveal_strlit("sdalp://");
        }
        let addr = match strip_prefix(address, "sdalp://") {
            Some(rest) => rest,
            None => address.to_string(),
        };
        P2pTransport { address: addr }
    }

    /// The peer's `host:port`.
    pub fn address(&self) -> (a: &str)
        ensures
            a@ == self.spec_address(),
    {
        self.address.as_str()
    }
}

} // verus!
