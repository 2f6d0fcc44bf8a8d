//! The key under which the requests of one client are counted: the address of
//! the real client, as the connection reports it.

use vstd::prelude::*;

verus! {

/// An address of a client, as the number that its bytes spell in network order.
#[derive(Clone, Copy, Debug, PartialEq, Eq, Structural)]
pub enum ClientIp {
    V4(u32),
    V6(u128),
}

/// Why no key could be had from a request.
#[derive(Clone, Copy, Debug, PartialEq, Eq, Structural)]
pub enum KeyExtractionError {
    /// The connection reports no address that reads as one.
    NoRemoteAddress,
}

impl KeyExtractionError {
    /// The words that the client is told.
    pub fn message(&self) -> (text: &'static str)
        ensures
            text@ == "No remote address"@,
    {
        "No remote address"
    }
}

/// Keys requests by the address of the real client.
#[derive(Clone, Copy, Debug)]
pub struct RealKeyExtractor;

impl RealKeyExtractor {
    /// The key of a request whose connection reports `real_ip`: that address,
    /// or `NoRemoteAddress` where there is none.
    pub fn extract(&self, real_ip: Option<ClientIp>) -> (key: Result<ClientIp, KeyExtractionError>)
        ensures
            key == match real_ip {
                Some(ip) => Ok::<ClientIp, KeyExtractionError>(ip),
                None => Err::<ClientIp, KeyExtractionError>(KeyExtractionError::NoRemoteAddress),
            },
    {
        match real_ip {
            Some(ip) => Ok(ip),
            None => Err(KeyExtractionError::NoRemoteAddress),
        }
    }
}

} // verus!
