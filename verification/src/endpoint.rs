//! The address of a peer, as plain values.

use vstd::prelude::*;

verus! {

/// A socket address: an IPv4 or IPv6 address and a port. For IPv4 the
/// address stands in the low 32 bits of `ip`, and `flowinfo` and `scope_id`
/// are zero.
#[derive(Clone, Copy, PartialEq, Eq, Structural, Debug)]
pub struct Endpoint {
    pub v6: bool,
    pub ip: u128,
    pub port: u16,
    pub flowinfo: u32,
    pub scope_id: u32,
}

} // verus!
