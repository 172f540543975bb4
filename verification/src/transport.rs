//! Where the client's socket is bound.

use vstd::prelude::*;

verus! {

/// An IP address: the four octets of an IPv4 address or the eight segments
/// of an IPv6 address.
pub enum HostAddress {
    V4([u8; 4]),
    V6([u16; 8]),
}

/// A local address and port to bind a socket to.
pub struct LocalEndpoint {
    pub address: HostAddress,
    pub port: u16,
}

/// Whether `endpoint` is the loopback address of the given family with a
/// port that the system is left to pick: `127.0.0.1:0` or `[::1]:0`.
pub open spec fn is_loopback_endpoint(endpoint: LocalEndpoint, ipv4: bool) -> bool {
    &&& endpoint.port == 0
    &&& match endpoint.address {
        HostAddress::V4(octets) => ipv4 && octets@ == seq![127u8, 0u8, 0u8, 1u8],
        HostAddress::V6(segments) => !ipv4 && segments@ == seq![
            0u16,
            0u16,
            0u16,
            0u16,
            0u16,
            0u16,
            0u16,
            1u16,
        ],
    }
}

/// The endpoint to bind the client's socket to when the server's address is
/// of the given family: the loopback address of the same family, with a port
/// that the system picks.
pub fn local_endpoint(remote_is_ipv4: bool) -> (endpoint: LocalEndpoint)
    ensures
        is_loopback_endpoint(endpoint, remote_is_ipv4),
{
    if remote_is_ipv4 {
        let octets: [u8; 4] = [127, 0, 0, 1];
        assert(octets@ =~= seq![127u8, 0u8, 0u8, 1u8]);
        LocalEndpoint { address: HostAddress::V4(octets), port: 0 }
    } else {
        let segments: [u16; 8] = [0, 0, 0, 0, 0, 0, 0, 1];
        assert(segments@ =~= seq![0u16, 0u16, 0u16, 0u16, 0u16, 0u16, 0u16, 1u16]);
        LocalEndpoint { address: HostAddress::V6(segments), port: 0 }
    }
}

} // verus!
