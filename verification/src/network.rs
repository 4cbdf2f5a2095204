//! IP networks in CIDR form, parsed by the `ipnetwork` crate.
use vstd::prelude::*;
use ipnetwork::IpNetwork;

verus! {

/// An IPv4 or IPv6 network: its address as an integer (most significant
/// bit first) and its prefix length.
#[allow(inconsistent_fields)]
#[derive(Debug, Clone, Copy, PartialEq, Eq)]
pub enum Network {
    V4 { addr: u32, prefix: u8 },
    V6 { addr: u128, prefix: u8 },
}

impl Network {
    /// The prefix fits the address: at most 32 bits for IPv4, 128 for IPv6.
    pub open spec fn valid(self) -> bool {
        match self {
            Network::V4 { prefix, .. } => prefix <= 32,
            Network::V6 { prefix, .. } => prefix <= 128,
        }
    }
}

/// The network that `ipnetwork` reads from the text `s` (`<IpNetwork as FromStr>::from_str`),
/// or `None` where it refuses the text.
pub uninterp spec fn ipnetwork_parse(s: Seq<char>) -> Option<Network>;

/// `<IpNetwork as FromStr>::from_str`, converted to `Network`.
/// The result is the one `ipnetwork_parse` names for the text. As the crate's
/// constructors check, a parsed network's prefix is at most 32 (IPv4) or 128
/// (IPv6). On failure the crate returns `IpNetworkError::InvalidAddr(s)`, whose
/// message is "invalid address: " followed by the text.
#[verifier::external_body]
fn ipnetwork_from_str(s: &str) -> (r: Result<Network, String>)
    ensures
        match r {
            Ok(n) => ipnetwork_parse(s@) == Some(n) && n.valid(),
            Err(e) => ipnetwork_parse(s@) is None && e@ == "invalid address: "@ + s@,
        },
{
    match s.parse::<IpNetwork>() {
        Ok(IpNetwork::V4(v4)) => Ok(Network::V4 { addr: u32::from(v4.ip()), prefix: v4.prefix() }),
        Ok(IpNetwork::V6(v6)) => Ok(Network::V6 { addr: u128::from(v6.ip()), prefix: v6.prefix() }),
        Err(e) => Err(e.to_string()),
    }
}

impl Network {
    /// Reads a network in CIDR notation ("1.2.3.0/24", "2001:db8::/32"; a
    /// bare address is a network of one address).
    pub fn parse(s: &str) -> (r: Result<Network, String>)
        ensures
            match r {
                Ok(n) => ipnetwork_parse(s@) == Some(n) && n.valid(),
                Err(e) => ipnetwork_parse(s@) is None && e@ == "invalid address: "@ + s@,
            },
    {
        ipnetwork_from_str(s)
    }
}

} // verus!
