//! A peer's network address as plain numbers.

use vstd::prelude::*;

verus! {

/// An IP address and a port. `ip` holds the address octets as one number,
/// first octet most significant.
#[derive(Clone, Copy, Debug, PartialEq, Eq, Hash, Structural)]
#[allow(inconsistent_fields)]
pub enum Address {
    V4 { ip: u32, port: u16 },
    V6 { ip: u128, port: u16 },
}

impl Address {
    pub open spec fn spec_port(self) -> u16 {
        match self {
            Address::V4 { port, .. } => port,
            Address::V6 { port, .. } => port,
        }
    }

    pub open spec fn spec_is_ipv4(self) -> bool {
        self is V4
    }

    #[verifier::when_used_as_spec(spec_port)]
    pub fn port(self) -> (r: u16)
        ensures
            r == self.spec_port(),
    {
        match self {
            Address::V4 { port, .. } => port,
            Address::V6 { port, .. } => port,
        }
    }

    #[verifier::when_used_as_spec(spec_is_ipv4)]
    pub fn is_ipv4(self) -> (r: bool)
        ensures
            r == self.spec_is_ipv4(),
    {
        match self {
            Address::V4 { .. } => true,
            Address::V6 { .. } => false,
        }
    }
}

} // verus!
