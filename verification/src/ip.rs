//! The address value type: a single IP address of either family, compared
//! by exact equality (family and bits).

use vstd::prelude::*;

verus! {

/// One IP address, version 4 (four octets) or version 6 (eight 16-bit
/// groups). Two addresses are equal exactly when they have the same family
/// and the same bits; in particular a version change always counts as a
/// change.
#[derive(Clone, Copy, PartialEq, Eq, Structural, Debug)]
pub enum IpAddress {
    V4(u8, u8, u8, u8),
    V6(u16, u16, u16, u16, u16, u16, u16, u16),
}

impl IpAddress {
    /// True of version-4 addresses.
    pub open spec fn spec_is_v4(self) -> bool {
        self is V4
    }

    #[verifier::when_used_as_spec(spec_is_v4)]
    pub fn is_v4(self) -> (r: bool)
        ensures
            r == self.spec_is_v4(),
    {
        match self {
            IpAddress::V4(..) => true,
            IpAddress::V6(..) => false,
        }
    }

    /// True of version-6 addresses.
    pub open spec fn spec_is_v6(self) -> bool {
        self is V6
    }

    #[verifier::when_used_as_spec(spec_is_v6)]
    pub fn is_v6(self) -> (r: bool)
        ensures
            r == self.spec_is_v6(),
    {
        match self {
            IpAddress::V4(..) => false,
            IpAddress::V6(..) => true,
        }
    }

    /// The sentinel that every cache slot and shared cell starts from,
    /// before the first successful resolution.
    pub open spec fn spec_unspecified() -> IpAddress {
        IpAddress::V4(0, 0, 0, 0)
    }

    #[verifier::when_used_as_spec(spec_unspecified)]
    pub fn unspecified() -> (r: IpAddress)
        ensures
            r == IpAddress::spec_unspecified(),
    {
        IpAddress::V4(0, 0, 0, 0)
    }
}

} // verus!
