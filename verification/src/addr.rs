//! Socket addresses as plain wire-level values.
//!
//! The registry and the codec work on addresses as the bytes that describe
//! them: an IP (4 or 16 octets) and a port. Conversion from the operating
//! system's socket-address types happens outside the library.

use vstd::prelude::*;

verus! {

broadcast use vstd::array::group_array_axioms;

/// An IP address, by its raw octets.
#[derive(Clone, Copy, Debug, PartialEq, Eq)]
pub enum Ip {
    V4([u8; 4]),
    V6([u8; 16]),
}

/// The endpoint at which game clients should reach a game server:
/// the peer IP of the game server's connection plus the port it declared
/// in its `Hello`.
#[derive(Clone, Copy, Debug, PartialEq, Eq)]
pub struct Addr {
    pub ip: Ip,
    pub port: u16,
}

/// Mathematical shape of an [`Ip`]: the octets as a sequence, plus which
/// family they belong to.
pub struct IpV {
    pub v4: bool,
    pub octets: Seq<u8>,
}

/// Mathematical shape of an [`Addr`].
pub struct AddrV {
    pub ip: IpV,
    pub port: u16,
}

impl IpV {
    /// The octet count matches the address family.
    pub open spec fn wf(self) -> bool {
        self.octets.len() == if self.v4 { 4int } else { 16int }
    }
}

impl AddrV {
    pub open spec fn wf(self) -> bool {
        self.ip.wf()
    }
}

impl View for Ip {
    type V = IpV;

    open spec fn view(&self) -> IpV {
        match self {
            Ip::V4(o) => IpV { v4: true, octets: o@ },
            Ip::V6(o) => IpV { v4: false, octets: o@ },
        }
    }
}

impl View for Addr {
    type V = AddrV;

    open spec fn view(&self) -> AddrV {
        AddrV { ip: self.ip@, port: self.port }
    }
}

/// Every executable address is well formed: its octet count matches its
/// family.
pub broadcast proof fn lemma_addr_wf(a: Addr)
    ensures
        #[trigger] a@.wf(),
{
}

impl Ip {
    /// Structural equality, usable from executable code.
    pub fn same(&self, other: &Ip) -> (r: bool)
        ensures
            r <==> *self == *other,
    {
        match (self, other) {
            (Ip::V4(a), Ip::V4(b)) => {
                let r = a[0] == b[0] && a[1] == b[1] && a[2] == b[2] && a[3] == b[3];
                proof {
                    if r {
                        assert(*a =~= *b);
                    }
                }
                r
            }
            (Ip::V6(a), Ip::V6(b)) => {
                let mut i: usize = 0;
                let mut eq: bool = true;
                while i < 16
                    invariant
                        i <= 16,
                        eq <==> (forall|j: int| 0 <= j < i ==> a[j] == b[j]),
                    decreases 16 - i,
                {
                    if a[i] != b[i] {
                        eq = false;
                    }
                    i = i + 1;
                }
                proof {
                    if eq {
                        assert(*a =~= *b);
                    }
                }
                eq
            }
            _ => false,
        }
    }
}

impl Addr {
    /// Structural equality, usable from executable code.
    pub fn same(&self, other: &Addr) -> (r: bool)
        ensures
            r <==> *self == *other,
    {
        self.port == other.port && self.ip.same(&other.ip)
    }
}

} // verus!
