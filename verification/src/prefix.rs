//! The IP-network model: an address family, a base address and a network
//! length, held as plain integers so that range containment is ordinary
//! arithmetic.  Parsing a CIDR literal and rendering one back to text are
//! delegated to the `cidr` crate (re-exported by `cidr-utils`) behind
//! trusted wrappers.
use vstd::prelude::*;

verus! {

/// An IP network: a base address and a network length, either IPv4 or IPv6.
/// IPv4 addresses live in the low 32 bits of `addr`.
#[derive(Clone, Copy, Debug, PartialEq, Eq, Structural)]
pub struct Prefix {
    pub is_v6: bool,
    pub addr: u128,
    pub len: u8,
}

impl Prefix {
    /// The bits of an address that lie below the network length.
    pub open spec fn host_mask(self) -> u128 {
        if self.is_v6 {
            if self.len >= 128 {
                0u128
            } else {
                u128::MAX >> self.len
            }
        } else {
            if self.len >= 32 {
                0u128
            } else {
                0xFFFF_FFFFu128 >> self.len
            }
        }
    }

    /// Well-formed: the length fits the family, the address fits the family,
    /// and the host part of the address is zero.
    pub open spec fn wf(self) -> bool {
        &&& (if self.is_v6 {
            self.len <= 128
        } else {
            self.len <= 32 && self.addr <= 0xFFFF_FFFFu128
        })
        &&& self.addr & self.host_mask() == 0
    }

    /// The first address of the network.
    pub open spec fn first_address(self) -> u128 {
        self.addr
    }

    /// The last address of the network.
    pub open spec fn last_address(self) -> u128 {
        self.addr | self.host_mask()
    }

    /// Covering-range test: every address of `other` lies inside `self`.
    /// Families must agree; ranges are compared by their endpoints.
    pub open spec fn spec_covers(self, other: Prefix) -> bool {
        &&& self.is_v6 == other.is_v6
        &&& self.first_address() <= other.first_address()
        &&& other.last_address() <= self.last_address()
    }

    fn host_mask_ex(&self) -> (m: u128)
        ensures
            m == self.host_mask(),
    {
        if self.is_v6 {
            if self.len >= 128 {
                0u128
            } else {
                u128::MAX >> self.len
            }
        } else {
            if self.len >= 32 {
                0u128
            } else {
                0xFFFF_FFFFu128 >> self.len
            }
        }
    }

    /// Does `self` cover the whole address range of `other`?
    pub fn covers(&self, other: &Prefix) -> (r: bool)
        ensures
            r == self.spec_covers(*other),
    {
        self.is_v6 == other.is_v6 && self.addr <= other.addr && (other.addr
            | other.host_mask_ex()) <= (self.addr | self.host_mask_ex())
    }
}

/// The base address never exceeds the last address of the network.
proof fn lemma_first_le_last(p: Prefix)
    ensures
        p.first_address() <= p.last_address(),
{
    let a = p.addr;
    let m = p.host_mask();
    assert(a <= (a | m)) by (bit_vector);
}

/// `x` is one of the addresses of the network `p`.
pub open spec fn in_range(p: Prefix, x: u128) -> bool {
    p.first_address() <= x <= p.last_address()
}

/// The covering-range test by endpoints agrees with the glossary reading:
/// a network covers another exactly when every address of the other lies
/// within it (and the families agree).
pub proof fn lemma_covers_is_range_inclusion(a: Prefix, b: Prefix)
    ensures
        a.spec_covers(b) <==> (a.is_v6 == b.is_v6 && forall|x: u128|
            #[trigger] in_range(b, x) ==> in_range(a, x)),
{
    lemma_first_le_last(a);
    lemma_first_le_last(b);
    if a.is_v6 == b.is_v6 && forall|x: u128| #[trigger] in_range(b, x) ==> in_range(a, x) {
        assert(in_range(b, b.first_address()));
        assert(in_range(b, b.last_address()));
    }
}

/// The network, if any, that a CIDR literal denotes, as `cidr::IpCidr::from_str`
/// reads it: loose address notation is accepted, but the host part of the
/// address must be zero and the length must fit the family.
pub uninterp spec fn cidr_of(s: Seq<char>) -> Option<Prefix>;

/// The text that the `cidr` crate's `Display` gives a network; for a network
/// of full length it is the bare address, otherwise "address/length".
pub uninterp spec fn cidr_text(is_v6: bool, addr: u128, len: u8) -> Seq<char>;

/// Relies on `cidr::IpCidr::from_str` (via `cidr_utils`): parses a CIDR
/// literal; on success the stored address is the first address of the
/// network, its host part is zero and the length fits the family.
#[verifier::external_body]
pub fn parse_ip_cidr(s: &str) -> (r: Option<Prefix>)
    ensures
        r == cidr_of(s@),
        r matches Some(p) ==> p.wf(),
{
    match <cidr_utils::cidr::IpCidr as core::str::FromStr>::from_str(s) {
        Ok(cidr_utils::cidr::IpCidr::V4(c)) => Some(Prefix {
            is_v6: false,
            addr: u32::from(c.first_address()) as u128,
            len: c.network_length(),
        }),
        Ok(cidr_utils::cidr::IpCidr::V6(c)) => Some(Prefix {
            is_v6: true,
            addr: u128::from(c.first_address()),
            len: c.network_length(),
        }),
        Err(_) => None,
    }
}

/// Relies on the `Display` impls of `cidr::Ipv4Cidr` and `cidr::Ipv6Cidr`
/// (via `cidr_utils`): renders the network the crate was given; the text is a
/// function of family, address and length alone.
#[verifier::external_body]
pub fn ip_cidr_to_string(p: &Prefix) -> (r: String)
    requires
        p.wf(),
    ensures
        r@ == cidr_text(p.is_v6, p.addr, p.len),
{
    if p.is_v6 {
        match cidr_utils::cidr::Ipv6Cidr::new(p.addr.into(), p.len) {
            Ok(c) => c.to_string(),
            Err(_) => String::new(),
        }
    } else {
        match cidr_utils::cidr::Ipv4Cidr::new((p.addr as u32).into(), p.len) {
            Ok(c) => c.to_string(),
            Err(_) => String::new(),
        }
    }
}

} // verus!
