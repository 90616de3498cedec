//! Addresses and networks as plain numbers.

use vstd::prelude::*;
use vstd::arithmetic::power2;

verus! {

/// An IPv4 or IPv6 address, as the big-endian number its octets spell.
#[derive(Clone, Copy, PartialEq, Eq, PartialOrd, Ord, Hash, Debug, Structural)]
pub enum IpAddr {
    V4(u32),
    V6(u128),
}

/// The reason a network was not built.
#[derive(Clone, Copy, PartialEq, Eq, Debug, Structural)]
pub struct PrefixLenError;

/// An address with the number of leading bits that name the network it is on.
#[derive(Clone, Copy, PartialEq, Eq, Hash, Debug, Structural)]
pub struct IpNet {
    addr: IpAddr,
    prefix_len: u8,
}

/// An address together with a UDP port.
#[derive(Clone, Copy, PartialEq, Eq, Hash, Debug, Structural)]
pub struct SocketAddr {
    pub ip: IpAddr,
    pub port: u16,
}

/// Whether two numbers agree once their lowest `host_bits` bits are dropped.
pub open spec fn same_prefix(a: int, b: int, host_bits: nat) -> bool {
    a / power2::pow2(host_bits) as int == b / power2::pow2(host_bits) as int
}

impl IpAddr {
    /// The number of bits of an address of this family.
    pub open spec fn bits(self) -> nat {
        match self {
            IpAddr::V4(_) => 32,
            IpAddr::V6(_) => 128,
        }
    }

    /// The address as a number.
    pub open spec fn value(self) -> nat {
        match self {
            IpAddr::V4(v) => v as nat,
            IpAddr::V6(v) => v as nat,
        }
    }

    /// The longest prefix that a network of this address's family can have.
    pub fn max_prefix_len(&self) -> (r: u8)
        ensures
            r as nat == self.bits(),
    {
        match self {
            IpAddr::V4(_) => 32,
            IpAddr::V6(_) => 128,
        }
    }
}

impl IpNet {
    #[verifier::type_invariant]
    spec fn inv(self) -> bool {
        self.prefix_len as nat <= self.addr.bits()
    }

    /// The address the network was given by, host bits included.
    pub closed spec fn spec_addr(self) -> IpAddr {
        self.addr
    }

    /// How many leading bits name the network.
    pub closed spec fn spec_prefix_len(self) -> u8 {
        self.prefix_len
    }

    /// Whether `ip` is of this network's family and shares its prefix.
    pub open spec fn covers(self, ip: IpAddr) -> bool {
        &&& self.spec_addr().bits() == ip.bits()
        &&& same_prefix(
            self.spec_addr().value() as int,
            ip.value() as int,
            (ip.bits() - self.spec_prefix_len()) as nat,
        )
    }

    /// A network of `prefix_len` bits around `addr`.
    pub fn new(addr: IpAddr, prefix_len: u8) -> (r: Result<IpNet, PrefixLenError>)
        ensures
            prefix_len as nat > addr.bits() ==> r == Err::<IpNet, _>(PrefixLenError),
            prefix_len as nat <= addr.bits() ==> (r matches Ok(n) && n.spec_addr() == addr
                && n.spec_prefix_len() == prefix_len),
    {
        if prefix_len > addr.max_prefix_len() {
            Err(PrefixLenError)
        } else {
            Ok(IpNet { addr, prefix_len })
        }
    }

    /// The network that holds `addr` alone.
    pub fn host_route(addr: IpAddr) -> (r: IpNet)
        ensures
            r.spec_addr() == addr,
            r.spec_prefix_len() as nat == addr.bits(),
    {
        let prefix_len: u8 = addr.max_prefix_len();
        IpNet { addr, prefix_len }
    }

    pub fn addr(&self) -> (r: IpAddr)
        ensures
            r == self.spec_addr(),
    {
        self.addr
    }

    pub fn prefix_len(&self) -> (r: u8)
        ensures
            r == self.spec_prefix_len(),
            r as nat <= self.spec_addr().bits(),
    {
        proof {
            use_type_invariant(&*self);
        }
        self.prefix_len
    }

    /// The longest prefix that a network of this family can have.
    pub fn max_prefix_len(&self) -> (r: u8)
        ensures
            r as nat == self.spec_addr().bits(),
    {
        self.addr.max_prefix_len()
    }

    /// The mask of an IPv4 network; an IPv6 network is not given by a mask.
    pub fn netmask(&self) -> (r: Option<u32>)
        ensures
            match self.spec_addr() {
                IpAddr::V4(_) => r matches Some(m) && m == 0x1_0000_0000 - power2::pow2(
                    (32 - self.spec_prefix_len()) as nat,
                ),
                IpAddr::V6(_) => r is None,
            },
    {
        proof {
            use_type_invariant(&*self);
        }
        match self.addr {
            IpAddr::V4(_) => Some(ipv4_netmask(self.prefix_len)),
            IpAddr::V6(_) => None,
        }
    }

    pub fn contains(&self, ip: &IpAddr) -> (r: bool)
        ensures
            r == self.covers(*ip),
    {
        proof {
            use_type_invariant(&*self);
        }
        match (&self.addr, ip) {
            (IpAddr::V4(net), IpAddr::V4(a)) => ipv4_net_contains(*net, self.prefix_len, *a),
            (IpAddr::V6(net), IpAddr::V6(a)) => ipv6_net_contains(*net, self.prefix_len, *a),
            _ => false,
        }
    }
}

/// `ipnet::Ipv4Net::netmask`: the number whose leading `prefix_len` bits are
/// set.
#[verifier::external_body]
fn ipv4_netmask(prefix_len: u8) -> (r: u32)
    requires
        prefix_len <= 32,
    ensures
        r == 0x1_0000_0000 - power2::pow2((32 - prefix_len) as nat),
{
    ipnet::Ipv4Net::new_assert(0u32.into(), prefix_len).netmask().into()
}

/// `ipnet::Ipv4Net::contains`: an address is in a network when it lies
/// between the network address and the broadcast address, that is, when the
/// two agree on the leading `prefix_len` bits.
#[verifier::external_body]
fn ipv4_net_contains(net: u32, prefix_len: u8, ip: u32) -> (r: bool)
    requires
        prefix_len <= 32,
    ensures
        r == same_prefix(net as int, ip as int, (32 - prefix_len) as nat),
{
    ipnet::Ipv4Net::new_assert(net.into(), prefix_len).contains(&ipnet::Ipv4Net::new_assert(ip.into(), 32).addr())
}

/// `ipnet::Ipv6Net::contains`: as for IPv4, over 128 bits.
#[verifier::external_body]
fn ipv6_net_contains(net: u128, prefix_len: u8, ip: u128) -> (r: bool)
    requires
        prefix_len <= 128,
    ensures
        r == same_prefix(net as int, ip as int, (128 - prefix_len) as nat),
{
    ipnet::Ipv6Net::new_assert(net.into(), prefix_len).contains(&ipnet::Ipv6Net::new_assert(ip.into(), 128).addr())
}

/// Whether some network of a sequence covers `ip`.
pub open spec fn any_covers(nets: Seq<IpNet>, ip: IpAddr) -> bool {
    exists|i: int| 0 <= i < nets.len() && (#[trigger] nets[i]).covers(ip)
}

/// Whether some network of a sequence was given by the address `ip`.
pub open spec fn any_at(nets: Seq<IpNet>, ip: IpAddr) -> bool {
    exists|i: int| 0 <= i < nets.len() && (#[trigger] nets[i]).spec_addr() == ip
}

/// Whether some network of a list was given by the address `ip`.
pub fn any_given_by(nets: &Vec<IpNet>, ip: &IpAddr) -> (r: bool)
    ensures
        r == any_at(nets@, *ip),
{
    let mut i: usize = 0;
    while i < nets.len()
        invariant
            i <= nets.len(),
            forall|j: int| 0 <= j < i ==> (#[trigger] nets@[j]).spec_addr() != *ip,
        decreases nets.len() - i,
    {
        if nets[i].addr() == *ip {
            return true;
        }
        i = i + 1;
    }
    false
}

/// Whether some network of a list covers `ip`.
pub fn any_contains(nets: &Vec<IpNet>, ip: &IpAddr) -> (r: bool)
    ensures
        r == any_covers(nets@, *ip),
{
    let mut i: usize = 0;
    while i < nets.len()
        invariant
            i <= nets.len(),
            forall|j: int| 0 <= j < i ==> !(#[trigger] nets@[j]).covers(*ip),
        decreases nets.len() - i,
    {
        if nets[i].contains(ip) {
            return true;
        }
        i = i + 1;
    }
    false
}

} // verus!
