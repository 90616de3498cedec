//! What the firewall is told of a peer.

use vstd::prelude::*;

use crate::firewall::{PeerIdentity, StringSet};
use crate::net;
use crate::net::{IpAddr, IpNet};
use crate::protocol::cert::der;
use crate::protocol::cert::der::Network;
use crate::protocol::session::PeerInfo;

verus! {

/// Whether networks have prefixes no longer than their addresses.
pub open spec fn are_sound(ns: Seq<Network>) -> bool {
    forall|i: int| 0 <= i < ns.len() ==> (#[trigger] ns[i]).prefix_len as nat <= ns[i].addr.bits()
}

/// Whether routes are the networks of a certificate.
pub open spec fn are_networks(routes: Seq<IpNet>, ns: Seq<Network>) -> bool {
    &&& routes.len() == ns.len()
    &&& forall|i: int|
        0 <= i < ns.len() ==> (#[trigger] routes[i]).spec_addr() == ns[i].addr
            && routes[i].spec_prefix_len() == ns[i].prefix_len
}

/// Whether routes lead to the addresses alone of the networks of a
/// certificate.
pub open spec fn are_hosts(routes: Seq<IpNet>, ns: Seq<Network>) -> bool {
    &&& routes.len() == ns.len()
    &&& forall|i: int|
        0 <= i < ns.len() ==> (#[trigger] routes[i]).spec_addr() == ns[i].addr
            && routes[i].spec_prefix_len() as nat == ns[i].addr.bits()
}

/// Whether an identity is that of a peer: its own networks count as its
/// addresses alone, and those it gives access to count whole.
pub open spec fn is_identity(
    id: PeerIdentity,
    info: PeerInfo,
    ca_name: Seq<char>,
    ca_sha: Seq<char>,
) -> bool {
    &&& id.name@ == info.name@
    &&& id.groups@ == der::texts(info.groups@).to_set()
    &&& id.ca_name@ == ca_name
    &&& id.ca_sha@ == ca_sha
    &&& are_hosts(id.vpn_networks@, info.networks@)
    &&& are_networks(id.unsafe_networks@, info.unsafe_networks@)
}

/// A network with its whole prefix.
fn to_ipnet(n: &Network) -> (r: IpNet)
    requires
        n.prefix_len as nat <= n.addr.bits(),
    ensures
        r.spec_addr() == n.addr,
        r.spec_prefix_len() == n.prefix_len,
{
    match IpNet::new(n.addr, n.prefix_len) {
        Ok(net) => net,
        Err(_) => IpNet::host_route(n.addr),
    }
}

/// The address of a network alone.
fn to_host_route(n: &Network) -> (r: IpNet)
    ensures
        r.spec_addr() == n.addr,
        r.spec_prefix_len() as nat == n.addr.bits(),
{
    IpNet::host_route(n.addr)
}

/// Whether networks have prefixes no longer than their addresses.
pub fn check_networks(ns: &Vec<Network>) -> (r: bool)
    ensures
        r == are_sound(ns@),
{
    let mut i: usize = 0;
    while i < ns.len()
        invariant
            i <= ns@.len(),
            forall|j: int|
                0 <= j < i ==> (#[trigger] ns@[j]).prefix_len as nat <= ns@[j].addr.bits(),
        decreases ns@.len() - i,
    {
        if ns[i].prefix_len > ns[i].addr.max_prefix_len() {
            return false;
        }
        i = i + 1;
    }
    true
}

/// What the firewall is told of a peer, given what the peer's certificate
/// says and which authority issued it.
pub fn peer_identity(info: &PeerInfo, ca_name: &str, ca_sha: &str) -> (r: PeerIdentity)
    requires
        are_sound(info.unsafe_networks@),
    ensures
        is_identity(r, *info, ca_name@, ca_sha@),
{
    let mut groups = StringSet::new();
    let ghost names = der::texts(info.groups@);
    let mut i: usize = 0;
    assert(names.take(0).to_set() =~= Set::empty());
    while i < info.groups.len()
        invariant
            i <= info.groups@.len(),
            names == der::texts(info.groups@),
            groups@ == names.take(i as int).to_set(),
        decreases info.groups@.len() - i,
    {
        groups.insert(info.groups[i].clone());
        proof {
            let before = names.take(i as int);
            let after = names.take(i + 1);
            assert(after =~= before.push(names[i as int]));
            assert forall|s: Seq<char>| #[trigger]
                after.to_set().contains(s) == before.to_set().insert(names[i as int]).contains(s) by {
                if before.contains(s) {
                    let k = choose|k: int| 0 <= k < before.len() && before[k] == s;
                    assert(after[k] == s);
                }
                if s == names[i as int] {
                    assert(after[i as int] == s);
                }
                if after.contains(s) {
                    let k = choose|k: int| 0 <= k < after.len() && after[k] == s;
                    if k < i {
                        assert(before[k] == s);
                    }
                }
            }
            assert(after.to_set() =~= before.to_set().insert(names[i as int]));
        }
        i = i + 1;
    }
    assert(names.take(i as int) =~= names);
    let mut vpn_networks: Vec<IpNet> = Vec::new();
    let mut k: usize = 0;
    while k < info.networks.len()
        invariant
            k <= info.networks@.len(),
            are_hosts(vpn_networks@, info.networks@.take(k as int)),
        decreases info.networks@.len() - k,
    {
        vpn_networks.push(to_host_route(&info.networks[k]));
        k = k + 1;
    }
    assert(info.networks@.take(k as int) =~= info.networks@);
    let mut unsafe_networks: Vec<IpNet> = Vec::new();
    let mut m: usize = 0;
    while m < info.unsafe_networks.len()
        invariant
            m <= info.unsafe_networks@.len(),
            are_sound(info.unsafe_networks@),
            are_networks(unsafe_networks@, info.unsafe_networks@.take(m as int)),
        decreases info.unsafe_networks@.len() - m,
    {
        unsafe_networks.push(to_ipnet(&info.unsafe_networks[m]));
        m = m + 1;
    }
    assert(info.unsafe_networks@.take(m as int) =~= info.unsafe_networks@);
    PeerIdentity {
        name: info.name.clone(),
        groups,
        ca_name: ca_name.to_string(),
        ca_sha: ca_sha.to_string(),
        vpn_networks,
        unsafe_networks,
    }
}

/// A peer owns the addresses in its certificate and no neighbour of theirs,
/// and whatever lies in the networks it gives access to.
pub proof fn peer_owns_its_addresses(
    id: PeerIdentity,
    info: PeerInfo,
    ca_name: Seq<char>,
    ca_sha: Seq<char>,
    addr: IpAddr,
)
    requires
        is_identity(id, info, ca_name, ca_sha),
    ensures
        id.spec_owns(addr) == ((exists|i: int|
            0 <= i < info.networks@.len() && (#[trigger] info.networks@[i]).addr == addr)
            || net::any_covers(id.unsafe_networks@, addr)),
{
    let routes = id.vpn_networks@;
    let ns = info.networks@;
    if net::any_at(routes, addr) {
        let i = choose|i: int| 0 <= i < routes.len() && (#[trigger] routes[i]).spec_addr() == addr;
        assert(ns[i].addr == addr);
    }
    if exists|i: int| 0 <= i < ns.len() && (#[trigger] ns[i]).addr == addr {
        let i = choose|i: int| 0 <= i < ns.len() && (#[trigger] ns[i]).addr == addr;
        assert(routes[i].spec_addr() == addr);
    }
}

} // verus!
