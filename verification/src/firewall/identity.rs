//! What the firewall knows of a peer.

use vstd::prelude::*;

use crate::net;
use crate::net::{any_contains, any_given_by, IpAddr, IpNet};

verus! {

/// A set of strings.
#[derive(Clone, Debug)]
pub struct StringSet {
    items: Vec<String>,
}

impl View for StringSet {
    type V = Set<Seq<char>>;

    closed spec fn view(&self) -> Set<Seq<char>> {
        Set::new(|s: Seq<char>| exists|i: int| 0 <= i < self.items@.len() && (#[trigger] self.items@[i])@ == s)
    }
}

impl StringSet {
    pub fn new() -> (r: Self)
        ensures
            r@ == Set::<Seq<char>>::empty(),
    {
        let r = StringSet { items: Vec::new() };
        assert(r@ =~= Set::<Seq<char>>::empty());
        r
    }

    pub fn contains(&self, s: &String) -> (r: bool)
        ensures
            r == self@.contains(s@),
    {
        let mut i: usize = 0;
        while i < self.items.len()
            invariant
                i <= self.items@.len(),
                forall|j: int| 0 <= j < i ==> (#[trigger] self.items@[j])@ != s@,
            decreases self.items.len() - i,
        {
            if self.items[i] == *s {
                return true;
            }
            i = i + 1;
        }
        false
    }

    /// Adds `s`, and tells whether it was missing.
    pub fn insert(&mut self, s: String) -> (r: bool)
        ensures
            final(self)@ == old(self)@.insert(s@),
            r == !old(self)@.contains(s@),
    {
        if self.contains(&s) {
            assert(self@ =~= self@.insert(s@));
            return false;
        }
        self.items.push(s);
        proof {
            let before = old(self).items@;
            let after = self.items@;
            assert(after[before.len() as int] == s);
            assert forall|x: Seq<char>| #[trigger]
                self@.contains(x) == old(self)@.insert(s@).contains(x) by {
                if old(self)@.contains(x) {
                    let i = choose|i: int| 0 <= i < before.len() && (#[trigger] before[i])@ == x;
                    assert(after[i] == before[i]);
                }
            }
            assert(self@ =~= old(self)@.insert(s@));
        }
        true
    }
}

impl Default for StringSet {
    fn default() -> (r: Self)
        ensures
            r@ == Set::<Seq<char>>::empty(),
    {
        StringSet::new()
    }
}

/// What a peer's verified certificate, and the authority that signed it, say
/// of the peer.
#[derive(Clone, Debug)]
pub struct PeerIdentity {
    pub name: String,
    pub groups: StringSet,
    pub ca_name: String,
    pub ca_sha: String,
    pub vpn_networks: Vec<IpNet>,
    pub unsafe_networks: Vec<IpNet>,
}

impl PeerIdentity {
    /// Whether `addr` is one of the peer's own addresses, however short the
    /// prefix it was assigned with, or lies in one of the networks behind it.
    pub open spec fn spec_owns(self, addr: IpAddr) -> bool {
        net::any_at(self.vpn_networks@, addr) || net::any_covers(self.unsafe_networks@, addr)
    }

    /// True if `addr` is one of the peer's own assigned addresses, or falls
    /// under one of the routes it advertises.
    pub fn owns(&self, addr: IpAddr) -> (r: bool)
        ensures
            r == self.spec_owns(addr),
    {
        any_given_by(&self.vpn_networks, &addr) || any_contains(&self.unsafe_networks, &addr)
    }
}

impl Default for PeerIdentity {
    fn default() -> (r: Self)
        ensures
            r.name@ == ""@,
            r.groups@ == Set::<Seq<char>>::empty(),
            r.ca_name@ == ""@,
            r.ca_sha@ == ""@,
            r.vpn_networks@ == Seq::<IpNet>::empty(),
            r.unsafe_networks@ == Seq::<IpNet>::empty(),
    {
        PeerIdentity {
            name: "".to_string(),
            groups: StringSet::new(),
            ca_name: "".to_string(),
            ca_sha: "".to_string(),
            vpn_networks: Vec::new(),
            unsafe_networks: Vec::new(),
        }
    }
}

} // verus!
