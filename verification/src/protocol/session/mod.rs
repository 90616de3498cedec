//! What a host knows of its peers, and what it makes of the packets that
//! reach it: certificates, the handshake, the transport and the lighthouse
//! messages come together here. The socket, the waiting and the waking of
//! those who wait are left to the caller.

use std::collections::HashMap;
use vstd::prelude::*;

pub mod laws;
pub mod packets;

use crate::protocol::aead;
use crate::protocol::cert::der;
use crate::protocol::cert::der::{Certificate, CertificateView, Curve, Network};
use crate::protocol::cert::pem;
use crate::protocol::cert::verify;
use crate::protocol::cert::verify::verify_host_cert;
use crate::protocol::error::Error;
use crate::protocol::handshake;
use crate::protocol::handshake::{finish_initiator, respond, stage0, Cipher, SplitKeys, MAX_MESSAGE_LEN};
use crate::protocol::header;
use crate::protocol::header::{handshake_subtype, message_type, Header};
use crate::protocol::lighthouse;
use crate::protocol::transport;
use crate::protocol::transport::Transport;
use crate::protocol::wire;
use crate::protocol::wire::nebula_meta;
use crate::protocol::wire::nebula_meta::MessageType;
use crate::protocol::wire::{NebulaHandshakeDetails, NebulaMeta};
use crate::bytes::{push_all, to_key, to_vec};
use crate::map::KeyMap;
use crate::net::{IpAddr, SocketAddr};
use crate::text::clone_strings;
use crate::time;
use crate::time::{unix_time, Duration};

verus! {

broadcast use vstd::std_specs::hash::group_hash_axioms;

/// What a session is made from. Lighthouses are given by their VPN address:
/// where they can be reached is given like that of any other peer, since
/// nothing is sent to them but through a tunnel.
#[derive(Debug, Clone)]
pub struct SessionConfig {
    pub ca_cert_pem: Vec<u8>,
    pub host_cert_pem: Vec<u8>,
    pub host_key_pem: Vec<u8>,
    pub cipher: Cipher,
    pub bind_addr: SocketAddr,
    pub lighthouses: Vec<IpAddr>,
    pub static_hosts: Vec<(IpAddr, SocketAddr)>,
}

/// A peer with which the handshake is done.
#[derive(Debug)]
pub struct Peer {
    pub transport: Transport,
    /// Where the peer's packets come from, and this host's go.
    pub remote: SocketAddr,
    pub vpn_addr: IpAddr,
    /// The peer's certificate, which was checked.
    pub cert: Certificate,
    /// The index that the peer knows the tunnel by, which goes into the
    /// header of every packet sent to it.
    pub remote_index: u32,
}

#[derive(Debug)]
pub enum PeerState {
    /// A handshake that this host opened waits for its answer.
    Handshaking(snow::HandshakeState),
    Established(Peer),
}

/// What is to be done about a packet that came in.
#[derive(Debug)]
pub enum Event {
    Nothing,
    /// A packet is to be sent.
    Reply(Vec<u8>, SocketAddr),
    /// A handshake that this host opened is done.
    Connected(IpAddr),
    /// A peer sent something.
    Delivered(IpAddr, Vec<u8>),
    /// A lighthouse told where a host can be reached.
    Learned(IpAddr, Vec<SocketAddr>),
}

/// What a peer's certificate says of it.
#[derive(Clone, Debug)]
pub struct PeerInfo {
    pub name: String,
    pub groups: Vec<String>,
    pub networks: Vec<Network>,
    pub unsafe_networks: Vec<Network>,
}

/// Everything a session knows.
pub struct Session {
    ca_cert: Certificate,
    host_cert: Certificate,
    host_private_key: [u8; 32],
    cipher: Cipher,
    vpn_addr: IpAddr,
    lighthouses: Vec<IpAddr>,
    known_addrs: KeyMap<IpAddr, SocketAddr>,
    /// By the index that this host gave the tunnel.
    peers_by_index: HashMap<u32, PeerState>,
    index_by_vpn_addr: KeyMap<IpAddr, u32>,
}

/// Why a configuration is refused.
pub enum Trouble {
    Pem(Seq<char>),
    Der(Seq<char>),
}

pub open spec fn tells(e: Error, t: Trouble) -> bool {
    match t {
        Trouble::Pem(msg) => e matches Error::Pem(s) && s@ == msg,
        Trouble::Der(msg) => e matches Error::Der(s) && s@ == msg,
    }
}

/// The certificate in a text.
pub open spec fn cert_in(text: Seq<u8>) -> Result<CertificateView, Trouble> {
    match pem::contents_of(pem::pem_block(text), pem::CERTIFICATE_V2_BANNER@) {
        Err(msg) => Err(Trouble::Pem(msg)),
        Ok(b) => match der::cert_of(b) {
            Err(msg) => Err(Trouble::Der(msg)),
            Ok(c) => Ok(c),
        },
    }
}

/// The private key in a text.
pub open spec fn key_in(text: Seq<u8>) -> Result<Seq<u8>, Trouble> {
    match pem::contents_of(pem::pem_block(text), pem::X25519_PRIVATE_KEY_BANNER@) {
        Err(msg) => Err(Trouble::Pem(msg)),
        Ok(b) => key_of(b),
    }
}

/// Bytes as a private key.
pub open spec fn key_of(b: Seq<u8>) -> Result<Seq<u8>, Trouble> {
    if b.len() == 32 {
        Ok(b)
    } else {
        Err(Trouble::Pem("host private key is not 32 bytes"@))
    }
}

/// Where hosts can be reached, by a list in which a later entry counts more.
pub open spec fn places_of(hosts: Seq<(IpAddr, SocketAddr)>) -> Map<IpAddr, SocketAddr>
    decreases hosts.len(),
{
    if hosts.len() == 0 {
        Map::empty()
    } else {
        places_of(hosts.drop_last()).insert(hosts.last().0, hosts.last().1)
    }
}

impl Peer {
    /// Whether the peer has a certificate that an authority issued, and goes
    /// by the first address in it.
    pub open spec fn is_vouched_for(self, ca: CertificateView) -> bool {
        &&& self.cert@.details.networks.len() > 0
        &&& self.vpn_addr == self.cert@.details.networks[0].addr
        &&& exists|now: i64| #[trigger]
            verify::issued_by(self.cert@, ca, now) == Ok::<(), Error>(())
    }

    /// Whether only the transport differs.
    pub open spec fn is_still(self, before: Peer) -> bool {
        &&& self.transport.same_keys(before.transport)
        &&& self.remote == before.remote
        &&& self.vpn_addr == before.vpn_addr
        &&& self.cert == before.cert
        &&& self.remote_index == before.remote_index
    }
}

/// The peer that a tunnel leads to, if it is established.
pub open spec fn tunnel(peers: Map<u32, PeerState>, index: u32) -> Option<Peer> {
    if peers.contains_key(index) {
        match peers[index] {
            PeerState::Established(p) => Some(p),
            PeerState::Handshaking(_) => None,
        }
    } else {
        None
    }
}

impl Session {
    /// The certificate of the authority that peers need one from.
    pub closed spec fn ca(self) -> CertificateView {
        self.ca_cert@
    }

    /// This host's certificate.
    pub closed spec fn host(self) -> CertificateView {
        self.host_cert@
    }

    pub closed spec fn private_key(self) -> Seq<u8> {
        self.host_private_key@
    }

    pub closed spec fn spec_cipher(self) -> Cipher {
        self.cipher
    }

    /// This host's address.
    pub closed spec fn own_addr(self) -> IpAddr {
        self.vpn_addr
    }

    pub closed spec fn spec_lighthouses(self) -> Seq<IpAddr> {
        self.lighthouses@
    }

    /// Where hosts can be reached, as far as that is known.
    pub closed spec fn places(self) -> Map<IpAddr, SocketAddr> {
        self.known_addrs@
    }

    /// Tunnels, by the index this host gave them.
    pub closed spec fn peers(self) -> Map<u32, PeerState> {
        self.peers_by_index@
    }

    /// The index of the tunnel to a host.
    pub closed spec fn indexes(self) -> Map<IpAddr, u32> {
        self.index_by_vpn_addr@
    }

    /// The peer at an address, if there is a tunnel to it.
    pub open spec fn peer_at(self, vpn_addr: IpAddr) -> Option<Peer> {
        if self.indexes().contains_key(vpn_addr) {
            tunnel(self.peers(), self.indexes()[vpn_addr])
        } else {
            None
        }
    }

    /// What holds of every session: no tunnel has the index zero, each
    /// address leads to a peer that goes by it, each peer's certificate was
    /// issued by the authority, and all tunnels have the session's cipher.
    pub open spec fn is_valid(self) -> bool {
        &&& self.host().is_sound()
        &&& !self.peers().contains_key(0)
        &&& forall|a: IpAddr| #[trigger]
            self.indexes().contains_key(a) ==> (tunnel(self.peers(), self.indexes()[a]) matches Some(
                p,
            ) && p.vpn_addr == a)
        &&& forall|i: u32| #[trigger]
            tunnel(self.peers(), i) is Some ==> tunnel(self.peers(), i)->0.is_vouched_for(self.ca())
                && tunnel(self.peers(), i)->0.transport.cipher() == self.spec_cipher()
    }

    /// Whether what a session was made from is the same.
    pub open spec fn is_same_host(self, before: Session) -> bool {
        &&& self.ca() == before.ca()
        &&& self.host() == before.host()
        &&& self.private_key() == before.private_key()
        &&& self.spec_cipher() == before.spec_cipher()
        &&& self.own_addr() == before.own_addr()
        &&& self.spec_lighthouses() == before.spec_lighthouses()
    }

    /// A session that has no peers yet.
    pub fn new(config: SessionConfig) -> (r: Result<Self, Error>)
        ensures
            match cert_in(config.ca_cert_pem@) {
                Err(t) => r matches Err(e) && tells(e, t),
                Ok(ca) => match cert_in(config.host_cert_pem@) {
                    Err(t) => r matches Err(e) && tells(e, t),
                    Ok(host) => match key_in(config.host_key_pem@) {
                        Err(t) => r matches Err(e) && tells(e, t),
                        Ok(key) => if host.details.networks.len() == 0 {
                            r matches Err(Error::CertNoNetworks)
                        } else {
                            &&& r matches Ok(s)
                            &&& s.is_valid()
                            &&& s.ca() == ca
                            &&& s.host() == host
                            &&& s.private_key() == key
                            &&& s.spec_cipher() == config.cipher
                            &&& s.own_addr() == host.details.networks[0].addr
                            &&& s.spec_lighthouses() == config.lighthouses@
                            &&& s.places() == places_of(config.static_hosts@)
                            &&& s.peers() == Map::<u32, PeerState>::empty()
                            &&& s.indexes() == Map::<IpAddr, u32>::empty()
                        },
                    },
                },
            },
    {
        let ca_cert = match read_cert(config.ca_cert_pem.as_slice()) {
            Ok(c) => c,
            Err(e) => {
                return Err(e);
            },
        };
        let host_cert = match read_cert(config.host_cert_pem.as_slice()) {
            Ok(c) => c,
            Err(e) => {
                return Err(e);
            },
        };
        let host_private_key = match pem::decode(
            config.host_key_pem.as_slice(),
            pem::X25519_PRIVATE_KEY_BANNER,
        ) {
            Ok(b) => match check_key(b.as_slice()) {
                Ok(k) => k,
                Err(e) => {
                    return Err(e);
                },
            },
            Err(e) => {
                return Err(e);
            },
        };
        if host_cert.details.networks.len() == 0 {
            return Err(Error::CertNoNetworks);
        }
        let vpn_addr = host_cert.details.networks[0].addr;
        let mut known_addrs: KeyMap<IpAddr, SocketAddr> = KeyMap::new();
        let mut i: usize = 0;
        while i < config.static_hosts.len()
            invariant
                i <= config.static_hosts@.len(),
                known_addrs@ == places_of(config.static_hosts@.take(i as int)),
            decreases config.static_hosts@.len() - i,
        {
            let (host, place) = config.static_hosts[i];
            known_addrs.insert(host, place);
            proof {
                let next = config.static_hosts@.take(i + 1);
                assert(next.drop_last() =~= config.static_hosts@.take(i as int));
                assert(next.last() == config.static_hosts@[i as int]);
            }
            i = i + 1;
        }
        assert(config.static_hosts@.take(i as int) =~= config.static_hosts@);
        let s = Session {
            ca_cert,
            host_cert,
            host_private_key,
            cipher: config.cipher,
            vpn_addr,
            lighthouses: config.lighthouses,
            known_addrs,
            peers_by_index: HashMap::new(),
            index_by_vpn_addr: KeyMap::new(),
        };
        Ok(s)
    }
}

/// The certificate in a text.
fn read_cert(text: &[u8]) -> (r: Result<Certificate, Error>)
    ensures
        match cert_in(text@) {
            Ok(c) => r matches Ok(v) && v@ == c && c.is_sound(),
            Err(t) => r matches Err(e) && tells(e, t),
        },
{
    match pem::decode(text, pem::CERTIFICATE_V2_BANNER) {
        Ok(b) => Certificate::decode(b.as_slice()),
        Err(e) => Err(e),
    }
}

/// Bytes as a private key.
pub fn check_key(b: &[u8]) -> (r: Result<[u8; 32], Error>)
    ensures
        match key_of(b@) {
            Ok(k) => r matches Ok(v) && v@ == k,
            Err(t) => r matches Err(e) && tells(e, t),
        },
{
    match to_key(b) {
        Some(k) => Ok(k),
        None => Err(Error::Pem("host private key is not 32 bytes".to_string())),
    }
}

/// The certificate that a peer showed, if it belongs to the public key that
/// the handshake conveyed and was issued by the authority.
pub open spec fn admitted(
    ca: CertificateView,
    now: i64,
    shown: Seq<u8>,
    public_key: Seq<u8>,
) -> Option<CertificateView> {
    match der::recombined(shown, public_key, Curve::Curve25519) {
        Ok(c) => if verify::issued_by(c, ca, now) == Ok::<(), Error>(()) {
            Some(c)
        } else {
            None
        },
        Err(_) => None,
    }
}

/// The header of a handshake packet.
pub open spec fn handshake_header(remote_index: u32, counter: u64) -> Header {
    Header {
        version: header::VERSION,
        type_: message_type::HANDSHAKE,
        subtype: handshake_subtype::IX_PSK0,
        remote_index,
        message_counter: counter,
    }
}

/// The header of a packet that goes through a tunnel.
pub open spec fn tunnel_header(type_: u8, remote_index: u32, counter: u64) -> Header {
    Header { version: header::VERSION, type_, subtype: 0, remote_index, message_counter: counter }
}

/// A header and what comes after it.
fn packet_of(h: &Header, body: &[u8]) -> (r: Vec<u8>)
    ensures
        r@ == header::header_bytes(*h) + body@,
{
    let mut bytes: [u8; 16] = [0u8;16];
    h.encode(&mut bytes);
    let mut packet = to_vec(&bytes);
    push_all(&mut packet, body);
    packet
}

impl Peer {
    /// Whether a tunnel is as it is right after the handshake.
    pub open spec fn is_new(
        self,
        cipher: Cipher,
        send_key: Seq<u8>,
        recv_key: Seq<u8>,
        remote: SocketAddr,
        cert: CertificateView,
        remote_index: u32,
    ) -> bool {
        &&& self.transport.cipher() == cipher
        &&& self.transport.send_key() == send_key
        &&& self.transport.recv_key() == recv_key
        &&& self.transport.sent() == 2
        &&& self.transport.window().highest() == 0
        &&& forall|c: u64| !#[trigger] self.transport.window().has_seen(c)
        &&& self.remote == remote
        &&& self.vpn_addr == cert.details.networks[0].addr
        &&& self.cert@ == cert
        &&& self.remote_index == remote_index
    }
}

impl Session {
    /// Whether an index can be given to a new tunnel.
    pub open spec fn is_fresh(self, index: u32) -> bool {
        index != 0 && !self.peers().contains_key(index)
    }

    /// The index that a clock suggests by the nanoseconds it shows, if it can
    /// be given to a new tunnel.
    pub open spec fn index_at(self, nanos: u32) -> Option<u32> {
        let index = nanos ^ 0x9E37_79B9;
        if self.is_fresh(index) {
            Some(index)
        } else {
            None
        }
    }

    /// An index, if it can be given to a new tunnel.
    pub fn fresh_index(&self, candidate: u32) -> (r: Option<u32>)
        ensures
            r == (if self.is_fresh(candidate) {
                Some(candidate)
            } else {
                None
            }),
    {
        if candidate != 0 && !self.peers_by_index.contains_key(&candidate) {
            Some(candidate)
        } else {
            None
        }
    }

    /// An index for a new tunnel, unless the one that the clock suggests is
    /// taken: then the clock is to be asked again.
    pub fn allocate_index(&self) -> (r: Option<u32>)
        ensures
            r matches Some(i) ==> self.is_fresh(i),
            exists|t: std::time::SystemTime|
                time::machine_shows(t) && r == self.index_at(
                    time::counted_time(#[trigger] time::after_epoch(t)).nanos,
                ),
    {
        let nanos: u32 = unix_time().nanos;
        let r: Option<u32> = self.fresh_index(scramble(nanos));
        assert(r == self.index_at(nanos));
        r
    }

    /// The certificate that a peer showed, if it is in order.
    fn vet(&self, shown: &[u8], public_key: &[u8], now: i64) -> (r: Option<Certificate>)
        ensures
            match admitted(self.ca(), now, shown@, public_key@) {
                Some(c) => r matches Some(v) && v@ == c,
                None => r is None,
            },
    {
        let cert = match Certificate::recombine(shown, public_key, Curve::Curve25519) {
            Ok(c) => c,
            Err(_) => {
                return None;
            },
        };
        match verify_host_cert(&cert, &self.ca_cert, now) {
            Ok(()) => Some(cert),
            Err(_) => None,
        }
    }

    /// Whether a tunnel was added.
    pub open spec fn has_gained(
        self,
        before: Session,
        index: u32,
        send_key: Seq<u8>,
        recv_key: Seq<u8>,
        remote: SocketAddr,
        cert: CertificateView,
        remote_index: u32,
    ) -> bool {
        &&& self.is_same_host(before)
        &&& self.places() == before.places()
        &&& self.peers() == before.peers().insert(index, self.peers()[index])
        &&& tunnel(self.peers(), index) matches Some(p) && p.is_new(
            self.spec_cipher(),
            send_key,
            recv_key,
            remote,
            cert,
            remote_index,
        )
        &&& self.indexes() == before.indexes().insert(cert.details.networks[0].addr, index)
    }

    /// Adds the tunnel to a peer whose certificate is in order.
    fn establish(
        &mut self,
        index: u32,
        cert: Certificate,
        keys: SplitKeys,
        remote: SocketAddr,
        remote_index: u32,
    ) -> (r: IpAddr)
        requires
            old(self).is_valid(),
            old(self).is_fresh(index),
            cert@.details.networks.len() > 0,
            exists|now: i64| #[trigger]
                verify::issued_by(cert@, old(self).ca(), now) == Ok::<(), Error>(()),
        ensures
            final(self).is_valid(),
            final(self).has_gained(
                *old(self),
                index,
                keys.send_key@,
                keys.recv_key@,
                remote,
                cert@,
                remote_index,
            ),
            r == cert@.details.networks[0].addr,
    {
        let vpn_addr = cert.details.networks[0].addr;
        let transport = Transport::new(self.cipher, keys.send_key, keys.recv_key);
        let peer = Peer { transport, remote, vpn_addr, cert, remote_index };
        assert(peer.is_vouched_for(self.ca()));
        let ghost p = peer;
        self.peers_by_index.insert(index, PeerState::Established(peer));
        self.index_by_vpn_addr.insert(vpn_addr, index);
        proof {
            assert(self.peers() =~= old(self).peers().insert(index, PeerState::Established(p)));
            assert(tunnel(self.peers(), index) == Some(p));
            assert forall|i: u32| i != index implies #[trigger] tunnel(self.peers(), i) == tunnel(
                old(self).peers(),
                i,
            ) by {}
        }
        vpn_addr
    }

    /// Takes up a handshake that another host opened, given what reading and
    /// answering it came to: if the host's certificate is in order, the
    /// tunnel is there, and the answer is to be sent.
    pub fn accept_opening(
        &mut self,
        index: u32,
        answered: Result<(NebulaHandshakeDetails, Vec<u8>, SplitKeys), Error>,
        from: SocketAddr,
        now: i64,
    ) -> (r: Option<Vec<u8>>)
        requires
            old(self).is_valid(),
            old(self).is_fresh(index),
        ensures
            final(self).is_valid(),
            match answered {
                Ok((details, reply, keys)) => match admitted(
                    old(self).ca(),
                    now,
                    details.cert@,
                    keys.remote_static@,
                ) {
                    Some(c) => {
                        &&& r matches Some(packet)
                        &&& packet@ == header::header_bytes(
                            handshake_header(details.initiator_index, 2),
                        ) + reply@
                        &&& final(self).has_gained(
                            *old(self),
                            index,
                            keys.send_key@,
                            keys.recv_key@,
                            from,
                            c,
                            details.initiator_index,
                        )
                    },
                    None => r is None && *final(self) == *old(self),
                },
                Err(_) => r is None && *final(self) == *old(self),
            },
    {
        let (details, reply, keys) = match answered {
            Ok(a) => a,
            Err(_) => {
                return None;
            },
        };
        let cert = match self.vet(details.cert.as_slice(), keys.remote_static.as_slice(), now) {
            Some(c) => c,
            None => {
                return None;
            },
        };
        let h = Header {
            version: header::VERSION,
            type_: message_type::HANDSHAKE,
            subtype: handshake_subtype::IX_PSK0,
            remote_index: details.initiator_index,
            message_counter: 2,
        };
        let packet = packet_of(&h, reply.as_slice());
        self.establish(index, cert, keys, from, details.initiator_index);
        Some(packet)
    }

    /// Takes up the answer to a handshake that this host opened, given what
    /// reading it came to: if the other host's certificate is in order, the
    /// tunnel to it is there.
    pub fn accept_answer(
        &mut self,
        index: u32,
        answered: Result<(NebulaHandshakeDetails, SplitKeys), Error>,
        from: SocketAddr,
        now: i64,
    ) -> (r: Option<IpAddr>)
        requires
            old(self).is_valid(),
            old(self).is_fresh(index),
        ensures
            final(self).is_valid(),
            match answered {
                Ok((details, keys)) => match admitted(
                    old(self).ca(),
                    now,
                    details.cert@,
                    keys.remote_static@,
                ) {
                    Some(c) => {
                        &&& r == Some(c.details.networks[0].addr)
                        &&& final(self).has_gained(
                            *old(self),
                            index,
                            keys.send_key@,
                            keys.recv_key@,
                            from,
                            c,
                            details.responder_index,
                        )
                    },
                    None => r is None && *final(self) == *old(self),
                },
                Err(_) => r is None && *final(self) == *old(self),
            },
    {
        let (details, keys) = match answered {
            Ok(a) => a,
            Err(_) => {
                return None;
            },
        };
        match self.vet(details.cert.as_slice(), keys.remote_static.as_slice(), now) {
            Some(c) => Some(self.establish(index, c, keys, from, details.responder_index)),
            None => None,
        }
    }
}

/// A number that looks less regular than the one given.
pub fn scramble(nanos: u32) -> (r: u32)
    ensures
        r == nanos ^ 0x9E37_79B9,
{
    nanos ^ 0x9E37_79B9
}

/// What the first message of a handshake says, and the public key in it, if
/// it is in order.
pub open spec fn opened_with(body: Seq<u8>) -> Option<
    (wire::handshake::HandshakeDetailsView, Seq<u8>),
> {
    if handshake::KEYS_LEN <= body.len() <= MAX_MESSAGE_LEN {
        match wire::handshake::handshake_of(body.skip(64)) {
            Some(h) => match h.details {
                Some(d) => Some((d, body.subrange(32, 64))),
                None => None,
            },
            None => None,
        }
    } else {
        None
    }
}

/// The state of the handshake that this host opened under an index, if it is
/// not answered yet.
pub open spec fn pending(peers: Map<u32, PeerState>, index: u32) -> Option<snow::HandshakeState> {
    if peers.contains_key(index) {
        match peers[index] {
            PeerState::Handshaking(hs) => Some(hs),
            PeerState::Established(_) => None,
        }
    } else {
        None
    }
}

/// Whether `keys` and `reply` are an answer that this host may give to a
/// first message.
pub open spec fn may_answer(
    s: Session,
    index: u32,
    first: Seq<u8>,
    initiator_index: u32,
    reply: Seq<u8>,
    keys: SplitKeys,
) -> bool {
    exists|time: u64| #[trigger]
        handshake::is_finished_by(
            s.spec_cipher(),
            first,
            s.private_key(),
            handshake::answer(der::handshake_bytes(s.host()), initiator_index, index, time),
            reply,
            keys,
        ) && handshake::is_clock_reading(time)
}

/// Whether a state comes of a first message: a host whose certificate is in
/// order gets a tunnel and an answer, unless the answer cannot be written, and
/// nothing comes of any other message.
pub open spec fn takes_opening(
    before: Session,
    after: Session,
    event: Event,
    body: Seq<u8>,
    from: SocketAddr,
    index: u32,
    now: i64,
) -> bool {
    match event {
        Event::Nothing => {
            &&& after == before
            &&& match opened_with(body) {
                None => true,
                Some((d, public_key)) => admitted(before.ca(), now, d.cert, public_key) is None
                    || handshake::answer_fails(
                    before.spec_cipher(),
                    before.private_key(),
                    der::handshake_bytes(before.host()),
                    d.initiator_index,
                    index,
                    body,
                ),
            }
        },
        Event::Reply(packet, to) => {
            &&& to == from
            &&& opened_with(body) matches Some((d, public_key))
            &&& admitted(before.ca(), now, d.cert, public_key) matches Some(c)
            &&& exists|reply: Seq<u8>, keys: SplitKeys| #[trigger]
                may_answer(before, index, body, d.initiator_index, reply, keys) && {
                    &&& packet@ == header::header_bytes(handshake_header(d.initiator_index, 2))
                        + reply
                    &&& after.has_gained(
                        before,
                        index,
                        keys.send_key@,
                        keys.recv_key@,
                        from,
                        c,
                        d.initiator_index,
                    )
                }
        },
        _ => false,
    }
}

/// Whether a state comes of an answer to a handshake that this host opened:
/// the handshake is over, and the other host gets a tunnel if its certificate
/// is in order. Nothing comes of an answer to anything else.
pub open spec fn takes_answer(
    before: Session,
    after: Session,
    event: Event,
    index: u32,
    body: Seq<u8>,
    from: SocketAddr,
    now: i64,
) -> bool {
    match pending(before.peers(), index) {
        None => event == Event::Nothing && after == before,
        Some(hs) => {
            let refused = {
                &&& event == Event::Nothing
                &&& after.is_same_host(before)
                &&& after.places() == before.places()
                &&& after.peers() == before.peers().remove(index)
                &&& after.indexes() == before.indexes()
            };
            match handshake::finished(hs, body) {
                None => refused,
                Some((d, public_key, (send_key, recv_key))) => match admitted(
                    before.ca(),
                    now,
                    d.cert,
                    public_key,
                ) {
                    None => refused,
                    Some(c) => {
                        &&& event == Event::Connected(c.details.networks[0].addr)
                        &&& after.has_gained(
                            before,
                            index,
                            send_key,
                            recv_key,
                            from,
                            c,
                            d.responder_index,
                        )
                    },
                },
            }
        },
    }
}

impl Session {
    /// Takes a handshake packet: one with no index opens a handshake, and one
    /// with an index answers the one that this host opened under it. `index`
    /// is what a new tunnel is to be known by.
    pub fn handle_handshake(
        &mut self,
        hdr: &Header,
        body: &[u8],
        from: SocketAddr,
        index: u32,
        now: i64,
    ) -> (r: Event)
        requires
            old(self).is_valid(),
            old(self).is_fresh(index),
        ensures
            final(self).is_valid(),
            hdr.remote_index == 0 ==> takes_opening(
                *old(self),
                *final(self),
                r,
                body@,
                from,
                index,
                now,
            ),
            hdr.remote_index != 0 ==> takes_answer(
                *old(self),
                *final(self),
                r,
                hdr.remote_index,
                body@,
                from,
                now,
            ),
    {
        if hdr.remote_index == 0 {
            let cert = self.host_cert.encode_for_handshake();
            let answered = respond(self.cipher, &self.host_private_key, cert, index, body);
            let ghost a = answered;
            match self.accept_opening(index, answered, from, now) {
                Some(packet) => {
                    let event = Event::Reply(packet, from);
                    proof {
                        match a {
                            Ok((details, reply, keys)) => {
                                assert(may_answer(
                                    *old(self),
                                    index,
                                    body@,
                                    details.initiator_index,
                                    reply@,
                                    keys,
                                ));
                            },
                            Err(_) => {},
                        }
                    }
                    event
                },
                None => Event::Nothing,
            }
        } else {
            let waits = match self.peers_by_index.get(&hdr.remote_index) {
                Some(PeerState::Handshaking(_)) => true,
                _ => false,
            };
            if !waits {
                return Event::Nothing;
            }
            match self.peers_by_index.remove(&hdr.remote_index) {
                Some(PeerState::Handshaking(hs)) => {
                    proof {
                        self.lemma_pending_can_go(*old(self), hdr.remote_index);
                    }
                    let answered = finish_initiator(hs, body);
                    match self.accept_answer(hdr.remote_index, answered, from, now) {
                        Some(vpn_addr) => {
                            assert(self.peers() =~= old(self).peers().insert(
                                hdr.remote_index,
                                self.peers()[hdr.remote_index],
                            ));
                            Event::Connected(vpn_addr)
                        },
                        None => Event::Nothing,
                    }
                },
                _ => Event::Nothing,
            }
        }
    }

    proof fn lemma_pending_can_go(self, before: Session, index: u32)
        requires
            before.is_valid(),
            pending(before.peers(), index) is Some,
            self.is_same_host(before),
            self.peers() == before.peers().remove(index),
            self.indexes() == before.indexes(),
        ensures
            self.is_valid(),
            self.is_fresh(index),
    {
        assert forall|i: u32| #[trigger] tunnel(self.peers(), i) == tunnel(before.peers(), i) by {}
    }
}

/// What a packet holds for a peer, if its number is new and it is authentic.
pub open spec fn unsealed(
    p: Peer,
    counter: u64,
    header_bytes: Seq<u8>,
    body: Seq<u8>,
) -> Option<Seq<u8>> {
    if transport::accepts(p.transport.window(), counter) {
        aead::opens_to(
            p.transport.cipher(),
            p.transport.recv_key(),
            counter,
            header_bytes,
            body,
        )
    } else {
        None
    }
}

/// Whether the number of a packet that goes through a tunnel was taken down,
/// and nothing else changed but what is known of where hosts can be reached.
pub open spec fn counts_number(before: Session, after: Session, index: u32, counter: u64) -> bool {
    &&& after.is_same_host(before)
    &&& after.indexes() == before.indexes()
    &&& match tunnel(before.peers(), index) {
        None => after.peers() == before.peers(),
        Some(p) => {
            &&& after.peers() == before.peers().insert(index, after.peers()[index])
            &&& tunnel(after.peers(), index) matches Some(q) && {
                &&& q.is_still(p)
                &&& q.transport.sent() == p.transport.sent()
                &&& transport::window_step(
                    p.transport.window(),
                    counter,
                    q.transport.window(),
                    transport::accepts(p.transport.window(), counter),
                )
            }
        },
    }
}

/// What a packet that goes through a tunnel holds, and from whom it is.
pub open spec fn received(
    s: Session,
    hdr: Header,
    header_bytes: Seq<u8>,
    body: Seq<u8>,
) -> Option<(IpAddr, Seq<u8>)> {
    match tunnel(s.peers(), hdr.remote_index) {
        None => None,
        Some(p) => match unsealed(p, hdr.message_counter, header_bytes, body) {
            Some(m) => Some((p.vpn_addr, m)),
            None => None,
        },
    }
}

/// What a packet of a lighthouse tells.
pub open spec fn learned(s: Session, hdr: Header, header_bytes: Seq<u8>, body: Seq<u8>) -> Option<
    (IpAddr, Seq<SocketAddr>),
> {
    match received(s, hdr, header_bytes, body) {
        Some((_, m)) => told(m),
        None => None,
    }
}

/// What a lighthouse's message tells: a host, and where it can be reached.
pub open spec fn told(payload: Seq<u8>) -> Option<(IpAddr, Seq<SocketAddr>)> {
    match wire::meta::meta_of(payload) {
        Some(m) => if m.type_ == nebula_meta::type_number(MessageType::HostQueryReply) || m.type_
            == nebula_meta::type_number(MessageType::HostUpdateNotification) {
            match m.details {
                Some(d) => match d.vpn_addr {
                    Some(a) => if lighthouse::candidates(m).len() > 0 {
                        Some((lighthouse::ip_of(a), lighthouse::candidates(m)))
                    } else {
                        None
                    },
                    None => None,
                },
                None => None,
            }
        } else {
            None
        },
        None => None,
    }
}

impl Session {
    /// Whether the cipher's implementation survives what is behind the header
    /// of a packet.
    pub open spec fn may_open(self, len: int) -> bool {
        aead::survives(self.spec_cipher(), len - aead::TAG_LEN)
    }

    /// A tunnel whose transport changed is as valid as it was.
    proof fn lemma_tunnel_can_change(self, before: Session, index: u32)
        requires
            before.is_valid(),
            self.is_same_host(before),
            self.indexes() == before.indexes(),
            self.peers() == before.peers().insert(index, self.peers()[index]),
            tunnel(before.peers(), index) matches Some(p) && tunnel(self.peers(), index) matches Some(
                q,
            ) && q.is_still(p),
        ensures
            self.is_valid(),
    {
        assert forall|i: u32| i != index implies #[trigger] tunnel(self.peers(), i) == tunnel(
            before.peers(),
            i,
        ) by {}
        let p = tunnel(before.peers(), index)->0;
        assert(p.is_vouched_for(before.ca()));
        assert forall|a: IpAddr| #[trigger] self.indexes().contains_key(a) implies (tunnel(
            self.peers(),
            self.indexes()[a],
        ) matches Some(q) && q.vpn_addr == a) by {
            assert(before.indexes().contains_key(a));
        }
    }

    /// Opens a packet that came through a tunnel, and tells from whom it is.
    /// `header_bytes` is the header as it came, which the packet vouches for.
    fn open_packet(&mut self, hdr: &Header, header_bytes: &[u8], body: &[u8]) -> (r: Option<
        (IpAddr, Vec<u8>),
    >)
        requires
            old(self).is_valid(),
            old(self).may_open(body@.len() as int),
        ensures
            final(self).is_valid(),
            counts_number(*old(self), *final(self), hdr.remote_index, hdr.message_counter),
            final(self).places() == old(self).places(),
            match received(*old(self), *hdr, header_bytes@, body@) {
                Some((from, m)) => r matches Some((f, v)) && f == from && v@ == m,
                None => r is None,
            },
    {
        let there = match self.peers_by_index.get(&hdr.remote_index) {
            Some(PeerState::Established(_)) => true,
            _ => false,
        };
        if !there {
            return None;
        }
        match self.peers_by_index.remove(&hdr.remote_index) {
            Some(PeerState::Established(mut peer)) => {
                let ghost p = peer;
                let vpn_addr = peer.vpn_addr;
                let mut out: Vec<u8> = vec![0u8; body.len()];
                let opened = peer.transport.decrypt(
                    hdr.message_counter,
                    header_bytes,
                    body,
                    out.as_mut_slice(),
                );
                let ghost q = peer;
                self.peers_by_index.insert(hdr.remote_index, PeerState::Established(peer));
                proof {
                    assert(self.peers() =~= old(self).peers().insert(
                        hdr.remote_index,
                        PeerState::Established(q),
                    ));
                    assert(tunnel(self.peers(), hdr.remote_index) == Some(q));
                    self.lemma_tunnel_can_change(*old(self), hdr.remote_index);
                }
                match opened {
                    Ok(len) => {
                        out.truncate(len);
                        proof {
                            let m = unsealed(p, hdr.message_counter, header_bytes@, body@)->0;
                            assert(out@ =~= m);
                        }
                        Some((vpn_addr, out))
                    },
                    Err(_) => None,
                }
            },
            _ => None,
        }
    }

    /// Takes a packet of payload: what it holds, and from whom, if there is a
    /// tunnel for it, its number is new and it is authentic.
    pub fn handle_message(&mut self, hdr: &Header, header_bytes: &[u8], body: &[u8]) -> (r: Option<
        (IpAddr, Vec<u8>),
    >)
        requires
            old(self).is_valid(),
            old(self).may_open(body@.len() as int),
        ensures
            final(self).is_valid(),
            counts_number(*old(self), *final(self), hdr.remote_index, hdr.message_counter),
            final(self).places() == old(self).places(),
            match received(*old(self), *hdr, header_bytes@, body@) {
                Some((from, m)) => r matches Some((f, v)) && f == from && v@ == m,
                None => r is None,
            },
    {
        self.open_packet(hdr, header_bytes, body)
    }

    /// Takes what a lighthouse told: the first place that it names for a host
    /// is where the host is from now on thought to be.
    pub fn learn(&mut self, payload: &[u8]) -> (r: Option<(IpAddr, Vec<SocketAddr>)>)
        requires
            old(self).is_valid(),
        ensures
            final(self).is_valid(),
            match told(payload@) {
                Some((host, places)) => {
                    &&& r matches Some((h, v))
                    &&& h == host
                    &&& v@ == places
                    &&& final(self).is_same_host(*old(self))
                    &&& final(self).peers() == old(self).peers()
                    &&& final(self).indexes() == old(self).indexes()
                    &&& final(self).places() == old(self).places().insert(host, places[0])
                },
                None => r is None && *final(self) == *old(self),
            },
    {
        let meta = match NebulaMeta::decode(payload) {
            Ok(m) => m,
            Err(_) => {
                return None;
            },
        };
        if meta.type_ != MessageType::HostQueryReply.as_i32() && meta.type_
            != MessageType::HostUpdateNotification.as_i32() {
            return None;
        }
        let addrs = lighthouse::candidate_addrs(&meta);
        if addrs.len() == 0 {
            return None;
        }
        let details = match &meta.details {
            Some(d) => d,
            None => {
                return None;
            },
        };
        let host = match &details.vpn_addr {
            Some(a) => lighthouse::addr_to_ip(a),
            None => {
                return None;
            },
        };
        self.known_addrs.insert(host, addrs[0]);
        proof {
            assert forall|i: u32| #[trigger] tunnel(self.peers(), i) == tunnel(old(self).peers(), i) by {}
        }
        Some((host, addrs))
    }
}

/// Whether an event says that something was delivered, or that nothing was.
pub open spec fn delivers(event: Event, what: Option<(IpAddr, Seq<u8>)>) -> bool {
    match what {
        Some((from, m)) => event matches Event::Delivered(f, v) && f == from && v@ == m,
        None => event == Event::Nothing,
    }
}

/// Whether an event says that something was learned, or that nothing was.
pub open spec fn teaches(event: Event, what: Option<(IpAddr, Seq<SocketAddr>)>) -> bool {
    match what {
        Some((host, places)) => event matches Event::Learned(h, v) && h == host && v@ == places,
        None => event == Event::Nothing,
    }
}

/// Where hosts can be reached after something was learned.
pub open spec fn places_after(
    places: Map<IpAddr, SocketAddr>,
    what: Option<(IpAddr, Seq<SocketAddr>)>,
) -> Map<IpAddr, SocketAddr> {
    match what {
        Some((host, addrs)) => places.insert(host, addrs[0]),
        None => places,
    }
}

/// Whether a state and an event come of a packet.
pub open spec fn takes_packet(
    before: Session,
    after: Session,
    event: Event,
    packet: Seq<u8>,
    from: SocketAddr,
    index: u32,
    now: i64,
) -> bool {
    if packet.len() < header::LEN {
        event == Event::Nothing && after == before
    } else {
        let hdr = header::header_of(packet);
        let head = packet.take(16);
        let body = packet.skip(16);
        if hdr.type_ == message_type::HANDSHAKE {
            if hdr.remote_index == 0 {
                takes_opening(before, after, event, body, from, index, now)
            } else {
                takes_answer(before, after, event, hdr.remote_index, body, from, now)
            }
        } else if hdr.type_ == message_type::MESSAGE {
            &&& counts_number(before, after, hdr.remote_index, hdr.message_counter)
            &&& after.places() == before.places()
            &&& delivers(event, received(before, hdr, head, body))
        } else if hdr.type_ == message_type::LIGHTHOUSE {
            &&& counts_number(before, after, hdr.remote_index, hdr.message_counter)
            &&& after.places() == places_after(before.places(), learned(before, hdr, head, body))
            &&& teaches(event, learned(before, hdr, head, body))
        } else {
            event == Event::Nothing && after == before
        }
    }
}

impl Session {
    /// Takes a packet of a lighthouse, which comes through a tunnel like any
    /// other.
    pub fn handle_lighthouse(&mut self, hdr: &Header, header_bytes: &[u8], body: &[u8]) -> (r:
        Option<(IpAddr, Vec<SocketAddr>)>)
        requires
            old(self).is_valid(),
            old(self).may_open(body@.len() as int),
        ensures
            final(self).is_valid(),
            counts_number(*old(self), *final(self), hdr.remote_index, hdr.message_counter),
            final(self).places() == places_after(
                old(self).places(),
                learned(*old(self), *hdr, header_bytes@, body@),
            ),
            match learned(*old(self), *hdr, header_bytes@, body@) {
                Some((host, places)) => r matches Some((h, v)) && h == host && v@ == places,
                None => r is None,
            },
    {
        match self.open_packet(hdr, header_bytes, body) {
            Some((_, payload)) => self.learn(payload.as_slice()),
            None => None,
        }
    }

    /// Takes a packet that came from `from`. `index` is what a new tunnel is
    /// to be known by, and `now` is the time since the start of 1970 in
    /// seconds.
    pub fn receive(&mut self, packet: &[u8], from: SocketAddr, index: u32, now: i64) -> (r: Event)
        requires
            old(self).is_valid(),
            old(self).is_fresh(index),
            old(self).may_open(packet@.len() - header::LEN),
        ensures
            final(self).is_valid(),
            takes_packet(*old(self), *final(self), r, packet@, from, index, now),
    {
        let hdr = match Header::parse(packet) {
            Ok(h) => h,
            Err(_) => {
                return Event::Nothing;
            },
        };
        let head = &packet[0..header::LEN];
        let body = &packet[header::LEN..packet.len()];
        proof {
            assert(head@ =~= packet@.take(16));
            assert(body@ =~= packet@.skip(16));
        }
        if hdr.type_ == message_type::HANDSHAKE {
            self.handle_handshake(&hdr, body, from, index, now)
        } else if hdr.type_ == message_type::MESSAGE {
            match self.handle_message(&hdr, head, body) {
                Some((peer, payload)) => Event::Delivered(peer, payload),
                None => Event::Nothing,
            }
        } else if hdr.type_ == message_type::LIGHTHOUSE {
            match self.handle_lighthouse(&hdr, head, body) {
                Some((host, places)) => Event::Learned(host, places),
                None => Event::Nothing,
            }
        } else {
            Event::Nothing
        }
    }
}

impl PeerInfo {
    /// Whether this is what a certificate says.
    pub open spec fn is_of(self, cert: CertificateView) -> bool {
        &&& self.name@ == cert.details.name
        &&& der::texts(self.groups@) == cert.details.groups
        &&& self.networks@ == cert.details.networks
        &&& self.unsafe_networks@ == cert.details.unsafe_networks
    }
}

/// A copy of a list of networks.
fn clone_networks(v: &Vec<Network>) -> (r: Vec<Network>)
    ensures
        r@ == v@,
{
    let mut r: Vec<Network> = Vec::new();
    let mut i: usize = 0;
    while i < v.len()
        invariant
            i <= v@.len(),
            r@ == v@.take(i as int),
        decreases v@.len() - i,
    {
        r.push(v[i]);
        assert(v@.take(i + 1) =~= v@.take(i as int).push(v@[i as int]));
        i = i + 1;
    }
    assert(v@.take(i as int) =~= v@);
    r
}

/// What is to be done to find a host.
#[derive(Debug)]
pub enum Resolution {
    /// It is known where the host can be reached.
    Known(SocketAddr),
    /// Lighthouses are to be asked, by this message.
    Ask(Vec<u8>),
}

/// How a lighthouse can be reached. Nobody is asked where a lighthouse is.
#[derive(Debug, Clone, Copy, PartialEq, Eq, Structural)]
pub enum LighthouseWay {
    /// There is a tunnel to it.
    Tunnel,
    /// There is none yet, but it is known where the lighthouse is.
    Connect(SocketAddr),
    /// There is none, and it is not known where the lighthouse is.
    Unknown,
}

/// The first of the places that a lighthouse named for a host.
pub fn first_place(vpn_addr: IpAddr, places: &Vec<SocketAddr>) -> (r: Result<SocketAddr, Error>)
    ensures
        r == (if places@.len() > 0 {
            Ok::<SocketAddr, Error>(places@[0])
        } else {
            Err::<SocketAddr, Error>(Error::PeerUnreachable(vpn_addr))
        }),
{
    if places.len() > 0 {
        Ok(places[0])
    } else {
        Err(Error::PeerUnreachable(vpn_addr))
    }
}

/// Seconds as a signed number: one that is too large for it wraps around.
pub open spec fn signed(secs: u64) -> int {
    if secs <= i64::MAX {
        secs as int
    } else {
        secs - 0x1_0000_0000_0000_0000
    }
}

/// The whole seconds of a span, as a signed number: one that is too large for
/// it wraps around.
pub fn signed_secs(span: Duration) -> (r: i64)
    ensures
        r == signed(span.secs),
{
    let secs: u64 = span.secs;
    assert(secs as i64 == (if secs <= 0x7fff_ffff_ffff_ffffu64 {
        secs as int
    } else {
        secs - 0x1_0000_0000_0000_0000
    })) by (bit_vector);
    #[verifier::truncate]
    (secs as i64)
}

/// The time since the start of 1970 in seconds, which is whatever the machine
/// says.
pub fn now_unix() -> (r: i64)
    ensures
        exists|t: std::time::SystemTime|
            time::machine_shows(t) && r == signed(
                time::counted_time(#[trigger] time::after_epoch(t)).secs,
            ),
{
    signed_secs(unix_time())
}

/// What a packet through a tunnel is, given the number it gets.
pub open spec fn sealed(p: Peer, type_: u8, counter: u64, payload: Seq<u8>) -> Option<Seq<u8>> {
    let head = header::header_bytes(tunnel_header(type_, p.remote_index, counter));
    match aead::seals_to(
        p.transport.cipher(),
        p.transport.send_key(),
        counter,
        head,
        payload,
    ) {
        Some(c) => Some(head + c),
        None => None,
    }
}

/// Whether a state and a packet come of sending something to the peer at an
/// address. The packet can be opened with the key that it was sealed with.
pub open spec fn sends(
    before: Session,
    after: Session,
    r: Result<(Vec<u8>, SocketAddr), Error>,
    vpn_addr: IpAddr,
    type_: u8,
    payload: Seq<u8>,
) -> bool {
    match before.peer_at(vpn_addr) {
        None => {
            &&& after == before
            &&& r == Err::<(Vec<u8>, SocketAddr), Error>(Error::PeerUnreachable(vpn_addr))
        },
        Some(p) => {
            let counter = (p.transport.sent() + 1) as u64;
            &&& after.has_spent_number(before, vpn_addr)
            &&& match sealed(p, type_, counter, payload) {
                Some(b) => {
                    &&& r matches Ok((packet, to))
                    &&& packet@ == b
                    &&& to == p.remote
                    &&& aead::opens_to(
                        p.transport.cipher(),
                        p.transport.send_key(),
                        counter,
                        b.take(16),
                        b.skip(16),
                    ) == Some(payload)
                },
                None => r == Err::<(Vec<u8>, SocketAddr), Error>(Error::DecryptFailed),
            }
        },
    }
}

impl Session {
    /// Whether a number was used up for a packet through the tunnel to a host.
    pub open spec fn has_spent_number(self, before: Session, vpn_addr: IpAddr) -> bool {
        let index = before.indexes()[vpn_addr];
        &&& self.is_same_host(before)
        &&& self.places() == before.places()
        &&& self.indexes() == before.indexes()
        &&& self.peers() == before.peers().insert(index, self.peers()[index])
        &&& before.peer_at(vpn_addr) matches Some(p) && self.peer_at(vpn_addr) matches Some(q) && {
            &&& q.is_still(p)
            &&& q.transport.sent() == p.transport.sent() + 1
            &&& q.transport.window() == p.transport.window()
        }
    }

    /// What the certificate of the peer at an address says, once there is a
    /// tunnel to it.
    pub fn peer_info(&self, vpn_addr: IpAddr) -> (r: Option<PeerInfo>)
        ensures
            match self.peer_at(vpn_addr) {
                Some(p) => r matches Some(info) && info.is_of(p.cert@),
                None => r is None,
            },
    {
        let index: u32 = match self.index_by_vpn_addr.get(&vpn_addr) {
            Some(i) => *i,
            None => {
                return None;
            },
        };
        match self.peers_by_index.get(&index) {
            Some(PeerState::Established(p)) => {
                let groups = clone_strings(&p.cert.details.groups);
                proof {
                    assert(der::texts(groups@) =~= der::texts(p.cert.details.groups@));
                }
                Some(
                    PeerInfo {
                        name: p.cert.details.name.clone(),
                        groups,
                        networks: clone_networks(&p.cert.details.networks),
                        unsafe_networks: clone_networks(&p.cert.details.unsafe_networks),
                    },
                )
            },
            _ => None,
        }
    }

    pub fn lighthouses(&self) -> (r: &Vec<IpAddr>)
        ensures
            r@ == self.spec_lighthouses(),
    {
        &self.lighthouses
    }

    /// The message that tells lighthouses where this host can be reached.
    pub fn registration(&self, local_addr: SocketAddr) -> (r: Vec<u8>)
        ensures
            r@ == wire::meta::meta_bytes(
                lighthouse::update_of(self.own_addr(), seq![local_addr]),
            ),
    {
        let places: [SocketAddr; 1] = [local_addr];
        assert(places@ =~= seq![local_addr]);
        lighthouse::host_update_notification(self.vpn_addr, &places).encode_to_vec()
    }

    /// How a host is to be found: where it is known to be, or by asking
    /// lighthouses.
    pub fn resolve(&self, vpn_addr: IpAddr) -> (r: Resolution)
        ensures
            if self.places().contains_key(vpn_addr) {
                r == Resolution::Known(self.places()[vpn_addr])
            } else {
                r matches Resolution::Ask(m) && m@ == wire::meta::meta_bytes(
                    lighthouse::query_of(vpn_addr),
                )
            },
    {
        match self.known_addrs.get(&vpn_addr) {
            Some(place) => Resolution::Known(*place),
            None => Resolution::Ask(lighthouse::host_query(vpn_addr).encode_to_vec()),
        }
    }

    /// How a lighthouse is to be reached.
    pub fn way_to_lighthouse(&self, lighthouse: IpAddr) -> (r: LighthouseWay)
        ensures
            r == (if self.peer_at(lighthouse) is Some {
                LighthouseWay::Tunnel
            } else if self.places().contains_key(lighthouse) {
                LighthouseWay::Connect(self.places()[lighthouse])
            } else {
                LighthouseWay::Unknown
            }),
    {
        if let Some(index) = self.index_by_vpn_addr.get(&lighthouse) {
            if let Some(PeerState::Established(_)) = self.peers_by_index.get(index) {
                return LighthouseWay::Tunnel;
            }
        }
        match self.known_addrs.get(&lighthouse) {
            Some(place) => LighthouseWay::Connect(*place),
            None => LighthouseWay::Unknown,
        }
    }

    /// Opens a handshake under an index, and returns the packet to send. It
    /// fails only where the random source does, or if this host's certificate
    /// is too long.
    pub fn connect(&mut self, index: u32) -> (r: Result<Vec<u8>, Error>)
        requires
            old(self).is_valid(),
            old(self).is_fresh(index),
        ensures
            final(self).is_valid(),
            match r {
                Ok(packet) => {
                    &&& final(self).is_same_host(*old(self))
                    &&& final(self).places() == old(self).places()
                    &&& final(self).indexes() == old(self).indexes()
                    &&& final(self).peers() == old(self).peers().insert(
                        index,
                        final(self).peers()[index],
                    )
                    &&& packet@.len() >= 16
                    &&& packet@.take(16) == header::header_bytes(handshake_header(0, 1))
                    &&& pending(final(self).peers(), index) matches Some(hs) && exists|time: u64|
                        handshake::opens(
                            old(self).spec_cipher(),
                            old(self).private_key(),
                            der::handshake_bytes(old(self).host()),
                            index,
                            time,
                            hs,
                            packet@.skip(16),
                        )
                },
                Err(e) => {
                    &&& e matches Error::Noise(s) && handshake::opening_fails(
                        old(self).spec_cipher(),
                        old(self).private_key(),
                        der::handshake_bytes(old(self).host()),
                        index,
                        s@,
                    )
                    &&& *final(self) == *old(self)
                },
            },
    {
        let cert = self.host_cert.encode_for_handshake();
        let opened = stage0(self.cipher, &self.host_private_key, cert, index);
        let ghost o = opened;
        let r = self.await_answer(index, opened);
        proof {
            if let Ok((hs, message)) = o {
                let h = handshake_header(0, 1);
                header::header_round_trips(h, message@);
                let packet = header::header_bytes(h) + message@;
                assert(packet.take(16) =~= header::header_bytes(h));
                assert(packet.skip(16) =~= message@);
                assert(pending(self.peers(), index) == Some(hs));
                let time = choose|time: u64|
                    handshake::opens(
                        old(self).spec_cipher(),
                        old(self).private_key(),
                        der::handshake_bytes(old(self).host()),
                        index,
                        time,
                        hs,
                        message@,
                    );
                assert(handshake::opens(
                    old(self).spec_cipher(),
                    old(self).private_key(),
                    der::handshake_bytes(old(self).host()),
                    index,
                    time,
                    pending(self.peers(), index)->0,
                    r->Ok_0@.skip(16),
                ));
            }
        }
        r
    }

    /// Takes up a handshake that this host is to open under an index, given
    /// what opening it came to: the handshake waits for its answer, and the
    /// packet is to be sent.
    pub fn await_answer(
        &mut self,
        index: u32,
        opened: Result<(snow::HandshakeState, Vec<u8>), Error>,
    ) -> (r: Result<Vec<u8>, Error>)
        requires
            old(self).is_valid(),
            old(self).is_fresh(index),
        ensures
            final(self).is_valid(),
            match opened {
                Ok((hs, m)) => {
                    &&& r matches Ok(p) && p@ == header::header_bytes(handshake_header(0, 1)) + m@
                    &&& final(self).is_same_host(*old(self))
                    &&& final(self).places() == old(self).places()
                    &&& final(self).indexes() == old(self).indexes()
                    &&& final(self).peers() == old(self).peers().insert(
                        index,
                        PeerState::Handshaking(hs),
                    )
                },
                Err(e) => r == Err::<Vec<u8>, Error>(e) && *final(self) == *old(self),
            },
    {
        let (hs, message) = match opened {
            Ok(o) => o,
            Err(e) => {
                return Err(e);
            },
        };
        self.peers_by_index.insert(index, PeerState::Handshaking(hs));
        let hdr = Header {
            version: header::VERSION,
            type_: message_type::HANDSHAKE,
            subtype: handshake_subtype::IX_PSK0,
            remote_index: 0,
            message_counter: 1,
        };
        proof {
            assert(self.peers() =~= old(self).peers().insert(index, PeerState::Handshaking(hs)));
            assert forall|i: u32| #[trigger] tunnel(self.peers(), i) == tunnel(old(self).peers(), i) by {}
        }
        Ok(packet_of(&hdr, message.as_slice()))
    }

    /// Whether something of a length can be sealed for the peer at an address:
    /// there is a number left for the packet, and the cipher's implementation
    /// survives the length.
    pub open spec fn may_seal(self, vpn_addr: IpAddr, len: nat) -> bool {
        &&& len + 32 <= usize::MAX
        &&& aead::survives(self.spec_cipher(), len as int)
        &&& self.peer_at(vpn_addr) matches Some(p) ==> p.transport.sent() < u64::MAX
    }

    pub fn can_send(&self, vpn_addr: IpAddr, len: usize) -> (r: bool)
        ensures
            r == self.may_seal(vpn_addr, len as nat),
    {
        if len > usize::MAX - 32 {
            return false;
        }
        let blocks: usize = len / 64;
        if self.cipher == Cipher::ChaChaPoly && blocks == 0xffff_fffe && len % 64 != 0 {
            return false;
        }
        let index: u32 = match self.index_by_vpn_addr.get(&vpn_addr) {
            Some(i) => *i,
            None => {
                return true;
            },
        };
        match self.peers_by_index.get(&index) {
            Some(PeerState::Established(p)) => !p.transport.is_spent(),
            _ => true,
        }
    }

    /// Seals something for the peer at an address, and returns the packet and
    /// where it is to be sent. The header, which holds the peer's own index
    /// for the tunnel and the packet's number, is authenticated with it.
    fn seal(&mut self, vpn_addr: IpAddr, type_: u8, payload: &[u8]) -> (r: Result<
        (Vec<u8>, SocketAddr),
        Error,
    >)
        requires
            old(self).is_valid(),
            old(self).may_seal(vpn_addr, payload@.len()),
        ensures
            final(self).is_valid(),
            sends(*old(self), *final(self), r, vpn_addr, type_, payload@),
    {
        let index: u32 = match self.index_by_vpn_addr.get(&vpn_addr) {
            Some(i) => *i,
            None => {
                return Err(Error::PeerUnreachable(vpn_addr));
            },
        };
        let there = match self.peers_by_index.get(&index) {
            Some(PeerState::Established(_)) => true,
            _ => false,
        };
        if !there {
            return Err(Error::PeerUnreachable(vpn_addr));
        }
        match self.peers_by_index.remove(&index) {
            Some(PeerState::Established(mut peer)) => {
                let ghost p = peer;
                let remote = peer.remote;
                let counter: u64 = peer.transport.next_counter();
                let hdr = Header {
                    version: header::VERSION,
                    type_,
                    subtype: 0,
                    remote_index: peer.remote_index,
                    message_counter: counter,
                };
                let mut head: [u8; 16] = [0u8;16];
                hdr.encode(&mut head);
                let mut ciphertext: Vec<u8> = vec![0u8; payload.len() + 32];
                let done = peer.transport.encrypt(counter, &head, payload, ciphertext.as_mut_slice());
                let ghost q = peer;
                self.peers_by_index.insert(index, PeerState::Established(peer));
                proof {
                    assert(self.peers() =~= old(self).peers().insert(
                        index,
                        PeerState::Established(q),
                    ));
                    assert(tunnel(self.peers(), index) == Some(q));
                    self.lemma_tunnel_can_change(*old(self), index);
                }
                match done {
                    Ok(len) => {
                        ciphertext.truncate(len);
                        let mut packet = to_vec(&head);
                        push_all(&mut packet, ciphertext.as_slice());
                        proof {
                            let c = aead::seals_to(
                                p.transport.cipher(),
                                p.transport.send_key(),
                                counter,
                                head@,
                                payload@,
                            )->0;
                            assert(ciphertext@ =~= c);
                            assert(packet@.take(16) =~= head@);
                            assert(packet@.skip(16) =~= c);
                        }
                        Ok((packet, remote))
                    },
                    Err(e) => Err(e),
                }
            },
            _ => Err(Error::PeerUnreachable(vpn_addr)),
        }
    }
}

impl Session {
    /// The packet that takes something to the peer at an address, and where
    /// it is to be sent.
    pub fn send(&mut self, vpn_addr: IpAddr, payload: &[u8]) -> (r: Result<
        (Vec<u8>, SocketAddr),
        Error,
    >)
        requires
            old(self).is_valid(),
            old(self).may_seal(vpn_addr, payload@.len()),
        ensures
            final(self).is_valid(),
            sends(*old(self), *final(self), r, vpn_addr, message_type::MESSAGE, payload@),
    {
        self.seal(vpn_addr, message_type::MESSAGE, payload)
    }

    /// The packet that takes a message to a lighthouse, and where it is to be
    /// sent.
    pub fn send_to_lighthouse(&mut self, vpn_addr: IpAddr, message: &[u8]) -> (r: Result<
        (Vec<u8>, SocketAddr),
        Error,
    >)
        requires
            old(self).is_valid(),
            old(self).may_seal(vpn_addr, message@.len()),
        ensures
            final(self).is_valid(),
            sends(*old(self), *final(self), r, vpn_addr, message_type::LIGHTHOUSE, message@),
    {
        self.seal(vpn_addr, message_type::LIGHTHOUSE, message)
    }
}

} // verus!
