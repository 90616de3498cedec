//! What comes of a packet, and what packets a session sends.

use vstd::prelude::*;

use crate::bytes;
use crate::net::{IpAddr, SocketAddr};
use crate::protocol::aead;
use crate::protocol::cert::der;
use crate::protocol::cert::der::{CertificateView, Curve};
use crate::protocol::cert::verify;
use crate::protocol::error::Error;
use crate::protocol::handshake;
use crate::protocol::header;
use crate::protocol::laws;
use crate::protocol::session;
use crate::protocol::session::{Event, Peer, PeerInfo, Session};
use crate::protocol::transport;
use crate::protocol::wire;

verus! {

/// Whether a first message is in order: it holds two keys and no more than a
/// message may, says something of the host that sent it, and shows a
/// certificate that the authority issued for the second key.
pub open spec fn is_good_opening(
    ca: CertificateView,
    now: i64,
    body: Seq<u8>,
    d: wire::handshake::HandshakeDetailsView,
    c: CertificateView,
) -> bool {
    &&& 64 <= body.len() <= 65535
    &&& wire::handshake::handshake_of(body.skip(64)) matches Some(h) && h.details == Some(d)
    &&& der::recombined(d.cert, body.subrange(32, 64), Curve::Curve25519) == Ok::<
        CertificateView,
        Seq<char>,
    >(c)
    &&& verify::issued_by(c, ca, now) == Ok::<(), Error>(())
}

/// Whether Noise failed to write an answer to a first message.
pub open spec fn noise_fails(
    s: Session,
    body: Seq<u8>,
    d: wire::handshake::HandshakeDetailsView,
    index: u32,
) -> bool {
    exists|hs: snow::HandshakeState, time: u64, error: Seq<char>|
        handshake::has_read_first(s.spec_cipher(), s.private_key(), body, hs)
            && #[trigger] handshake::write_fails(
            hs,
            wire::handshake::handshake_bytes(
                handshake::answer(der::handshake_bytes(s.host()), d.initiator_index, index, time),
            ),
            error,
        )
}

/// Whether a tunnel is new and leads to the host with a certificate.
pub open spec fn leads_to(
    p: Peer,
    c: CertificateView,
    remote: SocketAddr,
    remote_index: u32,
) -> bool {
    &&& p.cert@ == c
    &&& p.vpn_addr == c.details.networks[0].addr
    &&& p.remote == remote
    &&& p.remote_index == remote_index
    &&& p.transport.sent() == 2
    &&& forall|n: u64| !#[trigger] p.transport.window().has_seen(n)
}

/// Whether a session is made from the same things as another.
pub open spec fn keeps_configuration(after: Session, before: Session) -> bool {
    &&& after.ca() == before.ca()
    &&& after.host() == before.host()
    &&& after.private_key() == before.private_key()
    &&& after.spec_cipher() == before.spec_cipher()
    &&& after.own_addr() == before.own_addr()
    &&& after.spec_lighthouses() == before.spec_lighthouses()
}

/// Whether a tunnel was added and all others are as they were.
pub open spec fn only_adds(
    before: Session,
    after: Session,
    index: u32,
    c: CertificateView,
    remote: SocketAddr,
    remote_index: u32,
) -> bool {
    let addr = c.details.networks[0].addr;
    &&& keeps_configuration(after, before)
    &&& after.places() == before.places()
    &&& after.peer_at(addr) matches Some(p) && leads_to(p, c, remote, remote_index)
    &&& session::tunnel(after.peers(), index) == after.peer_at(addr)
    &&& forall|i: u32|
        i != index ==> #[trigger] session::tunnel(after.peers(), i) == session::tunnel(
            before.peers(),
            i,
        ) && session::pending(after.peers(), i) == session::pending(before.peers(), i)
    &&& forall|a: IpAddr|
        a != addr ==> #[trigger] after.peer_at(a) == before.peer_at(a)
}

/// A first message that is in order is answered whatever tunnels there are,
/// unless Noise fails to write the answer: the answer goes where the message
/// came from, and there is a tunnel to the host that sent it, by its first
/// address, beside all the others.
pub proof fn good_opening_is_answered(
    before: Session,
    after: Session,
    event: Event,
    body: Seq<u8>,
    from: SocketAddr,
    index: u32,
    now: i64,
    d: wire::handshake::HandshakeDetailsView,
    c: CertificateView,
)
    requires
        before.is_valid(),
        before.is_fresh(index),
        session::takes_opening(before, after, event, body, from, index, now),
        is_good_opening(before.ca(), now, body, d, c),
        !noise_fails(before, body, d, index),
    ensures
        event matches Event::Reply(packet, to) && {
            &&& to == from
            &&& packet@.len() >= 16
            &&& laws::is_laid_out(
                (header::Header {
                    version: 1,
                    type_: 0,
                    subtype: 0,
                    remote_index: d.initiator_index,
                    message_counter: 2,
                }),
                packet@,
            )
        },
        only_adds(before, after, index, c, from, d.initiator_index),
{
    assert(session::opened_with(body) == Some((d, body.subrange(32, 64))));
    assert(session::admitted(before.ca(), now, d.cert, body.subrange(32, 64)) == Some(c));
    if event is Nothing {
        let (hs, time, error) = choose|
            hs: snow::HandshakeState,
            time: u64,
            error: Seq<char>,
        |
            handshake::has_read_first(before.spec_cipher(), before.private_key(), body, hs)
                && #[trigger] handshake::write_fails(
                hs,
                wire::handshake::handshake_bytes(
                    handshake::answer(
                        der::handshake_bytes(before.host()),
                        d.initiator_index,
                        index,
                        time,
                    ),
                ),
                error,
            );
        assert(noise_fails(before, body, d, index));
    }
    let h = session::handshake_header(d.initiator_index, 2);
    laws::header_is_laid_out(h);
    let packet = event->Reply_0@;
    assert(forall|i: int| 0 <= i < 16 ==> packet[i] == header::header_bytes(h)[i]);
    assert forall|a: IpAddr| a != c.details.networks[0].addr implies #[trigger] after.peer_at(a)
        == before.peer_at(a) by {
        if before.indexes().contains_key(a) {
            assert(session::tunnel(before.peers(), before.indexes()[a]) is Some);
        }
    }
}

/// Nothing comes of a first message only if it is not in order, or Noise
/// failed to write the answer; the session is then as it was.
pub proof fn only_bad_openings_go_unanswered(
    before: Session,
    after: Session,
    event: Event,
    body: Seq<u8>,
    from: SocketAddr,
    index: u32,
    now: i64,
)
    requires
        session::takes_opening(before, after, event, body, from, index, now),
    ensures
        event is Nothing || event is Reply,
        event is Nothing ==> after == before,
        event is Nothing ==> forall|
            d: wire::handshake::HandshakeDetailsView,
            c: CertificateView,
        | #[trigger]
            is_good_opening(before.ca(), now, body, d, c) ==> noise_fails(before, body, d, index),
        event is Reply ==> exists|
            d: wire::handshake::HandshakeDetailsView,
            c: CertificateView,
        | #[trigger] is_good_opening(before.ca(), now, body, d, c),
{
    if event is Nothing {
        assert forall|
            d: wire::handshake::HandshakeDetailsView,
            c: CertificateView,
        | #[trigger] is_good_opening(before.ca(), now, body, d, c) implies noise_fails(
            before,
            body,
            d,
            index,
        ) by {
            assert(session::opened_with(body) == Some((d, body.subrange(32, 64))));
            assert(session::admitted(before.ca(), now, d.cert, body.subrange(32, 64)) == Some(c));
            let (hs, time, error) = choose|
                hs: snow::HandshakeState,
                time: u64,
                error: Seq<char>,
            |
                handshake::has_read_first(before.spec_cipher(), before.private_key(), body, hs)
                    && #[trigger] handshake::write_fails(
                    hs,
                    wire::handshake::handshake_bytes(
                        handshake::answer(
                            der::handshake_bytes(before.host()),
                            d.initiator_index,
                            index,
                            time,
                        ),
                    ),
                    error,
                );
        }
    }
    if event is Reply {
        let (d, key) = session::opened_with(body)->0;
        let c = session::admitted(before.ca(), now, d.cert, key)->0;
        assert(is_good_opening(before.ca(), now, body, d, c));
    }
}

/// Whether an answer is in order: Noise can read it and then knows the other
/// host's key, it says something of that host, and shows a certificate that
/// the authority issued for the key.
pub open spec fn is_good_answer(
    ca: CertificateView,
    now: i64,
    hs: snow::HandshakeState,
    body: Seq<u8>,
    d: wire::handshake::HandshakeDetailsView,
    c: CertificateView,
) -> bool {
    handshake::noise_read(hs, body) matches Ok((payload, done)) && {
        &&& wire::handshake::handshake_of(payload) matches Some(h) && h.details == Some(d)
        &&& handshake::noise_remote_static(done) matches Some(key) && der::recombined(
            d.cert,
            key,
            Curve::Curve25519,
        ) == Ok::<CertificateView, Seq<char>>(c)
        &&& verify::issued_by(c, ca, now) == Ok::<(), Error>(())
    }
}

/// A good answer to a handshake that this host opened connects it with the
/// host that answered, by that host's first address.
pub proof fn good_answer_connects(
    before: Session,
    after: Session,
    event: Event,
    index: u32,
    body: Seq<u8>,
    from: SocketAddr,
    now: i64,
    hs: snow::HandshakeState,
    d: wire::handshake::HandshakeDetailsView,
    c: CertificateView,
)
    requires
        before.is_valid(),
        session::pending(before.peers(), index) == Some(hs),
        session::takes_answer(before, after, event, index, body, from, now),
        is_good_answer(before.ca(), now, hs, body, d, c),
    ensures
        event == Event::Connected(c.details.networks[0].addr),
        only_adds(before, after, index, c, from, d.responder_index),
{
    assert(session::admitted(before.ca(), now, d.cert, c.public_key) == Some(c));
    assert forall|a: IpAddr| a != c.details.networks[0].addr implies #[trigger] after.peer_at(a)
        == before.peer_at(a) by {
        if before.indexes().contains_key(a) {
            assert(session::tunnel(before.peers(), before.indexes()[a]) is Some);
        }
    }
}

/// An answer that is not good ends the handshake that it answers, and changes
/// nothing else. One that answers no handshake changes nothing at all.
pub proof fn bad_answer_ends_the_handshake(
    before: Session,
    after: Session,
    event: Event,
    index: u32,
    body: Seq<u8>,
    from: SocketAddr,
    now: i64,
)
    requires
        session::takes_answer(before, after, event, index, body, from, now),
        session::pending(before.peers(), index) matches Some(hs) ==> forall|
            d: wire::handshake::HandshakeDetailsView,
            c: CertificateView,
        | !#[trigger] is_good_answer(before.ca(), now, hs, body, d, c),
    ensures
        event is Nothing,
        session::pending(before.peers(), index) is None ==> after == before,
        session::pending(after.peers(), index) is None,
        keeps_configuration(after, before),
        after.places() == before.places(),
        after.indexes() == before.indexes(),
        forall|i: u32| #[trigger]
            session::tunnel(after.peers(), i) == session::tunnel(before.peers(), i),
        forall|i: u32|
            i != index ==> #[trigger] session::pending(after.peers(), i) == session::pending(
                before.peers(),
                i,
            ),
{
    if let Some(hs) = session::pending(before.peers(), index) {
        if let Some((d, key, _)) = handshake::finished(hs, body) {
            if let Some(c) = session::admitted(before.ca(), now, d.cert, key) {
                assert(is_good_answer(before.ca(), now, hs, body, d, c));
            }
        }
    }
}

/// The lower half of a packet's first byte says what the packet is for. A
/// handshake packet opens a handshake if its index is zero, and answers one
/// otherwise.
pub proof fn handshakes_are_told_by_type_and_index(
    before: Session,
    after: Session,
    event: Event,
    packet: Seq<u8>,
    from: SocketAddr,
    index: u32,
    now: i64,
)
    requires
        session::takes_packet(before, after, event, packet, from, index, now),
        packet.len() >= 16,
        packet[0] % 16 == 0,
    ensures
        bytes::four_at(packet, 4) == 0 ==> session::takes_opening(
            before,
            after,
            event,
            packet.skip(16),
            from,
            index,
            now,
        ),
        bytes::four_at(packet, 4) != 0 ==> session::takes_answer(
            before,
            after,
            event,
            bytes::four_at(packet, 4) as u32,
            packet.skip(16),
            from,
            now,
        ),
{
    laws::header_is_read_where_it_stands(packet);
}

/// A packet that is shorter than a header, or is for nothing that this host
/// takes part in, is passed over.
pub proof fn other_packets_are_passed_over(
    before: Session,
    after: Session,
    event: Event,
    packet: Seq<u8>,
    from: SocketAddr,
    index: u32,
    now: i64,
)
    requires
        session::takes_packet(before, after, event, packet, from, index, now),
        packet.len() < 16 || (packet[0] % 16 != 0 && packet[0] % 16 != 1 && packet[0] % 16 != 3),
    ensures
        event is Nothing,
        after == before,
{
    if packet.len() >= 16 {
        laws::header_is_read_where_it_stands(packet);
    }
}

/// Whether a packet is one that the other end of a tunnel sealed, with a number
/// that this end has not seen: what it holds is then `m`.
pub open spec fn is_new_and_holds(p: Peer, packet: Seq<u8>, m: Seq<u8>) -> bool {
    let n = (0x1_0000_0000 * bytes::four_at(packet, 8) + bytes::four_at(packet, 12)) as u64;
    let w = p.transport.window();
    &&& w.highest() < n || (w.highest() - n <= 1023 && !w.has_seen(n))
    &&& aead::opens_to(
        p.transport.cipher(),
        p.transport.recv_key(),
        n,
        packet.take(16),
        packet.skip(16),
    ) == Some(m)
}

/// Whether nothing changed but the numbers seen in one tunnel, and perhaps
/// where hosts are thought to be.
pub open spec fn only_counts(before: Session, after: Session, index: u32) -> bool {
    &&& keeps_configuration(after, before)
    &&& after.indexes() == before.indexes()
    &&& forall|i: u32| #[trigger]
        session::pending(after.peers(), i) == session::pending(before.peers(), i)
    &&& forall|i: u32|
        i != index ==> #[trigger] session::tunnel(after.peers(), i) == session::tunnel(
            before.peers(),
            i,
        )
    &&& match (session::tunnel(before.peers(), index), session::tunnel(after.peers(), index)) {
        (None, None) => true,
        (Some(p), Some(q)) => {
            &&& q.cert == p.cert
            &&& q.vpn_addr == p.vpn_addr
            &&& q.remote == p.remote
            &&& q.remote_index == p.remote_index
            &&& q.transport.cipher() == p.transport.cipher()
            &&& q.transport.send_key() == p.transport.send_key()
            &&& q.transport.recv_key() == p.transport.recv_key()
            &&& q.transport.sent() == p.transport.sent()
        },
        _ => false,
    }
}

/// What a packet of payload holds is delivered exactly if there is a tunnel
/// under its index, its number is new and it is authentic; it is then from the
/// host at the other end. The number counts as seen from then on.
pub proof fn messages_are_delivered_if_new_and_authentic(
    before: Session,
    after: Session,
    event: Event,
    packet: Seq<u8>,
    from: SocketAddr,
    index: u32,
    now: i64,
    m: Seq<u8>,
)
    requires
        session::takes_packet(before, after, event, packet, from, index, now),
        packet.len() >= 16,
        packet[0] % 16 == 1,
    ensures
        ({
            let i = bytes::four_at(packet, 4) as u32;
            let n = (0x1_0000_0000 * bytes::four_at(packet, 8) + bytes::four_at(packet, 12)) as u64;
            &&& only_counts(before, after, i)
            &&& after.places() == before.places()
            &&& event is Nothing || event is Delivered
            &&& event is Delivered ==> session::tunnel(before.peers(), i) is Some
            &&& session::tunnel(before.peers(), i) matches Some(p) ==> {
                &&& is_new_and_holds(p, packet, m) ==> (event matches Event::Delivered(f, v) && f
                    == p.vpn_addr && v@ == m)
                &&& event matches Event::Delivered(f, v) ==> is_new_and_holds(p, packet, v@)
                &&& session::tunnel(after.peers(), i) matches Some(q) && transport::window_step(
                    p.transport.window(),
                    n,
                    q.transport.window(),
                    transport::accepts(p.transport.window(), n),
                )
            }
        }),
{
    laws::header_is_read_where_it_stands(packet);
    let h = header::header_of(packet);
    assert(h.remote_index == bytes::four_at(packet, 4) as u32);
    lemma_only_counts(before, after, h.remote_index, h.message_counter);
}

proof fn lemma_only_counts(before: Session, after: Session, index: u32, counter: u64)
    requires
        session::counts_number(before, after, index, counter),
    ensures
        only_counts(before, after, index),
{
    if session::tunnel(before.peers(), index) is Some {
        assert forall|i: u32| i != index implies #[trigger] session::tunnel(after.peers(), i)
            == session::tunnel(before.peers(), i) by {}
        assert forall|i: u32| #[trigger] session::pending(after.peers(), i) == session::pending(
            before.peers(),
            i,
        ) by {
            if i == index {
                assert(session::tunnel(after.peers(), i) is Some);
            }
        }
    }
}

/// What a packet of a lighthouse tells is learned exactly if there is a tunnel
/// under its index, its number is new, it is authentic, and it tells something:
/// the first place it names for a host is where that host is thought to be.
pub proof fn lighthouses_teach_if_new_and_authentic(
    before: Session,
    after: Session,
    event: Event,
    packet: Seq<u8>,
    from: SocketAddr,
    index: u32,
    now: i64,
    m: Seq<u8>,
    host: IpAddr,
    places: Seq<SocketAddr>,
)
    requires
        session::takes_packet(before, after, event, packet, from, index, now),
        packet.len() >= 16,
        packet[0] % 16 == 3,
    ensures
        ({
            let i = bytes::four_at(packet, 4) as u32;
            let heard = session::tunnel(before.peers(), i) matches Some(p) && is_new_and_holds(
                p,
                packet,
                m,
            );
            &&& only_counts(before, after, i)
            &&& event is Nothing || event is Learned
            &&& heard && session::told(m) == Some((host, places)) ==> {
                &&& event matches Event::Learned(h, v) && h == host && v@ == places
                &&& after.places() == before.places().insert(host, places[0])
            }
            &&& heard && session::told(m) is None ==> event is Nothing
            &&& event is Nothing ==> after.places() == before.places()
            &&& event is Learned ==> exists|p: Peer, payload: Seq<u8>|
                session::tunnel(before.peers(), i) == Some(p) && #[trigger] is_new_and_holds(
                    p,
                    packet,
                    payload,
                ) && session::told(payload) is Some
        }),
{
    laws::header_is_read_where_it_stands(packet);
    let h = header::header_of(packet);
    assert(h.remote_index == bytes::four_at(packet, 4) as u32);
    lemma_only_counts(before, after, h.remote_index, h.message_counter);
    if event is Learned {
        let (_, payload) = session::received(before, h, packet.take(16), packet.skip(16))->0;
        let p = session::tunnel(before.peers(), h.remote_index)->0;
        assert(is_new_and_holds(p, packet, payload));
    }
}

/// What is sent to a host with which there is a tunnel goes where that host's
/// packets came from: a header with the host's own index for the tunnel and the
/// next number, and what the cipher makes of the payload with the tunnel's key,
/// the number and the header. It fails only if the cipher does, and the number
/// is used up either way.
pub proof fn payload_is_sealed_for_its_tunnel(
    before: Session,
    after: Session,
    r: Result<(Vec<u8>, SocketAddr), Error>,
    vpn_addr: IpAddr,
    type_: u8,
    payload: Seq<u8>,
    p: Peer,
)
    requires
        session::sends(before, after, r, vpn_addr, type_, payload),
        before.peer_at(vpn_addr) == Some(p),
        p.transport.sent() < u64::MAX,
        type_ < 16,
    ensures
        r is Ok || r == Err::<(Vec<u8>, SocketAddr), Error>(Error::DecryptFailed),
        ({
            let n = (p.transport.sent() + 1) as u64;
            &&& after.peer_at(vpn_addr) matches Some(q) && {
                &&& q.transport.sent() == n
                &&& q.transport.window() == p.transport.window()
                &&& q.cert == p.cert
                &&& q.vpn_addr == p.vpn_addr
                &&& q.remote == p.remote
                &&& q.remote_index == p.remote_index
                &&& q.transport.cipher() == p.transport.cipher()
                &&& q.transport.send_key() == p.transport.send_key()
                &&& q.transport.recv_key() == p.transport.recv_key()
            }
            &&& keeps_configuration(after, before)
            &&& after.places() == before.places()
            &&& after.indexes() == before.indexes()
            &&& forall|i: u32|
                i != before.indexes()[vpn_addr] ==> #[trigger] session::tunnel(after.peers(), i)
                    == session::tunnel(before.peers(), i) && session::pending(after.peers(), i)
                    == session::pending(before.peers(), i)
            &&& r matches Ok((packet, to)) ==> {
                &&& to == p.remote
                &&& packet@.len() >= 16
                &&& packet@[0] == 16 + type_
                &&& packet@[1] == 0
                &&& bytes::four_at(packet@, 4) == p.remote_index
                &&& 0x1_0000_0000 * bytes::four_at(packet@, 8) + bytes::four_at(packet@, 12) == n
                &&& Some(packet@.skip(16)) == aead::seals_to(
                    p.transport.cipher(),
                    p.transport.send_key(),
                    n,
                    packet@.take(16),
                    payload,
                )
            }
            &&& r is Err ==> forall|head: Seq<u8>|
                head.len() == 16 && #[trigger] laws::is_laid_out(
                    (header::Header {
                        version: 1,
                        type_,
                        subtype: 0,
                        remote_index: p.remote_index,
                        message_counter: n,
                    }),
                    head,
                ) && head[2] == 0 && head[3] == 0 ==> aead::seals_to(
                    p.transport.cipher(),
                    p.transport.send_key(),
                    n,
                    head,
                    payload,
                ) is None
        }),
{
    let n = (p.transport.sent() + 1) as u64;
    let h = session::tunnel_header(type_, p.remote_index, n);
    laws::header_is_laid_out(h);
    let head = header::header_bytes(h);
    if let Ok((packet, _)) = r {
        assert(packet@.take(16) =~= head);
        assert(forall|i: int| 0 <= i < 16 ==> packet@[i] == head[i]);
        let c = aead::seals_to(p.transport.cipher(), p.transport.send_key(), n, head, payload)->0;
        assert(packet@.skip(16) =~= c);
    } else {
        assert forall|other: Seq<u8>|
            other.len() == 16 && #[trigger] laws::is_laid_out(h, other) && other[2] == 0 && other[3]
                == 0 implies other == head by {
            laws::layout_fixes_the_header(h, other);
        }
    }
}

/// Nothing is sent to a host with which there is no tunnel.
pub proof fn nothing_is_sent_without_a_tunnel(
    before: Session,
    after: Session,
    r: Result<(Vec<u8>, SocketAddr), Error>,
    vpn_addr: IpAddr,
    type_: u8,
    payload: Seq<u8>,
)
    requires
        session::sends(before, after, r, vpn_addr, type_, payload),
        before.peer_at(vpn_addr) is None,
    ensures
        r == Err::<(Vec<u8>, SocketAddr), Error>(Error::PeerUnreachable(vpn_addr)),
        after == before,
{
}

/// Where hosts can be reached is what the list says; where it names a host more
/// than once, the last entry counts.
pub proof fn last_entry_counts(hosts: Seq<(IpAddr, SocketAddr)>, i: int)
    requires
        0 <= i < hosts.len(),
        forall|j: int| i < j < hosts.len() ==> (#[trigger] hosts[j]).0 != hosts[i].0,
    ensures
        session::places_of(hosts).contains_key(hosts[i].0),
        session::places_of(hosts)[hosts[i].0] == hosts[i].1,
    decreases hosts.len(),
{
    if i < hosts.len() - 1 {
        let front = hosts.drop_last();
        assert(front[i] == hosts[i]);
        assert forall|j: int| i < j < front.len() implies (#[trigger] front[j]).0 != front[i].0 by {
            assert(front[j] == hosts[j]);
        }
        last_entry_counts(front, i);
        assert(hosts[hosts.len() - 1].0 != hosts[i].0);
    }
}

/// A host that is not in the list has no place.
pub proof fn only_listed_hosts_have_places(hosts: Seq<(IpAddr, SocketAddr)>, host: IpAddr)
    requires
        session::places_of(hosts).contains_key(host),
    ensures
        exists|i: int| 0 <= i < hosts.len() && (#[trigger] hosts[i]).0 == host,
    decreases hosts.len(),
{
    if hosts.len() > 0 {
        if hosts.last().0 == host {
            assert(hosts[hosts.len() - 1].0 == host);
        } else {
            let front = hosts.drop_last();
            only_listed_hosts_have_places(front, host);
            let i = choose|i: int| 0 <= i < front.len() && (#[trigger] front[i]).0 == host;
            assert(hosts[i].0 == host);
        }
    }
}

/// What is told of a peer is the name, the groups and the networks that its
/// certificate holds.
pub proof fn peers_are_told_by_their_certificates(info: PeerInfo, c: CertificateView)
    requires
        info.is_of(c),
    ensures
        info.name@ == c.details.name,
        info.groups@.len() == c.details.groups.len(),
        forall|i: int| 0 <= i < info.groups@.len() ==> (#[trigger] info.groups@[i])@
            == c.details.groups[i],
        info.networks@ == c.details.networks,
        info.unsafe_networks@ == c.details.unsafe_networks,
{
    assert(der::texts(info.groups@).len() == info.groups@.len());
    assert forall|i: int| 0 <= i < info.groups@.len() implies (#[trigger] info.groups@[i])@
        == c.details.groups[i] by {
        assert(der::texts(info.groups@)[i] == info.groups@[i]@);
    }
}

/// The clock suggests an index by its nanoseconds with some bits turned over,
/// and the index can be had if it is not zero and no tunnel or handshake has
/// it.
pub proof fn indexes_are_given_once(s: Session, nanos: u32, index: u32)
    ensures
        s.is_fresh(index) <==> index != 0 && session::tunnel(s.peers(), index) is None
            && session::pending(s.peers(), index) is None,
        s.index_at(nanos) == Some(index) <==> index == nanos ^ 0x9E37_79B9 && s.is_fresh(index),
        s.index_at(nanos) is None <==> !s.is_fresh(nanos ^ 0x9E37_79B9),
{
}

/// Seconds that do not fit a signed number differ from it by two to the 64th.
pub proof fn seconds_wrap_around(secs: u64)
    ensures
        i64::MIN <= session::signed(secs) <= i64::MAX,
        session::signed(secs) == secs || session::signed(secs) + 0x1_0000_0000_0000_0000 == secs,
{
}

/// Whether a message of a length takes one block more than ChaChaPoly has,
/// which is so of 63 lengths just above 256 gigabytes.
pub open spec fn runs_out(s: Session, len: int) -> bool {
    s.spec_cipher() == handshake::Cipher::ChaChaPoly && 64 * 0xffff_fffe < len < 64 * 0xffff_ffff
}

/// Anything can be sent but what is too long for memory or makes the cipher run
/// out, and what there is no number left for.
pub proof fn nearly_everything_can_be_sent(s: Session, vpn_addr: IpAddr, len: nat)
    ensures
        s.may_seal(vpn_addr, len) <==> {
            &&& len + 32 <= usize::MAX
            &&& !runs_out(s, len as int)
            &&& match s.peer_at(vpn_addr) {
                Some(p) => p.transport.sent() < u64::MAX,
                None => true,
            }
        },
{
}

/// Anything can be received but what makes the cipher run out.
pub proof fn nearly_everything_can_be_received(s: Session, len: int)
    ensures
        s.may_open(len) <==> !runs_out(s, len - 16),
{
}

/// What holds of every session: its certificate says what its raw details say,
/// no tunnel has the index zero, an address leads to a tunnel if and only if it
/// leads to one with a peer that goes by it, and every peer goes by the first
/// address of a certificate that the authority issued, and has the session's
/// cipher.
pub proof fn valid_sessions_have_trusted_peers(s: Session, a: IpAddr, i: u32)
    requires
        s.is_valid(),
    ensures
        der::details_of(s.host().raw_details) == Ok::<der::DetailsView, Seq<char>>(
            s.host().details,
        ),
        session::tunnel(s.peers(), 0) is None,
        session::pending(s.peers(), 0) is None,
        s.indexes().contains_key(a) <==> s.peer_at(a) is Some,
        s.peer_at(a) matches Some(p) ==> p.vpn_addr == a && session::tunnel(
            s.peers(),
            s.indexes()[a],
        ) == Some(p),
        session::tunnel(s.peers(), i) matches Some(p) ==> {
            &&& p.cert@.details.networks.len() > 0
            &&& p.vpn_addr == p.cert@.details.networks[0].addr
            &&& p.transport.cipher() == s.spec_cipher()
            &&& exists|now: i64| #[trigger] verify::issued_by(p.cert@, s.ca(), now) is Ok
        },
{
    if let Some(p) = session::tunnel(s.peers(), i) {
        assert(p.is_vouched_for(s.ca()));
        let now = choose|now: i64| #[trigger]
            verify::issued_by(p.cert@, s.ca(), now) == Ok::<(), Error>(());
        assert(verify::issued_by(p.cert@, s.ca(), now) is Ok);
    }
}

/// Handshake packets are of version 1 and type 0, and packets through a tunnel
/// of version 1 and the type that they are for; the subtype is zero.
pub proof fn headers_say_what_packets_are_for(type_: u8, remote_index: u32, counter: u64)
    ensures
        session::handshake_header(remote_index, counter) == (header::Header {
            version: 1,
            type_: 0,
            subtype: 0,
            remote_index,
            message_counter: counter,
        }),
        session::tunnel_header(type_, remote_index, counter) == (header::Header {
            version: 1,
            type_,
            subtype: 0,
            remote_index,
            message_counter: counter,
        }),
{
}

} // verus!
