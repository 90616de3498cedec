//! What holds of sessions together: hosts with certificates in order connect,
//! what one sends the other gets, and what one registers the other learns.

use vstd::prelude::*;

use crate::net::{IpAddr, SocketAddr};
use crate::protocol::aead;
use crate::protocol::cert::der;
use crate::protocol::cert::der::{CertificateView, Curve};
use crate::protocol::cert::pem;
use crate::protocol::cert::verify;
use crate::protocol::error::Error;
use crate::protocol::handshake;
use crate::protocol::handshake::{Cipher, SplitKeys};
use crate::protocol::header;
use crate::protocol::header::message_type;
use crate::protocol::lighthouse;
use crate::protocol::session;
use crate::protocol::session::{Event, Peer, Session, Trouble};
use crate::protocol::transport;
use crate::protocol::wire;

verus! {

/// Whoever has a tunnel has shown a certificate that the authority issued,
/// and goes by the first address in it.
pub proof fn peers_are_vouched_for(s: Session, vpn_addr: IpAddr)
    requires
        s.is_valid(),
    ensures
        s.peer_at(vpn_addr) matches Some(p) ==> p.is_vouched_for(s.ca()) && p.vpn_addr == vpn_addr,
{
}

/// A host whose certificate was issued by the authority and belongs to the
/// public key it uses is admitted, by its certificate.
pub proof fn honest_host_is_admitted(
    cert: CertificateView,
    ca: CertificateView,
    now: i64,
    public_key: Seq<u8>,
)
    requires
        cert.is_sound(),
        cert.curve == Curve::Curve25519,
        cert.public_key == public_key,
        der::handshake_bytes(cert).len() <= usize::MAX,
        verify::issued_by(cert, ca, now) == Ok::<(), Error>(()),
    ensures
        session::admitted(ca, now, der::handshake_bytes(cert), public_key) == Some(cert),
{
    der::handshake_certificate_round_trips(cert);
}

/// Whether a host's private key is the one that its certificate is for, and
/// the certificate is one that an authority issued.
pub open spec fn is_in_order(s: Session, ca: CertificateView, now: i64) -> bool {
    &&& s.is_valid()
    &&& s.host().curve == Curve::Curve25519
    &&& s.host().public_key == handshake::noise_public_key(s.private_key())
    &&& der::handshake_bytes(s.host()).len() <= usize::MAX
    &&& verify::issued_by(s.host(), ca, now) == Ok::<(), Error>(())
}

/// What the answer of a host that was contacted properly is: it can be read
/// by the host that opened the handshake, and both have the same keys.
proof fn lemma_opening_is_answered(
    a: Session,
    b: Session,
    a_index: u32,
    b_index: u32,
    opener: snow::HandshakeState,
    opened_at: u64,
    first: Seq<u8>,
    a_addr: SocketAddr,
    now: i64,
    b_after: Session,
    b_event: Event,
) -> (r: (Seq<u8>, SplitKeys, u64))
    requires
        is_in_order(a, b.ca(), now),
        a.spec_cipher() == b.spec_cipher(),
        handshake::opens(
            a.spec_cipher(),
            a.private_key(),
            der::handshake_bytes(a.host()),
            a_index,
            opened_at,
            opener,
            first,
        ),
        session::takes_opening(b, b_after, b_event, first, a_addr, b_index, now),
        b_event is Reply,
    ensures
        b_event->Reply_0@ == header::header_bytes(session::handshake_header(a_index, 2)) + r.0,
        b_after.has_gained(
            b,
            b_index,
            r.1.send_key@,
            r.1.recv_key@,
            a_addr,
            a.host(),
            a_index,
        ),
        handshake::is_finished_by(
            b.spec_cipher(),
            first,
            b.private_key(),
            handshake::answer(der::handshake_bytes(b.host()), a_index, b_index, r.2),
            r.0,
            r.1,
        ),
{
    honest_host_is_admitted(a.host(), b.ca(), now, a.host().public_key);
    let packet = b_event->Reply_0@;
    let (d, public_key) = session::opened_with(first)->0;
    assert(d == handshake::opening(der::handshake_bytes(a.host()), a_index, opened_at).details->0);
    assert(session::admitted(b.ca(), now, d.cert, public_key) == Some(a.host()));
    let (reply, keys) = choose|reply: Seq<u8>, keys: SplitKeys| #[trigger]
        session::may_answer(b, b_index, first, d.initiator_index, reply, keys) && {
            &&& packet == header::header_bytes(session::handshake_header(d.initiator_index, 2)) + reply
            &&& b_after.has_gained(
                b,
                b_index,
                keys.send_key@,
                keys.recv_key@,
                a_addr,
                a.host(),
                d.initiator_index,
            )
        };
    let time = choose|time: u64| #[trigger]
        handshake::is_finished_by(
            b.spec_cipher(),
            first,
            b.private_key(),
            handshake::answer(der::handshake_bytes(b.host()), d.initiator_index, b_index, time),
            reply,
            keys,
        );
    (reply, keys, time)
}

/// Two hosts with certificates in order connect: what `b` makes of the packet
/// with which `a` opened a handshake, unless Noise fails, is a tunnel to `a`,
/// and what `a` makes of the answer is a tunnel to `b`. Each tunnel goes by
/// the first address in the other's certificate, leads to the index that the
/// other has for it, and is sealed with the key that the other opens with.
pub proof fn hosts_connect(
    a: Session,
    b: Session,
    a_index: u32,
    b_index: u32,
    opener: snow::HandshakeState,
    opened_at: u64,
    first: Seq<u8>,
    a_addr: SocketAddr,
    b_addr: SocketAddr,
    now: i64,
    b_after: Session,
    b_event: Event,
    a_after: Session,
    a_event: Event,
)
    requires
        is_in_order(a, b.ca(), now),
        is_in_order(b, a.ca(), now),
        a.spec_cipher() == b.spec_cipher(),
        handshake::opens(
            a.spec_cipher(),
            a.private_key(),
            der::handshake_bytes(a.host()),
            a_index,
            opened_at,
            opener,
            first,
        ),
        session::pending(a.peers(), a_index) == Some(opener),
        session::takes_opening(b, b_after, b_event, first, a_addr, b_index, now),
        b_event is Reply,
        ({
            let packet = b_event->Reply_0@;
            session::takes_answer(
                a,
                a_after,
                a_event,
                header::header_of(packet).remote_index,
                packet.skip(16),
                b_addr,
                now,
            )
        }),
    ensures
        ({
            let packet = b_event->Reply_0@;
            &&& header::header_of(packet).type_ == message_type::HANDSHAKE
            &&& header::header_of(packet).remote_index == a_index
        }),
        a_event == Event::Connected(b.host().details.networks[0].addr),
        b_after.peer_at(a.host().details.networks[0].addr) matches Some(p) && a_after.peer_at(
            b.host().details.networks[0].addr,
        ) matches Some(q) && {
            &&& p.cert@ == a.host()
            &&& q.cert@ == b.host()
            &&& p.remote_index == a_index
            &&& q.remote_index == b_index
            &&& p.transport.send_key() == q.transport.recv_key()
            &&& p.transport.recv_key() == q.transport.send_key()
        },
{
    let (reply, keys, answered_at) = lemma_opening_is_answered(
        a,
        b,
        a_index,
        b_index,
        opener,
        opened_at,
        first,
        a_addr,
        now,
        b_after,
        b_event,
    );
    let packet = b_event->Reply_0@;
    header::header_round_trips(session::handshake_header(a_index, 2), reply);
    assert(packet.skip(16) =~= reply);
    honest_host_is_admitted(b.host(), a.ca(), now, b.host().public_key);
    let said = handshake::answer(der::handshake_bytes(b.host()), a_index, b_index, answered_at);
    assert(handshake::finished(opener, reply) == Some(
        (said.details->0, b.host().public_key, (keys.recv_key@, keys.send_key@)),
    ));
}

/// What a host sends through a tunnel is delivered at the other end, as coming
/// from the address that this end of the tunnel goes by there, and it is
/// delivered once: the same packet brings nothing when it comes again.
pub proof fn sent_payload_is_delivered_once(
    sender: Session,
    sender_after: Session,
    vpn_addr: IpAddr,
    payload: Seq<u8>,
    packet: Vec<u8>,
    to: SocketAddr,
    p: Peer,
    receiver: Session,
    q: Peer,
    from: SocketAddr,
    index: u32,
    now: i64,
    receiver_after: Session,
    event: Event,
    again_from: SocketAddr,
    again_index: u32,
    again_now: i64,
    receiver_last: Session,
    again: Event,
)
    requires
        sender.peer_at(vpn_addr) == Some(p),
        p.transport.sent() < u64::MAX,
        session::sends(
            sender,
            sender_after,
            Ok((packet, to)),
            vpn_addr,
            message_type::MESSAGE,
            payload,
        ),
        session::tunnel(receiver.peers(), p.remote_index) == Some(q),
        q.transport.cipher() == p.transport.cipher(),
        q.transport.recv_key() == p.transport.send_key(),
        transport::accepts(q.transport.window(), (p.transport.sent() + 1) as u64),
        session::takes_packet(receiver, receiver_after, event, packet@, from, index, now),
        session::takes_packet(
            receiver_after,
            receiver_last,
            again,
            packet@,
            again_from,
            again_index,
            again_now,
        ),
    ensures
        event matches Event::Delivered(f, v) && f == q.vpn_addr && v@ == payload,
        again == Event::Nothing,
{
    let counter = (p.transport.sent() + 1) as u64;
    let h = session::tunnel_header(message_type::MESSAGE, p.remote_index, counter);
    let c = aead::seals_to(
        p.transport.cipher(),
        p.transport.send_key(),
        counter,
        header::header_bytes(h),
        payload,
    )->0;
    header::header_round_trips(h, c);
    assert(packet@.take(16) =~= header::header_bytes(h));
    assert(packet@.skip(16) =~= c);
    assert(session::received(receiver, h, packet@.take(16), packet@.skip(16)) == Some(
        (q.vpn_addr, payload),
    ));
    let r = session::tunnel(receiver_after.peers(), p.remote_index)->0;
    transport::sealed_packet_is_read_once(
        p.transport,
        q.transport,
        counter,
        packet@.take(16),
        payload,
        packet@.skip(16),
        r.transport.window(),
    );
    assert(session::received(receiver_after, h, packet@.take(16), packet@.skip(16)) is None);
}

/// The first packet through a new tunnel has a number that the other end, if
/// its tunnel is new too, accepts.
pub proof fn new_tunnels_agree_on_numbers(
    p: Peer,
    q: Peer,
    cipher: Cipher,
    p_send: Seq<u8>,
    p_recv: Seq<u8>,
    p_remote: SocketAddr,
    p_cert: CertificateView,
    p_index: u32,
    q_send: Seq<u8>,
    q_recv: Seq<u8>,
    q_remote: SocketAddr,
    q_cert: CertificateView,
    q_index: u32,
)
    requires
        p.is_new(cipher, p_send, p_recv, p_remote, p_cert, p_index),
        q.is_new(cipher, q_send, q_recv, q_remote, q_cert, q_index),
    ensures
        p.transport.sent() < u64::MAX,
        transport::accepts(q.transport.window(), (p.transport.sent() + 1) as u64),
{
}

/// What a host registers is what is learned from it: the host's address, and
/// where it can be reached. The address must not be an IPv4 one written as an
/// IPv6 one, which would be learned as the IPv4 address.
pub proof fn registration_is_learned(vpn_addr: IpAddr, place: SocketAddr)
    requires
        match vpn_addr {
            IpAddr::V4(_) => true,
            IpAddr::V6(v) => !lighthouse::is_mapped(v),
        },
        wire::meta::meta_bytes(lighthouse::update_of(vpn_addr, seq![place])).len() <= u64::MAX,
    ensures
        session::told(wire::meta::meta_bytes(lighthouse::update_of(vpn_addr, seq![place]))) == Some(
            (vpn_addr, seq![place]),
        ),
{
    let m = lighthouse::update_of(vpn_addr, seq![place]);
    wire::meta::meta_round_trips(m);
    lighthouse::addresses_survive_messages(vpn_addr);
    lighthouse::updates_name_the_one_place_given(vpn_addr, place);
}

/// What a lighthouse answers to a question is learned like what a host tells of
/// itself: the host's address, and the place where it can be reached, for every
/// address that is not an IPv4 one written as an IPv6 one, and every place.
pub proof fn reply_is_learned(vpn_addr: IpAddr, place: SocketAddr, reply: wire::meta::MetaView)
    requires
        match vpn_addr {
            IpAddr::V4(_) => true,
            IpAddr::V6(v) => v / 0x1_0000_0000 != 0xffff,
        },
        reply.type_ == 2,
        reply.details == lighthouse::update_of(vpn_addr, seq![place]).details,
        wire::meta::meta_bytes(reply).len() <= u64::MAX,
    ensures
        session::told(wire::meta::meta_bytes(reply)) == Some((vpn_addr, seq![place])),
{
    wire::meta::meta_round_trips(reply);
    lighthouse::addresses_survive_messages(vpn_addr);
    lighthouse::updates_name_the_one_place_given(vpn_addr, place);
}

/// Where a host can be reached is learned with all the places that a message
/// names, the IPv4 ones first, from an answer and from a notification alike.
/// One that names no place teaches nothing, and neither does any other message.
pub proof fn places_are_learned_in_order(
    vpn_addr: IpAddr,
    places: Seq<SocketAddr>,
    message: wire::meta::MetaView,
)
    requires
        match vpn_addr {
            IpAddr::V4(_) => true,
            IpAddr::V6(v) => v / 0x1_0000_0000 != 0xffff,
        },
        message.details == lighthouse::update_of(vpn_addr, places).details,
        wire::meta::meta_bytes(message).len() <= u64::MAX,
    ensures
        ({
            let told = session::told(wire::meta::meta_bytes(message));
            let sorted = places.filter(|a: SocketAddr| a.ip is V4) + places.filter(
                |a: SocketAddr| a.ip is V6,
            );
            &&& (message.type_ == 2 || message.type_ == 3) && sorted.len() > 0 ==> told == Some(
                (vpn_addr, sorted),
            )
            &&& (message.type_ != 2 && message.type_ != 3) || sorted.len() == 0 ==> told is None
        }),
{
    wire::meta::meta_round_trips(message);
    lighthouse::addresses_survive_messages(vpn_addr);
    lighthouse::updates_name_the_places_given(vpn_addr, places);
    let v4 = |a: SocketAddr| a.ip is V4;
    let v6 = |a: SocketAddr| a.ip is V6;
    assert(v4 =~= |a: SocketAddr| (a.ip is V4) == true);
    assert(v6 =~= |a: SocketAddr| (a.ip is V4) == false);
    assert(lighthouse::candidates(message) == lighthouse::candidates(
        lighthouse::update_of(vpn_addr, places),
    ));
}

/// What a message teaches, entry by entry. Something is learned exactly from an
/// answer or a notification that names a host and a place for it. An address
/// that is an IPv4 one written as an IPv6 one stands for the IPv4 one. The
/// IPv4 places come first, then the IPv6 ones, each in the order of the
/// message, and of a port the lower sixteen bits count.
pub proof fn messages_teach_what_they_name(payload: Seq<u8>, m: wire::meta::MetaView)
    requires
        wire::meta::meta_of(payload) == Some(m),
    ensures
        session::told(payload) is Some <==> {
            &&& m.type_ == 2 || m.type_ == 3
            &&& m.details matches Some(d) && d.vpn_addr is Some && d.v4_addr_ports.len()
                + d.v6_addr_ports.len() > 0
        },
        session::told(payload) matches Some((host, places)) ==> m.details matches Some(d)
            && d.vpn_addr matches Some(a) && {
            &&& a.hi == 0 && a.lo / 0x1_0000_0000 == 0xffff ==> host == IpAddr::V4(
                (a.lo % 0x1_0000_0000) as u32,
            )
            &&& a.hi != 0 || a.lo / 0x1_0000_0000 != 0xffff ==> host == IpAddr::V6(
                (a.hi * 0x1_0000_0000_0000_0000 + a.lo) as u128,
            )
            &&& places.len() == d.v4_addr_ports.len() + d.v6_addr_ports.len()
            &&& forall|i: int|
                0 <= i < d.v4_addr_ports.len() ==> (#[trigger] places[i]).ip == IpAddr::V4(
                    d.v4_addr_ports[i].addr,
                ) && places[i].port == d.v4_addr_ports[i].port % 0x1_0000
            &&& forall|i: int|
                d.v4_addr_ports.len() <= i < places.len() ==> {
                    let e = d.v6_addr_ports[i - d.v4_addr_ports.len()];
                    (#[trigger] places[i]).ip == IpAddr::V6(
                        (e.hi * 0x1_0000_0000_0000_0000 + e.lo) as u128,
                    ) && places[i].port == e.port % 0x1_0000
                }
        },
{
}

/// What is not a message teaches nothing.
pub proof fn garbage_teaches_nothing(payload: Seq<u8>)
    requires
        wire::meta::meta_of(payload) is None,
    ensures
        session::told(payload) is None,
{
}

/// A question is of type 1 and names the host that is sought, and nothing else.
/// A notification is of type 3 and names the host and its places, each place
/// once, in the list of its family.
pub proof fn messages_name_host_and_places(
    vpn_addr: IpAddr,
    places: Seq<SocketAddr>,
    place: SocketAddr,
)
    ensures
        ({
            let q = lighthouse::query_of(vpn_addr);
            &&& q.type_ == 1
            &&& q.details matches Some(d) && d.vpn_addr is Some && d.v4_addr_ports.len() == 0
                && d.v6_addr_ports.len() == 0
        }),
        ({
            let n = lighthouse::update_of(vpn_addr, places);
            &&& n.type_ == 3
            &&& n.details matches Some(d) && d.vpn_addr == lighthouse::query_of(
                vpn_addr,
            ).details->0.vpn_addr
        }),
        lighthouse::query_of(vpn_addr).details->0.vpn_addr matches Some(a) && match vpn_addr {
            IpAddr::V4(v) => a.hi == 0 && a.lo == 0xffff_0000_0000 + v,
            IpAddr::V6(v) => a.hi * 0x1_0000_0000_0000_0000 + a.lo == v,
        },
        ({
            let d = lighthouse::update_of(vpn_addr, places).details->0;
            let e = lighthouse::update_of(vpn_addr, places.push(place)).details->0;
            match place.ip {
                IpAddr::V4(v) => {
                    &&& e.v6_addr_ports == d.v6_addr_ports
                    &&& e.v4_addr_ports == d.v4_addr_ports.push(
                        (wire::V4AddrPort { addr: v, port: place.port as u32 }),
                    )
                },
                IpAddr::V6(v) => {
                    &&& e.v4_addr_ports == d.v4_addr_ports
                    &&& e.v6_addr_ports == d.v6_addr_ports.push(
                        (wire::V6AddrPort {
                            hi: (v / 0x1_0000_0000_0000_0000) as u64,
                            lo: (v % 0x1_0000_0000_0000_0000) as u64,
                            port: place.port as u32,
                        }),
                    )
                },
            }
        }),
        lighthouse::update_of(vpn_addr, Seq::empty()).details->0.v4_addr_ports.len() == 0,
        lighthouse::update_of(vpn_addr, Seq::empty()).details->0.v6_addr_ports.len() == 0,
{
    assert(places.push(place).drop_last() =~= places);
    assert(places.push(place).last() == place);
}

/// A host whose certificate is not one that can be read, or was not issued by
/// the authority, is not admitted; any other is, by its certificate.
pub proof fn hosts_are_admitted_if_issued_a_certificate(
    ca: CertificateView,
    now: i64,
    shown: Seq<u8>,
    public_key: Seq<u8>,
)
    ensures
        session::admitted(ca, now, shown, public_key) is Some <==> der::recombined(
            shown,
            public_key,
            Curve::Curve25519,
        ) is Ok && verify::issued_by(
            der::recombined(shown, public_key, Curve::Curve25519)->Ok_0,
            ca,
            now,
        ) is Ok,
        session::admitted(ca, now, shown, public_key) matches Some(c) ==> der::recombined(
            shown,
            public_key,
            Curve::Curve25519,
        ) == Ok::<CertificateView, Seq<char>>(c) && c.public_key == public_key && c.curve
            == Curve::Curve25519,
{
}

/// A certificate is what stands in a block with the tag for certificates, and a
/// private key the thirty-two bytes in a block with the tag for those.
pub proof fn configuration_is_read_from_blocks(
    text: Seq<u8>,
    tag: Seq<char>,
    contents: Seq<u8>,
)
    requires
        pem::pem_block(text) == Ok::<(Seq<char>, Seq<u8>), Seq<char>>((tag, contents)),
    ensures
        session::cert_in(text) is Ok <==> tag == "NEBULA CERTIFICATE V2"@ && der::cert_of(
            contents,
        ) is Ok,
        session::cert_in(text) matches Ok(c) ==> der::cert_of(contents) == Ok::<
            CertificateView,
            Seq<char>,
        >(c),
        session::key_in(text) is Ok <==> tag == "NEBULA X25519 PRIVATE KEY"@ && contents.len()
            == 32,
        session::key_in(text) matches Ok(k) ==> k == contents,
        tag == "NEBULA X25519 PRIVATE KEY"@ && contents.len() != 32 ==> session::key_in(text)
            == Err::<Seq<u8>, Trouble>(Trouble::Pem("host private key is not 32 bytes"@)),
{
}

/// A text that cannot be taken for a certificate or a key is refused for the
/// block if there is none or it has another tag, and a certificate that cannot
/// be read for what is wrong in its bytes. The error holds what was found
/// wrong.
pub proof fn bad_configuration_is_refused(
    text: Seq<u8>,
    tag: Seq<char>,
    contents: Seq<u8>,
    msg: Seq<char>,
    e: Error,
)
    ensures
        pem::pem_block(text) == Err::<(Seq<char>, Seq<u8>), Seq<char>>(msg) ==> session::cert_in(
            text,
        ) == Err::<CertificateView, Trouble>(Trouble::Pem(msg)) && session::key_in(text) == Err::<
            Seq<u8>,
            Trouble,
        >(Trouble::Pem(msg)),
        pem::pem_block(text) == Ok::<(Seq<char>, Seq<u8>), Seq<char>>((tag, contents)) ==> {
            &&& tag != "NEBULA CERTIFICATE V2"@ ==> (session::cert_in(text) matches Err(
                Trouble::Pem(_),
            ))
            &&& tag != "NEBULA X25519 PRIVATE KEY"@ ==> (session::key_in(text) matches Err(
                Trouble::Pem(_),
            ))
            &&& tag == "NEBULA CERTIFICATE V2"@ && der::cert_of(contents) == Err::<
                CertificateView,
                Seq<char>,
            >(msg) ==> session::cert_in(text) == Err::<CertificateView, Trouble>(Trouble::Der(msg))
        },
        session::tells(e, Trouble::Pem(msg)) <==> (e matches Error::Pem(s) && s@ == msg),
        session::tells(e, Trouble::Der(msg)) <==> (e matches Error::Der(s) && s@ == msg),
{
}

} // verus!
