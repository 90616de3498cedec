# nebula

A node of a mesh VPN, with the parts that decide things verified in
[Verus](https://github.com/verus-lang/verus).

- `src/firewall`: rules, the tables they are filed in, the flows that have
  passed them, and the firewall that answers for each packet.
- `src/protocol`: packet headers, certificates and their signatures, the Noise
  handshake, the two ciphers with their replay window, the messages of
  lighthouses, and the session that puts them together. The session does no
  I/O: it is handed packets and hands packets back.
- `src/listener`: what is read off raw IP packets, what the firewall is told of
  a peer, and the steps in which a network interface is made.
- `src/{bytes,map,net,text,time}.rs`: what the rest is built on.
- `app`: sockets, the tun device and the tasks that run a node.
- `tests`: the library from outside.

Each function states what it returns and what it changes. What holds of several
functions together is stated in public proof functions beside them; those about
two sessions that talk to each other are in `src/protocol/session/laws.rs`.

Ciphers, signatures, digests, the Noise protocol, PEM, protobuf scalars, network
prefixes and the clock come from outside crates and from std. The functions that
call them are marked `#[verifier::external_body]`, and say in their comments what
is believed of the call.
