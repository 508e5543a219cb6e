# pcpvpn

The verified core of a peer-to-peer gaming virtual LAN: remote players join
one virtual subnet over encrypted, hole-punched UDP links.

`src/` is a Verus library; every function in it carries a contract that
Verus proves. It holds:

- `replay` — the sliding anti-replay window; `crypto` — identity keys,
  fingerprints, password hashing and the encrypted session;
  `handshake` — the two sides of the Noise IK handshake and the decisions
  of their waiting loops (fan-out and punch).
- `fec` — XOR and Reed-Solomon forward error correction, encoder and
  decoder; `fec::delivery` follows a whole group through a decoder.
- `split_tunnel` — the policy deciding which packets cross the tunnel, in
  both directions; `pipeline` — the data plane's inner payload codec, the
  packet-log batch and the link-level decisions; `datapath` — what each
  captured or received packet of a connected link becomes.
- `candidate`, `stun` — candidate endpoints, socket-address text (IPv4 and
  IPv6) and its values, and the STUN binding exchange.
- `signaling` — the offer/answer envelope, its checksummed paste-robust blob,
  the networked-signaling messages and the host's roster; `relay_protocol`,
  `relay_server` — the rendezvous relay's line protocol and bookkeeping.
- `connection`, `mesh` — per-peer link states, negotiation, and automatic
  mesh connection between network members.
- `helper` — the elevation helper's protocol decisions; `engine`,
  `packet_log`, `state` — engine configuration, status, notices and the
  live state behind the status queries.

`tests/` exercises the library from outside. `app/` is ordinary Rust around
it: the relay binary's sockets, the signaling server and client over
WebSockets, JSON forms of the wire types, the identity file, the STUN client
and the helper's request loop.
