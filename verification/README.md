# toytcp

A small TCP stack: the handshake, segmentation, acknowledgement and
retransmission, without data reception and without closing a connection.

- `src/` is the stack itself, verified with Verus. It holds no raw socket, no
  thread and no clock. `tcp.rs` is its interface, `socket.rs` one end of a
  connection, `table.rs` the sockets by name, `packet.rs` and `checksum.rs` the
  segments as bytes, `addr.rs` and `route.rs` addresses and the choice of the
  local one, `random.rs` random numbers and the record of what was drawn.
  `laws.rs` states what holds across operations: that two stacks
  shake hands, that a buffer goes out complete and in order, what the timer may
  send again. `history.rs` states what holds over any number of them: connections
  are accepted first come, first served.
- `app/` puts the stack on raw sockets, with a thread that receives and one that
  retransmits.
- `tests/` runs the stack on concrete segments.

An operation that has something to transmit returns the segment. Once it is out,
a second operation records that: `opened` after `connect` or a reply that opens
a connection, `acknowledged` after a reply that acknowledges, `chunk_sent` after
`send`.

Trusted are `ipv4_checksum` and `TcpPacket::new` of pnet, `thread_rng` and
`gen_range` of rand, and `from_utf8` of the standard library, each with the
contract that stands at its declaration.
