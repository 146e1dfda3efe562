# p3p

Peer discovery over small text protocols, with its logic verified by Verus.

- `src/` is the verified library:
  - `text`, `decimal`, `addr`: whitespace, trimming and splitting of text, decimal
    numerals and socket addresses (`a.b.c.d:port`, `[ipv6%scope]:port`), read
    and written the way std does; `ipv6` holds the IPv6 grammar and text.
  - `bootstrap_discovery`: the `PING FROM` / `PONG FROM` / `GOSSIP FROM` protocol,
    the table of peers classified as trusty, suspect or faulty by the time of their
    last answer, and the node's decisions on each round and each message.
  - `peer_exchange`: the `FROM .. PORT .. TO ..` envelope with the `PEERLIST`,
    `PEERLISTGET`, `GOSSIP`, `GOSSIPGET`, `PING` and `PONG` messages, peers known
    under several addresses, and the node that answers each message.
  - `framing`: one length byte, then the UTF-8 bytes of a message.
  - `connection_pool`: at most one pooled connection per address.
  - `transport`: the messages carried, and the order in which ports are tried.
- `app/` runs the nodes: sockets, threads and timers, calling the library for
  every decision.
- `tests/` checks the library on concrete values.

Times are milliseconds on the node's clock, passed in by the caller.
