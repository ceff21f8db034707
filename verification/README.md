# ddns

A dynamic DNS service: publishers announce the endpoints of a host, signed with the certificate
of that host, and clients look them up over HTTP/3, over HTTP or in the local network.

* `src/` is the library. It holds the wire formats, the signature over a packet, the rules of the
  server, its records and their ranking, and the lookup and publication logic of the clients. The
  functions have contracts that Verus proves; only the reading of the clock promises nothing.
  `src/foreign.rs` lists what is taken on trust from other crates.
* `tests/` runs the library on concrete values.
* `app/` surrounds the library with sockets, files, Redis, HTTP and TLS. The packets themselves are
  written and read by a `PacketCodec` that a program hands in.
