# tcp_stack

A TCP/IP host in userspace, verified with Verus. It parses and builds IPv4, ICMP, UDP and TCP by
hand, and implements enough of TCP that `ping`, `nc` and `curl` talk to it over a Linux TUN device:
the handshake, reliable in-order transfer, adaptive retransmission, flow and congestion control,
selective acknowledgement, orderly teardown, and the defences of RFC 5961.

## Layout

- `src/` is the library. It does no I/O and reads no clock: packets and times go in, packets come
  out. Every function carries a contract, which Verus proves of all but the three named below.
  - `seq`, `utils`, `addr`, `ip`, `icmp`, `udp`: sequence numbers, checksums and the small
    protocols.
  - `rtt`, `congestion`, `rate`, `bbr`, `controller`: timeouts, CUBIC and BBR, in exact integers.
  - `reassembly`: the out-of-order receive buffer.
  - `tcp`: wire formats (`header`, `options`, `packet`, `arrival`, `cookie`), the retransmission
    queue (`retx`), the state machine as functions on a ghost state (`model`), and the connection
    that implements them (`connection`).
  - `socket`, `http`, `table`, `stack`: streams, listeners and servers, the HTTP responder, tables of
    connections, and the host that ties everything together.
- The properties that span several functions are public proof functions named `law_...`. Those of
  TCP connections stand in `tcp/laws.rs` (handshake, transfer), `tcp/delivery.rs` (a whole run of
  segments), `tcp/teardown.rs`, `tcp/tracking.rs` (nothing sent is forgotten), `tcp/recovery.rs`,
  `tcp/timers.rs` and `tcp/robustness.rs`.
- `tests/` runs the library on concrete packets.
- `app/` is the program: the TUN device, the clock, logging, and blocking sockets.

## What is trusted

Three functions are believed rather than proved: a random number from `rand`, the decoding of UTF-8
by the standard library, and the header fields that `etherparse` reads, which the host compares with
its own.
