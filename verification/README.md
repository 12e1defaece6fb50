# boreas_core

The core of a filtering tunnel: which packets pass, how flows are carried,
which names are blocked, which connections are intercepted and how their
responses are rewritten.

- `src/` is the library. Every decision is a function of plain values, its
  contract is stated with `requires` and `ensures`, and Verus proves it.
  - `l3/` parses, fragments, reassembles and writes packets, and keeps UDP flows.
  - `l4/` holds the book of local TCP termination and of datagram relays.
  - `plan`, `filter`, `hosts`, `hiding`, `csp`, `rewrite` and `decode` are
    policy.
  - `mirror`, `mitm`, `session`, `exchange`, `connectors`, `ca` and
    `authority` are interception.
  - `masque` and `hysteria2` are the framing and the states of two egresses.
  - `host/` is the device seam and the reactor's accounting.
- `app/` drives the library: sockets, tasks, TLS, HTTP and platform devices.
- `tests/` exercises the library from outside.

A few functions of outside crates are called from the library. Each stands
behind one small function marked `external_body`, whose doc comment says what is
claimed of it without proof.
