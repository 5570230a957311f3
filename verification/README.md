# drfe_r

Verified building blocks of DRFE-R, a routing overlay that places nodes in the
hyperbolic plane and forwards packets greedily, with pressure and tree fallbacks.
The library is written in Verus: every function in `src/` carries a contract that
Verus proves, except the few small wrappers around outside crates (SHA-256,
Base64, Ed25519, UUIDs, the system clock), whose contracts are trusted and say in
their doc comments what they claim.

## Layout

- `src/coordinates.rs` – node identifiers and the points and coordinates the
  overlay carries.
- `src/routing.rs` – the routing graph (`GPRouter`), routing nodes and decisions,
  the decisions that need no coordinates, the bookkeeping of a delivery, waypoint
  steps, a depth-first walk step and breadth-first hop distances.
- `src/baselines.rs`, `src/baselines/` – the Chord and Kademlia DHTs used as
  baselines, with their routing proved against exact specifications.
- `src/hashing.rs`, `src/ordering.rs` – SHA-256 of identifiers, big-endian
  prefixes, byte order and stable insertion sort.
- `src/chat.rs` – chat rooms, connected users, the chat server's state and the
  handling of each client request.
- `src/api.rs` – REST request validation, packet tracking, error statuses and
  Ed25519 request authentication.
- `src/audit.rs` – the audit records of security events.
- `src/byzantine.rs` – delivery verification and blacklisting of nodes that drop
  packets.
- `src/chaos.rs` – injected partitions, crashes, drops and delays.
- `tests/` – tests run against the compiled library.
- `app/` – what stands around the library: writing audit records through
  `tracing`, the JSON forms of its messages, and the random draws of chaos
  injection.
