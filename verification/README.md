# netrunner_engine

The engine of a tunnel that travels inside records that look like TLS 1.3, written in
Verus: every function in `src/` is verified against its contract, except the wrappers around
outside crates that are named below.

- `src/crypto/`: key exchange, key derivation, the stream cipher's nonces, time-based tags,
  credentials, the session keys, and the one-way key chains of datagram legs.
- `src/tlseng/`: hello messages in the manner of a browser, records, extensions, GREASE,
  the ML-KEM ballast, the names under which a node appears.
- `src/nrxp/`: frames, how frames are packed into records and padded, the stream codec, the
  datagram codec with its replay window.
- `src/bridge.rs`: where the two meet. `src/agreement.rs`: that both sides of a handshake end
  up with the same keys.
- `src/buffers.rs`, `src/entropy.rs`, `src/crypto/primitives.rs`, `src/crypto/hex.rs`,
  `src/crypto/clock.rs`, `src/logging.rs`, `src/utils/text.rs`: what is taken from outside
  crates and the standard library, and what is relied on there without proof.
- `app/`: the global logger, errors as the standard library knows them, and what is read from
  the environment.

Laws that span several functions are public proof functions. Among them: what a batch sends,
the receiver hands out in order (`nrxp/delivery.rs`); packing uses as few records as possible
(`nrxp/batch.rs`); no counter passes the replay window twice (`nrxp/replay.rs`); sealed
datagrams open to their frames in any order, and only once (`nrxp/datagram_laws.rs`); a packet
that is refused does no harm (`crypto/chacha.rs`); a node offers exactly the names that it
accepts (`tlseng/decoy.rs`); a hello is understood, and the handshake agrees (`agreement.rs`).
