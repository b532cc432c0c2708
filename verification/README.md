# bitcoinmw

A Mimblewimble toolkit written in Verus: the library in `src/` is verified, with its
behaviour stated in `requires`/`ensures` contracts over mathematical models.

Layout of `src/`:

- `base` — errors and byte-level utilities (endianness, hex, UTF-8 checks, sorting).
- `crypto` — the curve context, keys, Pedersen commitments, signatures, range proofs,
  aggregated signatures, ECDH, SHA-3 and the keystream generator. Curve operations are
  made by `grin_secp256k1zkp` behind trusted wrappers in `crypto/secp.rs`.
- `mw` — transactions, kernels, slates, the key chain, Merkle mountain ranges and blocks.
- `lmdb`, `store` — an ordered key-value store with transactions and cursors, kept in
  memory (the database path and name are recorded, nothing is written to disk), and the
  Merkle mountain range of peaks, leaves and bitmap kept in it.
- `evh` — the event handler's configuration, read-slab allocator and write state machine.
- `net` — the WebSocket handshake, framing and per-connection reading.
- `bible` — the verse index used by the proof-of-work text.
- `util` — NUL-free C strings.

`app/` holds the parts that do I/O: the command-line entry point and a socket server that
drives the library's WebSocket connection logic.
