# KRON Mesh

A phone-only DAG ledger whose library carries machine-checked contracts.

Every transaction is a vertex with two parents, a fixed fee and an ML-DSA-44 signature.
Cumulative weight confirms vertices and settles double spends; each confirmed vertex
mints a halving subsidy that goes to the miner phone and the relays that carried it.
Phones mine. A PC is a gossip hub or a read-only explorer.

## Layout

- `src/` is the library, all of it verified.
  - `dag/` – vertices, ledger, minting, conflict rule, offline merge, wallet relay;
    `dag/laws.rs` holds what is true of the ledger as a whole
  - `p2p/` – frames, handshake, Noise tunnel, gossip, routing table, `kron-mesh/1`
    sessions, LAN discovery, the hub
  - `kron/` – addresses, wallets, seed files, bootstrap peers, command lines, the miner
  - `kron_wallet/` – amounts, recovery phrase, wallet file, sending, the wallet's screens
  - `anti_bot/`, `crypto/`, `economics/`, `explorer/`, `listen.rs`, `persist.rs`,
    `restart.rs`, `interleaved.rs` – device attestation, keys and hashes, the issuance
    schedule, the explorer, addresses of this host, the vertex log and snapshot, what a
    restart gives back
  - `table.rs`, `text.rs`, `bytes.rs` – maps and sets keyed by byte arrays, text, integers
    as bytes
- `tests/` runs the library with the real outside crates.
- `app/` is the part that does I/O: sockets, threads, files, the clock and the wallet window.
  It calls the library for every decision.

Public functions state what they return in their contracts; functions named `law_…` state
what holds across functions. What is believed about outside crates (sha2, hex, fips204,
bip39, rand, snow) is written at the wrappers that call them. The Noise states keep a record
of what went through them that only those wrappers can write (`p2p/tunnel.rs`).
