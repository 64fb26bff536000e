# agentzk_speedline

A shared-knowledge replication core, verified with Verus. Nodes exchange
signed packets (PCKP) that carry graph deltas; every replica screens a packet
(signature, duplicate, sender binding, schema, size cap, sequence chain with
hold-back, delta binding) and folds admitted deltas into a knowledge graph
with a deterministic merge: last-writer-wins registers for mutable classes,
first-writer-wins registers for append-only classes (`fact`, `episode`,
`attestation`, `score`), and add-wins edge sets.

## Layout

- `src/` — the verified library.
  - `order.rs` — byte-wise and text orders, as ordered maps use them.
  - `hlc.rs` — hybrid logical clock and its order.
  - `hash.rs` — BLAKE3 digests, tagged length-framed commitments, hex.
  - `graph.rs` — entities, property registers, edges; key-sorted storage with map/set views.
  - `merge.rs` — register laws and the merge engine, specified by `apply_delta`.
  - `convergence.rs` — merge order independence, replay idempotence (and a replay reports nothing new), convergence under any permutation.
  - `canonical.rs` — equal content implies equal stored form; replicas converge.
  - `packet.rs` — packets, inline/detached deltas, Ed25519 signing and verification.
  - `node.rs` — the replica's decision steps (`screen`, `commit`, `take_parked`) and their laws.
  - `delivery.rs` — the receive step as a model over mathematical state, tied to
    the decision steps; packet-level convergence (same packets, any order, same
    graph) and the chain law of the merged log.
  - `prover.rs` — transition claims and the placeholder prover.
- `tests/` — executable tests of the library.
- `app/` — wire encodings (serde, postcard, serde_json), key resolution, the
  receive loop around the decision steps, and the floating-point trust layer.
