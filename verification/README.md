# light_rpc

A JSON-RPC relay for Solana: it takes `sendTransaction` requests, sends each
transaction to the current leaders' TPU ports, and keeps retrying it in batches
until a round sees it confirmed or it runs out of retries; `confirmTransaction` and
`getVersion` are answered locally, everything else is forwarded to an upstream
RPC node.

- `src/` is the verified library (Verus):
  - `worker.rs`: the retry queue (`LightWorker`): queueing (a signature
    already waiting is not queued again), the retry round that drops confirmed
    transactions, cuts the rest into batches and counts retries down, and the
    laws of both (retries run out after `r + 1` rounds, a confirmed transaction
    is neither sent nor kept, batches cover the queue in order, no signature is
    queued twice).
  - `bridge.rs`: what a `sendTransaction` / `confirmTransaction` request turns
    into: the transaction's bytes, its first signature, the retries, the answer.
  - `signature.rs`: 64-byte signatures and their base58 text.
  - `version.rs`: the `getVersion` answer.
- `app/` is the executable around it: HTTP server, TPU and RPC clients, the
  block listener and the retry timer.
- `tests/` runs the library on concrete values.
