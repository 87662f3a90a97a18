# meshcore

The core of a serverless mesh messenger over Bluetooth LE, with its behaviour stated
in contracts and proved by Verus.

- `src/` is the library. It performs no input or output: a `Worker` is handed
  commands, the time and the outcome of what it asked for, and answers with a list of
  actions for the platform to perform.
- `app/` runs a `Worker` on a thread of its own, and offers it through a C ABI and
  through JNI.
- `tests/` runs whole nodes against each other over an air that the test controls, and
  each part on its own.

## Modules

| Module | What it holds |
|---|---|
| `frame` | the wire format: parsing, building, opening, relaying |
| `crypto` | identities, key agreement, the key schedule, the AEAD |
| `prekey` | the ring of rotating prekeys, and the signed bundles that publish them |
| `senderkey` | the ratchet that makes broadcasts forward secret |
| `replay` | the sliding window that refuses replayed counters |
| `outbox` | directed messages, held until they are acked or expire |
| `relaycache` | frames carried for peers nobody can currently reach |
| `event` | what the application is told, and its binary layout |
| `protocol` | the node as a mathematical model: its state, and each step it takes |
| `worker` | the node as code, each method equal to a step of the model |
| `guarantees` | what follows: delivery, receipts, secrecy, and what the air cannot do |
| `config`, `peer`, `status`, `error`, `clock`, `text` | the edges |
| `bytes`, `seqs`, `table` | shared helpers |

## What is taken on trust

The cryptographic primitives, the random number generator, the clock and two UTF-8
decoders come from outside. Each call stands behind a small function whose contract
says what is claimed of it; what takes pages to say has a name instead (`sha256`,
`x25519_shared`, `aead_sealed`), and the contracts of the library speak of those names.
