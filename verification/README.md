# snarkos-node-bft

The memory pool and BFT consensus rules of a snarkOS validator node, written in Verus and
proved against their contracts.

- `src/` is the verified library. Each module holds one part of the node's logic:
  `dag`, `bft` and `ordering` (the DAG, leader election checks, commit and ordering of
  subDAGs), `primary` (proposing, signing and certifying batches), `worker` (the ready queue
  and the fetching of transmissions), `gateway` (connection rules, rate limits and the
  dispatch of inbound events), `sync` (block responses and certificate requests),
  `storage_service` (the transmission store), `cdn` (the range, request counts and
  bundles of loading blocks from a CDN), `config` (the node's configuration), `text` (the
  decimal and address text of error messages) and `helpers` (the queues, caches and codecs
  they share). Public proof functions named `law_*` state properties that span several calls.
- Calls into outside crates (`sha2`, `indexmap`, `time`, `rand`, std's clock) go through
  small trusted wrappers whose doc comments say what their contracts claim.
- `app/` is the runtime around the library: command-line parsing with `clap`, the CDN
  download with `reqwest`, the proposal cache on disk, and the timers and channels that
  drive the queues.
- `tests/` exercises the library on concrete values.
