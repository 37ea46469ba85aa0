# pool_actor

Bookkeeping for Uniswap V3 pools, verified with Verus.

- `src/primitives.rs`: addresses and 256-bit numbers as bytes and limbs; address
  parsing and big-endian conversion go through `alloy` behind trusted wrappers.
- `src/events.rs`: log records and the decoding of `Swap`, `Mint` and `Burn`
  events into pool updates; the event topics are Keccak-256 digests from `alloy`.
- `src/pool.rs`: a pool's state, the effect of each update, and the book of
  pools keyed by address (a map with distinct keys).
- `src/stream.rs`: which blocks to ask logs for, and what a batch of log
  records does to the book.
- `src/actor.rs`: the actor's pools and its answers to requests.
- `app/`: the channels, the network provider and the run loops around the
  library.
