//! Bookkeeping for Uniswap V3 pools: decoding of pool events from log
//! records, the effect of those events on a pool's state, and the query and
//! streaming decisions of the pool actor.

pub mod primitives;
pub mod events;
pub mod pool;
pub mod stream;
pub mod actor;
