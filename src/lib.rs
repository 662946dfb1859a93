//! Keyed lookups over a sharded record set: the call vocabulary and its wire
//! codec, the per-shard store, and the router that fans a call out to every
//! shard and merges the replies.

pub mod model;
pub mod store;
pub mod router;
pub mod codec;
