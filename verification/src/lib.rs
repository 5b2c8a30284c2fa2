//! A small message store in two shapes: an ordered map from integer keys to
//! bounded message records, and an append-only log of authored messages with
//! author-gated mutation. Each store is an explicitly owned value; the host
//! process supplies timestamps and persists the state around each call.

pub mod log_store;
pub mod map_store;
