//! EventfoldDB: an append-only event store.
//!
//! The library holds the verified core: the binary log codec, the stream
//! index, the bounded deduplication cache, the single-writer append logic,
//! the live-subscription broker and the catch-up handoff of subscribers.

pub mod auth;
pub mod broker;
pub mod codec;
pub mod dedup;
pub mod error;
pub mod event;
pub mod index;
pub mod le;
pub mod subscription;
pub mod writer;
