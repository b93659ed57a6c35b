//! Polls repository hosts for newly published releases and decides which of
//! them deserve a chat notification.
//!
//! The library holds the verified core of the notifier: selecting the latest
//! eligible release from a host's listing, the deduplication state with its
//! snapshot encoding, the importance flag drawn from a search pattern, the
//! message a notification carries, and the per-cycle orchestration that ties
//! them together. Network and filesystem traffic stays with the caller, which
//! hands plain values in and out.

pub mod release;
pub mod state;
pub mod codec;
pub mod search;
pub mod notify;
pub mod cycle;
