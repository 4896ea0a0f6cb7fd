//! A bounded, per-destination cache of TLS session-resumption tickets.
//!
//! Sessions are grouped by destination (host and port). Each destination keeps
//! at most a fixed number of sessions, oldest first; a reverse index from
//! session identifier to destination makes removal by identifier direct.

mod cache;
mod ids;
mod key;
mod laws;

pub use cache::{
    after_get, after_insert, consistent, ids_under, lemma_remove_value_no_dup, order_without,
    Entry, KeyView, SessionCache,
};
pub use key::{copy_bytes, same_bytes, ProtocolVersion, Session, SessionKey};
pub use laws::{
    law_capacity_bound, law_cross_key_isolation, law_fifo_order, law_idempotent_remove,
    law_removal_cleanup, law_round_trip, law_single_use, lemma_insert_new, lemma_without_elsewhere,
    lemma_without_oldest,
};
