//! Audits account-ledger state between one canonical store and any number of
//! secondary stores: decoding payloads, grouping records by account, and
//! classifying every pairing.

pub mod json;
pub mod record;
pub mod snapshot;
pub mod reconcile;
pub mod node_name;
