//! Reactive UI-building helpers centred on a children-diff reconciliation
//! engine: a keyed, ordered collection of values drives the creation and
//! teardown of child UI nodes, with change notifications coalesced per batch.
//! Alongside the engine live a per-entry value handle, a toggle-state widget
//! model, and the buffering/backoff policy of a reconnecting socket.

pub mod children_diff;
pub mod key;
pub mod keyed_map;
pub mod socket;
pub mod toggle;
