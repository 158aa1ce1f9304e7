//! A signaling relay core: a registry of named rooms, each holding the bounded
//! mailboxes of its current subscribers, with a non-blocking fan-out of every
//! published message to all of them.
//!
//! The relay never interprets the messages it carries; it only moves them from
//! a publisher into the mailboxes of a room's subscribers. Delivery is
//! best-effort: a full mailbox drops the new message, a closed mailbox is
//! evicted from its room on the next publish.

use vstd::prelude::*;

pub mod laws;
pub mod mailbox;
pub mod message;
pub mod registry;

verus! {

use std::collections::HashMap;

/// A one-entry map, used by the transport layer to shape small responses.
///
/// Nothing is stated about the map's contents: `String` keys have no
/// hash-model in the standard library's specifications.
pub fn map_1<V>(k: String, v: V) -> HashMap<String, V> {
    let mut m: HashMap<String, V> = HashMap::new();
    m.insert(k, v);
    m
}

} // verus!
