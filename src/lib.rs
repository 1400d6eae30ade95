//! A section of nodes that keep an ordered, witnessed roster of members and a
//! ledger of digital bearer certificates whose spends are committed once a strict
//! majority of the elders has witnessed them.
//!
//! - `fake_crypto`: signature shares tagged with their signer, and the majority rule.
//! - `stable_set`: the roster, with pending joins and leaves and their promotion.
//! - `membership`: the requests that drive the roster between nodes.
//! - `ledger`: transactions, DBCs, and the pending-commitment ledger.
//! - `node`: one node's step from a message to its new state and what it sends.
//! - `assoc`: lists of pairs read as maps, and lists of ids read as sets.
use vstd::prelude::*;

pub mod assoc;
pub mod fake_crypto;
pub mod stable_set;
pub mod ledger;
pub mod membership;
pub mod node;
pub mod properties;

verus! {

/// Identifier of a node of the section.
pub type Id = u64;

/// How many members, first in roster order, are elders where nothing else is set.
pub const ELDER_COUNT: usize = 4;

} // verus!
