//! A sparse-to-dense storage.
//!
//! Values are kept under caller-chosen, possibly far-apart indices. They live
//! in one growable table of groups. A group serves twice: it carries the
//! redirect entries of the four indices whose home it is, and it is one slot
//! for a value, which may belong to any index. The redirect entry of an index
//! names the slot that holds its value. Slots that hold no value are on a
//! stack and are handed out again, last freed first.
//!
//! A slot records which index its value belongs to. That makes liveness a
//! matter of fact: an index is live when its redirect entry leads to a value
//! that is its own. A redirect entry that a removal left behind leads to an
//! empty slot, or to the value of another index, and is recognised as stale.
//!
//! The operations come in two tiers. Those named `c_..` take any index, find
//! out whether it is live, and answer `None` where it is not. `get`,
//! `get_mut` and `remove` are for callers that know the index to be live;
//! they state that as a precondition and check nothing at run time.
//!
//! Every operation states what it does to the live indices and their values
//! (the view of the storage, a map), and what it does to the table and the
//! free list. The module `laws` holds what follows across operations.

pub mod group;
pub mod laws;
pub mod mask;
pub mod storage;

pub use crate::group::{InterleavedGroup, SPARSE_RATIO};
pub use crate::storage::IDVStorage;
