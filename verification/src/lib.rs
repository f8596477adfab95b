//! An ordered map kept as a B-tree, with an entry API whose positions are
//! found by an ordering function supplied at each access.

pub mod borrow;
pub mod laws;
pub mod map;
mod node;
pub mod search;

pub use borrow::DormantMutRef;
pub use map::entry::{Entry, OccupiedEntry, OccupiedError, VacantEntry};
pub use map::BTree;
