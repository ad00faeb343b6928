//! A balanced B+-tree sequence with weighted indexing and ordered search.
//!
//! Leaves hold items; internal nodes cache the number of leaves below them,
//! the sum of their sizes and the value of their leftmost leaf, so that
//! positional, weighted and ordered lookups all run in logarithmic time.
pub mod options;
pub mod node;
pub mod split;
pub mod insert;
pub mod list;
pub mod remove;
pub mod search;
pub mod key;
pub mod iter;
pub mod debug;
pub mod laws;

pub use node::{Data, Internal, Node};
pub use options::{Bool, DefaultOptions, Fanout, ListOptions, Options, StoreKeys, TypedOptions, Usize};
pub use list::SkipList;
pub use iter::Iter;
pub use debug::{DebugNode, IdMap, LeafDebug, State};
pub use key::{Transformation, Value};
