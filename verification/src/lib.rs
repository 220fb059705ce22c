//! An in-memory ordered map keyed by byte strings, kept as an adaptive radix
//! tree, with an adapter for 64-bit integer keys.
//!
//! `art` holds the map and `u64_art_map` the adapter. `node` says what a
//! tree of nodes stands for and when it is well formed; `laws`, `canon` and
//! `steps` say what holds across the operations and what each of them does
//! to the nodes.

pub mod art;
pub mod canon;
pub mod compat;
pub mod count;
mod delete;
pub mod duplicate;
mod find;
pub mod grow;
mod insert;
pub mod iter;
pub mod keys;
pub mod laws;
mod leaf;
mod lookup;
pub mod node;
mod order;
mod pop;
pub mod prefix;
pub mod shrink;
pub mod slots;
pub mod steps;
pub mod u64_art_map;
