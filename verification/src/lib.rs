//! Decentralised placement of data on a weighted tree of storage locations.
//!
//! A cluster map is a tree: racks, hosts, disks, each with a weight and a
//! mark that says whether it is in service. Whoever holds the same map
//! computes, from the number of a placement group alone, the same leaves to
//! put its replicas on. No table of locations is kept anywhere.
//!
//! * `tree` is the mathematical model of the map, which the contracts of
//!   this crate are stated over, and `path` and `names` are those of the
//!   paths that address its nodes and of the order of their names.
//! * `crush` holds the map itself, `Crush`, and what can be asked of it.
//! * `draw` is the weighted draw among the children of one node, `table`
//!   the table of logarithms that it reads, and `hash` the hash behind it.
//! * `select` is the walk that places the replicas of a placement group,
//!   with what holds of every placement.
//! * `balance` and `stability` say how the map behaves under change: when
//!   weights stay sums, and what a change moves.

pub mod balance;
pub mod crush;
pub mod draw;
pub mod error;
pub mod hash;
pub mod names;
mod node;
pub mod path;
pub mod select;
pub mod stability;
pub mod table;
pub mod tree;

pub use crush::Crush;
pub use error::CrushError;
pub use table::LnTable;
