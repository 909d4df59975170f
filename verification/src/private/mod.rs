//! The private tree: files and directories that are stored encrypted,
//! under names that tell nothing of the tree.

pub mod ancestry;
pub mod canonical;
pub mod codec;
pub mod directory;
pub mod entropy;
pub mod forest;
pub mod hamt;
pub mod hamt_load;
pub mod hamt_remove;
pub mod hamt_set;
pub mod hamt_store;
pub mod in_order;
pub mod key;
pub mod latest;
pub mod lineage;
pub mod movement;
pub mod namefilter;
pub mod node;
pub mod path;
pub mod ratchet;
pub mod round_trip;
