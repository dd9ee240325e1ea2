//! In-memory configuration database: tree entries, index, locks and VM list.

pub mod assoc;
pub mod path;
pub mod types;
pub mod index;
pub mod index_order;
pub mod database;
pub mod locks;
pub mod vmlist;
pub mod sync;
pub mod tree_laws;
pub mod journal;
