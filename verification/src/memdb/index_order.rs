//! Ordering of database indexes used to choose the synchronization leader:
//! the higher version wins, and on equal versions the later modification time.

use vstd::prelude::*;
use std::cmp::Ordering;
use vstd::std_specs::cmp::PartialOrdSpecImpl;
use crate::memdb::index::MemDbIndex;

verus! {

/// Three-way comparison of two numbers.
pub open spec fn order_u64(a: u64, b: u64) -> Ordering {
    if a < b {
        Ordering::Less
    } else if a == b {
        Ordering::Equal
    } else {
        Ordering::Greater
    }
}

/// Three-way comparison of two 32-bit numbers.
pub open spec fn order_u32(a: u32, b: u32) -> Ordering {
    if a < b {
        Ordering::Less
    } else if a == b {
        Ordering::Equal
    } else {
        Ordering::Greater
    }
}

/// Leader-election order of two indexes: by version, then by modification time.
pub open spec fn index_order(a: MemDbIndex, b: MemDbIndex) -> Ordering {
    if a.version != b.version {
        order_u64(a.version, b.version)
    } else {
        order_u32(a.mtime, b.mtime)
    }
}

impl MemDbIndex {
    /// Compares two indexes for leader election.
    pub fn cmp(&self, other: &MemDbIndex) -> (r: Ordering)
        ensures
            r == index_order(*self, *other),
    {
        if self.version < other.version {
            Ordering::Less
        } else if self.version > other.version {
            Ordering::Greater
        } else if self.mtime < other.mtime {
            Ordering::Less
        } else if self.mtime > other.mtime {
            Ordering::Greater
        } else {
            Ordering::Equal
        }
    }
}

impl PartialOrd for MemDbIndex {
    fn partial_cmp(&self, other: &MemDbIndex) -> (r: Option<Ordering>) {
        Some(self.cmp(other))
    }
}

impl PartialOrdSpecImpl for MemDbIndex {
    open spec fn obeys_partial_cmp_spec() -> bool {
        true
    }

    open spec fn partial_cmp_spec(&self, other: &MemDbIndex) -> Option<Ordering> {
        Some(index_order(*self, *other))
    }
}

} // verus!
