//! Sorted tables on disk: the file format, the catalog of live files, and
//! the manager that turns frozen in-memory tables into table files.

pub mod manager;
pub mod manifest;
pub mod sstable;

use vstd::prelude::*;

verus! {

/// A tier of the tree.  Level 0 receives flushed tables and is the only
/// level whose files may overlap in user-key range.
#[derive(Debug, Clone, Copy, PartialEq, Eq, Hash, Structural)]
pub struct Level(pub u32);

} // verus!
