//! Block format, SST builder and memtable of a log-structured merge-tree
//! key-value store, with their contracts proved by Verus.
use vstd::prelude::*;

pub mod block;
pub mod block_builder;
pub mod block_iterator;
pub mod key;
pub mod mem_table;
pub mod table_builder;

verus! {

} // verus!
