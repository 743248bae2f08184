//! Collection and shared-ownership core of a zero-copy archive format: a
//! minimal-perfect-hash map that answers lookups in place, and shared / weak
//! reference nodes that keep aliasing across archiving.

pub mod hash;
pub mod hash_index;
pub mod hash_map;
pub mod rc;
