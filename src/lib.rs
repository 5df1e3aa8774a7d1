//! An encrypted, file-backed hierarchical store: structures hold objects,
//! objects hold typed cells, and cells are packed into encrypted blocks.
use vstd::prelude::*;

pub mod blocks;
pub mod crypto;
pub mod decimal;
pub mod engine;
pub mod hexid;
pub mod location;
pub mod metadata;

verus! {

/// Length in bytes of a cell (object) identifier.
pub const CELL_IDENTIFIER_LENGTH: u32 = 8;

/// Length in bytes of a structure or field identifier.
pub const METADATA_INDEX_LEN: u32 = 8;

} // verus!
