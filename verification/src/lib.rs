//! Identifier reconciliation for a pair of asset trees.
//!
//! Assets are addressed by 32-character lowercase-hex identifiers ("GUIDs")
//! declared in per-asset descriptor (`.meta`) files and embedded in reference
//! tokens across structured text documents. When the same asset carries a
//! different identifier in the canonical tree and in a subordinate tree, this
//! library computes the mapping between the two, rewrites the subordinate
//! descriptor and every reference occurrence to the canonical identifier, and
//! produces an auditable report — all as pure functions over file contents,
//! so a caller can preview every change before writing a byte.

use vstd::prelude::*;

pub mod bytes;
pub mod guid;
pub mod index;
pub mod mapping;
pub mod meta;
pub mod refscan;
pub mod report;
pub mod syncer;

verus! {

} // verus!
