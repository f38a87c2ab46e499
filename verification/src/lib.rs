//! A rope for editable UTF-8 text, verified with Verus.
//!
//! Text is stored as a balanced tree of small UTF-8 fragments.  Internal
//! nodes carry one cached summary (bytes, chars, line breaks) per child, so
//! length queries are constant-time and index conversions between the
//! byte, char and line spaces descend one root-to-leaf path.  Edits split
//! the tree at scalar boundaries and rejoin it with a concatenation that
//! restores balance and occupancy.
//!
//! Every operation's contract is stated over the text as a byte sequence
//! (`Seq<u8>`): edits are exact `take`/`skip` equations, conversions are
//! pinned to spec functions over the bytes, and well-formedness — valid
//! UTF-8 leaves, equal depth on all paths, minimum occupancy below the
//! root, correct stored summaries — is an invariant every operation
//! preserves.

pub mod str_utils;

pub use crate::rope::Rope;
pub use crate::slice::CharIdxRange;
pub use crate::slice::RopeSlice;

pub mod builder;
pub mod concat;
pub mod convert;
pub mod iter;
pub mod split;
pub mod node;
pub mod rope;
pub mod slice;
pub mod text_info;
