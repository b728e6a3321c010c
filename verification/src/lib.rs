//! The document model of a collaborative typesetting editor: items, causal
//! weaves of atoms, stamped maps, the shared storage and the editing document.
use vstd::prelude::*;

pub mod ids;
pub mod keys;
pub mod content;
pub mod weave;
pub mod stamped_map;
pub mod name_index;
pub mod chars;
pub mod hyphenation;
pub mod document;
pub mod editor;
pub mod branches;
pub mod markdown;
pub mod server;

verus! {

} // verus!
