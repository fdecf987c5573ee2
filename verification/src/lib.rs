//! Core of a local file manager: a filesystem model with reversible
//! mutation operations (copy, move, rename, create, soft delete), a
//! collision-free naming resolver, a bounded undo log, a clipboard, and a
//! cancellable work-list search scanner.

pub mod clipboard;
pub mod config;
pub mod fs_ops;
pub mod history;
pub mod laws;
pub mod memfs;
pub mod pathname;
pub mod searcher;
pub mod text;

use vstd::prelude::*;

verus! {

} // verus!
