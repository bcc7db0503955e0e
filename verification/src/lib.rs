//! Indexing and navigation engine for a directory-backed comic collection.
//!
//! The library keeps an in-memory store of comic records, a tag index built
//! while records are registered, a per-comic navigation matrix derived from
//! artifact file names, and a reading-progress tracker that can be rendered
//! to and read back from its persisted form.  All filesystem work is left to
//! the caller: the functions here take directory listings and file contents
//! as plain values and are verified against their contracts.

use vstd::prelude::*;

pub mod text;
pub mod navigation;
pub mod keywords;
pub mod storage;
pub mod comic;
pub mod progress_file;
pub mod tracker;

pub use comic::{
    Comic, ComicDatabase, ComicDatabaseLoadError, DirectoryScan, LoadEntry,
};
pub use keywords::KeywordIndex;
pub use tracker::{Tracker, TrackerReadError, TrackerSaveError};
pub use navigation::GetComicNavigationError;

verus! {

/// Runtime options for a serving process built on top of the library.
pub struct MarbleOptions {
    pub enable_progress_writing: bool,
    pub tracker_path: String,
}

} // verus!
