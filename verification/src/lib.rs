//! Core engine of a dual-pane, keyboard-driven filesystem browser.
//!
//! Each pane keeps a lazily loaded view of a directory subtree: a root
//! directory entry, an ordered index of the entries currently shown, a
//! cache of entries evicted by collapse or re-root, and a selection
//! cursor.  All decisions (expand, collapse, re-root, navigation, marking,
//! cross-pane moves) are made and verified here; the surrounding host
//! performs the actual directory reads and renames and hands the results
//! in as plain values.

pub mod engine;
pub mod entry;
pub mod errors;
pub mod index;
pub mod laws;
pub mod moves;
pub mod ops;
pub mod pane;
pub mod path;
pub mod reroot;
pub mod restore;
pub mod roundtrip;

pub use engine::ExplorerState;
pub use entry::{Entry, EntryKind, FsMeta, FsNodeKind, FsRecord};
pub use errors::{EngineError, FsErrorKind};
pub use pane::{DiodeState, Selection};
pub use path::EntryPath;
