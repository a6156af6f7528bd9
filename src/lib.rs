//! Moves source files between a text buffer and a file tree: renders files
//! into annotated text, extracts per-file change blocks from pasted text,
//! and computes the new content of each target file.
pub mod applier;
pub mod diff;
pub mod extractor;
pub mod format;
pub mod paths;
pub mod text;
pub mod watcher;
