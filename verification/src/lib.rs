//! Rewrites the import section of Go source files: imports are grouped into
//! deterministic buckets (standard-library, third-party, and caller-declared
//! custom prefixes), each bucket is sorted by import path, and the import
//! block is re-emitted in a fixed format while every other line of the file
//! is preserved verbatim.

pub mod file;
pub mod import;
pub mod matcher;
pub mod sorter;
pub mod text;
pub mod theorems;

pub use file::GoFile;
pub use import::Import;
pub use matcher::ImportMatcher;
pub use sorter::ImportSorter;
