//! Sorts the files of one folder into category folders and sets exact
//! duplicates aside. Every function here works on plain values: a listing of
//! the folder, the bytes of its files, and a snapshot of the paths that exist.

pub mod types;
pub mod file_analyzer;
pub mod duplicate_finder;
pub mod duplicate_laws;
pub mod snapshot;
pub mod path_resolver;
pub mod naming_laws;
pub mod organizer;
pub mod organizer_laws;
pub mod display;

pub use types::{FileCategory, FileEntry, FilePath, DuplicateGroup};
pub use file_analyzer::FileAnalyzer;
pub use duplicate_finder::DuplicateFinder;
pub use organizer::Organizer;
