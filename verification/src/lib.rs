//! Disk-space reclamation analysis.
//!
//! The library works on a *listing*: the entries of one directory tree as a
//! walker met them, each with the metadata that could be read. From a listing it
//! finds oversized files, byte-identical duplicates, files that nobody has
//! touched for a long time and well-known cache directories, and it estimates
//! how much space could be freed. It never touches the file system itself.
//!
//! An analysis goes in three steps:
//!
//! 1. List the tree, without following symbolic links and leaving out what
//!    cannot be read. The scans skip what the path filter excludes, whether or
//!    not the listing holds it; the size of a cache directory, however, counts
//!    every regular file that the listing holds beneath it.
//! 2. Ask `hash_candidates` which files share their size with another file,
//!    stream each of them through a `ContentHasher`, and put the digest into
//!    its entry. A file that cannot be read stays without a digest.
//! 3. Hand the listing to `analyze_disk`, with the instant against which the
//!    age of the files is to be held.
//!
//! Every function states what it returns as a function of the listing, and the
//! module of each scan proves what holds of every result.

pub mod model;
pub mod path_filter;
pub mod walker;
pub mod positions;
pub mod ranking;
pub mod large_files;
pub mod stale_files;
pub mod digest;
mod size_index;
pub mod duplicates;
pub mod duplicate_laws;
pub mod cache_dirs;
pub mod analysis;
pub mod size_text;
pub mod cleanup;
pub mod answers;

pub use crate::analysis::{analyze_disk, AnalysisConfig, DiskAnalysis};
pub use crate::cache_dirs::{calculate_dir_size, find_cache_directories};
pub use crate::digest::ContentHasher;
pub use crate::duplicates::{find_duplicates, hash_candidates};
pub use crate::large_files::find_large_files;
pub use crate::model::{CacheInfo, EntryKind, FileInfo, Timestamp, WalkEntry};
pub use crate::path_filter::should_exclude_path;
pub use crate::size_text::format_file_size;
pub use crate::stale_files::find_old_files;
