//! Repackaging of zip archives into a normalized, deterministic form.
//!
//! An archive is read from a byte buffer. Each member's stored path is
//! sanitized ([`path`]); members that cannot be opened or whose path is
//! unsafe are skipped ([`extract`]). The entries that remain are written
//! back without directories, in strictly ascending order of their paths
//! (of several files of one path the last one is written), with the
//! writer's default compression ([`rebuild`]): as one archive, or as one
//! archive per
//! top-level folder, the folders in descending order of their names
//! ([`split`]). [`packages`] chooses between the two by the presence of a
//! marker file at the archive root.
//!
//! The container format itself is the work of the `zip` crate, and the
//! lexical resolution of paths that of `path-clean`; [`zipio`] and [`path`]
//! state what the library relies on from them.

pub mod seqs;
pub mod text;
pub mod path;
pub mod zipio;
pub mod entry;
pub mod extract;
pub mod rebuild;
pub mod split;
pub mod packages;
