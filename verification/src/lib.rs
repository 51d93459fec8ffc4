//! A small reader for git repositories: loose objects, the staging index,
//! ignore patterns, checkout, status and line diffs.
//!
//! The functions of this crate are verified against the contracts in their
//! headers. The few that call into other crates (for SHA-1, zlib, hex and
//! glob patterns) or into parts of `std` that have no contract yet are
//! marked: their contracts say what is taken on trust.
//!
//! The crate itself never touches the file system. Where an operation
//! needs files, it takes their bytes from the caller; where it has to go
//! through the working tree or the object store, it is a walk that says
//! what it needs next and takes the caller's report: `sync` brings a
//! directory to the state of a tree, `folder` hashes a directory, and
//! `treewalk` lists the files of a commit.

pub mod blob;
pub mod checkout;
pub mod commit;
pub mod diff;
pub mod error;
pub mod folder;
pub mod gitignore;
pub mod head;
pub mod index;
pub mod object_finder;
pub mod objectid;
pub mod objectreader;
pub mod order;
pub mod status;
pub mod stream;
pub mod sync;
pub mod text;
pub mod tree;
pub mod tree_laws;
pub mod treewalk;
pub mod unstaged;
pub mod untracked;
