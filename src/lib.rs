//! A small version-control engine: a content-addressed store of blobs, trees
//! and commits, branches with their own path index, and a structural merge.
#![allow(non_snake_case)]
#![allow(non_camel_case_types)]

pub mod hashing;
pub mod head;
pub mod laws;
pub mod merge;
pub mod objects;
pub mod paths;
pub mod repo;
pub mod store;
pub mod strmap;

pub use hashing::{getSHA1, hex_digest};
pub use head::{Branch, HEAD};
pub use merge::gitMerge;
pub use objects::{blob, objecttype, tree, Commit};
pub use paths::fatherName;
pub use repo::{gitAdd, gitBranch, gitCheckout, gitCommit, gitRm};
pub use store::{load_reference, load_reference_tree, GitError, Objects, References};
pub use strmap::StrMap;
