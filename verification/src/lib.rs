//! Verified core of SDAL, a content-addressed version control system:
//! object model, binary formats, chunking, merging and repository rules.

pub mod hashing;
pub mod order;
pub mod objects;
pub mod binary;
pub mod text;
pub mod tree_codec;
pub mod wire;
pub mod chunking;
pub mod policy;
pub mod maps;
pub mod index;
pub mod merge;
pub mod paths;
pub mod refs;
pub mod storage;
pub mod checkpoint;
pub mod mergetool;
pub mod ignore;
pub mod invariants;
pub mod transport;
pub mod protocol;
pub mod walk;
pub mod tree_build;
pub mod commands;
pub mod identity;
