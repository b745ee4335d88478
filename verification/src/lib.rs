//! Core of a local checkpoint engine for a working directory: content
//! hashing, blob framing, the tree model and its wire format, the checkpoint
//! journal, path and ignore rules, and retention.

pub mod hash;
pub mod path_order;
pub mod tree;
pub mod tree_format;
pub mod tree_diff;
pub mod blob;
pub mod blob_store;
pub mod store;
pub mod object_store;
pub mod ignore_rules;
pub mod checkpoint;
pub mod journal;
pub mod pathmap;
pub mod retention;
pub mod ipc;
pub mod pins;
pub mod watcher;
pub mod pipeline;
pub mod lock;
pub mod conflicts;
pub mod time_format;
