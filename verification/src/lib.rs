//! Core of a local file-sharing server: walking a selected set of
//! filesystem entries, serializing them into a tar byte stream, and
//! handing the bytes to an asynchronous consumer through a bounded,
//! backpressured bridge.
//!
//! The filesystem is modelled as an immutable snapshot ([`tree::FsTree`]);
//! the surrounding binary takes the snapshot, runs the worker loop and
//! serves HTTP, and hands this library only plain values.

pub mod bridge;
pub mod entry;
pub mod tree;
pub mod format;
pub mod listing;
pub mod pipeline;
pub mod walk;

pub use entry::is_hidden_name;
