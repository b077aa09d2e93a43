//! Core storage engine of a content-addressed, delta-encoded file and folder
//! versioning store.
//!
//! A working tree (a single file or a directory tree) is committed; each
//! commit is persisted as one small binary record whose name is derived from
//! the hashed content. Commits chain backwards through a `previous_commit`
//! pointer, branches are named heads that advance along chains, and a
//! repository is a folder of such records plus a header listing its branches.

pub mod cid;
pub mod codec;
pub mod hashing;
pub mod record;
pub mod record_bytes;
pub mod delta;
pub mod store;
pub mod worktree;
pub mod storage;
pub mod reconcile;
pub mod laws;
