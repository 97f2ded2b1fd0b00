//! Snapshots of the files of a workspace, taken before every turn of a session,
//! and the way back to them.
//!
//! A file's content is a *blob*, kept once under its hash (`blob`, `digest`,
//! `publish`). What a capture saw of the workspace is a *manifest*: a hash, a
//! mode and a fingerprint for every file found, and the paths that were looked
//! for and not there (`manifest`, `checkpoint`). A session's *records* say which
//! manifest its prompts, its turns and its restores stand on (`refs`, `store`),
//! and what no record points at is collected (`gc`).
//!
//! A restore is a plan from one manifest to another (`restore`), applied one
//! file-system operation at a time (`apply`). What that does to the files is
//! told in `workspace`, and what every operation keeps of the store in
//! `integrity`. Which files a session looks at at all is a matter of `scope`,
//! `rules` and `controller`; `rewind` takes files and conversation back together.
//!
//! The library decides and computes, and never touches a disk. Reading, writing
//! and walking are its caller's, who hands it what was read and does what it
//! answers.

pub mod apply;
pub mod blob;
pub mod checkpoint;
pub mod controller;
pub mod digest;
pub mod error;
pub mod gc;
pub mod integrity;
pub mod manifest;
pub mod paths;
pub mod publish;
pub mod refs;
pub mod restore;
pub mod rewind;
pub mod rules;
pub mod scope;
pub mod store;
pub mod table;
pub mod text;
pub mod workspace;
