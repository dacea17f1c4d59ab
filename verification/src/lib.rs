//! A content-addressed object store.
//!
//! A repository holds named objects whose bodies are byte streams. The
//! streams are cut into chunks at boundaries that follow their content, and
//! each chunk is stored once, under its checksum, in a store of blobs. The
//! state of a repository becomes durable with a commit, which writes a new
//! header and then overwrites the one blob that names the current header.
//!
//! The modules, from the ground up: `error`; `hash`, `chunk` and `chunker`
//! for checksums, chunk references and content-defined chunking;
//! `compression` for the codec; `store` for the store of blobs; `wire`,
//! `header` and `format` for the header and its encoding; `repo` for the
//! chunks of a repository; `state`, `object` and `content_id` for the views of
//! objects; `commit` for what makes a repository durable; `posix` for what a
//! file system needs of it; and `laws` for what holds of all of them
//! together.

pub mod chunk;
pub mod chunker;
pub mod commit;
pub mod compression;
pub mod content_id;
pub mod error;
pub mod format;
pub mod hash;
pub mod header;
pub mod laws;
pub mod object;
pub mod posix;
pub mod repo;
pub mod state;
pub mod store;
pub mod wire;
