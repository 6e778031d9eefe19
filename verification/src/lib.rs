//! Consistency core of a note-taking application: notes kept one per file,
//! an index that mirrors them, change tracking by content hash, and the
//! reconciliation of recorded floating windows with the windows that exist.
//!
//! Every item of the library is verified with Verus but for the calls into
//! other crates, which are gathered in [`trusted`].

pub mod clock;
pub mod config;
pub mod error;
pub mod frontmatter;
pub mod index;
pub mod intake;
pub mod menu;
pub mod note;
pub mod positions;
pub mod service;
pub mod slug;
pub mod storage;
pub mod store;
pub mod text;
pub mod tracker;
pub mod trusted;
pub mod window;
pub mod workspace;
