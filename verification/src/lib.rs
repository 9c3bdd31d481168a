//! A small library for serving a directory tree over HTTP: it decodes
//! percent-encoded request paths, classifies resolution failures, renders
//! HTML index listings of directory entries, and builds the complete
//! response for every outcome. All filesystem and network work stays with
//! the caller; this crate holds the pure request-handling logic.
pub mod entries;
pub mod escape;
pub mod percent;
pub mod render;
pub mod response;
