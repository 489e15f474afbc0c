//! A manual priority ordering over the items of a task store that carry the
//! `focus` tag.
//!
//! The engine works on snapshots: it reads the items it is given, decides which
//! sort keys have to be cleared or written, and hands back the requests for the
//! caller to carry out. It keeps no state of its own.

pub mod cleanup;
pub mod compact;
pub mod gc;
pub mod laws;
pub mod model;
pub mod reorder;
pub mod store;
pub mod text;
