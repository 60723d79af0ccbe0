//! A personal knowledge-base engine.
//!
//! Notes carry a title, free-text content, tags and directed links to other
//! notes.  The engine keeps the corpus in memory, derives backlinks and
//! search results on demand, serialises notes to a JSON object format, and
//! reconciles the free-text revision log of an external version-control
//! backend with individual notes.  All file and subprocess handling lives
//! outside this crate; the engine works on plain values.

pub mod clock;
pub mod codec;
pub mod fold;
pub mod history;
pub mod ident;
pub mod laws;
pub mod note;
pub mod service;
pub mod strutil;

pub use note::Note;
