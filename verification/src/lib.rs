//! A store of short free-text notes keyed by working directory, with a
//! JSON-subset persistence codec and a terminal-hyperlink renderer for
//! backtick-delimited path references inside notes.
//!
//! [`store::Recalls`] owns the directory-to-notes mapping: `add`, `remove`
//! and `get_list` operate on the working directory's list, `new` and
//! `write` move the whole mapping between its text form and memory
//! ([`codec`]). [`render`] turns one stored note into a printed line.

pub mod codec;
pub mod render;
pub mod store;
