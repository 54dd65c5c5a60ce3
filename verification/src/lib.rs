//! A personal knowledge base of plain-text notes ("Zettelkasten").
//!
//! Each note is a text file with a structured header (identity, display
//! name, creation timestamp, tags, inbound-link list) delimited by
//! horizontal-rule lines, followed by free-form body text that may contain
//! `[[NoteId]]` cross-reference tokens.  This crate holds the note-document
//! model and parser, the link/tag consistency engine that keeps header
//! metadata synchronized with body content and a relational index, and the
//! boolean search-query evaluator.  File, terminal and editor plumbing live
//! outside the crate and hand plain values in and out.

pub mod text;
pub mod timestamp;
pub mod note;
pub mod links;
pub mod envelope;
pub mod note_metadata;
pub mod backlink;
pub mod index;
pub mod sync;
pub mod collection_tool;
pub mod search;
pub mod input_string;
pub mod history;
pub mod graph;
pub mod create;
pub mod roundtrip;
