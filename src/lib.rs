//! Reconstructs an e-reader's highlighted passages into a
//! Book → Chapter → Highlight hierarchy.
//!
//! The content store has no foreign key from a highlight to its chapter
//! title; the association is derived from identifier prefixes and reading
//! order (`resolve`, with lookups by binary search over `index`), the
//! eligible highlights are put in a canonical order (`select`), and the
//! ordered stream is folded into contiguous runs (`group`). `library` is the
//! facade over one snapshot of the store; `db` holds the queries that read it.
pub mod text;
pub mod model;
pub mod index;
pub mod resolve;
pub mod select;
pub mod group;
pub mod library;
pub mod cli;
pub mod config;
pub mod db;

pub use config::{Config, ConfigError};
pub use library::Library;
pub use model::{Book, Bookmark, Chapter, ContentItem, ContentKind, Highlight};
