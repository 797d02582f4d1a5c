//! Moa: the verified core of a local-first Markdown knowledge base.
//!
//! Notes live as Markdown files with a YAML frontmatter block; a SQLite
//! database is a derived index that can always be rebuilt from the files.
//! This crate holds the rules of that storage layer: text normalization,
//! file naming, the frontmatter framing, filtering and ordering of listings
//! and search hits, and the planning of an index rebuild.

pub mod text;
pub mod order;
pub mod normalize;
pub mod slug;
pub mod names;
pub mod frontmatter;
pub mod settings;
pub mod query;
pub mod documents;
pub mod listing;
pub mod search;
pub mod rebuild;
pub mod vault;
pub mod cli;
