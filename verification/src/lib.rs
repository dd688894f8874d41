//! Parsing, validating and compiling the trickydata input corpus.
//!
//! The corpus is a tree of `.input` files, each a YAML frontmatter document
//! followed by a data region. This crate holds the logic that turns those files
//! into compiled inputs and assembles them into an index plus a binary blob.

pub mod text;
pub mod order;
pub mod hex;
pub mod format;
pub mod metadata;
pub mod frontmatter;
pub mod paths;
pub mod index;
pub mod corpus;
pub mod codec;
pub mod cli;
pub mod fmt;
pub mod report;
pub mod diff;
pub mod relpath;
pub mod pairing;
pub mod schema;
pub mod retree;
pub mod compile;
