//! An in-memory document tree for XML-like structured documents.
//!
//! The library keeps elements, text, comments and processing instructions in
//! a single-rooted tree backed by an arena of slots with stable handles. The
//! mutation operations check document-shape rules before touching the tree
//! and keep text nodes consolidated: no two text nodes are ever adjacent
//! siblings. Names, namespaces and prefixes are interned to small stable
//! identifiers, and prefix/namespace resolution walks the ancestor chain,
//! nearest declaration first.

pub mod arena;
pub mod document;
pub mod error;
pub mod id;
pub mod name;
pub mod namespace;
pub mod prefix;
pub mod xmldata;
pub mod xmlname;
pub mod xmlvalue;
