//! Skill-driven agent-document builder and synchronizer.
//!
//! The library keeps a store of named markdown snippets ("skills") in sync
//! with named, marker-delimited sections of a larger free-form document.
//! The document model parses a document into free text and named sections
//! and renders it back losslessly; the sync engine classifies divergence
//! per name and resolves conflicts hunk by hunk from a caller-supplied
//! sequence of choices.

pub mod agents_md;
pub mod cli;
pub mod config;
pub mod conflict;
pub mod error;
pub mod lifecycle;
pub mod plan;
pub mod skills;
pub mod state;
pub mod steps;
pub mod sync;
pub mod text;
pub mod version;
