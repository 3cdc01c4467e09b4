//! A store of partially-redacted text documents that a user unlocks by
//! issuing search queries.
//!
//! Raw text with bracket-delimited secret spans is parsed into [`document::Document`]
//! values holding both a full and a redacted form.  An ordered collection of
//! documents is serialized into a single obfuscated cache blob by
//! [`cache::DocCache`].  The [`gamestate::GameState`] engine loads documents,
//! tracks which ones a query has already revealed, and builds an
//! [`email::Email`] notification for each query submission.

pub mod cache;
pub mod dates;
pub mod document;
pub mod email;
pub mod gamestate;
pub mod query;
pub mod redaction;
pub mod text;
