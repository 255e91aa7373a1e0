//! A personal document archive: content-addressed bundle storage, a full-text
//! search index over extracted fragment text, and an inbox workflow that
//! tracks uploaded documents until they are archived or deleted.

pub mod content;
pub mod errors;
pub mod extract;
pub mod ids;
pub mod inbox;
pub mod indexer;
pub mod metadata;
pub mod repo;
pub mod store;
pub mod text;
