//! Core logic of a note-keeping library: content normalization and derived
//! counts, hierarchical collection ordering, a synchronized full-text index
//! with query ranking and highlighting, and export/import translation.
pub mod export;
pub mod ext;
pub mod images;
pub mod import;
pub mod json;
pub mod model;
pub mod order;
pub mod search;
pub mod store;
pub mod text;
