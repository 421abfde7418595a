//! Collections: documents by id, found by filters, kept in step with their
//! indexes.

pub mod api;
pub mod apply;
pub mod drops;
pub mod explain;
pub mod fields;
pub mod fill;
pub mod find;
pub mod handle;
pub mod indexing;
pub mod maintain;
pub mod ordered;
pub mod packing;
pub mod records;
pub mod rest;
pub mod state;
pub mod update;
pub mod usage;
pub mod write;
