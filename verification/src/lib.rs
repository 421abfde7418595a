//! trunkdb: an embedded, single-file, schema-less document database. No
//! tables, no joins, no schema migrations.

pub mod base64;
pub mod batch;
pub mod bench;
pub mod builder;
pub mod bytes;
pub mod catalog;
pub mod check;
pub mod collection;
pub mod compact;
pub mod crc32;
pub mod cursor;
pub mod data;
pub mod database;
pub mod decode;
pub mod document;
pub mod durability;
pub mod encoding;
pub mod error;
pub mod export;
pub mod filter;
pub mod fuzzing;
pub mod id;
pub mod index;
pub mod json;
pub mod laws;
pub mod lines;
pub mod number;
pub mod order;
pub mod ordering;
pub mod path;
pub mod planner;
pub mod query;
pub mod reopen;
pub mod roundtrip;
pub mod secondary;
pub mod storage;
pub mod text;
pub mod tidy;
pub mod txn;
pub mod values;

pub use batch::Batch;
pub use catalog::IndexOptions;
pub use check::{CheckReport, FileInfo};
pub use collection::api::{IndexFields, Upserted};
pub use collection::explain::QueryPlan;
pub use compact::Compacted;
pub use cursor::Cursor;
pub use database::OpenOptions;
pub use document::{DocId, Document};
pub use error::Error;
pub use export::Summary;
