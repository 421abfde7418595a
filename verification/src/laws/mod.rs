//! What the operations are for, stated of all inputs.

pub mod bytes;
pub mod comparing;
pub mod documents;
pub mod finding;
pub mod formats;
pub mod importing;
pub mod indexing;
pub mod numbers;
pub mod pages;
pub mod paths;
pub mod reading;
pub mod sorting;
pub mod texts;
pub mod writing;
