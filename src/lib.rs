//! A key-value store of JSON documents, addressed by dotted paths.
//!
//! Every operation is a pure function from the document currently stored
//! under a root key to the change that should be made to the row table.
//! The host runs the table and hands the stored documents in.
pub mod json;
pub mod laws;
pub mod path;
pub mod store;
pub mod structure;
