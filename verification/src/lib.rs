//! The decisions behind two table transactions: replacing one set of files
//! with another, and regrouping the entries of a snapshot's manifests.

pub mod clustering;
pub mod error;
pub mod identity;
pub mod manifest;
pub mod properties;
pub mod replace_files;
pub mod replace_laws;
pub mod rewrite_laws;
pub mod rewrite_manifests;
pub mod snapshot;
pub mod table;
pub mod text;
pub mod value_laws;
