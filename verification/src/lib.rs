//! Content-addressed data versioning: snapshots of files and directory trees,
//! keyed by MD5, with the rules that decide what is hashed, stored and reported.

pub mod builder;
pub mod checkout;
pub mod config;
pub mod diff;
pub mod fsutils;
pub mod hash;
pub mod ignore;
pub mod ignorelist;
pub mod json_format;
pub mod manifest;
pub mod models;
pub mod objects;
pub mod odb;
pub mod order;
pub mod pathmap;
pub mod paths;
pub mod repo;
pub mod sorting;
pub mod state;
pub mod status;
pub mod text;
pub mod transfer;
