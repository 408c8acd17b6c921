//! Account-level snapshot service: the decisions of `commit`, `show` and
//! `restore` over a Git object model, with the storage layout, the ignore
//! rules, the configuration and the command-line rendering around them.

pub mod commit;
pub mod config;
pub mod diff;
pub mod enumerate;
pub mod error;
pub mod ignore;
pub mod index_store;
pub mod laws;
pub mod object;
pub mod oid;
pub mod order;
pub mod repository;
pub mod resolve;
pub mod restore;
pub mod s3;
pub mod service;
pub mod setup;
pub mod show;
pub mod snapshot;
pub mod sorted;
pub mod text;
pub mod tree_builder;
pub mod types;
pub mod util;
