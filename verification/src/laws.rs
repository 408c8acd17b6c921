//! What the operations are for. Each law speaks of the values that go into an
//! operation and of those that come out of it.

pub mod text;
pub mod names;
pub mod restore;
pub mod backend;
pub mod s3;
pub mod objects;
pub mod show;
pub mod ignore;
pub mod commit;
pub mod print;
pub mod service;
pub mod views;
pub mod tree;
pub mod order;
