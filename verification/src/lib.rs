//! An in-memory credential store: a tree of groups and entries with
//! mutation, merge, search and statistics operations, each specified by a
//! contract over a mathematical view of the tree.

pub mod attach;
pub mod convert;
pub mod copy;
pub mod data;
pub mod edit;
pub mod errors;
pub mod fields;
pub mod hibp;
pub mod ids;
pub mod kdf;
pub mod laws;
pub mod lookup;
pub mod merge;
pub mod model;
pub mod mutate;
pub mod ops;
pub mod passgen;
pub mod queries;
pub mod search;
pub mod stats;
pub mod tree;
