//! A disk-oriented B+-tree index over fixed-size pages, keyed by `i32`.
//!
//! The crate is layered leaves first. [`record`] and [`node`] hold the data
//! model and [`text`] the text form of a record. [`page`] encodes one node
//! per page; [`storage`] states what a page store does and keeps one in
//! memory, [`node_storage`] keeps one as a flat image of bytes. [`btree`]
//! is the index itself: lookup, insertion with splits, listings, and
//! [`validate`] the walk that decides whether a store holds a tree.
//!
//! What a tree is, and why the engine keeps it one, is stated in [`shape`],
//! [`plan`] and [`chain`] and proved in [`shape_lemmas`], [`growth`],
//! [`leaf_growth`], [`path_growth`] and [`reach`]; [`laws`] collects what
//! holds of the index whatever is done with it.

pub mod btree;
pub mod chain;
pub mod config;
pub mod growth;
pub mod laws;
pub mod leaf_growth;
pub mod node;
pub mod node_storage;
pub mod page;
pub mod path_growth;
pub mod plan;
pub mod reach;
pub mod record;
pub mod shape;
pub mod shape_lemmas;
pub mod storage;
pub mod text;
pub mod validate;
