//! A small content-addressed object store with codecs for trees, commits and
//! the staging index, in the layout of git's plumbing.
pub mod error;
pub mod commit;
pub mod decimal;
pub mod hex;
pub mod index;
pub mod object;
pub mod store;
pub mod tree;
