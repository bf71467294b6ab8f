//! A small content-addressable object store: blob and tree objects, their
//! canonical encoding and hashing, and a decoder for the binary staging index.

pub mod blob;
pub mod digits;
pub mod error;
pub mod index;
pub mod object;
pub mod store;
pub mod text;
pub mod tree;
