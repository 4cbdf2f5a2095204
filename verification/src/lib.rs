//! Verified writer for MaxMind DB (`.mmdb`) files: the data-section
//! encoder, the binary search tree of networks and the file layout.
pub mod bytes;
pub mod format;
pub mod value;
pub mod cache;
pub mod encoder;
pub mod tree;
pub mod network;
pub mod writer;
pub mod reader;
pub mod options;
pub mod decode;
