//! Huffman coding of byte strings into a self-describing container.
pub mod error;
pub mod tree;
pub mod code;
pub mod header;
pub mod bits;
pub mod container;
pub mod huffman;

