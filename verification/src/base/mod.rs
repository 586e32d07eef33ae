pub mod buffer;
pub mod config;
pub mod dict;
pub mod encoder;
pub mod json;
pub mod ranking;
pub mod trie;
