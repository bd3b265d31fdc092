pub mod encoder;
pub mod filters;
pub mod micromodel;
pub mod stats;
pub mod text;
pub mod trie;
pub mod vocab;
pub mod trainer;
