//! A verified encoder and decoder for combinatorial byte-pair-encoding tokenizers.
pub mod batch;
pub mod blocks;
pub mod bounds;
pub mod bpe;
pub mod cache;
pub mod cutting;
pub mod decode;
pub mod fx;
pub mod hash;
pub mod laws;
pub mod literal;
pub mod marks;
pub mod meaning;
pub mod model;
pub mod round_trip;
pub mod segment;
pub mod splits;
pub mod storing;
pub mod tables;
pub mod text;
pub mod tok;
pub mod unit;
pub mod utf8;
