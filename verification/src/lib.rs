//! Decoding logic of an LTP parser: Chinese word segmentation, part-of-speech
//! and dependency labels, and dependency trees recovered from Eisner's chart.
pub mod tree;
pub mod keys;
pub mod segment;
pub mod text;
pub mod vocab;
pub mod results;
pub mod decode;
pub mod tokenize;
pub mod sentence;
pub mod prepare;
