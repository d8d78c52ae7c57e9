//! Weighted pseudo-random text generation over a byte alphabet.
//!
//! A [`bias::BiasTable`] maps each of the 256 byte values to a non-negative
//! integer weight and tracks the sum of all weights. [`parser::load_bias`]
//! builds a table from line-oriented input of the form `symbol<delim>weight`,
//! and [`bias::BiasTable::generate`] draws samples from the table by
//! cumulative-weight inversion over a uniform random source, so that each
//! symbol is selected with probability proportional to its weight.

pub mod bias;
pub mod laws;
pub mod parser;
