//! Query understanding for a sharded search over past queries: a query
//! string is turned into tokens with weights, stop words are joined to their
//! neighbours, and a weighted bag of n-gram keys, the tokens that a match must
//! hold and, for a search, the alternates of the tokens come out.
//!
//! Weights are exact: a weight is a numerator over a denominator that all
//! weights of one query share.

pub mod bow;
pub mod chars;
pub mod compose;
pub mod lookup;
pub mod matcher;
pub mod model;
pub mod modes;
pub mod must;
pub mod parse;
pub mod rank;
pub mod scan;
pub mod shard;
pub mod stopgrams;
pub mod text;
pub mod tokens;
pub mod weights;
