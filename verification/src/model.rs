use vstd::prelude::*;

verus! {

/// Most tokens that a query keeps.
pub const WORDS_PER_QUERY: usize = 15;

/// Largest weight numerator that a token may carry: 2^80.
pub const MAX_WEIGHT: u128 = 1208925819614629174706176;

/// Largest weight numerator that a stop-n-gram may carry: 2^85.
pub const MAX_GRAM_WEIGHT: u128 = 38685626227668133590597632;

/// Largest denominator that the weights of a query may share: 2^90.
pub const MAX_NORM: u128 = 1237940039285380274899124224;

/// Whether a query is parsed to be indexed or to be searched for.
#[derive(PartialEq, Eq, Clone, Copy, Debug, Structural)]
pub enum ParseMode {
    Index,
    Search,
}

/// An n-gram as a value: its key, the numerator of its weight, and the
/// indices of the tokens it was made of.
pub struct Gram {
    pub key: Seq<char>,
    pub weight: int,
    pub indices: Seq<usize>,
}

} // verus!
