//! Every value that an unparenthesised arithmetic expression can take, over
//! all the orders in which its operators may be applied, with the results of
//! repeated sub-expressions kept in a cache keyed by their text; and, beside
//! it, the search for an order in which numbers chain by their digits.

pub mod cache;
pub mod chain;
pub mod combiner;
pub mod number;
pub mod partition;
pub mod shared;
