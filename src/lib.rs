//! A dictionary-backed spell checker: a hash set of lower-case words with
//! separate chaining, Levenshtein distance, and suggestions ranked by it;
//! with the searches and sorts that come with it.
use vstd::prelude::*;

pub mod cases;
pub mod checker;
pub mod distance;
pub mod hashset;
pub mod laws;
pub mod ranking;
pub mod search;
pub mod sort;
pub mod source;
pub mod text;

verus! {

/// Returns the sum of two numbers.
pub fn add(left: usize, right: usize) -> (r: usize)
    requires
        left + right <= usize::MAX,
    ensures
        r == left + right,
{
    left + right
}

} // verus!
