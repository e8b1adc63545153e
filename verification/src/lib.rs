//! A small full-text search library over archive listings.
//!
//! Each archive is a document; each `/`-separated component of an entry
//! name is a term. The library builds an inverted index over those terms,
//! ranks documents for a query, and persists the index as a binary
//! snapshot. Scores are carried as IEEE-754 double bit patterns so that
//! the ordering and filtering pipeline is fully verified; the numeric
//! evaluation itself lives with the (unverified) service layer.

pub mod archive;
pub mod codec;
pub mod errors;
pub mod index;
pub mod rank;
pub mod records;
pub mod strings;

use vstd::prelude::*;

verus! {

/// Greeting served at the root of the HTTP surface.
pub fn index() -> (r: &'static str)
    ensures
        r@ == "Hello, world!"@,
{
    "Hello, world!"
}

} // verus!
