//! The languages that the pipeline tells apart.

use vstd::prelude::*;

verus! {

/// The language of a text. A language without resources of its own is
/// `Other`, and is treated as English.
#[derive(Clone, Copy, Debug, PartialEq, Eq, Structural, Hash)]
pub enum Language {
    English,
    Spanish,
    Other,
}

} // verus!
