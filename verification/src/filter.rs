//! Typeahead filtering: which parts of a tree match a name.
//!
//! A node whose name contains the needle (ignoring ASCII case) matches, and
//! is kept whole: everything under a matching directory goes with it. Its
//! ancestors are kept only partly, and sized by what matched beneath them,
//! so a filtered treemap shows exactly the matches, at their true relative
//! sizes, in the places they live.

pub mod answers;
pub mod by_file;
pub mod by_place;
pub mod counting;
pub mod keeping;
pub mod laws;
pub mod matching;
pub mod outcome;
pub mod picks;
pub mod reasons;
pub mod sizes;

pub use keeping::Keep;
pub use outcome::{filter, filter_name, filter_query, Matches};
pub use picks::{contains_ignoring_case, Query};
