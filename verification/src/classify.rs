//! What a place holds, and why its space can be had back.

use vstd::prelude::*;

verus! {

/// What kind of data something is, for colour.
#[derive(Clone, Copy, Debug, PartialEq, Eq, Structural)]
pub enum Category {
    Code,
    Agent,
    Toolchain,
    Synced,
    Git,
    Media,
    Documents,
    Cache,
    Other,
}

/// Why space can be had back.
#[derive(Clone, Copy, Debug, PartialEq, Eq, Structural)]
pub enum Reclaim {
    /// What made it makes it again.
    Regenerable,
}

} // verus!
