//! Why a cache is not read.

use vstd::prelude::*;

verus! {

/// What is off about a cache.
#[derive(Clone, Copy, Debug, PartialEq, Eq, Structural)]
pub enum CacheError {
    /// It ends too soon.
    Truncated,
    NumberTooLong,
    NameLongerThanMemory,
    NameTooLong,
    NameNotUtf8,
    TooDeep,
    UnknownKind,
    /// Its totals are more than 64 bits hold.
    TooLarge,
}

/// What an error says.
pub open spec fn message(error: CacheError) -> Seq<char> {
    match error {
        CacheError::Truncated => "cache: it ends too soon"@,
        CacheError::NumberTooLong => "cache: a number runs past 64 bits"@,
        CacheError::NameLongerThanMemory => "cache: a name longer than memory"@,
        CacheError::NameTooLong => "cache: a name longer than any filesystem allows"@,
        CacheError::NameNotUtf8 => "cache: a name is not UTF-8"@,
        CacheError::TooDeep => "cache: nested deeper than any filesystem"@,
        CacheError::UnknownKind => "cache: an unknown kind of entry"@,
        CacheError::TooLarge => "cache: a total runs past 64 bits"@,
    }
}

impl CacheError {
    /// What this says.
    pub fn what(self) -> (text: &'static str)
        ensures
            text@ == message(self),
    {
        match self {
            CacheError::Truncated => "cache: it ends too soon",
            CacheError::NumberTooLong => "cache: a number runs past 64 bits",
            CacheError::NameLongerThanMemory => "cache: a name longer than memory",
            CacheError::NameTooLong => "cache: a name longer than any filesystem allows",
            CacheError::NameNotUtf8 => "cache: a name is not UTF-8",
            CacheError::TooDeep => "cache: nested deeper than any filesystem",
            CacheError::UnknownKind => "cache: an unknown kind of entry",
            CacheError::TooLarge => "cache: a total runs past 64 bits",
        }
    }
}

} // verus!
