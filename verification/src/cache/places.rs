//! Where caches live.

use vstd::prelude::*;

verus! {

/// A directory that caches can live below.
#[derive(Clone, Copy, Debug, PartialEq, Eq, Structural)]
pub enum Base {
    /// `%LOCALAPPDATA%`.
    Local,
    /// `$XDG_CACHE_HOME`.
    CacheHome,
    /// The home directory.
    Home,
}

/// Which directory caches live below, of those that are there; each is said
/// to be absolute or not. Caches live nowhere but below an absolute one.
pub open spec fn base_of(
    windows: bool,
    local: Option<bool>,
    cache_home: Option<bool>,
    home: Option<bool>,
) -> Option<Base> {
    if windows {
        if local == Some(true) {
            Some(Base::Local)
        } else {
            None
        }
    } else if cache_home == Some(true) {
        Some(Base::CacheHome)
    } else if home == Some(true) {
        Some(Base::Home)
    } else {
        None
    }
}

/// Which directory caches live below: `%LOCALAPPDATA%` on Windows,
/// `$XDG_CACHE_HOME` or the home directory elsewhere. Each of those that are
/// there is absolute or not.
pub fn choose_base(
    windows: bool,
    local: Option<bool>,
    cache_home: Option<bool>,
    home: Option<bool>,
) -> (base: Option<Base>)
    ensures
        base == base_of(windows, local, cache_home, home),
{
    let (base, absolute) = if windows {
        (Base::Local, local)
    } else {
        match cache_home {
            Some(true) => (Base::CacheHome, cache_home),
            _ => (Base::Home, home),
        }
    };
    match absolute {
        Some(true) => Some(base),
        _ => None,
    }
}

impl Base {
    /// The names from this to where caches live.
    pub open spec fn names(self) -> Seq<Seq<char>> {
        match self {
            Base::Local => seq!["disktree"@, "cache"@],
            Base::CacheHome => seq!["disktree"@],
            Base::Home => seq![".cache"@, "disktree"@],
        }
    }

    /// The names from this to where caches live.
    pub fn way(self) -> (names: Vec<&'static str>)
        ensures
            names@.map_values(|name: &'static str| name@) == self.names(),
    {
        let names: Vec<&'static str> = match self {
            Base::Local => vec!["disktree", "cache"],
            Base::CacheHome => vec!["disktree"],
            Base::Home => vec![".cache", "disktree"],
        };
        assert(names@.map_values(|name: &'static str| name@) =~= self.names());
        names
    }
}

} // verus!
