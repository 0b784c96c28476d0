//! What files are by their whole names.

use vstd::prelude::*;

use crate::text::same;

verus! {

/// What the file called `name` is, if that says.
pub open spec fn known_name(name: Seq<char>) -> Option<Seq<char>> {
    if name == "makefile"@ || name == "justfile"@ || name == "rakefile"@ {
        Some("Build script"@)
    } else if name == "dockerfile"@ || name == "containerfile"@ {
        Some("Container recipe"@)
    } else if name == "license"@ || name == "licence"@ || name == "copying"@ {
        Some("License"@)
    } else if name == "readme"@ {
        Some("Read-me"@)
    } else if name == "pagefile.sys"@ || name == "swapfile.sys"@ {
        Some("Windows page file"@)
    } else if name == "hiberfil.sys"@ {
        Some("Windows hibernation file"@)
    } else if name == ".gitignore"@ || name == ".gitattributes"@ || name == ".gitmodules"@ {
        Some("Git settings"@)
    } else if name == ".bashrc"@ || name == ".zshrc"@ || name == ".profile"@
        || name == ".bash_profile"@ {
        Some("Shell settings"@)
    } else if name == "cargo.lock"@ || name == "package-lock.json"@ || name == "yarn.lock"@
        || name == "pnpm-lock.yaml"@ || name == "poetry.lock"@ || name == "uv.lock"@
        || name == "gemfile.lock"@ || name == "go.sum"@ {
        Some("Lock file"@)
    } else {
        None
    }
}

/// What the file called `name` is, if that says.
pub fn by_name(name: &str) -> (known: Option<&'static str>)
    ensures
        match known {
            Some(known) => known_name(name@) == Some(known@),
            None => known_name(name@) is None,
        },
{
    if same(name, "makefile") || same(name, "justfile") || same(name, "rakefile") {
        Some("Build script")
    } else if same(name, "dockerfile") || same(name, "containerfile") {
        Some("Container recipe")
    } else if same(name, "license") || same(name, "licence") || same(name, "copying") {
        Some("License")
    } else if same(name, "readme") {
        Some("Read-me")
    } else if same(name, "pagefile.sys") || same(name, "swapfile.sys") {
        Some("Windows page file")
    } else if same(name, "hiberfil.sys") {
        Some("Windows hibernation file")
    } else if same(name, ".gitignore") || same(name, ".gitattributes")
        || same(name, ".gitmodules") {
        Some("Git settings")
    } else if same(name, ".bashrc") || same(name, ".zshrc") || same(name, ".profile")
        || same(name, ".bash_profile") {
        Some("Shell settings")
    } else if same(name, "cargo.lock") || same(name, "package-lock.json")
        || same(name, "yarn.lock") || same(name, "pnpm-lock.yaml") || same(name, "poetry.lock")
        || same(name, "uv.lock") || same(name, "gemfile.lock") || same(name, "go.sum") {
        Some("Lock file")
    } else {
        None
    }
}

} // verus!
