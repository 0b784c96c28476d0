//! What a filter takes.

use vstd::prelude::*;
use vstd::utf8::encode_utf8;

use crate::classify::Category;
use crate::tree::ages;
use crate::tree::ages::count_days;
use crate::tree::node::{Node, Tree};
use crate::tree::totals;
use crate::tree::totals::known_time;

verus! {

/// An upper-case ASCII letter in lower case; any other byte as it is.
pub open spec fn lower_byte(byte: u8) -> u8 {
    if 0x41 <= byte <= 0x5a {
        (byte + 0x20) as u8
    } else {
        byte
    }
}

/// Whether `needle` stands in `hay` from `at` on, where `hay` is read in lower
/// case.
pub open spec fn stands_at(hay: Seq<u8>, needle: Seq<u8>, at: int) -> bool {
    &&& 0 <= at <= hay.len() - needle.len()
    &&& forall|i: int| 0 <= i < needle.len() ==> lower_byte(#[trigger] hay[at + i]) == needle[i]
}

/// Whether `needle` stands in `hay` somewhere, where `hay` is read in lower
/// case.
pub open spec fn stands_in(hay: Seq<u8>, needle: Seq<u8>) -> bool {
    exists|at: int| #[trigger] stands_at(hay, needle, at)
}

/// Substring search ignoring ASCII case, without allocating: a filter runs
/// over every name in view on every keystroke.
pub fn contains_ignoring_case(haystack: &str, lower_needle: &str) -> (found: bool)
    ensures
        found == stands_in(encode_utf8(haystack@), encode_utf8(lower_needle@)),
{
    let (hay, needle) = (haystack.as_bytes(), lower_needle.as_bytes());
    let (length, wanted): (usize, usize) = (hay.len(), needle.len());
    if wanted > length {
        return false;
    }
    let last: usize = length - wanted;
    let mut at: usize = 0;
    loop
        invariant
            hay@ == encode_utf8(haystack@),
            needle@ == encode_utf8(lower_needle@),
            length == hay@.len(),
            wanted == needle@.len(),
            last == length - wanted,
            at <= last,
            forall|earlier: int| 0 <= earlier < at ==> !#[trigger] stands_at(hay@, needle@, earlier),
        decreases last - at,
    {
        let mut matched: usize = 0;
        while matched < wanted && to_lower_byte(hay[at + matched]) == needle[matched]
            invariant
                length == hay@.len(),
                wanted == needle@.len(),
                last == length - wanted,
                at <= last,
                matched <= wanted,
                forall|i: int|
                    0 <= i < matched ==> lower_byte(#[trigger] hay@[at + i]) == needle@[i],
            decreases wanted - matched,
        {
            matched = matched + 1;
        }
        if matched == wanted {
            assert(stands_at(hay@, needle@, at as int));
            return true;
        }
        assert(lower_byte(hay@[at + matched]) != needle@[matched as int]);
        assert(!stands_at(hay@, needle@, at as int));
        if at == last {
            assert forall|any: int| !#[trigger] stands_at(hay@, needle@, any) by {}
            return false;
        }
        at = at + 1;
    }
}

fn to_lower_byte(byte: u8) -> (lower: u8)
    ensures
        lower == lower_byte(byte),
{
    if 0x41 <= byte && byte <= 0x5a {
        byte + 0x20
    } else {
        byte
    }
}

/// What a legend pick keeps, rather than a typed name.
#[derive(Clone, Copy, Debug, PartialEq, Eq, Structural)]
pub enum Query {
    /// Files of this kind. Categories are inherited but a name can
    /// override its parent's — `node_modules` in a checkout is cache, not
    /// code — so files are judged one by one, and a folder is kept
    /// whole only when every file in it matched.
    Category(Category),
    /// Space that can be had back. Nothing under a reclaimable folder can
    /// be anything else, so it is kept whole where it starts.
    Reclaimable,
    /// Files last written more than `after` and at most `through` days
    /// before `now` (Unix seconds); judged file by file, like a category.
    Age { now: i64, after: i64, through: i64 },
}

/// Whether `query` takes `tree`.
pub open spec fn answers(query: Query, tree: Tree) -> bool {
    match query {
        Query::Category(category) => tree.category == category,
        Query::Reclaimable => tree.reclaim is Some,
        Query::Age { now, after, through } => totals::tells_time(tree.modified) && after
            < ages::days_old(now, tree.modified) <= through,
    }
}

impl Query {
    /// Whether this takes `node`.
    pub fn takes_file(self, node: &Node) -> (taken: bool)
        ensures
            taken == answers(self, node@),
    {
        match self {
            Query::Category(category) => node.category == category,
            Query::Reclaimable => node.reclaim.is_some(),
            Query::Age { now, after, through } => {
                if !known_time(node.modified) {
                    return false;
                }
                let days: i64 = count_days(now, node.modified);
                days > after && days <= through
            },
        }
    }
}

/// What is looked for: a name, or what a query takes.
pub enum Pick<'a> {
    Name(&'a str),
    Query(Query),
}

/// What a [`Pick`] looks for.
pub enum PickModel {
    Name(Seq<char>),
    Query(Query),
}

impl<'a> View for Pick<'a> {
    type V = PickModel;

    open spec fn view(&self) -> PickModel {
        match self {
            Pick::Name(needle) => PickModel::Name(needle@),
            Pick::Query(query) => PickModel::Query(*query),
        }
    }
}

/// Whether `pick` takes `tree`.
pub open spec fn takes(pick: PickModel, tree: Tree) -> bool {
    match pick {
        PickModel::Name(needle) => stands_in(encode_utf8(tree.name), encode_utf8(needle)),
        PickModel::Query(query) => answers(query, tree),
    }
}

impl<'a> Pick<'a> {
    /// Whether this takes `node`.
    pub fn takes(&self, node: &Node) -> (taken: bool)
        ensures
            taken == takes(self@, node@),
    {
        match self {
            Pick::Name(needle) => contains_ignoring_case(&node.name, needle),
            Pick::Query(query) => query.takes_file(node),
        }
    }
}

/// Bytes and files.
pub struct Found {
    pub bytes: nat,
    pub files: nat,
}

impl Found {
    pub open spec fn none() -> Found {
        Found { bytes: 0, files: 0 }
    }

    pub open spec fn and(self, more: Found) -> Found {
        Found { bytes: self.bytes + more.bytes, files: self.files + more.files }
    }

    pub open spec fn within(self, limit: Found) -> bool {
        self.bytes <= limit.bytes && self.files <= limit.files
    }

    pub open spec fn fit(self) -> bool {
        self.bytes <= u64::MAX && self.files <= u64::MAX
    }
}

/// What `tree` says it holds.
pub open spec fn claimed(tree: Tree) -> Found {
    Found { bytes: tree.bytes as nat, files: tree.files as nat }
}

} // verus!
