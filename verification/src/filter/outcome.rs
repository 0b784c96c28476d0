//! The outcome of filtering a subtree.

use rustc_hash::FxHashMap;
use vstd::prelude::*;
use vstd::slice::{slice_subrange, slice_to_vec};

use crate::filter::by_file;
use crate::filter::by_file::visit_files;
use crate::filter::by_place;
use crate::filter::by_place::visit;
use crate::filter::counting;
use crate::filter::keeping;
use crate::filter::keeping::{count_whole, get, insert, nothing_kept, Keep};
use crate::filter::picks::{Pick, PickModel, Query};
use crate::text;
use crate::text::{string_of, to_lower, trim};
use crate::tree::node;
use crate::tree::node::{Metric, Node, Tree};

verus! {

/// The outcome of filtering a subtree by name.
#[derive(Clone, Debug, PartialEq, Eq)]
pub struct Matches {
    /// The needle, lowercased.
    pub needle: String,
    /// Absolute crumbs of the subtree that was searched.
    pub base: Vec<usize>,
    /// Keyed by absolute crumbs. Only matches and their ancestors appear;
    /// a match's own descendants are implied.
    pub keep: FxHashMap<Vec<usize>, Keep>,
    /// Topmost matches: a match inside a match is not counted again.
    pub count: usize,
    pub bytes: u64,
    pub files: u64,
}

/// How what lies at `crumbs` takes part, going by what `map` holds from
/// `length` crumbs on: the first that is kept whole settles it, as the first
/// beneath `base` that is not held does, and `all` is the base itself.
pub open spec fn walked(
    map: Map<Seq<usize>, Keep>,
    base: int,
    all: Keep,
    crumbs: Seq<usize>,
    length: int,
) -> Option<Keep>
    decreases crumbs.len() - length + 1,
{
    if length > crumbs.len() {
        Some(all)
    } else {
        match keeping::lookup(map, crumbs.take(length)) {
            Some(Keep::Whole) => Some(Keep::Whole),
            Some(partial) => if length == crumbs.len() {
                Some(partial)
            } else {
                walked(map, base, all, crumbs, length + 1)
            },
            None => if length > base {
                None
            } else {
                walked(map, base, all, crumbs, length + 1)
            },
        }
    }
}

/// Whether `crumbs` lead to `base` or beneath it.
pub open spec fn from_base(crumbs: Seq<usize>, base: Seq<usize>) -> bool {
    base.len() <= crumbs.len() && crumbs.take(base.len() as int) == base
}

/// Whether `crumbs` lead to `base` or beneath it.
fn starts_with(crumbs: &[usize], base: &[usize]) -> (starts: bool)
    ensures
        starts == from_base(crumbs@, base@),
{
    if base.len() > crumbs.len() {
        return false;
    }
    let mut at: usize = 0;
    while at < base.len()
        invariant
            at <= base@.len() <= crumbs@.len(),
            forall|i: int| 0 <= i < at ==> crumbs@[i] == base@[i],
        decreases base@.len() - at,
    {
        if crumbs[at] != base[at] {
            assert(crumbs@.take(base@.len() as int)[at as int] == crumbs@[at as int]);
            return false;
        }
        at = at + 1;
    }
    assert(crumbs@.take(base@.len() as int) =~= base@);
    true
}

/// The value that `tree`, kept as `keep` says, is laid out by.
pub open spec fn laid_out_by(keep: Keep, tree: Tree, metric: Metric) -> u64 {
    match (keep, metric) {
        (Keep::Whole, _) => node::weight(tree, metric),
        (Keep::Partial { bytes, .. }, Metric::Bytes) => bytes,
        (Keep::Partial { files, .. }, Metric::Files) => files,
    }
}

impl Matches {
    /// How the node at `crumbs` takes part.
    pub open spec fn keeps(self, crumbs: Seq<usize>) -> Option<Keep> {
        if from_base(crumbs, self.base@) {
            walked(
                keeping::kept(self.keep),
                self.base@.len() as int,
                Keep::Partial { bytes: self.bytes, files: self.files },
                crumbs,
                self.base@.len() as int,
            )
        } else {
            Some(Keep::Whole)
        }
    }

    /// How the node at `crumbs` takes part: `None` when it is filtered out.
    /// Anything outside the searched subtree, and anything beneath a match,
    /// is kept whole.
    pub fn keep(&self, crumbs: &[usize]) -> (keep: Option<Keep>)
        ensures
            keep == self.keeps(crumbs@),
    {
        if !starts_with(crumbs, &self.base) {
            return Some(Keep::Whole);
        }
        let (base, count): (usize, usize) = (self.base.len(), crumbs.len());
        let ghost all = Keep::Partial { bytes: self.bytes, files: self.files };
        let mut length: usize = base;
        loop
            invariant
                base == self.base@.len(),
                count == crumbs@.len(),
                base <= length <= count,
                from_base(crumbs@, self.base@),
                all == (Keep::Partial { bytes: self.bytes, files: self.files }),
                self.keeps(crumbs@) == walked(
                    keeping::kept(self.keep),
                    base as int,
                    all,
                    crumbs@,
                    length as int,
                ),
            decreases count - length,
        {
            let start = slice_subrange(crumbs, 0, length);
            assert(start@ =~= crumbs@.take(length as int));
            match get(&self.keep, start) {
                Some(Keep::Whole) => return Some(Keep::Whole),
                Some(partial) => if length == count {
                    return Some(partial);
                },
                // Only the base may be absent: it holds the outcome but is
                // not recorded, being where the search started.
                None => if length > base {
                    return None;
                },
            }
            if length == count {
                // The base itself holds the outcome.
                return Some(Keep::Partial { bytes: self.bytes, files: self.files });
            }
            length = length + 1;
        }
    }

    /// The value a kept node is laid out by.
    pub fn value(keep: Keep, node: &Node, metric: Metric) -> (value: u64)
        ensures
            value == laid_out_by(keep, node@, metric),
    {
        match (keep, metric) {
            (Keep::Whole, _) => node.value(metric),
            (Keep::Partial { bytes, .. }, Metric::Bytes) => bytes,
            (Keep::Partial { files, .. }, Metric::Files) => files,
        }
    }

    /// Whether this is what keeping the places that `pick` takes beneath
    /// `tree`, found at `base`, comes to.
    pub open spec fn shows_places(self, tree: Tree, base: Seq<usize>, pick: PickModel) -> bool {
        &&& self.base@ == base
        &&& self.bytes == by_place::found(tree, pick).bytes
        &&& self.files == by_place::found(tree, pick).files
        &&& forall|key: Seq<usize>| #[trigger]
            keeping::lookup(keeping::kept(self.keep), key) == (if keeping::beneath(key, base) {
                by_place::recorded(tree, pick, key.skip(base.len() as int))
            } else {
                None
            })
    }

    /// Whether this is what keeping the files that `pick` takes beneath
    /// `tree`, found at `base`, comes to.
    pub open spec fn shows_files(self, tree: Tree, base: Seq<usize>, pick: PickModel) -> bool {
        &&& self.base@ == base
        &&& self.bytes == by_file::judged(tree, pick).part.bytes
        &&& self.files == by_file::judged(tree, pick).part.files
        &&& forall|key: Seq<usize>| #[trigger]
            keeping::lookup(keeping::kept(self.keep), key) == (if keeping::beneath(key, base) {
                by_file::recorded(tree, pick, key.skip(base.len() as int))
            } else {
                None
            })
    }
}

impl Default for Matches {
    fn default() -> (outcome: Self)
        ensures
            outcome.needle@.len() == 0,
            outcome.base@.len() == 0,
            keeping::kept(outcome.keep) == keeping::nothing(),
            outcome.count == 0,
            outcome.bytes == 0,
            outcome.files == 0,
    {
        Matches {
            needle: String::new(),
            base: Vec::new(),
            keep: nothing_kept(),
            count: 0,
            bytes: 0,
            files: 0,
        }
    }
}

/// The places that `pick` takes beneath `node`, found at `base`; `None` where
/// 64 bits do not hold the numbers.
fn keep_places(node: &Node, base: &[usize], pick: &Pick, needle: String) -> (outcome: Option<
    Matches,
>)
    ensures
        match outcome {
            Some(outcome) => {
                &&& by_place::found(node@, pick@).fit()
                &&& outcome.needle@ == needle@
                &&& outcome.count == by_place::places(node@, pick@)
                &&& outcome.shows_places(node@, base@, pick@)
            },
            None => !by_place::found(node@, pick@).fit(),
        },
{
    let mut crumbs = slice_to_vec(base);
    let mut keep = nothing_kept();
    match visit(node, &mut crumbs, &mut keep, pick) {
        Some((bytes, files, _)) => {
            proof {
                assert forall|key: Seq<usize>| #[trigger]
                    keeping::lookup(keeping::kept(keep), key) == (if keeping::beneath(
                        key,
                        base@,
                    ) {
                        by_place::recorded(node@, pick@, key.skip(base@.len() as int))
                    } else {
                        None
                    }) by {
                    if keeping::beneath(key, base@) {
                        let rest = key.skip(base@.len() as int);
                        assert(rest[0] == key[base@.len() as int]);
                        if rest[0] >= node@.children.len() {
                            assert(by_place::recorded(node@, pick@, rest) is None);
                        }
                    }
                }
            }
            // Places, not files: a folder kept whole counts once.
            let count: usize = count_whole(&keep);
            proof {
                counting::lemma_map_counted(keeping::kept(keep), *node, base@, pick@);
            }
            Some(Matches { needle, base: slice_to_vec(base), keep, count, bytes, files })
        },
        None => None,
    }
}

/// Search `node`, found at absolute `base`, for names containing `needle`,
/// which is in lower case. `None` where 64 bits do not hold the numbers of
/// what is found.
pub fn filter_name(node: &Node, base: &[usize], needle: String) -> (outcome: Option<Matches>)
    ensures
        match outcome {
            Some(outcome) => {
                let pick = PickModel::Name(needle@);
                &&& by_place::found(node@, pick).fit()
                &&& outcome.needle@ == needle@
                &&& outcome.count == by_place::places(node@, pick)
                &&& outcome.shows_places(node@, base@, pick)
            },
            None => !by_place::found(node@, PickModel::Name(needle@)).fit(),
        },
{
    let pick = Pick::Name(needle.as_str());
    keep_places(node, base, &pick, needle.clone())
}

/// What a typed needle looks for.
pub open spec fn wanted(needle: Seq<char>) -> Seq<char> {
    text::lower_text(text::trimmed(needle))
}

/// Search `node`, found at absolute `base`, for names containing `needle`.
/// `None` for an empty needle: nothing is filtered; and where 64 bits do not
/// hold the numbers of what is found.
pub fn filter(node: &Node, base: &[usize], needle: &str) -> (outcome: Option<Matches>)
    ensures
        match outcome {
            Some(outcome) => {
                let pick = PickModel::Name(wanted(needle@));
                &&& wanted(needle@).len() > 0
                &&& by_place::found(node@, pick).fit()
                &&& outcome.needle@ == wanted(needle@)
                &&& outcome.count == by_place::places(node@, pick)
                &&& outcome.shows_places(node@, base@, pick)
            },
            None => wanted(needle@).len() == 0 || !by_place::found(
                node@,
                PickModel::Name(wanted(needle@)),
            ).fit(),
        },
{
    let lower = to_lower(&trim(needle));
    if lower.len() == 0 {
        return None;
    }
    filter_name(node, base, string_of(&lower))
}

/// Whether 64 bits hold the numbers of what `query` takes beneath `tree`.
pub open spec fn answerable(tree: Tree, query: Query) -> bool {
    if query is Reclaimable {
        by_place::found(tree, PickModel::Query(query)).fit()
    } else {
        by_file::judged(tree, PickModel::Query(query)).part.fit()
    }
}

/// Keep what `query` picks out of `node`, found at absolute `base`.
/// `label` names the pick where the interface talks about it.
pub fn filter_query(node: &Node, base: &[usize], query: Query, label: &str) -> (outcome: Matches)
    requires
        answerable(node@, query),
    ensures
        outcome.needle@ == label@,
        query is Reclaimable ==> {
            &&& outcome.shows_places(node@, base@, PickModel::Query(query))
            &&& outcome.count == by_place::places(node@, PickModel::Query(query))
        },
        !(query is Reclaimable) ==> outcome.shows_files(node@, base@, PickModel::Query(query)),
        outcome.count == keeping::whole_keys(keeping::kept(outcome.keep)).len(),
{
    let pick = Pick::Query(query);
    if matches!(query, Query::Reclaimable) {
        return match keep_places(node, base, &pick, label.to_owned()) {
            Some(outcome) => {
                proof {
                    counting::lemma_counted_once(outcome, *node, base@, pick@);
                }
                outcome
            },
            None => Matches::default(),
        };
    }
    let mut crumbs = slice_to_vec(base);
    let mut kept: Vec<(Vec<usize>, Keep)> = Vec::new();
    let (bytes, files, _, _) = visit_files(node, &mut crumbs, &pick, &mut kept);
    let keep = gather(kept);
    proof {
        assert forall|key: Seq<usize>| #[trigger]
            keeping::lookup(keeping::kept(keep), key) == (if keeping::beneath(key, base@) {
                by_file::recorded(node@, pick@, key.skip(base@.len() as int))
            } else {
                None
            }) by {
            if keeping::beneath(key, base@) {
                let rest = key.skip(base@.len() as int);
                assert(rest[0] == key[base@.len() as int]);
                match by_file::recorded(node@, pick@, rest) {
                    Some(some) => {
                        assert(by_file::records(
                            key,
                            some,
                            base@,
                            node@,
                            pick@,
                            node@.children.len() as int,
                        ));
                        assert(by_file::held(kept@, 0, key, some));
                    },
                    None => {},
                }
            }
            match keeping::lookup(keeping::kept(keep), key) {
                Some(some) => {
                    assert(by_file::held(kept@, 0, key, some));
                },
                None => {},
            }
        }
    }
    // Places, not files: a folder kept whole counts once.
    let count: usize = count_whole(&keep);
    Matches { needle: label.to_owned(), base: slice_to_vec(base), keep, count, bytes, files }
}

/// Whether `keep` is one that `list` holds at `key`, or it holds none there.
spec fn is_held(keep: Option<Keep>, list: Seq<(Vec<usize>, Keep)>, key: Seq<usize>) -> bool {
    match keep {
        Some(keep) => by_file::held(list, 0, key, keep),
        None => forall|any: Keep| !#[trigger] by_file::held(list, 0, key, any),
    }
}

/// The entries of `list` as a map: the last at a key is held there.
fn gather(list: Vec<(Vec<usize>, Keep)>) -> (map: FxHashMap<Vec<usize>, Keep>)
    ensures
        forall|key: Seq<usize>|
            is_held(#[trigger] keeping::lookup(keeping::kept(map), key), list@, key),
{
    let mut map = nothing_kept();
    for entry in iter: list
        invariant
            iter.seq() == list@,
            forall|key: Seq<usize>|
                is_held(
                    #[trigger] keeping::lookup(keeping::kept(map), key),
                    list@.take(iter.index() as int),
                    key,
                ),
    {
        let ghost done = list@.take(iter.index() as int);
        let ghost before = keeping::kept(map);
        let ghost added = entry;
        let ghost more = done.push(added);
        let (crumbs, keep) = entry;
        insert(&mut map, crumbs, keep);
        proof {
            assert(list@.take(iter.index() + 1) =~= more);
            assert forall|key: Seq<usize>|
                is_held(#[trigger] keeping::lookup(keeping::kept(map), key), more, key) by {
                assert forall|any: Keep| #[trigger]
                    by_file::held(more, 0, key, any) == (by_file::held(done, 0, key, any)
                        || added.0@ == key && added.1 == any) by {
                    by_file::lemma_held_push(done, 0, added, key, any);
                }
                assert(is_held(keeping::lookup(before, key), done, key));
            }
        }
    }
    assert(list@.take(list@.len() as int) =~= list@);
    map
}

} // verus!
