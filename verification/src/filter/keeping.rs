//! What a filtered view keeps, by the way to it.

use rustc_hash::{FxBuildHasher, FxHashMap};
use vstd::prelude::*;

verus! {

/// How a node takes part in a filtered view.
#[derive(Clone, Copy, Debug, PartialEq, Eq, Structural)]
pub enum Keep {
    /// It matches: drawn as usual, with everything beneath it.
    Whole,
    /// It holds matches: drawn with only those, at their size.
    Partial { bytes: u64, files: u64 },
}

/// `rustc_hash::FxBuildHasher`, which makes an `FxHashMap`'s hashers.
#[verifier::external_type_specification]
#[verifier::external_body]
pub struct ExFxBuildHasher(FxBuildHasher);

/// What an `rustc_hash::FxHashMap` keyed by crumbs holds.
pub uninterp spec fn kept(map: FxHashMap<Vec<usize>, Keep>) -> Map<Seq<usize>, Keep>;

/// A map that holds nothing.
pub open spec fn nothing() -> Map<Seq<usize>, Keep> {
    Map::empty()
}

/// `FxHashMap::default`. Believed: the map holds nothing.
#[verifier::external_body]
pub(crate) fn nothing_kept() -> (map: FxHashMap<Vec<usize>, Keep>)
    ensures
        kept(map) == nothing(),
{
    FxHashMap::default()
}

/// `FxHashMap::insert`. Believed: the map then holds `keep` at `crumbs`, and
/// elsewhere what it held.
#[verifier::external_body]
pub(crate) fn insert(map: &mut FxHashMap<Vec<usize>, Keep>, crumbs: Vec<usize>, keep: Keep)
    ensures
        kept(*final(map)) == kept(*old(map)).insert(crumbs@, keep),
{
    map.insert(crumbs, keep);
}

/// `FxHashMap::get`. Believed: what the map holds at `crumbs`, if anything.
#[verifier::external_body]
pub(crate) fn get(map: &FxHashMap<Vec<usize>, Keep>, crumbs: &[usize]) -> (keep: Option<Keep>)
    ensures
        keep == lookup(kept(*map), crumbs@),
{
    map.get(crumbs).copied()
}

/// `FxHashMap::values`. Believed: the value at each key of the map, once for
/// each, in some order; so there are only so many keys.
#[verifier::external_body]
pub(crate) fn values(map: &FxHashMap<Vec<usize>, Keep>) -> (list: Vec<Keep>)
    ensures
        exists|keys: Seq<Seq<usize>>| #[trigger] lists_keys(kept(*map), keys, list@),
{
    map.values().copied().collect()
}

/// Whether `keys` are the keys of `map`, each once, and `list` what it holds
/// at them.
pub open spec fn lists_keys(
    map: Map<Seq<usize>, Keep>,
    keys: Seq<Seq<usize>>,
    list: Seq<Keep>,
) -> bool {
    &&& keys.no_duplicates()
    &&& keys.to_set() == map.dom()
    &&& keys.len() == list.len()
    &&& forall|i: int| 0 <= i < keys.len() ==> #[trigger] list[i] == map[keys[i]]
}

/// What `map` holds at `crumbs`, if anything.
pub open spec fn lookup(map: Map<Seq<usize>, Keep>, crumbs: Seq<usize>) -> Option<Keep> {
    if map.dom().contains(crumbs) {
        Some(map[crumbs])
    } else {
        None
    }
}

/// The keys at which `map` keeps all.
pub open spec fn whole_keys(map: Map<Seq<usize>, Keep>) -> Set<Seq<usize>> {
    map.dom().filter(|crumbs: Seq<usize>| map[crumbs] is Whole)
}

/// Whether `crumbs` lead beneath `base`.
pub open spec fn beneath(crumbs: Seq<usize>, base: Seq<usize>) -> bool {
    base.len() < crumbs.len() && crumbs.take(base.len() as int) == base
}

/// The places at which `map` keeps all.
pub(crate) fn count_whole(map: &FxHashMap<Vec<usize>, Keep>) -> (count: usize)
    ensures
        count == whole_keys(kept(*map)).len(),
{
    let list = values(map);
    let ghost keys = choose|keys: Seq<Seq<usize>>| lists_keys(kept(*map), keys, list@);
    let ghost is_whole = |crumbs: Seq<usize>| kept(*map)[crumbs] is Whole;
    let mut count: usize = 0;
    let mut next: usize = 0;
    proof {
        assert(keys.take(0) =~= Seq::empty());
        reveal(Seq::filter);
    }
    while next < list.len()
        invariant
            next <= list@.len(),
            count <= next,
            lists_keys(kept(*map), keys, list@),
            is_whole == (|crumbs: Seq<usize>| kept(*map)[crumbs] is Whole),
            count == keys.take(next as int).filter(is_whole).len(),
        decreases list@.len() - next,
    {
        proof {
            reveal(Seq::filter);
            assert(keys.take(next + 1).drop_last() =~= keys.take(next as int));
            assert(list@[next as int] == kept(*map)[keys[next as int]]);
        }
        if matches!(list[next], Keep::Whole) {
            count = count + 1;
        }
        next = next + 1;
    }
    proof {
        assert(keys.take(next as int) =~= keys);
        let some = keys.filter(is_whole);
        broadcast use vstd::seq_lib::group_filter_ensures;

        lemma_filter_no_duplicates(keys, is_whole);
        some.unique_seq_to_set();
        assert(some.to_set() =~= whole_keys(kept(*map))) by {
            assert forall|crumbs: Seq<usize>| #[trigger] some.to_set().contains(crumbs)
                == whole_keys(kept(*map)).contains(crumbs) by {
                if some.contains(crumbs) {
                    keys.lemma_filter_contains_rev(is_whole, crumbs);
                    assert(keys.to_set().contains(crumbs));
                    let i = choose|i: int| 0 <= i < some.len() && some[i] == crumbs;
                    assert(is_whole(some[i]));
                }
                if whole_keys(kept(*map)).contains(crumbs) {
                    assert(keys.to_set().contains(crumbs));
                    assert(keys.contains(crumbs));
                    let i = choose|i: int| 0 <= i < keys.len() && keys[i] == crumbs;
                    assert(is_whole(keys[i]));
                    assert(some.contains(keys[i]));
                }
            }
        }
    }
    count
}

proof fn lemma_filter_no_duplicates(
    keys: Seq<Seq<usize>>,
    takes: spec_fn(Seq<usize>) -> bool,
)
    requires
        keys.no_duplicates(),
    ensures
        keys.filter(takes).no_duplicates(),
    decreases keys.len(),
{
    reveal(Seq::filter);
    if keys.len() > 0 {
        let before = keys.drop_last();
        lemma_filter_no_duplicates(before, takes);
        if takes(keys.last()) {
            let some = before.filter(takes);
            assert(!some.contains(keys.last())) by {
                if some.contains(keys.last()) {
                    before.lemma_filter_contains_rev(takes, keys.last());
                    let k = choose|k: int| 0 <= k < before.len() && before[k] == keys.last();
                    assert(keys[k] == keys[keys.len() - 1]);
                }
            }
        }
    }
}

} // verus!
