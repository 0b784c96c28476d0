//! Keeping what matches where it starts, with everything beneath it.

use rustc_hash::FxHashMap;
use vstd::prelude::*;

use crate::filter::keeping;
use crate::filter::keeping::{insert, Keep};
use crate::filter::picks;
use crate::filter::picks::{Found, Pick, PickModel};
use crate::tree::node::{Node, Tree};

verus! {

broadcast use crate::tree::node::group_trees;

/// What `pick` finds at `child`: all of it where it takes it, else what it
/// finds beneath it.
pub open spec fn found_at(child: Tree, pick: PickModel) -> Found
    decreases child, 1int,
{
    if picks::takes(pick, child) {
        picks::claimed(child)
    } else {
        found(child, pick)
    }
}

/// What `pick` finds beneath `tree`.
pub open spec fn found(tree: Tree, pick: PickModel) -> Found
    decreases tree, 0int,
{
    found_among(tree.children, pick)
}

/// What `pick` finds at `children`.
pub open spec fn found_among(children: Seq<Tree>, pick: PickModel) -> Found
    decreases children, 2int,
{
    if children.len() == 0 {
        Found::none()
    } else {
        found_among(children.drop_last(), pick).and(found_at(children.last(), pick))
    }
}

/// How many places `pick` takes beneath `tree`, a place inside another not
/// counted again.
pub open spec fn places(tree: Tree, pick: PickModel) -> nat
    decreases tree, 0int,
{
    places_among(tree.children, pick)
}

/// How many places `pick` takes at or beneath `child`.
pub open spec fn places_at(child: Tree, pick: PickModel) -> nat
    decreases child, 1int,
{
    if picks::takes(pick, child) {
        1
    } else {
        places(child, pick)
    }
}

/// How many places `pick` takes at or beneath `children`.
pub open spec fn places_among(children: Seq<Tree>, pick: PickModel) -> nat
    decreases children, 2int,
{
    if children.len() == 0 {
        0
    } else {
        places_among(children.drop_last(), pick) + places_at(children.last(), pick)
    }
}

/// How what holds matches is kept, `part` being what they amount to; whatever
/// holds none is not.
pub open spec fn partly(holds: bool, part: Found) -> Option<Keep> {
    if holds {
        Some(Keep::Partial { bytes: part.bytes as u64, files: part.files as u64 })
    } else {
        None
    }
}

/// What is recorded of what lies at `crumbs` beneath `tree`: places that
/// `pick` takes, and what holds some.
pub open spec fn recorded(tree: Tree, pick: PickModel, crumbs: Seq<usize>) -> Option<Keep>
    decreases crumbs.len(),
{
    if crumbs.len() == 0 || crumbs[0] >= tree.children.len() {
        None
    } else {
        let child = tree.children[crumbs[0] as int];
        if crumbs.len() > 1 {
            if picks::takes(pick, child) {
                None
            } else {
                recorded(child, pick, crumbs.skip(1))
            }
        } else if picks::takes(pick, child) {
            Some(Keep::Whole)
        } else {
            partly(places(child, pick) > 0, found(child, pick))
        }
    }
}

/// What is held at `key`, `before` being held there, once the first `limit`
/// children of `tree`, which is at `crumbs`, are recorded.
pub open spec fn overlaid(
    before: Option<Keep>,
    key: Seq<usize>,
    crumbs: Seq<usize>,
    tree: Tree,
    pick: PickModel,
    limit: int,
) -> Option<Keep> {
    if keeping::beneath(key, crumbs) && key[crumbs.len() as int] < limit {
        match recorded(tree, pick, key.skip(crumbs.len() as int)) {
            Some(keep) => Some(keep),
            None => before,
        }
    } else {
        before
    }
}

/// A key beneath `crumbs` leads through one of the children there.
pub proof fn lemma_through_child(key: Seq<usize>, crumbs: Seq<usize>, index: usize)
    ensures
        keeping::beneath(key, crumbs.push(index)) <==> keeping::beneath(key, crumbs)
            && key[crumbs.len() as int] == index && key.len() > crumbs.len() + 1,
        key == crumbs.push(index) <==> keeping::beneath(key, crumbs) && key[crumbs.len() as int]
            == index && key.len() == crumbs.len() + 1,
        keeping::beneath(key, crumbs) ==> {
            let rest = key.skip(crumbs.len() as int);
            &&& rest.len() == key.len() - crumbs.len()
            &&& rest[0] == key[crumbs.len() as int]
            &&& rest.skip(1) == key.skip(crumbs.len() as int + 1)
        },
{
    let longer = crumbs.push(index);
    let length = crumbs.len() as int;
    if length < key.len() {
        assert(key.take(length + 1).take(length) =~= key.take(length));
        assert(key.skip(length).skip(1) =~= key.skip(length + 1));
        if key.take(length) == crumbs && key[length] == index {
            assert(key.take(length + 1) =~= longer);
            if key.len() == length + 1 {
                assert(key.take(length + 1) =~= key);
            }
        }
        if key.take(length + 1) == longer {
            assert(longer.take(length) =~= crumbs);
            assert(longer[length] == index);
        }
    }
    if key == longer {
        assert(longer.take(length) =~= crumbs);
    }
}

/// Sums grow child by child.
pub proof fn lemma_found_grows(children: Seq<Tree>, pick: PickModel, few: int)
    requires
        0 <= few < children.len(),
    ensures
        found_among(children.take(few + 1), pick) == found_among(children.take(few), pick).and(
            found_at(children[few], pick),
        ),
        found_among(children.take(few + 1), pick).within(found_among(children, pick)),
        places_among(children.take(few + 1), pick) == places_among(children.take(few), pick)
            + places_at(children[few], pick),
        places_among(children.take(few + 1), pick) <= places_among(children, pick),
    decreases children.len(),
{
    let next = children.take(few + 1);
    assert(next.drop_last() =~= children.take(few));
    if few + 1 < children.len() {
        let shorter = children.drop_last();
        lemma_found_grows(shorter, pick, few);
        assert(shorter.take(few + 1) =~= next);
        assert(shorter.take(few) =~= children.take(few));
    } else {
        assert(next =~= children);
    }
}

/// What is found beneath a tree is what is found at its children.
pub proof fn lemma_found(tree: Tree, pick: PickModel)
    ensures
        found(tree, pick) == found_among(tree.children, pick),
        places(tree, pick) == places_among(tree.children, pick),
{
    reveal_with_fuel(found, 2);
    reveal_with_fuel(found_among, 2);
    reveal_with_fuel(found_at, 2);
    reveal_with_fuel(places, 2);
    reveal_with_fuel(places_among, 2);
    reveal_with_fuel(places_at, 2);
}

/// Where nothing is taken, nothing is found.
pub proof fn lemma_none_found(children: Seq<Tree>, pick: PickModel)
    ensures
        places_among(children, pick) == 0 ==> found_among(children, pick) == Found::none(),
    decreases children, 0int,
{
    if children.len() > 0 {
        let last = children.last();
        lemma_none_found(children.drop_last(), pick);
        lemma_found(last, pick);
        lemma_none_found(last.children, pick);
        assert(places_at(last, pick) == 0 ==> found_at(last, pick) == Found::none());
    }
}

proof fn lemma_recorded_step(
    before: Option<Keep>,
    during: Option<Keep>,
    after: Option<Keep>,
    start: Option<Keep>,
    key: Seq<usize>,
    crumbs: Seq<usize>,
    tree: Tree,
    pick: PickModel,
    index: usize,
)
    requires
        index < tree.children.len(),
        before == overlaid(start, key, crumbs, tree, pick, index as int),
        ({
            let child = tree.children[index as int];
            let way = crumbs.push(index);
            if picks::takes(pick, child) {
                &&& during == before
                &&& after == (if key == way {
                    Some(Keep::Whole)
                } else {
                    during
                })
            } else {
                &&& during == overlaid(
                    before,
                    key,
                    way,
                    child,
                    pick,
                    child.children.len() as int,
                )
                &&& after == (if key == way && places(child, pick) > 0 {
                    partly(true, found(child, pick))
                } else {
                    during
                })
            }
        }),
    ensures
        after == overlaid(start, key, crumbs, tree, pick, index + 1),
{
    lemma_through_child(key, crumbs, index);
    let child = tree.children[index as int];
    if keeping::beneath(key, crumbs) && key[crumbs.len() as int] == index {
        let rest = key.skip(crumbs.len() as int);
        assert(before == start);
        if key.len() > crumbs.len() + 1 && !picks::takes(pick, child) {
            assert(recorded(tree, pick, rest) == recorded(child, pick, rest.skip(1)));
            assert(rest.skip(1)[0] == key[crumbs.len() as int + 1]);
            if key[crumbs.len() as int + 1] >= child.children.len() {
                assert(recorded(child, pick, rest.skip(1)) is None);
            }
        }
    }
}

/// Returns the bytes and files that matched at or beneath `node`'s children,
/// and whether anything did, recording what to keep. A child that `pick` takes is kept whole, with
/// everything beneath it. `None` where 64 bits do not hold the numbers.
pub(crate) fn visit(
    node: &Node,
    crumbs: &mut Vec<usize>,
    map: &mut FxHashMap<Vec<usize>, Keep>,
    pick: &Pick,
) -> (total: Option<(u64, u64, bool)>)
    ensures
        match total {
            Some((bytes, files, any)) => {
                &&& bytes == found(node@, pick@).bytes
                &&& files == found(node@, pick@).files
                &&& any == (places(node@, pick@) > 0)
                &&& final(crumbs)@ == old(crumbs)@
                &&& forall|key: Seq<usize>| #[trigger]
                    keeping::lookup(keeping::kept(*final(map)), key) == overlaid(
                        keeping::lookup(keeping::kept(*old(map)), key),
                        key,
                        old(crumbs)@,
                        node@,
                        pick@,
                        node@.children.len() as int,
                    )
            },
            None => !found(node@, pick@).fit(),
        },
    decreases node,
{
    let ghost tree = node@;
    let ghost way = crumbs@;
    let ghost start = keeping::kept(*map);
    proof {
        lemma_found(tree, pick@);
        assert(tree.children.take(0) =~= Seq::empty());
    }
    let mut bytes: u64 = 0;
    let mut files: u64 = 0;
    let mut any = false;
    let mut index: usize = 0;
    while index < node.children.len()
        invariant
            index <= node.children@.len(),
            tree == node@,
            way == old(crumbs)@,
            crumbs@ == way,
            start == keeping::kept(*old(map)),
            found(tree, pick@) == found_among(tree.children, pick@),
            bytes == found_among(tree.children.take(index as int), pick@).bytes,
            files == found_among(tree.children.take(index as int), pick@).files,
            places(tree, pick@) == places_among(tree.children, pick@),
            any == (places_among(tree.children.take(index as int), pick@) > 0),
            forall|key: Seq<usize>| #[trigger]
                keeping::lookup(keeping::kept(*map), key) == overlaid(
                    keeping::lookup(start, key),
                    key,
                    way,
                    tree,
                    pick@,
                    index as int,
                ),
        decreases node.children@.len() - index,
    {
        let child = &node.children[index];
        let ghost before = keeping::kept(*map);
        let ghost mut during = before;
        proof {
            lemma_found_grows(tree.children, pick@, index as int);
            lemma_found(child@, pick@);
        }
        crumbs.push(index);
        if pick.takes(child) {
            let here = crumbs.clone();
            assert(here@ =~= way.push(index));
            insert(map, here, Keep::Whole);
            any = true;
            match (bytes.checked_add(child.bytes), files.checked_add(child.files)) {
                (Some(more_bytes), Some(more_files)) => {
                    bytes = more_bytes;
                    files = more_files;
                },
                _ => return None,
            }
        } else if child.children.len() > 0 {
            let (child_bytes, child_files, child_any) = match visit(child, crumbs, map, pick) {
                Some(child_total) => child_total,
                None => return None,
            };
            proof {
                during = keeping::kept(*map);
            }
            if child_any {
                any = true;
                let here = crumbs.clone();
                assert(here@ =~= way.push(index));
                insert(map, here, Keep::Partial { bytes: child_bytes, files: child_files });
            }
            match (bytes.checked_add(child_bytes), files.checked_add(child_files)) {
                (Some(more_bytes), Some(more_files)) => {
                    bytes = more_bytes;
                    files = more_files;
                },
                _ => return None,
            }
        } else {
            proof {
                assert(found_among(child@.children, pick@) == Found::none());
                assert(places_among(child@.children, pick@) == 0);
                assert forall|key: Seq<usize>|
                    keeping::lookup(before, key) == #[trigger] overlaid(
                        keeping::lookup(before, key),
                        key,
                        way.push(index),
                        child@,
                        pick@,
                        child@.children.len() as int,
                    ) by {}
            }
        }
        let ghost popped = crumbs@;
        crumbs.pop();
        proof {
            assert(popped =~= way.push(index));
            assert(crumbs@ =~= way);
            assert forall|key: Seq<usize>| #[trigger]
                keeping::lookup(keeping::kept(*map), key) == overlaid(
                    keeping::lookup(start, key),
                    key,
                    way,
                    tree,
                    pick@,
                    index + 1,
                ) by {
                assert(keeping::lookup(before, key) == overlaid(
                    keeping::lookup(start, key),
                    key,
                    way,
                    tree,
                    pick@,
                    index as int,
                ));
                lemma_recorded_step(
                    keeping::lookup(before, key),
                    keeping::lookup(during, key),
                    keeping::lookup(keeping::kept(*map), key),
                    keeping::lookup(start, key),
                    key,
                    way,
                    tree,
                    pick@,
                    index,
                );
            }
        }
        index = index + 1;
    }
    assert(tree.children.take(index as int) =~= tree.children);
    Some((bytes, files, any))
}

} // verus!
