//! Keeping what matches file by file.

use vstd::prelude::*;

use crate::filter::by_place;
use crate::filter::keeping;
use crate::filter::keeping::Keep;
use crate::filter::picks;
use crate::filter::picks::{Found, Pick, PickModel};
use crate::tree::node::{Node, Tree};

verus! {

broadcast use crate::tree::node::group_trees;

/// What of a subtree matched, and whether some file of it did, and every one.
pub struct Judged {
    pub part: Found,
    pub some: bool,
    pub whole: bool,
}

/// What `pick` takes of the files at or beneath `child`.
pub open spec fn judged_at(child: Tree, pick: PickModel) -> Judged
    decreases child, 1int,
{
    if child.kind is Directory {
        judged(child, pick)
    } else if picks::takes(pick, child) {
        Judged { part: picks::claimed(child), some: true, whole: true }
    } else {
        Judged { part: Found::none(), some: false, whole: false }
    }
}

/// What `pick` takes of the files beneath `tree`.
pub open spec fn judged(tree: Tree, pick: PickModel) -> Judged
    decreases tree, 0int,
{
    judged_among(tree.children, pick)
}

/// What `pick` takes of the files at or beneath `children`.
pub open spec fn judged_among(children: Seq<Tree>, pick: PickModel) -> Judged
    decreases children, 2int,
{
    if children.len() == 0 {
        Judged { part: Found::none(), some: false, whole: true }
    } else {
        let before = judged_among(children.drop_last(), pick);
        let last = judged_at(children.last(), pick);
        Judged {
            part: before.part.and(last.part),
            some: before.some || last.some,
            whole: before.whole && last.whole,
        }
    }
}

/// Whether a folder stands for all that is beneath it: something in it
/// matched, and every file did.
pub open spec fn stands_for_all(child: Tree, pick: PickModel) -> bool {
    child.kind is Directory && judged(child, pick).some && judged(child, pick).whole
}

/// What is recorded of what lies at `crumbs` beneath `tree`: files that
/// `pick` takes, folders of which it takes every file in their place, and
/// what holds some.
pub open spec fn recorded(tree: Tree, pick: PickModel, crumbs: Seq<usize>) -> Option<Keep>
    decreases crumbs.len(),
{
    if crumbs.len() == 0 || crumbs[0] >= tree.children.len() {
        None
    } else {
        let child = tree.children[crumbs[0] as int];
        if crumbs.len() > 1 {
            if child.kind is Directory && !stands_for_all(child, pick) {
                recorded(child, pick, crumbs.skip(1))
            } else {
                None
            }
        } else if child.kind is Directory {
            if stands_for_all(child, pick) {
                Some(Keep::Whole)
            } else {
                by_place::partly(judged(child, pick).some, judged(child, pick).part)
            }
        } else if picks::takes(pick, child) {
            Some(Keep::Whole)
        } else {
            None
        }
    }
}

/// Whether `list` holds `keep` at `key`, from place `from` on.
pub open spec fn held(
    list: Seq<(Vec<usize>, Keep)>,
    from: int,
    key: Seq<usize>,
    keep: Keep,
) -> bool {
    exists|i: int| from <= i < list.len() && (#[trigger] list[i]).0@ == key && list[i].1 == keep
}

/// Whether `keep` is recorded at `key` of the first `limit` children of
/// `tree`, which is at `crumbs`.
pub open spec fn records(
    key: Seq<usize>,
    keep: Keep,
    crumbs: Seq<usize>,
    tree: Tree,
    pick: PickModel,
    limit: int,
) -> bool {
    &&& keeping::beneath(key, crumbs)
    &&& key[crumbs.len() as int] < limit
    &&& recorded(tree, pick, key.skip(crumbs.len() as int)) == Some(keep)
}

/// What is found of a tree is what is found of its children.
pub proof fn lemma_judged(tree: Tree, pick: PickModel)
    ensures
        judged(tree, pick) == judged_among(tree.children, pick),
{
    reveal_with_fuel(judged, 2);
    reveal_with_fuel(judged_among, 2);
    reveal_with_fuel(judged_at, 2);
}

/// Sums grow child by child.
pub proof fn lemma_judged_grows(children: Seq<Tree>, pick: PickModel, few: int)
    requires
        0 <= few < children.len(),
    ensures
        judged_among(children.take(few + 1), pick) == (Judged {
            part: judged_among(children.take(few), pick).part.and(
                judged_at(children[few], pick).part,
            ),
            some: judged_among(children.take(few), pick).some || judged_at(
                children[few],
                pick,
            ).some,
            whole: judged_among(children.take(few), pick).whole && judged_at(
                children[few],
                pick,
            ).whole,
        }),
        judged_among(children.take(few + 1), pick).part.within(
            judged_among(children, pick).part,
        ),
    decreases children.len(),
{
    let next = children.take(few + 1);
    assert(next.drop_last() =~= children.take(few));
    if few + 1 < children.len() {
        let shorter = children.drop_last();
        lemma_judged_grows(shorter, pick, few);
        assert(shorter.take(few + 1) =~= next);
        assert(shorter.take(few) =~= children.take(few));
    } else {
        assert(next =~= children);
    }
}

/// Where something matched at one child, something did.
pub proof fn lemma_some_among(children: Seq<Tree>, pick: PickModel, index: int)
    requires
        0 <= index < children.len(),
        judged_at(children[index], pick).some,
    ensures
        judged_among(children, pick).some,
    decreases children.len(),
{
    if index < children.len() - 1 {
        lemma_some_among(children.drop_last(), pick, index);
    }
}

/// Where nothing matched, it amounts to nothing.
pub proof fn lemma_none_matched(children: Seq<Tree>, pick: PickModel)
    ensures
        !judged_among(children, pick).some ==> judged_among(children, pick).part == Found::none(),
    decreases children, 0int,
{
    if children.len() > 0 {
        let last = children.last();
        lemma_none_matched(children.drop_last(), pick);
        lemma_judged(last, pick);
        lemma_none_matched(last.children, pick);
        assert(!judged_at(last, pick).some ==> judged_at(last, pick).part == Found::none());
    }
}

/// An entry more is held, and nothing else.
pub proof fn lemma_held_push(
    list: Seq<(Vec<usize>, Keep)>,
    from: int,
    entry: (Vec<usize>, Keep),
    key: Seq<usize>,
    keep: Keep,
)
    requires
        0 <= from <= list.len(),
    ensures
        held(list.push(entry), from, key, keep) <==> held(list, from, key, keep) || entry.0@ == key
            && entry.1 == keep,
{
    let longer = list.push(entry);
    assert(longer[list.len() as int] == entry);
    if held(list, from, key, keep) {
        let i = choose|i: int|
            from <= i < list.len() && (#[trigger] list[i]).0@ == key && list[i].1 == keep;
        assert(longer[i] == list[i]);
    }
    if held(longer, from, key, keep) {
        let i = choose|i: int|
            from <= i < longer.len() && (#[trigger] longer[i]).0@ == key && longer[i].1 == keep;
        if i < list.len() {
            assert(list[i] == longer[i]);
        }
    }
}

proof fn lemma_held_more(
    list: Seq<(Vec<usize>, Keep)>,
    longer: Seq<(Vec<usize>, Keep)>,
    from: int,
    key: Seq<usize>,
    keep: Keep,
)
    requires
        0 <= from <= list.len() <= longer.len(),
        longer.take(list.len() as int) == list,
    ensures
        held(longer, from, key, keep) <==> held(list, from, key, keep) || held(
            longer,
            list.len() as int,
            key,
            keep,
        ),
{
    assert forall|i: int| 0 <= i < list.len() implies #[trigger] longer[i] == list[i] by {
        assert(longer.take(list.len() as int)[i] == longer[i]);
    }
    if held(list, from, key, keep) {
        let i = choose|i: int|
            from <= i < list.len() && (#[trigger] list[i]).0@ == key && list[i].1 == keep;
        assert(longer[i] == list[i]);
    }
    if held(longer, from, key, keep) {
        let i = choose|i: int|
            from <= i < longer.len() && (#[trigger] longer[i]).0@ == key && longer[i].1 == keep;
        if i < list.len() {
            assert(list[i] == longer[i]);
        }
    }
}

/// Child `index` of `tree` is recorded in its place, or what is beneath it is.
proof fn lemma_records_step(
    key: Seq<usize>,
    keep: Keep,
    crumbs: Seq<usize>,
    tree: Tree,
    pick: PickModel,
    index: usize,
)
    requires
        index < tree.children.len(),
    ensures
        records(key, keep, crumbs, tree, pick, index + 1) <==> {
            let child = tree.children[index as int];
            let way = crumbs.push(index);
            ||| records(key, keep, crumbs, tree, pick, index as int)
            ||| key == way && recorded(tree, pick, seq![index]) == Some(keep)
            ||| child.kind is Directory && !stands_for_all(child, pick) && records(
                key,
                keep,
                way,
                child,
                pick,
                child.children.len() as int,
            )
        },
{
    by_place::lemma_through_child(key, crumbs, index);
    let child = tree.children[index as int];
    if keeping::beneath(key, crumbs) && key[crumbs.len() as int] == index {
        let rest = key.skip(crumbs.len() as int);
        if key.len() == crumbs.len() + 1 {
            assert(rest =~= seq![index]);
        } else {
            assert(rest.skip(1)[0] == key[crumbs.len() as int + 1]);
        }
    }
}

/// File-by-file matching. Returns the bytes and files that matched beneath
/// `node`, and whether anything beneath it did, and everything. Entries go to `kept` in
/// visiting order, so a folder that matched completely can drop its
/// children's entries and stand for them as one whole match.
pub(crate) fn visit_files(
    node: &Node,
    crumbs: &mut Vec<usize>,
    pick: &Pick,
    kept: &mut Vec<(Vec<usize>, Keep)>,
) -> (total: (u64, u64, bool, bool))
    requires
        judged(node@, pick@).part.fit(),
    ensures
        total.0 == judged(node@, pick@).part.bytes,
        total.1 == judged(node@, pick@).part.files,
        total.2 == judged(node@, pick@).some,
        total.3 == judged(node@, pick@).whole,
        final(crumbs)@ == old(crumbs)@,
        old(kept)@.len() <= final(kept)@.len(),
        final(kept)@.take(old(kept)@.len() as int) == old(kept)@,
        forall|key: Seq<usize>, keep: Keep| #[trigger]
            held(final(kept)@, old(kept)@.len() as int, key, keep) <==> records(
                key,
                keep,
                old(crumbs)@,
                node@,
                pick@,
                node@.children.len() as int,
            ),
    decreases node,
{
    let ghost tree = node@;
    let ghost way = crumbs@;
    let ghost from = kept@.len() as int;
    proof {
        lemma_judged(tree, pick@);
        assert(tree.children.take(0) =~= Seq::empty());
        assert(kept@.take(from) =~= kept@);
    }
    let mut bytes: u64 = 0;
    let mut files: u64 = 0;
    let mut some = false;
    let mut whole = true;
    let mut index: usize = 0;
    while index < node.children.len()
        invariant
            index <= node.children@.len(),
            tree == node@,
            way == old(crumbs)@,
            crumbs@ == way,
            from == old(kept)@.len(),
            0 <= from <= kept@.len(),
            kept@.take(from) == old(kept)@,
            judged(tree, pick@).part.fit(),
            judged(tree, pick@) == judged_among(tree.children, pick@),
            bytes == judged_among(tree.children.take(index as int), pick@).part.bytes,
            files == judged_among(tree.children.take(index as int), pick@).part.files,
            some == judged_among(tree.children.take(index as int), pick@).some,
            whole == judged_among(tree.children.take(index as int), pick@).whole,
            forall|key: Seq<usize>, keep: Keep| #[trigger]
                held(kept@, from, key, keep) <==> records(
                    key,
                    keep,
                    way,
                    tree,
                    pick@,
                    index as int,
                ),
        decreases node.children@.len() - index,
    {
        let child = &node.children[index];
        let ghost before = kept@;
        let ghost longer = way.push(index);
        proof {
            lemma_judged_grows(tree.children, pick@, index as int);
            lemma_judged(child@, pick@);
            assert(seq![index][0] == index);
        }
        crumbs.push(index);
        assert(crumbs@ =~= longer);
        if child.is_dir() {
            let start: usize = kept.len();
            let (child_bytes, child_files, child_some, child_whole) = visit_files(
                child,
                crumbs,
                pick,
                kept,
            );
            let ghost during = kept@;
            assert forall|key: Seq<usize>, keep: Keep| #[trigger]
                held(during, from, key, keep) <==> held(before, from, key, keep) || records(
                    key,
                    keep,
                    longer,
                    child@,
                    pick@,
                    child@.children.len() as int,
                ) by {
                lemma_held_more(before, during, from, key, keep);
            }
            if child_some {
                some = true;
                let keep = if child_whole {
                    kept.truncate(start);
                    assert(kept@ =~= before);
                    Keep::Whole
                } else {
                    Keep::Partial { bytes: child_bytes, files: child_files }
                };
                let here = crumbs.clone();
                assert(here@ =~= longer);
                let ghost short = kept@;
                kept.push((here, keep));
                bytes = bytes + child_bytes;
                files = files + child_files;
                proof {
                    assert forall|key: Seq<usize>, held_as: Keep| #[trigger]
                        held(kept@, from, key, held_as) <==> records(
                            key,
                            held_as,
                            way,
                            tree,
                            pick@,
                            index + 1,
                        ) by {
                        lemma_held_push(short, from, (here, keep), key, held_as);
                        lemma_records_step(key, held_as, way, tree, pick@, index);
                    }
                    assert(kept@.take(from) =~= before.take(from)) by {
                        assert(during.take(start as int).take(from) =~= during.take(from));
                        assert(short.take(from) =~= before.take(from));
                    }
                }
            } else {
                proof {
                    lemma_none_matched(child@.children, pick@);
                    assert forall|key: Seq<usize>, held_as: Keep| #[trigger]
                        held(kept@, from, key, held_as) <==> records(
                            key,
                            held_as,
                            way,
                            tree,
                            pick@,
                            index + 1,
                        ) by {
                        lemma_records_step(key, held_as, way, tree, pick@, index);
                    }
                    assert(during.take(start as int).take(from) =~= during.take(from));
                }
            }
            whole = whole && child_whole;
        } else if pick.takes(child) {
            let here = crumbs.clone();
            assert(here@ =~= longer);
            kept.push((here, Keep::Whole));
            some = true;
            bytes = bytes + child.bytes;
            files = files + child.files;
            proof {
                assert forall|key: Seq<usize>, held_as: Keep| #[trigger]
                    held(kept@, from, key, held_as) <==> records(
                        key,
                        held_as,
                        way,
                        tree,
                        pick@,
                        index + 1,
                    ) by {
                    lemma_held_push(before, from, (here, Keep::Whole), key, held_as);
                    lemma_records_step(key, held_as, way, tree, pick@, index);
                }
                assert(kept@.take(from) =~= before.take(from));
            }
        } else {
            whole = false;
            proof {
                assert forall|key: Seq<usize>, held_as: Keep| #[trigger]
                    held(kept@, from, key, held_as) <==> records(
                        key,
                        held_as,
                        way,
                        tree,
                        pick@,
                        index + 1,
                    ) by {
                    lemma_records_step(key, held_as, way, tree, pick@, index);
                }
            }
        }
        crumbs.pop();
        assert(crumbs@ =~= way);
        index = index + 1;
    }
    assert(tree.children.take(index as int) =~= tree.children);
    (bytes, files, some, whole)
}

} // verus!
