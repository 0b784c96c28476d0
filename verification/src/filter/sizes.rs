//! That what is kept is drawn at its true size.

use vstd::prelude::*;

use crate::filter::by_file;
use crate::filter::by_place;
use crate::filter::keeping::Keep;
use crate::filter::laws;
use crate::filter::picks;
use crate::filter::picks::{Found, PickModel};
use crate::tree::node::{Metric, Tree};
use crate::tree::totals;

verus! {

/// What a node that takes part as `keep` says is drawn as.
pub open spec fn drawn(keep: Option<Keep>, tree: Tree) -> Found {
    match keep {
        Some(Keep::Whole) => picks::claimed(tree),
        Some(Keep::Partial { bytes, files }) => Found { bytes: bytes as nat, files: files as nat },
        None => Found::none(),
    }
}

/// What the first `count` children of `tree` are drawn as when `pick` takes
/// places.
pub open spec fn children_drawn(tree: Tree, pick: PickModel, count: nat) -> Found
    decreases count,
{
    if count == 0 {
        Found::none()
    } else {
        let keep = laws::takes_part(tree, pick, seq![(count - 1) as usize]);
        children_drawn(tree, pick, (count - 1) as nat).and(drawn(keep, tree.children[count - 1]))
    }
}

/// What the first `count` children of `tree` are drawn as when `pick` takes
/// files.
pub open spec fn children_drawn_by_file(tree: Tree, pick: PickModel, count: nat) -> Found
    decreases count,
{
    if count == 0 {
        Found::none()
    } else {
        let keep = laws::takes_part_by_file(tree, pick, seq![(count - 1) as usize]);
        children_drawn_by_file(tree, pick, (count - 1) as nat).and(
            drawn(keep, tree.children[count - 1]),
        )
    }
}

proof fn lemma_children_drawn(tree: Tree, pick: PickModel, count: nat)
    requires
        count <= tree.children.len() <= usize::MAX,
        by_place::found(tree, pick).fit(),
    ensures
        children_drawn(tree, pick, count) == by_place::found_among(
            tree.children.take(count as int),
            pick,
        ),
    decreases count,
{
    if count == 0 {
        assert(tree.children.take(0) =~= Seq::empty());
    } else {
        let few = (count - 1) as nat;
        let child = tree.children[few as int];
        lemma_children_drawn(tree, pick, few);
        by_place::lemma_found(tree, pick);
        by_place::lemma_found(child, pick);
        by_place::lemma_none_found(child.children, pick);
        by_place::lemma_found_grows(tree.children, pick, few as int);
        reveal_with_fuel(laws::takes_part, 2);
        let crumbs = seq![few as usize];
        assert(crumbs.skip(1) =~= Seq::empty());
    }
}

/// A node of which a part is kept is drawn as large as what is kept of its
/// children: the matches beneath it keep their sizes, and nothing else counts.
pub proof fn lemma_part_is_its_children(tree: Tree, pick: PickModel)
    requires
        tree.children.len() <= usize::MAX,
        by_place::found(tree, pick).fit(),
    ensures
        children_drawn(tree, pick, tree.children.len()) == drawn(
            Some(laws::partial(by_place::found(tree, pick))),
            tree,
        ),
{
    lemma_children_drawn(tree, pick, tree.children.len());
    by_place::lemma_found(tree, pick);
    assert(tree.children.take(tree.children.len() as int) =~= tree.children);
}

proof fn lemma_children_drawn_by_file(tree: Tree, pick: PickModel, metric: Metric, count: nat)
    requires
        count <= tree.children.len() <= usize::MAX,
        totals::aggregated(tree, metric) == tree,
        totals::totals(tree).fit(),
        laws::proper(tree),
    ensures
        children_drawn_by_file(tree, pick, count) == by_file::judged_among(
            tree.children.take(count as int),
            pick,
        ).part,
    decreases count,
{
    if count == 0 {
        assert(tree.children.take(0) =~= Seq::empty());
    } else {
        let few = (count - 1) as nat;
        let child = tree.children[few as int];
        lemma_children_drawn_by_file(tree, pick, metric, few);
        laws::lemma_ready(tree, metric);
        by_file::lemma_judged_grows(tree.children, pick, few as int);
        reveal_with_fuel(laws::takes_part_by_file, 2);
        let crumbs = seq![few as usize];
        assert(crumbs.skip(1) =~= Seq::empty());
        if child.kind is Directory {
            by_file::lemma_judged(child, pick);
            by_file::lemma_none_matched(child.children, pick);
            laws::lemma_found_within(child, pick, metric);
            if by_file::judged(child, pick).whole {
                laws::lemma_whole_as_large(child, pick, metric);
            }
        }
    }
}

/// A folder of which some files are kept is drawn as large as what is kept of
/// its children, once its totals are worked out.
pub proof fn lemma_part_is_its_files(tree: Tree, pick: PickModel, metric: Metric)
    requires
        tree.children.len() <= usize::MAX,
        totals::aggregated(tree, metric) == tree,
        totals::totals(tree).fit(),
        laws::proper(tree),
    ensures
        children_drawn_by_file(tree, pick, tree.children.len()) == drawn(
            Some(laws::partial(by_file::judged(tree, pick).part)),
            tree,
        ),
{
    lemma_children_drawn_by_file(tree, pick, metric, tree.children.len());
    laws::lemma_found_within(tree, pick, metric);
    by_file::lemma_judged(tree, pick);
    assert(tree.children.take(tree.children.len() as int) =~= tree.children);
}

} // verus!
