//! That nothing is kept without a reason.

use vstd::prelude::*;

use crate::filter::by_file;
use crate::filter::by_place;
use crate::filter::keeping::Keep;
use crate::filter::laws;
use crate::filter::matching;
use crate::filter::outcome;
use crate::filter::outcome::Matches;
use crate::filter::picks;
use crate::filter::picks::{PickModel, Query};
use crate::text;
use crate::tree::ages;
use crate::tree::node;
use crate::tree::node::{Metric, Tree};
use crate::tree::totals;

verus! {

/// Whether `pick` takes one of `files`.
pub open spec fn takes_one(files: Seq<Tree>, pick: PickModel) -> bool {
    exists|i: int| 0 <= i < files.len() && picks::takes(pick, #[trigger] files[i])
}

/// Whether `pick` takes each of `files`.
pub open spec fn takes_each(files: Seq<Tree>, pick: PickModel) -> bool {
    forall|i: int| 0 <= i < files.len() ==> picks::takes(pick, #[trigger] files[i])
}

proof fn lemma_one_at(child: Tree, pick: PickModel)
    ensures
        by_file::judged_at(child, pick).some == takes_one(ages::leaves(child), pick),
    decreases child, 1int,
{
    if child.kind is Directory {
        by_file::lemma_judged(child, pick);
        ages::lemma_leaves(child);
        lemma_one_among(child.children, pick);
    } else {
        assert(ages::leaves(child)[0] == child);
    }
}

proof fn lemma_one_among(children: Seq<Tree>, pick: PickModel)
    ensures
        by_file::judged_among(children, pick).some == takes_one(ages::all_leaves(children), pick),
    decreases children, 0int,
{
    if children.len() > 0 {
        lemma_one_among(children.drop_last(), pick);
        lemma_one_at(children.last(), pick);
        let (before, last) = (ages::all_leaves(children.drop_last()), ages::leaves(children.last()));
        let all = ages::all_leaves(children);
        assert(all == before + last);
        if takes_one(before, pick) {
            let i = choose|i: int| 0 <= i < before.len() && picks::takes(pick, #[trigger] before[i]);
            assert(all[i] == before[i]);
        }
        if takes_one(last, pick) {
            let i = choose|i: int| 0 <= i < last.len() && picks::takes(pick, #[trigger] last[i]);
            assert(all[before.len() + i] == last[i]);
        }
        if takes_one(all, pick) {
            let i = choose|i: int| 0 <= i < all.len() && picks::takes(pick, #[trigger] all[i]);
            if i < before.len() {
                assert(before[i] == all[i]);
            } else {
                assert(last[i - before.len()] == all[i]);
            }
        }
    }
}

/// In a view by file a folder in the searched one is kept if one of the files
/// in it, at whatever depth, is taken; whole if each is, else by what they
/// hold. A file is kept if it is taken.
pub proof fn lemma_kept_for_its_files(
    outcome: Matches,
    tree: Tree,
    base: Seq<usize>,
    pick: PickModel,
    index: usize,
)
    requires
        outcome.shows_files(tree, base, pick),
        index < tree.children.len(),
    ensures
        ({
            let child = tree.children[index as int];
            let leaves = ages::leaves(child);
            let keep = outcome.keeps(base.push(index));
            &&& keep is Some <==> takes_one(leaves, pick)
            &&& keep == Some(Keep::Whole) <==> takes_one(leaves, pick) && takes_each(leaves, pick)
        }),
{
    let child = tree.children[index as int];
    let crumbs = seq![index];
    assert(base + crumbs =~= base.push(index));
    laws::lemma_files_shown(outcome, tree, base, pick, crumbs);
    lemma_one_at(child, pick);
    assert(crumbs.skip(1) =~= Seq::empty());
    reveal_with_fuel(laws::takes_part_by_file, 2);
    if child.kind is Directory {
        laws::lemma_whole_is_every_file(child, pick);
    } else {
        assert(ages::leaves(child)[0] == child);
    }
}

/// Whether `pick` takes something beneath `tree`.
pub open spec fn takes_beneath(tree: Tree, pick: PickModel) -> bool {
    exists|crumbs: Seq<usize>| #[trigger] matching::taken_at(tree, pick, crumbs)
}

proof fn lemma_beneath_among(tree: Tree, pick: PickModel, count: int) -> (crumbs: Seq<usize>)
    requires
        0 <= count <= tree.children.len() <= usize::MAX,
        narrow(tree),
        by_place::places_among(tree.children.take(count), pick) > 0,
    ensures
        matching::taken_at(tree, pick, crumbs),
    decreases tree, count,
{
    let few = tree.children.take(count);
    let before = tree.children.take(count - 1);
    let child = tree.children[count - 1];
    assert(few.drop_last() =~= before);
    assert(few.last() == child);
    assert(by_place::places_among(few, pick) == by_place::places_among(before, pick)
        + by_place::places_at(child, pick));
    assert(by_place::places_at(child, pick) == if picks::takes(pick, child) {
        1
    } else {
        by_place::places(child, pick)
    });
    if by_place::places_among(before, pick) > 0 {
        lemma_beneath_among(tree, pick, count - 1)
    } else if picks::takes(pick, child) {
        let crumbs = seq![(count - 1) as usize];
        assert(crumbs.drop_last() =~= Seq::empty());
        assert(node::at(tree, crumbs.drop_last()) == Some(tree));
        assert(node::at(tree, crumbs) == Some(child));
        crumbs
    } else {
        by_place::lemma_found(child, pick);
        assert(narrow(child));
        reveal_with_fuel(narrow, 2);
        assert(child.children.take(child.children.len() as int) =~= child.children);
        let rest = lemma_beneath_among(child, pick, child.children.len() as int);
        let first = seq![(count - 1) as usize];
        assert(first.drop_last() =~= Seq::empty());
        assert(node::at(tree, first.drop_last()) == Some(tree));
        assert(node::at(tree, first) == Some(child));
        node::lemma_at_joined(tree, first, rest);
        first + rest
    }
}

/// Whether no node of `tree` has more children than can be counted.
pub open spec fn narrow(tree: Tree) -> bool
    decreases tree,
{
    &&& tree.children.len() <= usize::MAX
    &&& forall|i: int| 0 <= i < tree.children.len() ==> narrow(#[trigger] tree.children[i])
}

/// Places are counted beneath a tree if and only if something there is taken.
pub proof fn lemma_counted_for_a_reason(tree: Tree, pick: PickModel)
    requires
        narrow(tree),
    ensures
        by_place::places(tree, pick) > 0 <==> takes_beneath(tree, pick),
{
    by_place::lemma_found(tree, pick);
    if by_place::places(tree, pick) > 0 {
        assert(tree.children.take(tree.children.len() as int) =~= tree.children);
        let crumbs = lemma_beneath_among(tree, pick, tree.children.len() as int);
        assert(matching::taken_at(tree, pick, crumbs));
    }
    if takes_beneath(tree, pick) {
        let crumbs = choose|crumbs: Seq<usize>| #[trigger] matching::taken_at(tree, pick, crumbs);
        matching::lemma_place_counts(tree, pick, crumbs);
    }
}

/// In a view by place a node in the searched one is kept if it is taken, or
/// something beneath it is; whole if it is itself.
pub proof fn lemma_kept_for_its_places(
    outcome: Matches,
    tree: Tree,
    base: Seq<usize>,
    pick: PickModel,
    index: usize,
)
    requires
        outcome.shows_places(tree, base, pick),
        index < tree.children.len(),
        narrow(tree.children[index as int]),
    ensures
        ({
            let child = tree.children[index as int];
            let keep = outcome.keeps(base.push(index));
            &&& keep is Some <==> picks::takes(pick, child) || takes_beneath(child, pick)
            &&& keep == Some(Keep::Whole) <==> picks::takes(pick, child)
        }),
{
    let child = tree.children[index as int];
    let crumbs = seq![index];
    assert(base + crumbs =~= base.push(index));
    laws::lemma_places_shown(outcome, tree, base, pick, crumbs);
    lemma_counted_for_a_reason(child, pick);
    assert(crumbs.skip(1) =~= Seq::empty());
    reveal_with_fuel(laws::takes_part, 2);
}

/// White space around what is typed does not matter, nor does the case of its
/// letters: what stands between is looked for in small letters.
pub proof fn lemma_typed(before: Seq<char>, middle: Seq<char>, after: Seq<char>)
    requires
        text::laws::blank(before),
        text::laws::blank(after),
        middle.len() > 0 ==> !text::is_white(middle[0]) && !text::is_white(middle.last()),
    ensures
        outcome::wanted(before + middle + after) == text::lower_text(middle),
        outcome::wanted(before + middle + after).len() == middle.len(),
{
    text::laws::lemma_trimmed(before, middle, after);
}

/// Every query of a tree whose totals are worked out and fit can be answered.
pub proof fn lemma_always_answerable(tree: Tree, query: Query, metric: Metric)
    requires
        totals::aggregated(tree, metric) == tree,
        totals::totals(tree).fit(),
        laws::proper(tree),
    ensures
        outcome::answerable(tree, query),
{
    laws::lemma_found_within(tree, PickModel::Query(query), metric);
}

} // verus!
