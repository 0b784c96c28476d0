//! That whatever matches is kept, and so is the way to it.

use vstd::prelude::*;

use crate::filter::by_file;
use crate::filter::by_place;
use crate::filter::keeping::Keep;
use crate::filter::laws;
use crate::filter::outcome::Matches;
use crate::filter::picks;
use crate::filter::picks::PickModel;
use crate::tree::node;
use crate::tree::node::Tree;

verus! {

/// Crumbs lead through a child first, and on from there.
proof fn lemma_first_step(tree: Tree, crumbs: Seq<usize>)
    requires
        crumbs.len() > 0,
        node::at(tree, crumbs) is Some,
    ensures
        crumbs[0] < tree.children.len(),
        node::at(tree.children[crumbs[0] as int], crumbs.skip(1)) == node::at(tree, crumbs),
{
    let first = seq![crumbs[0]];
    assert(first + crumbs.skip(1) =~= crumbs);
    node::lemma_at_joined(tree, first, crumbs.skip(1));
    assert(first.drop_last() =~= Seq::empty());
    assert(node::at(tree, first.drop_last()) == Some(tree));
}

/// Whether `pick` takes what lies at `crumbs` beneath `tree`.
pub open spec fn taken_at(tree: Tree, pick: PickModel, crumbs: Seq<usize>) -> bool {
    crumbs.len() > 0 && (node::at(tree, crumbs) matches Some(found) && picks::takes(pick, found))
}

/// Whatever is taken is counted.
pub proof fn lemma_place_counts(tree: Tree, pick: PickModel, crumbs: Seq<usize>)
    requires
        taken_at(tree, pick, crumbs),
    ensures
        by_place::places(tree, pick) > 0,
    decreases crumbs.len(),
{
    lemma_first_step(tree, crumbs);
    let index = crumbs[0] as int;
    let child = tree.children[index];
    by_place::lemma_found(tree, pick);
    by_place::lemma_found_grows(tree.children, pick, index);
    if !picks::takes(pick, child) {
        lemma_place_counts(child, pick, crumbs.skip(1));
    }
    assert(by_place::places_at(child, pick) > 0);
}

proof fn lemma_place_takes_part(
    tree: Tree,
    pick: PickModel,
    crumbs: Seq<usize>,
    further: Seq<usize>,
    few: int,
)
    requires
        taken_at(tree, pick, crumbs),
        0 <= few <= crumbs.len(),
    ensures
        laws::takes_part(tree, pick, crumbs + further) == Some(Keep::Whole),
        laws::takes_part(tree, pick, crumbs.take(few)) is Some,
    decreases crumbs.len(),
{
    lemma_first_step(tree, crumbs);
    let child = tree.children[crumbs[0] as int];
    let rest = crumbs.skip(1);
    assert((crumbs + further)[0] == crumbs[0]);
    if !picks::takes(pick, child) {
        lemma_place_counts(child, pick, rest);
        assert((crumbs + further).skip(1) =~= rest + further);
        if few > 0 {
            assert(crumbs.take(few).skip(1) =~= rest.take(few - 1));
            lemma_place_takes_part(child, pick, rest, further, few - 1);
        } else {
            lemma_place_takes_part(child, pick, rest, further, 0);
        }
    }
}

/// Whatever a pick takes, at any depth and of whatever size, is kept whole,
/// with everything beneath it; and none of what it lies in is filtered out.
pub proof fn lemma_match_kept_whole(
    outcome: Matches,
    tree: Tree,
    base: Seq<usize>,
    pick: PickModel,
    crumbs: Seq<usize>,
    further: Seq<usize>,
    few: int,
)
    requires
        outcome.shows_places(tree, base, pick),
        taken_at(tree, pick, crumbs),
        0 <= few <= crumbs.len(),
    ensures
        outcome.keeps(base + crumbs) == Some(Keep::Whole),
        outcome.keeps(base + (crumbs + further)) == Some(Keep::Whole),
        outcome.keeps(base + crumbs.take(few)) is Some,
{
    lemma_place_takes_part(tree, pick, crumbs, further, few);
    lemma_place_takes_part(tree, pick, crumbs, Seq::empty(), few);
    assert(crumbs + Seq::<usize>::empty() =~= crumbs);
    laws::lemma_places_shown(outcome, tree, base, pick, crumbs);
    laws::lemma_places_shown(outcome, tree, base, pick, crumbs + further);
    laws::lemma_places_shown(outcome, tree, base, pick, crumbs.take(few));
}

/// Whether what lies at `crumbs` beneath `tree` is a file that `pick` takes,
/// in nothing but folders.
pub open spec fn file_taken_at(tree: Tree, pick: PickModel, crumbs: Seq<usize>) -> bool
    decreases crumbs.len(),
{
    crumbs.len() > 0 && crumbs[0] < tree.children.len() && {
        let child = tree.children[crumbs[0] as int];
        if child.kind is Directory {
            file_taken_at(child, pick, crumbs.skip(1))
        } else {
            crumbs.len() == 1 && picks::takes(pick, child)
        }
    }
}

proof fn lemma_file_counts(tree: Tree, pick: PickModel, crumbs: Seq<usize>)
    requires
        file_taken_at(tree, pick, crumbs),
    ensures
        by_file::judged(tree, pick).some,
    decreases crumbs.len(),
{
    let index = crumbs[0] as int;
    let child = tree.children[index];
    by_file::lemma_judged(tree, pick);
    if child.kind is Directory {
        lemma_file_counts(child, pick, crumbs.skip(1));
    }
    assert(by_file::judged_at(child, pick).some);
    by_file::lemma_some_among(tree.children, pick, index);
}

proof fn lemma_file_takes_part(tree: Tree, pick: PickModel, crumbs: Seq<usize>, few: int)
    requires
        file_taken_at(tree, pick, crumbs),
        0 <= few <= crumbs.len(),
    ensures
        laws::takes_part_by_file(tree, pick, crumbs) == Some(Keep::Whole),
        laws::takes_part_by_file(tree, pick, crumbs.take(few)) is Some,
    decreases crumbs.len(),
{
    let child = tree.children[crumbs[0] as int];
    let rest = crumbs.skip(1);
    if child.kind is Directory {
        lemma_file_counts(child, pick, rest);
        if few > 0 {
            assert(crumbs.take(few).skip(1) =~= rest.take(few - 1));
            lemma_file_takes_part(child, pick, rest, few - 1);
        } else {
            lemma_file_takes_part(child, pick, rest, 0);
        }
    }
}

/// Every file that a pick takes, of whatever size, is kept whole; and none of
/// the folders it lies in is filtered out.
pub proof fn lemma_file_kept_whole(
    outcome: Matches,
    tree: Tree,
    base: Seq<usize>,
    pick: PickModel,
    crumbs: Seq<usize>,
    few: int,
)
    requires
        outcome.shows_files(tree, base, pick),
        file_taken_at(tree, pick, crumbs),
        0 <= few <= crumbs.len(),
    ensures
        outcome.keeps(base + crumbs) == Some(Keep::Whole),
        outcome.keeps(base + crumbs.take(few)) is Some,
{
    lemma_file_takes_part(tree, pick, crumbs, few);
    laws::lemma_files_shown(outcome, tree, base, pick, crumbs);
    laws::lemma_files_shown(outcome, tree, base, pick, crumbs.take(few));
}

} // verus!
