//! What holds of every filtered view.

use vstd::prelude::*;

use crate::filter::by_file;
use crate::filter::by_place;
use crate::filter::keeping;
use crate::filter::keeping::Keep;
use crate::filter::outcome;
use crate::filter::outcome::Matches;
use crate::filter::picks;
use crate::filter::picks::{Found, PickModel};
use crate::tree::ages;
use crate::tree::node::{Metric, Tree};
use crate::tree::totals;

verus! {

/// How a node of which `part` is found is drawn.
pub open spec fn partial(part: Found) -> Keep {
    Keep::Partial { bytes: part.bytes as u64, files: part.files as u64 }
}

/// How what lies at `crumbs` beneath `tree` takes part when `pick` takes
/// places: what it takes is kept whole, with everything beneath it, and what
/// holds some of that is kept by as much as it holds.
pub open spec fn takes_part(tree: Tree, pick: PickModel, crumbs: Seq<usize>) -> Option<Keep>
    decreases crumbs.len(),
{
    if crumbs.len() == 0 {
        Some(partial(by_place::found(tree, pick)))
    } else if crumbs[0] >= tree.children.len() {
        None
    } else {
        let child = tree.children[crumbs[0] as int];
        if picks::takes(pick, child) {
            Some(Keep::Whole)
        } else if by_place::places(child, pick) > 0 {
            takes_part(child, pick, crumbs.skip(1))
        } else {
            None
        }
    }
}

/// How what lies at `crumbs` beneath `tree` takes part when `pick` takes
/// files: a file that it takes is kept whole, as is a folder of which it takes
/// every file, and what holds some is kept by as much as it holds.
pub open spec fn takes_part_by_file(tree: Tree, pick: PickModel, crumbs: Seq<usize>) -> Option<Keep>
    decreases crumbs.len(),
{
    if crumbs.len() == 0 {
        Some(partial(by_file::judged(tree, pick).part))
    } else if crumbs[0] >= tree.children.len() {
        None
    } else {
        let child = tree.children[crumbs[0] as int];
        if !(child.kind is Directory) {
            if picks::takes(pick, child) {
                Some(Keep::Whole)
            } else {
                None
            }
        } else if by_file::stands_for_all(child, pick) {
            Some(Keep::Whole)
        } else if by_file::judged(child, pick).some {
            takes_part_by_file(child, pick, crumbs.skip(1))
        } else {
            None
        }
    }
}

/// Whether `map` holds beneath `crumbs` what `recorded` says.
spec fn agrees(
    map: Map<Seq<usize>, Keep>,
    crumbs: Seq<usize>,
    recorded: spec_fn(Seq<usize>) -> Option<Keep>,
) -> bool {
    forall|key: Seq<usize>|
        keeping::beneath(key, crumbs) ==> #[trigger] keeping::lookup(map, key) == recorded(
            key.skip(crumbs.len() as int),
        )
}

proof fn lemma_agrees_below(
    map: Map<Seq<usize>, Keep>,
    crumbs: Seq<usize>,
    recorded: spec_fn(Seq<usize>) -> Option<Keep>,
    index: usize,
    below: spec_fn(Seq<usize>) -> Option<Keep>,
)
    requires
        agrees(map, crumbs, recorded),
        forall|rest: Seq<usize>| #[trigger]
            rest.len() > 1 && rest[0] == index ==> recorded(rest) == below(rest.skip(1)),
    ensures
        agrees(map, crumbs.push(index), below),
{
    assert forall|key: Seq<usize>|
        keeping::beneath(key, crumbs.push(index)) implies #[trigger] keeping::lookup(map, key)
        == below(key.skip(crumbs.push(index).len() as int)) by {
        by_place::lemma_through_child(key, crumbs, index);
        let rest = key.skip(crumbs.len() as int);
        assert(rest.len() > 1 && rest[0] == index);
    }
}

proof fn lemma_next_key(crumbs: Seq<usize>, rest: Seq<usize>)
    requires
        rest.len() > 0,
    ensures
        ({
            let all = crumbs + rest;
            let key = all.take(crumbs.len() as int + 1);
            &&& key == crumbs.push(rest[0])
            &&& keeping::beneath(key, crumbs)
            &&& key.skip(crumbs.len() as int) == seq![rest[0]]
            &&& crumbs.push(rest[0]) + rest.skip(1) == all
        }),
{
    let all = crumbs + rest;
    let key = all.take(crumbs.len() as int + 1);
    assert(key =~= crumbs.push(rest[0]));
    assert(key.take(crumbs.len() as int) =~= crumbs);
    assert(key.skip(crumbs.len() as int) =~= seq![rest[0]]);
    assert(crumbs.push(rest[0]) + rest.skip(1) =~= all);
}

proof fn lemma_walk_places(
    map: Map<Seq<usize>, Keep>,
    base: int,
    all: Keep,
    crumbs: Seq<usize>,
    tree: Tree,
    pick: PickModel,
    rest: Seq<usize>,
)
    requires
        0 <= base <= crumbs.len(),
        agrees(map, crumbs, |key: Seq<usize>| by_place::recorded(tree, pick, key)),
        rest.len() > 0,
    ensures
        outcome::walked(map, base, all, crumbs + rest, crumbs.len() as int + 1) == takes_part(
            tree,
            pick,
            rest,
        ),
    decreases rest.len(),
{
    lemma_next_key(crumbs, rest);
    let key = (crumbs + rest).take(crumbs.len() as int + 1);
    let index = rest[0];
    assert(keeping::lookup(map, key) == by_place::recorded(tree, pick, seq![index]));
    assert(seq![index][0] == index && seq![index].len() == 1);
    if index < tree.children.len() {
        let child = tree.children[index as int];
        if !picks::takes(pick, child) && by_place::places(child, pick) > 0 {
            if rest.len() == 1 {
                assert(takes_part(child, pick, rest.skip(1)) == Some(
                    partial(by_place::found(child, pick)),
                ));
            } else {
                lemma_agrees_below(
                    map,
                    crumbs,
                    |key: Seq<usize>| by_place::recorded(tree, pick, key),
                    index,
                    |key: Seq<usize>| by_place::recorded(child, pick, key),
                );
                lemma_walk_places(
                    map,
                    base,
                    all,
                    crumbs.push(index),
                    child,
                    pick,
                    rest.skip(1),
                );
            }
        }
    }
}

/// A view of the places that a filter takes shows just those: the node at
/// `crumbs` beneath the searched subtree takes part as its place says, and all
/// that is outside is kept whole.
pub proof fn lemma_places_shown(
    outcome: Matches,
    tree: Tree,
    base: Seq<usize>,
    pick: PickModel,
    crumbs: Seq<usize>,
)
    requires
        outcome.shows_places(tree, base, pick),
    ensures
        outcome.keeps(base + crumbs) == takes_part(tree, pick, crumbs),
        !outcome::from_base(crumbs, base) ==> outcome.keeps(crumbs) == Some(Keep::Whole),
{
    let map = keeping::kept(outcome.keep);
    let all = Keep::Partial { bytes: outcome.bytes, files: outcome.files };
    let whole = base + crumbs;
    assert(whole.take(base.len() as int) =~= base);
    assert(!keeping::beneath(base, base));
    assert(keeping::lookup(map, base) is None);
    if crumbs.len() == 0 {
        assert(whole =~= base);
        assert(outcome::walked(map, base.len() as int, all, whole, base.len() as int + 1) == Some(
            all,
        ));
    } else {
        assert forall|key: Seq<usize>|
            keeping::beneath(key, base) implies #[trigger] keeping::lookup(map, key)
            == by_place::recorded(tree, pick, key.skip(base.len() as int)) by {}
        assert(agrees(map, base, |key: Seq<usize>| by_place::recorded(tree, pick, key)));
        lemma_walk_places(map, base.len() as int, all, base, tree, pick, crumbs);
    }
}

proof fn lemma_walk_files(
    map: Map<Seq<usize>, Keep>,
    base: int,
    all: Keep,
    crumbs: Seq<usize>,
    tree: Tree,
    pick: PickModel,
    rest: Seq<usize>,
)
    requires
        0 <= base <= crumbs.len(),
        agrees(map, crumbs, |key: Seq<usize>| by_file::recorded(tree, pick, key)),
        rest.len() > 0,
    ensures
        outcome::walked(map, base, all, crumbs + rest, crumbs.len() as int + 1)
            == takes_part_by_file(tree, pick, rest),
    decreases rest.len(),
{
    lemma_next_key(crumbs, rest);
    let key = (crumbs + rest).take(crumbs.len() as int + 1);
    let index = rest[0];
    assert(keeping::lookup(map, key) == by_file::recorded(tree, pick, seq![index]));
    assert(seq![index][0] == index && seq![index].len() == 1);
    if index < tree.children.len() {
        let child = tree.children[index as int];
        if child.kind is Directory && !by_file::stands_for_all(child, pick) && by_file::judged(
            child,
            pick,
        ).some {
            if rest.len() == 1 {
                assert(takes_part_by_file(child, pick, rest.skip(1)) == Some(
                    partial(by_file::judged(child, pick).part),
                ));
            } else {
                lemma_agrees_below(
                    map,
                    crumbs,
                    |key: Seq<usize>| by_file::recorded(tree, pick, key),
                    index,
                    |key: Seq<usize>| by_file::recorded(child, pick, key),
                );
                lemma_walk_files(
                    map,
                    base,
                    all,
                    crumbs.push(index),
                    child,
                    pick,
                    rest.skip(1),
                );
            }
        }
    }
}

/// A view of the files that a filter takes shows just those: the node at
/// `crumbs` beneath the searched subtree takes part as its files say, and all
/// that is outside is kept whole.
pub proof fn lemma_files_shown(
    outcome: Matches,
    tree: Tree,
    base: Seq<usize>,
    pick: PickModel,
    crumbs: Seq<usize>,
)
    requires
        outcome.shows_files(tree, base, pick),
    ensures
        outcome.keeps(base + crumbs) == takes_part_by_file(tree, pick, crumbs),
        !outcome::from_base(crumbs, base) ==> outcome.keeps(crumbs) == Some(Keep::Whole),
{
    let map = keeping::kept(outcome.keep);
    let all = Keep::Partial { bytes: outcome.bytes, files: outcome.files };
    let whole = base + crumbs;
    assert(whole.take(base.len() as int) =~= base);
    assert(!keeping::beneath(base, base));
    assert(keeping::lookup(map, base) is None);
    if crumbs.len() == 0 {
        assert(whole =~= base);
        assert(outcome::walked(map, base.len() as int, all, whole, base.len() as int + 1) == Some(
            all,
        ));
    } else {
        assert forall|key: Seq<usize>|
            keeping::beneath(key, base) implies #[trigger] keeping::lookup(map, key)
            == by_file::recorded(tree, pick, key.skip(base.len() as int)) by {}
        assert(agrees(map, base, |key: Seq<usize>| by_file::recorded(tree, pick, key)));
        lemma_walk_files(map, base.len() as int, all, base, tree, pick, crumbs);
    }
}

proof fn lemma_every_file(children: Seq<Tree>, pick: PickModel)
    ensures
        by_file::judged_among(children, pick).whole <==> forall|i: int|
            0 <= i < ages::all_leaves(children).len() ==> picks::takes(
                pick,
                #[trigger] ages::all_leaves(children)[i],
            ),
    decreases children, 0int,
{
    if children.len() > 0 {
        let (before, last) = (ages::all_leaves(children.drop_last()), ages::leaves(children.last()));
        let all = ages::all_leaves(children);
        assert(all =~= before + last);
        lemma_every_file(children.drop_last(), pick);
        lemma_judged_every_file(children.last(), pick);
        if forall|i: int| 0 <= i < all.len() ==> picks::takes(pick, #[trigger] all[i]) {
            assert forall|i: int| 0 <= i < before.len() implies picks::takes(
                pick,
                #[trigger] before[i],
            ) by {
                assert(all[i] == before[i]);
            }
            assert forall|i: int| 0 <= i < last.len() implies picks::takes(
                pick,
                #[trigger] last[i],
            ) by {
                assert(all[before.len() + i] == last[i]);
            }
        }
        if by_file::judged_among(children, pick).whole {
            assert forall|i: int| 0 <= i < all.len() implies picks::takes(
                pick,
                #[trigger] all[i],
            ) by {
                if i < before.len() {
                    assert(before[i] == all[i]);
                } else {
                    assert(last[i - before.len()] == all[i]);
                }
            }
        }
    }
}

proof fn lemma_judged_every_file(child: Tree, pick: PickModel)
    ensures
        by_file::judged_at(child, pick).whole <==> forall|i: int|
            0 <= i < ages::leaves(child).len() ==> picks::takes(
                pick,
                #[trigger] ages::leaves(child)[i],
            ),
    decreases child, 1int,
{
    if child.kind is Directory {
        by_file::lemma_judged(child, pick);
        ages::lemma_leaves(child);
        lemma_every_file(child.children, pick);
    } else {
        assert(ages::leaves(child) =~= seq![child]);
        assert(ages::leaves(child)[0] == child);
    }
}

/// A folder is judged whole if and only if every file in it is taken.
pub proof fn lemma_whole_is_every_file(tree: Tree, pick: PickModel)
    requires
        tree.kind is Directory,
    ensures
        by_file::judged(tree, pick).whole <==> forall|i: int|
            0 <= i < ages::leaves(tree).len() ==> picks::takes(
                pick,
                #[trigger] ages::leaves(tree)[i],
            ),
{
    lemma_judged_every_file(tree, pick);
}

/// Whether only directories have anything beneath them.
pub open spec fn proper(tree: Tree) -> bool
    decreases tree,
{
    &&& !(tree.kind is Directory) ==> tree.children.len() == 0
    &&& forall|i: int| 0 <= i < tree.children.len() ==> proper(#[trigger] tree.children[i])
}

/// What `tree` amounts to, in bytes and files.
pub open spec fn amount(tree: Tree) -> Found {
    Found { bytes: totals::totals(tree).bytes, files: totals::totals(tree).files }
}

/// What `children` amount to, in bytes and files.
pub open spec fn amounts(children: Seq<Tree>) -> Found {
    Found { bytes: totals::sum(children).bytes, files: totals::sum(children).files }
}

/// Whether each of `children` is fit to be found: its totals are worked out,
/// and fit.
pub open spec fn ready(children: Seq<Tree>, metric: Metric) -> bool {
    forall|i: int|
        0 <= i < children.len() ==> {
            &&& totals::aggregated(#[trigger] children[i], metric) == children[i]
            &&& totals::totals(children[i]).fit()
            &&& proper(children[i])
        }
}

/// In a tree whose totals are worked out, those of its children are, and it
/// says what it amounts to.
pub proof fn lemma_ready(tree: Tree, metric: Metric)
    requires
        totals::aggregated(tree, metric) == tree,
        totals::totals(tree).fit(),
        proper(tree),
    ensures
        ready(tree.children, metric),
        picks::claimed(tree) == amount(tree),
        amounts(tree.children).within(amount(tree)),
        tree.kind is Directory ==> amounts(tree.children) == amount(tree),
{
    if tree.kind is Directory {
        totals::lemma_aggregated_directory(tree, metric);
        crate::tree::laws::lemma_children_settled(tree, metric);
        assert forall|i: int| 0 <= i < tree.children.len() implies {
            &&& totals::aggregated(#[trigger] tree.children[i], metric) == tree.children[i]
            &&& totals::totals(tree.children[i]).fit()
            &&& proper(tree.children[i])
        } by {
            totals::lemma_sum_grows(tree.children, i);
        }
    } else {
        assert(tree.children.len() == 0);
    }
}

proof fn lemma_found_among_within(children: Seq<Tree>, pick: PickModel, metric: Metric)
    requires
        ready(children, metric),
    ensures
        by_place::found_among(children, pick).within(amounts(children)),
        by_file::judged_among(children, pick).part.within(amounts(children)),
        by_file::judged_among(children, pick).whole ==> by_file::judged_among(children, pick).part
            == amounts(children),
    decreases children, 0int,
{
    if children.len() > 0 {
        let (shorter, last) = (children.drop_last(), children.last());
        assert(ready(shorter, metric)) by {
            assert forall|i: int| 0 <= i < shorter.len() implies {
                &&& totals::aggregated(#[trigger] shorter[i], metric) == shorter[i]
                &&& totals::totals(shorter[i]).fit()
                &&& proper(shorter[i])
            } by {
                assert(children[i] == shorter[i]);
            }
        }
        assert(children[children.len() - 1] == last);
        lemma_found_among_within(shorter, pick, metric);
        lemma_found_within_amount(last, pick, metric);
    }
}

proof fn lemma_found_within_amount(child: Tree, pick: PickModel, metric: Metric)
    requires
        totals::aggregated(child, metric) == child,
        totals::totals(child).fit(),
        proper(child),
    ensures
        by_place::found_at(child, pick).within(amount(child)),
        by_file::judged_at(child, pick).part.within(amount(child)),
        by_file::judged_at(child, pick).whole ==> by_file::judged_at(child, pick).part == amount(
            child,
        ),
    decreases child, 1int,
{
    lemma_ready(child, metric);
    by_place::lemma_found(child, pick);
    by_file::lemma_judged(child, pick);
    lemma_found_among_within(child.children, pick, metric);
}

/// What is found in a tree is no more than it holds, once its totals are
/// worked out: so the numbers fit, and a part is never drawn larger than the
/// whole.
pub proof fn lemma_found_within(tree: Tree, pick: PickModel, metric: Metric)
    requires
        totals::aggregated(tree, metric) == tree,
        totals::totals(tree).fit(),
        proper(tree),
    ensures
        by_place::found(tree, pick).within(picks::claimed(tree)),
        by_file::judged(tree, pick).part.within(picks::claimed(tree)),
        by_place::found(tree, pick).fit(),
        by_file::judged(tree, pick).part.fit(),
{
    lemma_ready(tree, metric);
    by_place::lemma_found(tree, pick);
    by_file::lemma_judged(tree, pick);
    lemma_found_among_within(tree.children, pick, metric);
}

/// A folder of which every file is taken is as large as they are, once its
/// totals are worked out: so it can stand for them.
pub proof fn lemma_whole_as_large(tree: Tree, pick: PickModel, metric: Metric)
    requires
        totals::aggregated(tree, metric) == tree,
        totals::totals(tree).fit(),
        proper(tree),
        tree.kind is Directory,
        by_file::judged(tree, pick).whole,
    ensures
        by_file::judged(tree, pick).part == picks::claimed(tree),
{
    lemma_ready(tree, metric);
    by_file::lemma_judged(tree, pick);
    lemma_found_among_within(tree.children, pick, metric);
}

} // verus!
