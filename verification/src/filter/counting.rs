//! That every place that is kept is counted, and counted once.

use vstd::prelude::*;

use crate::filter::by_place;
use crate::filter::keeping;
use crate::filter::keeping::Keep;
use crate::filter::outcome::Matches;
use crate::filter::picks;
use crate::filter::picks::PickModel;
use crate::tree::node;
use crate::tree::node::{Node, Tree};

verus! {

broadcast use crate::tree::node::group_trees;

/// The ways to the places that `pick` takes beneath `tree`.
pub open spec fn ways(tree: Tree, pick: PickModel) -> Seq<Seq<usize>>
    decreases tree, 0int,
{
    ways_among(tree.children, pick)
}

/// The ways from `child` to the places that `pick` takes at or beneath it.
pub open spec fn ways_at(child: Tree, pick: PickModel) -> Seq<Seq<usize>>
    decreases child, 1int,
{
    if picks::takes(pick, child) {
        seq![Seq::empty()]
    } else {
        ways(child, pick)
    }
}

/// The ways to the places that `pick` takes at or beneath `children`.
pub open spec fn ways_among(children: Seq<Tree>, pick: PickModel) -> Seq<Seq<usize>>
    decreases children, 2int,
{
    if children.len() == 0 {
        Seq::empty()
    } else {
        ways_among(children.drop_last(), pick) + through(
            (children.len() - 1) as usize,
            ways_at(children.last(), pick),
        )
    }
}

/// Each of `list`, through child `index` first.
pub open spec fn through(index: usize, list: Seq<Seq<usize>>) -> Seq<Seq<usize>> {
    list.map_values(|way: Seq<usize>| seq![index] + way)
}

/// Whether an index can count the children of every node in `tree`.
pub open spec fn indexable(tree: Tree) -> bool
    decreases tree,
{
    &&& tree.children.len() <= usize::MAX
    &&& forall|i: int| 0 <= i < tree.children.len() ==> indexable(#[trigger] tree.children[i])
}

/// A tree in memory has children that an index can count.
proof fn lemma_indexable(node: Node)
    ensures
        indexable(node@),
    decreases node,
{
    assert(node.children.len() <= usize::MAX);
    assert forall|i: int| 0 <= i < node@.children.len() implies indexable(
        #[trigger] node@.children[i],
    ) by {
        lemma_indexable(node.children@[i]);
    }
}

proof fn lemma_ways(tree: Tree, pick: PickModel)
    ensures
        ways(tree, pick) == ways_among(tree.children, pick),
{
    reveal_with_fuel(ways, 2);
    reveal_with_fuel(ways_among, 2);
}

proof fn lemma_through(index: usize, list: Seq<Seq<usize>>, way: Seq<usize>)
    ensures
        through(index, list).contains(way) <==> way.len() > 0 && way[0] == index && list.contains(
            way.skip(1),
        ),
        list.no_duplicates() ==> through(index, list).no_duplicates(),
{
    let all = through(index, list);
    assert forall|i: int| 0 <= i < list.len() implies #[trigger] all[i].skip(1) == list[i] by {
        assert((seq![index] + list[i]).skip(1) =~= list[i]);
    }
    if all.contains(way) {
        let i = choose|i: int| 0 <= i < all.len() && all[i] == way;
        assert(all[i] == seq![index] + list[i]);
        assert(all[i].skip(1) == list[i]);
    }
    if way.len() > 0 && way[0] == index && list.contains(way.skip(1)) {
        let i = choose|i: int| 0 <= i < list.len() && list[i] == way.skip(1);
        assert(seq![index] + way.skip(1) =~= way);
        assert(all[i] == way);
    }
    if list.no_duplicates() {
        assert forall|i: int, j: int| 0 <= i < all.len() && 0 <= j < all.len() && i != j implies all[i]
            != all[j] by {
            assert(all[i].skip(1) == list[i]);
            assert(all[j].skip(1) == list[j]);
        }
    }
}

/// The ways are those to what is kept whole, each once.
proof fn lemma_ways_recorded(tree: Tree, pick: PickModel, few: int)
    requires
        indexable(tree),
        0 <= few <= tree.children.len(),
    ensures
        ({
            let list = ways_among(tree.children.take(few), pick);
            &&& list.no_duplicates()
            &&& list.len() == by_place::places_among(tree.children.take(few), pick)
            &&& forall|way: Seq<usize>| #[trigger]
                list.contains(way) <==> way.len() > 0 && way[0] < few && by_place::recorded(
                    tree,
                    pick,
                    way,
                ) == Some(Keep::Whole)
        }),
    decreases tree, few,
{
    if few == 0 {
        assert(tree.children.take(0) =~= Seq::empty());
    } else {
        let now = tree.children.take(few);
        let child = tree.children[few - 1];
        let index = (few - 1) as usize;
        assert(now.drop_last() =~= tree.children.take(few - 1));
        assert(now.last() == child);
        lemma_ways_recorded(tree, pick, few - 1);
        by_place::lemma_found_grows(tree.children, pick, few - 1);
        let before = ways_among(now.drop_last(), pick);
        let mine = ways_at(child, pick);
        if picks::takes(pick, child) {
            assert(mine.no_duplicates());
        } else {
            assert(child.children.take(child.children.len() as int) =~= child.children);
            lemma_ways(child, pick);
            by_place::lemma_found(child, pick);
            lemma_ways_recorded(child, pick, child.children.len() as int);
        }
        let last = through(index, mine);
        assert forall|way: Seq<usize>| #[trigger]
            ways_among(now, pick).contains(way) <==> way.len() > 0 && way[0] < few
                && by_place::recorded(tree, pick, way) == Some(Keep::Whole) by {
            lemma_through(index, mine, way);
            assert(ways_among(now, pick).contains(way) <==> before.contains(way) || last.contains(
                way,
            )) by {
                lemma_in_either(before, last, way);
            }
            if way.len() > 0 && way[0] == index {
                lemma_at_child(tree, pick, way, mine);
            }
        }
        lemma_through(index, mine, Seq::empty());
        assert forall|i: int, j: int| 0 <= i < before.len() && 0 <= j < last.len() implies before[i]
            != last[j] by {
            assert(before.contains(before[i]));
            assert(last[j] == seq![index] + mine[j]);
        }
        vstd::seq_lib::lemma_no_dup_in_concat(before, last);
    }
}

proof fn lemma_in_either(left: Seq<Seq<usize>>, right: Seq<Seq<usize>>, way: Seq<usize>)
    ensures
        (left + right).contains(way) <==> left.contains(way) || right.contains(way),
{
    let both = left + right;
    if both.contains(way) {
        let i = choose|i: int| 0 <= i < both.len() && both[i] == way;
        if i < left.len() {
            assert(left[i] == way);
        } else {
            assert(right[i - left.len()] == way);
        }
    }
    if left.contains(way) {
        let i = choose|i: int| 0 <= i < left.len() && left[i] == way;
        assert(both[i] == way);
    }
    if right.contains(way) {
        let i = choose|i: int| 0 <= i < right.len() && right[i] == way;
        assert(both[i + left.len()] == way);
    }
}

/// What is kept whole at or beneath a child is where its ways lead.
proof fn lemma_at_child(tree: Tree, pick: PickModel, way: Seq<usize>, mine: Seq<Seq<usize>>)
    requires
        way.len() > 0,
        way[0] < tree.children.len(),
        ({
            let child = tree.children[way[0] as int];
            if picks::takes(pick, child) {
                mine == seq![Seq::<usize>::empty()]
            } else {
                forall|rest: Seq<usize>| #[trigger]
                    mine.contains(rest) <==> rest.len() > 0 && rest[0] < child.children.len()
                        && by_place::recorded(child, pick, rest) == Some(Keep::Whole)
            }
        }),
    ensures
        mine.contains(way.skip(1)) <==> by_place::recorded(tree, pick, way) == Some(Keep::Whole),
{
    let child = tree.children[way[0] as int];
    let rest = way.skip(1);
    if picks::takes(pick, child) {
        if way.len() == 1 {
            assert(mine[0] == rest);
        } else if mine.contains(rest) {
            assert(mine[0] == rest);
        }
    } else if way.len() == 1 {
        assert(rest.len() == 0);
    }
}

/// A map that holds the places that `pick` takes beneath `node`, found at
/// `base`, keeps all at as many keys as there are places.
pub proof fn lemma_map_counted(
    map: Map<Seq<usize>, Keep>,
    node: Node,
    base: Seq<usize>,
    pick: PickModel,
)
    requires
        forall|key: Seq<usize>| #[trigger]
            keeping::lookup(map, key) == (if keeping::beneath(key, base) {
                by_place::recorded(node@, pick, key.skip(base.len() as int))
            } else {
                None
            }),
    ensures
        keeping::whole_keys(map).len() == by_place::places(node@, pick),
{
    let tree = node@;
    let list = ways(tree, pick);
    lemma_indexable(node);
    lemma_ways(tree, pick);
    by_place::lemma_found(tree, pick);
    assert(tree.children.take(tree.children.len() as int) =~= tree.children);
    lemma_ways_recorded(tree, pick, tree.children.len() as int);
    let keys = list.map_values(|way: Seq<usize>| base + way);
    assert forall|i: int, j: int| 0 <= i < keys.len() && 0 <= j < keys.len() && i != j implies keys[i]
        != keys[j] by {
        assert((base + list[i]).skip(base.len() as int) =~= list[i]);
        assert((base + list[j]).skip(base.len() as int) =~= list[j]);
    }
    assert forall|key: Seq<usize>|
        keys.to_set().contains(key) <==> #[trigger] keeping::whole_keys(map).contains(key) by {
        let held = keeping::lookup(map, key);
        assert(keeping::whole_keys(map).contains(key) <==> held == Some(Keep::Whole));
        if keys.contains(key) {
            let i = choose|i: int| 0 <= i < keys.len() && keys[i] == key;
            assert(list.contains(list[i]));
            assert(key.take(base.len() as int) =~= base);
            assert(key.skip(base.len() as int) =~= list[i]);
        }
        if held == Some(Keep::Whole) {
            let way = key.skip(base.len() as int);
            assert(list.contains(way));
            let i = choose|i: int| 0 <= i < list.len() && list[i] == way;
            assert(base + way =~= key);
            assert(keys[i] == key);
        }
    }
    assert(keys.to_set() =~= keeping::whole_keys(map));
    keys.unique_seq_to_set();
}

/// Every place that is kept whole is counted, and counted once: a match inside
/// a match is not counted again.
pub proof fn lemma_counted_once(
    outcome: Matches,
    node: Node,
    base: Seq<usize>,
    pick: PickModel,
)
    requires
        outcome.shows_places(node@, base, pick),
    ensures
        keeping::whole_keys(keeping::kept(outcome.keep)).len() == by_place::places(node@, pick),
{
    lemma_map_counted(keeping::kept(outcome.keep), node, base, pick);
}

} // verus!
