//! That ordering a tree leaves no trace of the order it had.

use vstd::prelude::*;
use vstd::utf8::encode_utf8;

use crate::sort;
use crate::text;
use crate::tree::laws;
use crate::tree::node::{Metric, Tree};
use crate::tree::totals;

verus! {

/// Whether no two things in one directory of `tree` have the same name.
pub open spec fn distinct_names(tree: Tree) -> bool
    decreases tree,
{
    tree.kind is Directory ==> {
        &&& forall|i: int, j: int|
            0 <= i < j < tree.children.len() ==> (#[trigger] tree.children[i]).name != (
            #[trigger] tree.children[j]).name
        &&& forall|i: int|
            0 <= i < tree.children.len() ==> distinct_names(#[trigger] tree.children[i])
    }
}

proof fn lemma_inserted_mapped<T, U>(
    sorted: Seq<T>,
    item: T,
    leq: spec_fn(T, T) -> bool,
    map: spec_fn(T) -> U,
)
    ensures
        sort::inserted(sorted, item, leq).map_values(map).to_multiset() == sorted.map_values(
            map,
        ).to_multiset().insert(map(item)),
    decreases sorted.len(),
{
    broadcast use vstd::seq_lib::group_to_multiset_ensures;

    let after = sort::inserted(sorted, item, leq);
    if sorted.len() == 0 || leq(sorted.last(), item) {
        assert(after.map_values(map) =~= sorted.map_values(map).push(map(item)));
    } else {
        let before = sorted.drop_last();
        let last = map(sorted.last());
        lemma_inserted_mapped(before, item, leq, map);
        assert(after.map_values(map) =~= sort::inserted(before, item, leq).map_values(map).push(
            last,
        ));
        assert(sorted.map_values(map) =~= before.map_values(map).push(last));
        assert(before.map_values(map).to_multiset().insert(map(item)).insert(last)
            =~= before.map_values(map).to_multiset().insert(last).insert(map(item)));
    }
}

/// What is made of things one by one is the same things, whatever their order.
proof fn lemma_ordered_mapped<T, U>(
    items: Seq<T>,
    leq: spec_fn(T, T) -> bool,
    map: spec_fn(T) -> U,
)
    ensures
        sort::ordered(items, leq).map_values(map).to_multiset() == items.map_values(
            map,
        ).to_multiset(),
    decreases items.len(),
{
    broadcast use vstd::seq_lib::group_to_multiset_ensures;

    if items.len() == 0 {
        assert(sort::ordered(items, leq).map_values(map) =~= items.map_values(map));
    } else {
        let before = items.drop_last();
        lemma_ordered_mapped(before, leq, map);
        lemma_inserted_mapped(sort::ordered(before, leq), items.last(), leq, map);
        assert(items.map_values(map) =~= before.map_values(map).push(map(items.last())));
    }
}

/// Two orders of the same things are one, where no two different things tie.
proof fn lemma_one_order<T>(left: Seq<T>, right: Seq<T>, leq: spec_fn(T, T) -> bool)
    requires
        sort::in_order(left, leq),
        sort::in_order(right, leq),
        left.to_multiset() == right.to_multiset(),
        forall|i: int, j: int|
            0 <= i < left.len() && 0 <= j < left.len() && leq(
                #[trigger] left[i],
                #[trigger] left[j],
            ) && leq(left[j], left[i]) ==> left[i] == left[j],
    ensures
        left == right,
    decreases left.len(),
{
    broadcast use vstd::seq_lib::group_to_multiset_ensures;

    assert(left.to_multiset().len() == left.len());
    assert(right.to_multiset().len() == right.len());
    if left.len() == 0 {
        assert(left =~= right);
    } else {
        let (a, b) = (left.last(), right.last());
        assert(right.contains(a)) by {
            assert(left.contains(a));
            assert(right.to_multiset().count(a) > 0);
        }
        assert(left.contains(b)) by {
            assert(right.contains(b));
            assert(left.to_multiset().count(b) > 0);
        }
        let i = choose|i: int| 0 <= i < right.len() && right[i] == a;
        let j = choose|j: int| 0 <= j < left.len() && left[j] == b;
        let last = left.len() - 1;
        if i < last && j < last {
            assert(leq(right[i], right[last]));
            assert(leq(left[j], left[last]));
        }
        assert(a == b);
        let (shorter, other) = (left.drop_last(), right.drop_last());
        assert(shorter.push(a) =~= left);
        assert(other.push(b) =~= right);
        assert(shorter.to_multiset() =~= left.to_multiset().remove(a));
        assert(other.to_multiset() =~= right.to_multiset().remove(b));
        assert forall|x: int, y: int| 0 <= x < y < shorter.len() implies leq(
            #[trigger] shorter[x],
            #[trigger] shorter[y],
        ) by {
            assert(leq(left[x], left[y]));
        }
        assert forall|x: int, y: int| 0 <= x < y < other.len() implies leq(
            #[trigger] other[x],
            #[trigger] other[y],
        ) by {
            assert(leq(right[x], right[y]));
        }
        assert forall|x: int, y: int|
            0 <= x < shorter.len() && 0 <= y < shorter.len() && leq(
                #[trigger] shorter[x],
                #[trigger] shorter[y],
            ) && leq(shorter[y], shorter[x]) implies shorter[x] == shorter[y] by {
            assert(left[x] == shorter[x] && left[y] == shorter[y]);
        }
        lemma_one_order(shorter, other, leq);
    }
}

/// The same things of distinct names are ranked one way.
proof fn lemma_ranked_one_way(left: Seq<Tree>, right: Seq<Tree>, metric: Metric)
    requires
        left.to_multiset() == right.to_multiset(),
        forall|i: int, j: int|
            0 <= i < j < left.len() ==> (#[trigger] left[i]).name != (#[trigger] left[j]).name,
    ensures
        totals::ranked(left, metric) == totals::ranked(right, metric),
{
    broadcast use vstd::seq_lib::group_to_multiset_ensures;

    let ranking = totals::ranking(metric);
    let first = sort::ordered(left, ranking);
    totals::lemma_ranking(metric);
    sort::lemma_ordered(left, ranking);
    sort::lemma_ordered(right, ranking);
    assert forall|i: int, j: int|
        0 <= i < first.len() && 0 <= j < first.len() && ranking(
            #[trigger] first[i],
            #[trigger] first[j],
        ) && ranking(first[j], first[i]) implies first[i] == first[j] by {
        let (a, b) = (first[i], first[j]);
        text::lemma_precedes_total(encode_utf8(a.name), encode_utf8(b.name));
        text::lemma_bytes_are_text(a.name, b.name);
        assert(left.contains(a)) by {
            assert(first.contains(a));
            assert(first.to_multiset().count(a) > 0);
        }
        assert(left.contains(b)) by {
            assert(first.contains(b));
            assert(first.to_multiset().count(b) > 0);
        }
        let x = choose|x: int| 0 <= x < left.len() && left[x] == a;
        let y = choose|y: int| 0 <= y < left.len() && left[y] == b;
        if x < y {
            assert(left[x].name != left[y].name);
        } else if y < x {
            assert(left[y].name != left[x].name);
        }
    }
    lemma_one_order(first, sort::ordered(right, ranking), ranking);
}

/// An order that a tree had before leaves no trace: working out its totals by
/// one metric, whatever other was used before, comes to the same in every
/// field and place, where no two things in one directory have the same name.
pub proof fn lemma_no_trace(tree: Tree, first: Metric, second: Metric)
    requires
        distinct_names(tree),
    ensures
        totals::aggregated(totals::aggregated(tree, first), second) == totals::aggregated(
            tree,
            second,
        ),
    decreases tree,
{
    if tree.kind is Directory {
        let once = totals::aggregated(tree, first);
        let worked = totals::all_aggregated(tree.children, first);
        let direct = totals::all_aggregated(tree.children, second);
        let again = totals::all_aggregated(once.children, second);
        let map = |child: Tree| totals::aggregated(child, second);
        totals::lemma_aggregated_directory(tree, first);
        totals::lemma_aggregated_directory(tree, second);
        totals::lemma_aggregated_directory(once, second);
        totals::lemma_all_aggregated(tree.children, first);
        totals::lemma_all_aggregated(tree.children, second);
        totals::lemma_all_aggregated(once.children, second);
        assert forall|i: int| 0 <= i < tree.children.len() implies worked.map_values(map)[i]
            == #[trigger] direct[i] by {
            lemma_no_trace(tree.children[i], first, second);
        }
        assert(worked.map_values(map) =~= direct);
        assert(once.children.map_values(map) =~= again);
        lemma_ordered_mapped(worked, totals::ranking(first), map);
        assert forall|i: int, j: int| 0 <= i < j < direct.len() implies (
        #[trigger] direct[i]).name != (#[trigger] direct[j]).name by {
            assert(direct[i].name == tree.children[i].name);
            assert(direct[j].name == tree.children[j].name);
        }
        lemma_ranked_one_way(direct, again, second);
        laws::lemma_ordered_totals(direct, totals::ranking(second));
        laws::lemma_ordered_totals(again, totals::ranking(second));
        laws::lemma_totals_kept(tree, first);
        laws::lemma_direct_kept(tree, first);
    }
}

} // verus!
