//! What holds of every tree once its totals are worked out.

use vstd::prelude::*;

use crate::sort;
use crate::tree::ages;
use crate::tree::node;
use crate::tree::node::{Metric, Tree};
use crate::tree::totals;
use crate::tree::totals::Totals;

verus! {

/// What the directories among `children` amount to.
pub open spec fn nested(children: Seq<Tree>) -> Totals
    decreases children.len(),
{
    if children.len() == 0 {
        Totals::none()
    } else {
        let before = nested(children.drop_last());
        if children.last().kind is Directory {
            before.and(totals::totals(children.last()))
        } else {
            before
        }
    }
}

proof fn lemma_direct_and_nested(children: Seq<Tree>)
    ensures
        totals::sum(children) == totals::direct(children).and(nested(children)),
    decreases children.len(),
{
    if children.len() > 0 {
        lemma_direct_and_nested(children.drop_last());
    }
}

proof fn lemma_inserted_totals(
    sorted: Seq<Tree>,
    item: Tree,
    leq: spec_fn(Tree, Tree) -> bool,
)
    ensures
        ({
            let before = sorted.push(item);
            let after = sort::inserted(sorted, item, leq);
            &&& totals::sum(after) == totals::sum(before)
            &&& totals::direct(after) == totals::direct(before)
            &&& totals::newest(after) == totals::newest(before)
        }),
    decreases sorted.len(),
{
    let before = sorted.push(item);
    let after = sort::inserted(sorted, item, leq);
    assert(before.drop_last() =~= sorted);
    if !(sorted.len() == 0 || leq(sorted.last(), item)) {
        let shorter = sorted.drop_last();
        lemma_inserted_totals(shorter, item, leq);
        assert(after.drop_last() =~= sort::inserted(shorter, item, leq));
        assert(shorter.push(item).drop_last() =~= shorter);
        assert(totals::sum(sorted) == totals::sum(shorter).and(totals::totals(sorted.last())));
        assert(totals::direct(sorted) == if sorted.last().kind is Directory {
            totals::direct(shorter)
        } else {
            totals::direct(shorter).and(totals::totals(sorted.last()))
        });
        assert(totals::direct(shorter.push(item)) == if item.kind is Directory {
            totals::direct(shorter)
        } else {
            totals::direct(shorter).and(totals::totals(item))
        });
        assert(totals::newest(sorted) >= totals::newest(shorter));
        assert(totals::sum(before) == totals::sum(after));
    }
}

/// Order changes no totals.
pub proof fn lemma_ordered_totals(children: Seq<Tree>, leq: spec_fn(Tree, Tree) -> bool)
    ensures
        totals::sum(sort::ordered(children, leq)) == totals::sum(children),
        totals::direct(sort::ordered(children, leq)) == totals::direct(children),
        totals::newest(sort::ordered(children, leq)) == totals::newest(children),
    decreases children.len(),
{
    if children.len() > 0 {
        let before = children.drop_last();
        let sorted = sort::ordered(before, leq);
        lemma_ordered_totals(before, leq);
        lemma_inserted_totals(sorted, children.last(), leq);
        assert(sorted.push(children.last()).drop_last() =~= sorted);
    }
}

proof fn lemma_all_aggregated_totals(children: Seq<Tree>, metric: Metric)
    ensures
        totals::sum(totals::all_aggregated(children, metric)) == totals::sum(children),
        totals::direct(totals::all_aggregated(children, metric)) == totals::direct(children),
    decreases children, 0int,
{
    if children.len() > 0 {
        lemma_all_aggregated_totals(children.drop_last(), metric);
        lemma_totals_kept(children.last(), metric);
        assert(totals::all_aggregated(children, metric).drop_last() =~= totals::all_aggregated(
            children.drop_last(),
            metric,
        ));
    }
}

/// Working out the totals of a tree changes none of them: what its leaves
/// amount to is the same before and after.
pub proof fn lemma_totals_kept(tree: Tree, metric: Metric)
    ensures
        totals::totals(totals::aggregated(tree, metric)) == totals::totals(tree),
    decreases tree, 1int,
{
    if tree.kind is Directory {
        totals::lemma_aggregated_directory(tree, metric);
        let after = totals::aggregated(tree, metric);
        totals::lemma_aggregated_directory(after, metric);
        lemma_all_aggregated_totals(tree.children, metric);
        lemma_ordered_totals(
            totals::all_aggregated(tree.children, metric),
            totals::ranking(metric),
        );
    }
}

/// What is directly in a directory amounts to the same before and after.
pub proof fn lemma_direct_kept(tree: Tree, metric: Metric)
    requires
        tree.kind is Directory,
    ensures
        totals::direct(totals::aggregated(tree, metric).children) == totals::direct(tree.children),
{
    totals::lemma_aggregated_directory(tree, metric);
    lemma_all_aggregated_totals(tree.children, metric);
    lemma_ordered_totals(totals::all_aggregated(tree.children, metric), totals::ranking(metric));
}

/// A tree's fields say what it amounts to, once its totals are worked out;
/// what is directly in a directory and what is in the directories beneath it
/// make up all of it.
pub proof fn lemma_fields_are_totals(tree: Tree, metric: Metric)
    requires
        totals::totals(tree).fit(),
    ensures
        ({
            let after = totals::aggregated(tree, metric);
            let all = totals::totals(tree);
            &&& after.bytes == all.bytes
            &&& after.files == all.files
            &&& after.dirs == all.dirs
            &&& tree.kind is Directory ==> {
                &&& after.bytes == after.own_bytes + nested(tree.children).bytes
                &&& after.files == after.own_files + nested(tree.children).files
            }
            &&& !(tree.kind is Directory) ==> after.bytes == after.own_bytes && after.files
                == after.own_files
        }),
{
    if tree.kind is Directory {
        totals::lemma_aggregated_directory(tree, metric);
        totals::lemma_direct(tree.children);
        lemma_direct_and_nested(tree.children);
    }
}

/// The metric only orders: every figure is the same whichever it is.
pub proof fn lemma_metric_only_orders(tree: Tree, metric: Metric)
    ensures
        (Tree { children: Seq::empty(), ..totals::aggregated(tree, metric) }) == (Tree {
            children: Seq::empty(),
            ..totals::aggregated(tree, metric.other())
        }),
    decreases tree, 1int,
{
    if tree.kind is Directory {
        totals::lemma_aggregated_directory(tree, metric);
        totals::lemma_aggregated_directory(tree, metric.other());
        lemma_newest_either_way(tree.children, metric);
    }
}

proof fn lemma_newest_either_way(children: Seq<Tree>, metric: Metric)
    ensures
        totals::newest(totals::all_aggregated(children, metric)) == totals::newest(
            totals::all_aggregated(children, metric.other()),
        ),
    decreases children, 0int,
{
    if children.len() > 0 {
        lemma_newest_either_way(children.drop_last(), metric);
        lemma_metric_only_orders(children.last(), metric);
        assert(totals::all_aggregated(children, metric).drop_last() =~= totals::all_aggregated(
            children.drop_last(),
            metric,
        ));
        assert(totals::all_aggregated(children, metric.other()).drop_last()
            =~= totals::all_aggregated(children.drop_last(), metric.other()));
        assert((Tree {
            children: Seq::empty(),
            ..totals::aggregated(children.last(), metric)
        }).modified == (Tree {
            children: Seq::empty(),
            ..totals::aggregated(children.last(), metric.other())
        }).modified);
    }
}

/// Children stand largest first, so the first is the largest.
pub proof fn lemma_largest_first(tree: Tree, metric: Metric, left: int, right: int)
    requires
        tree.kind is Directory,
        0 <= left <= right < totals::aggregated(tree, metric).children.len(),
    ensures
        ({
            let children = totals::aggregated(tree, metric).children;
            node::weight(children[left], metric) >= node::weight(children[right], metric)
        }),
{
    totals::lemma_aggregated_directory(tree, metric);
    totals::lemma_ranking(metric);
    let children = totals::aggregated(tree, metric).children;
    sort::lemma_ordered(totals::all_aggregated(tree.children, metric), totals::ranking(metric));
    if left < right {
        assert(totals::ranking(metric)(children[left], children[right]));
    }
}

/// Every child is still there, itself worked out, and nothing else is.
pub proof fn lemma_children_kept(tree: Tree, metric: Metric)
    requires
        tree.kind is Directory,
    ensures
        totals::aggregated(tree, metric).children.to_multiset() == totals::all_aggregated(
            tree.children,
            metric,
        ).to_multiset(),
        totals::aggregated(tree, metric).children.len() == tree.children.len(),
{
    totals::lemma_aggregated_directory(tree, metric);
    totals::lemma_ranking(metric);
    totals::lemma_all_aggregated(tree.children, metric);
    sort::lemma_ordered(totals::all_aggregated(tree.children, metric), totals::ranking(metric));
}

proof fn lemma_all_settled(children: Seq<Tree>, metric: Metric)
    requires
        forall|i: int|
            0 <= i < children.len() ==> totals::aggregated(#[trigger] children[i], metric)
                == children[i],
    ensures
        totals::all_aggregated(children, metric) == children,
{
    totals::lemma_all_aggregated(children, metric);
    assert(totals::all_aggregated(children, metric) =~= children);
}

/// Working the totals out again changes nothing.
pub proof fn lemma_aggregated_twice(tree: Tree, metric: Metric)
    ensures
        totals::aggregated(totals::aggregated(tree, metric), metric) == totals::aggregated(
            tree,
            metric,
        ),
    decreases tree,
{
    if tree.kind is Directory {
        let worked = totals::all_aggregated(tree.children, metric);
        let after = totals::aggregated(tree, metric);
        totals::lemma_aggregated_directory(tree, metric);
        totals::lemma_aggregated_directory(after, metric);
        totals::lemma_all_aggregated(tree.children, metric);
        totals::lemma_ranking(metric);
        sort::lemma_ordered(worked, totals::ranking(metric));
        assert forall|i: int| 0 <= i < worked.len() implies totals::aggregated(
            #[trigger] worked[i],
            metric,
        ) == worked[i] by {
            lemma_aggregated_twice(tree.children[i], metric);
        }
        assert forall|i: int| 0 <= i < after.children.len() implies totals::aggregated(
            #[trigger] after.children[i],
            metric,
        ) == after.children[i] by {
            broadcast use vstd::seq_lib::group_to_multiset_ensures;

            assert(after.children.contains(after.children[i]));
            assert(after.children.to_multiset().count(after.children[i]) > 0);
            assert(worked.contains(after.children[i]));
        }
        lemma_all_settled(after.children, metric);
        sort::lemma_ordered_keeps(after.children, totals::ranking(metric));
        lemma_ordered_totals(worked, totals::ranking(metric));
        lemma_all_aggregated_totals(tree.children, metric);
        lemma_totals_kept(tree, metric);
    }
}

/// The children of a directory whose totals are worked out have their own
/// worked out too.
pub proof fn lemma_children_settled(tree: Tree, metric: Metric)
    requires
        tree.kind is Directory,
        totals::aggregated(tree, metric) == tree,
    ensures
        forall|i: int|
            0 <= i < tree.children.len() ==> totals::aggregated(#[trigger] tree.children[i], metric)
                == tree.children[i],
{
    let worked = totals::all_aggregated(tree.children, metric);
    totals::lemma_aggregated_directory(tree, metric);
    totals::lemma_all_aggregated(tree.children, metric);
    totals::lemma_ranking(metric);
    sort::lemma_ordered(worked, totals::ranking(metric));
    assert forall|i: int| 0 <= i < tree.children.len() implies totals::aggregated(
        #[trigger] tree.children[i],
        metric,
    ) == tree.children[i] by {
        let child = tree.children[i];
        assert(worked.contains(child)) by {
            broadcast use vstd::seq_lib::group_to_multiset_ensures;

            assert(tree.children.contains(child));
            assert(tree.children.to_multiset().count(child) > 0);
        }
        let index = choose|index: int| 0 <= index < worked.len() && worked[index] == child;
        lemma_aggregated_twice(tree.children[index], metric);
    }
}

/// Whatever lies beneath a tree whose totals are worked out has its own
/// worked out too.
pub proof fn lemma_beneath_aggregated(tree: Tree, metric: Metric, crumbs: Seq<usize>)
    requires
        totals::aggregated(tree, metric) == tree,
        node::at(tree, crumbs) is Some,
        forall|few: int|
            0 <= few < crumbs.len() ==> (#[trigger] node::at(tree, crumbs.take(few)))->0.kind
                is Directory,
    ensures
        totals::aggregated(node::at(tree, crumbs)->0, metric) == node::at(tree, crumbs)->0,
    decreases crumbs.len(),
{
    if crumbs.len() > 0 {
        let above = crumbs.drop_last();
        assert(above =~= crumbs.take(crumbs.len() - 1));
        assert forall|few: int| 0 <= few < above.len() implies (#[trigger] node::at(
            tree,
            above.take(few),
        ))->0.kind is Directory by {
            assert(above.take(few) =~= crumbs.take(few));
        }
        lemma_beneath_aggregated(tree, metric, above);
        let parent = node::at(tree, above)->0;
        lemma_children_settled(parent, metric);
    }
}

/// Bytes of `files`.
pub open spec fn bytes_of(files: Seq<Tree>) -> nat
    decreases files.len(),
{
    if files.len() == 0 {
        0
    } else {
        files[0].bytes as nat + bytes_of(files.skip(1))
    }
}

proof fn lemma_bytes_of(left: Seq<Tree>, right: Seq<Tree>)
    ensures
        bytes_of(left + right) == bytes_of(left) + bytes_of(right),
    decreases left.len(),
{
    if left.len() == 0 {
        assert(left + right =~= right);
    } else {
        lemma_bytes_of(left.skip(1), right);
        assert((left + right).skip(1) =~= left.skip(1) + right);
    }
}

/// The leaves of a tree whose totals are worked out hold all its bytes.
pub proof fn lemma_leaves_hold_all(tree: Tree, metric: Metric)
    requires
        totals::aggregated(tree, metric) == tree,
    ensures
        bytes_of(ages::leaves(tree)) == totals::totals(tree).bytes,
    decreases tree, 1int,
{
    if tree.kind is Directory {
        lemma_children_settled(tree, metric);
        ages::lemma_leaves(tree);
        totals::lemma_aggregated_directory(tree, metric);
        lemma_all_leaves_hold(tree.children, metric);
    } else {
        reveal_with_fuel(bytes_of, 2);
        assert(ages::leaves(tree).skip(1) =~= Seq::empty());
    }
}

proof fn lemma_all_leaves_hold(children: Seq<Tree>, metric: Metric)
    requires
        forall|i: int|
            0 <= i < children.len() ==> totals::aggregated(#[trigger] children[i], metric)
                == children[i],
    ensures
        bytes_of(ages::all_leaves(children)) == totals::sum(children).bytes,
    decreases children, 0int,
{
    if children.len() > 0 {
        let shorter = children.drop_last();
        assert forall|i: int| 0 <= i < shorter.len() implies totals::aggregated(
            #[trigger] shorter[i],
            metric,
        ) == shorter[i] by {
            assert(children[i] == shorter[i]);
        }
        assert(children[children.len() - 1] == children.last());
        lemma_all_leaves_hold(shorter, metric);
        lemma_leaves_hold_all(children.last(), metric);
        lemma_bytes_of(ages::all_leaves(shorter), ages::leaves(children.last()));
    }
}

proof fn lemma_dated_within(files: Seq<Tree>, now: i64, limits: Seq<i64>, band: int)
    ensures
        ages::band_bytes(files, now, limits, band) <= ages::dated_bytes(files) <= bytes_of(files),
    decreases files.len(),
{
    if files.len() > 0 {
        lemma_dated_within(files.skip(1), now, limits, band);
    }
}

/// No band of an age profile holds more than the tree, once its totals are
/// worked out: so one can be made of every tree whose totals fit, whatever the
/// bands, and added up.
pub proof fn lemma_bands_within(
    tree: Tree,
    metric: Metric,
    now: i64,
    limits: Seq<i64>,
    band: int,
)
    requires
        totals::aggregated(tree, metric) == tree,
        totals::totals(tree).fit(),
    ensures
        ages::band_bytes(ages::leaves(tree), now, limits, band) <= tree.bytes,
        ages::dated_bytes(ages::leaves(tree)) <= tree.bytes,
{
    lemma_fields_are_totals(tree, metric);
    lemma_leaves_hold_all(tree, metric);
    lemma_dated_within(ages::leaves(tree), now, limits, band);
}

} // verus!
