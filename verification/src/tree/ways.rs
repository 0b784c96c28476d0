//! Where crumbs lead, how deep a tree is, and what a search comes to first.

use vstd::prelude::*;

use crate::tree::laws;
use crate::tree::node;
use crate::tree::node::{Metric, NodeKind, Tree};
use crate::tree::search;
use crate::tree::totals;

verus! {

/// No crumbs lead to the tree itself, one to the child of that index, and more
/// from where the first lead.
pub proof fn lemma_one_step(tree: Tree, index: usize, rest: Seq<usize>)
    ensures
        node::at(tree, Seq::empty()) == Some(tree),
        node::at(tree, seq![index]) == (if index < tree.children.len() {
            Some(tree.children[index as int])
        } else {
            None
        }),
        node::at(tree, seq![index] + rest) == (if index < tree.children.len() {
            node::at(tree.children[index as int], rest)
        } else {
            None
        }),
{
    let first = seq![index];
    assert(first.drop_last() =~= Seq::empty());
    assert(node::at(tree, first.drop_last()) == Some(tree));
    assert(first.last() == index);
    node::lemma_at_joined(tree, first, rest);
}

/// A chain is what each start of the crumbs leads to, as far as they lead
/// anywhere, and its names are those of all but the first.
pub proof fn lemma_chain_is_the_way(tree: Tree, crumbs: Seq<usize>, step: int)
    requires
        0 <= step <= crumbs.len(),
        node::at(tree, crumbs) is Some,
    ensures
        node::chain(tree, crumbs).len() == crumbs.len() + 1,
        node::at(tree, crumbs.take(step)) == Some(node::chain(tree, crumbs)[step]),
        step > 0 ==> node::names_below(tree, crumbs)[step - 1] == node::at(
            tree,
            crumbs.take(step),
        )->0.name,
        node::names_below(tree, crumbs).len() == crumbs.len(),
    decreases crumbs.len(),
{
    node::lemma_chain(tree, crumbs);
    if step < crumbs.len() {
        let above = crumbs.drop_last();
        lemma_chain_is_the_way(tree, above, step);
        assert(above.take(step) =~= crumbs.take(step));
    } else {
        assert(crumbs.take(step) =~= crumbs);
    }
}

/// Something lies as deep as a tree is high, and nothing lies deeper.
pub proof fn lemma_deepest(tree: Tree) -> (crumbs: Seq<int>)
    ensures
        crumbs.len() == node::height(tree),
        lies_at(tree, crumbs),
    decreases tree, 1int,
{
    reveal_with_fuel(node::height, 2);
    reveal_with_fuel(node::levels, 2);
    assert(node::height(tree) == node::levels(tree.children));
    if tree.children.len() == 0 {
        Seq::empty()
    } else {
        let (index, rest) = lemma_deepest_among(tree.children);
        let crumbs = seq![index] + rest;
        assert(crumbs.skip(1) =~= rest);
        crumbs
    }
}

proof fn lemma_deepest_among(children: Seq<Tree>) -> (place: (int, Seq<int>))
    requires
        children.len() > 0,
    ensures
        0 <= place.0 < children.len(),
        place.1.len() + 1 == node::levels(children),
        lies_at(children[place.0], place.1),
    decreases children, 0int,
{
    let before = children.drop_last();
    let last = children.last();
    if node::levels(before) >= node::height(last) + 1 {
        lemma_deepest_among(before)
    } else {
        let rest = lemma_deepest(last);
        (children.len() - 1, rest)
    }
}

/// Whether something lies at `crumbs` beneath `tree`.
pub open spec fn lies_at(tree: Tree, crumbs: Seq<int>) -> bool
    decreases crumbs.len(),
{
    crumbs.len() == 0 || {
        &&& 0 <= crumbs[0] < tree.children.len()
        &&& lies_at(tree.children[crumbs[0]], crumbs.skip(1))
    }
}

/// Nothing lies deeper than a tree is high.
pub proof fn lemma_no_deeper_than_high(tree: Tree, crumbs: Seq<int>)
    requires
        lies_at(tree, crumbs),
    ensures
        crumbs.len() <= node::height(tree),
    decreases crumbs.len(),
{
    if crumbs.len() > 0 {
        lemma_no_deeper_than_high(tree.children[crumbs[0]], crumbs.skip(1));
        reveal_with_fuel(node::height, 2);
        assert(node::height(tree) == node::levels(tree.children));
        node::lemma_levels(tree.children, crumbs[0]);
    }
}

/// A search enters what lies beneath directories alone, itself included; so it
/// comes across whatever is directly in one of those, or in its root.
pub proof fn lemma_entered_through_directories(tree: Tree, crumbs: Seq<usize>)
    ensures
        search::entered(tree, crumbs) <==> forall|few: int|
            0 < few <= crumbs.len() ==> (#[trigger] node::at(tree, crumbs.take(few)) matches Some(
                found,
            ) && found.kind is Directory),
        crumbs.len() > 0 ==> (search::reached(tree, crumbs) <==> search::entered(
            tree,
            crumbs.drop_last(),
        ) && node::at(tree, crumbs) is Some),
        search::reached(tree, crumbs) ==> crumbs.len() > 0,
    decreases crumbs.len(),
{
    if crumbs.len() > 0 {
        let above = crumbs.drop_last();
        lemma_entered_through_directories(tree, above);
        assert(crumbs.take(crumbs.len() as int) =~= crumbs);
        assert forall|few: int| 0 <= few < crumbs.len() implies #[trigger] crumbs.take(few)
            == above.take(few) by {
            assert(crumbs.take(few) =~= above.take(few));
        }
        if search::entered(tree, crumbs) {
            assert forall|few: int| 0 < few <= crumbs.len() implies (#[trigger] node::at(
                tree,
                crumbs.take(few),
            ) matches Some(found) && found.kind is Directory) by {
                if few < crumbs.len() {
                    assert(crumbs.take(few) == above.take(few));
                }
            }
        }
        if forall|few: int|
            0 < few <= crumbs.len() ==> (#[trigger] node::at(tree, crumbs.take(few)) matches Some(
                found,
            ) && found.kind is Directory) {
            assert forall|few: int| 0 < few <= above.len() implies (#[trigger] node::at(
                tree,
                above.take(few),
            ) matches Some(found) && found.kind is Directory) by {
                assert(crumbs.take(few) == above.take(few));
                assert(node::at(tree, crumbs.take(few)) is Some);
            }
            assert(node::at(tree, crumbs.take(crumbs.len() as int)) is Some);
        }
    }
}

/// A search comes to what lies less deep first; of what lies as deep, to what
/// has the lower index where the ways part.
pub proof fn lemma_sooner(left: Seq<usize>, right: Seq<usize>)
    ensures
        left.len() < right.len() ==> search::sooner(left, right),
        left.len() > right.len() ==> !search::sooner(left, right),
        left.len() == right.len() ==> (search::sooner(left, right) <==> exists|k: int|
            0 <= k < left.len() && left.take(k) == right.take(k) && #[trigger] left[k]
                < #[trigger] right[k]),
    decreases left.len(),
{
    if left.len() == right.len() && left.len() > 0 {
        let (before, other) = (left.drop_last(), right.drop_last());
        lemma_sooner(before, other);
        let last = left.len() - 1;
        if search::left_of(left, right) {
            if search::left_of(before, other) {
                let k = choose|k: int|
                    0 <= k < before.len() && before.take(k) == other.take(k)
                        && #[trigger] before[k] < #[trigger] other[k];
                assert(left.take(k) =~= before.take(k));
                assert(right.take(k) =~= other.take(k));
                assert(left[k] < right[k]);
            } else {
                assert(left.take(last) =~= before);
                assert(right.take(last) =~= other);
                assert(left[last] < right[last]);
            }
        }
        if exists|k: int|
            0 <= k < left.len() && left.take(k) == right.take(k) && #[trigger] left[k]
                < #[trigger] right[k] {
            let k = choose|k: int|
                0 <= k < left.len() && left.take(k) == right.take(k) && #[trigger] left[k]
                    < #[trigger] right[k];
            if k < last {
                assert(before.take(k) =~= left.take(k));
                assert(other.take(k) =~= right.take(k));
                assert(before[k] < other[k]);
            } else {
                assert(before =~= left.take(last));
                assert(other =~= right.take(last));
            }
        }
    }
}

/// What is made new has its figures worked out: a directory is empty and
/// counts itself, a leaf is what it holds, and only a file counts as one.
pub proof fn lemma_made_new(name: Seq<char>, kind: NodeKind, bytes: u64, metric: Metric)
    ensures
        ({
            let made = node::new_directory(name);
            &&& made.name == name
            &&& made.kind is Directory
            &&& made.bytes == 0 && made.files == 0 && made.dirs == 1
            &&& made.children.len() == 0
            &&& totals::aggregated(made, metric) == made
        }),
        ({
            let made = node::new_entry(name, kind, bytes);
            &&& made.name == name
            &&& made.kind == kind
            &&& made.bytes == bytes && made.dirs == 0
            &&& made.files == (if kind is File { 1int } else { 0 })
            &&& made.children.len() == 0
            &&& !(kind is Directory) ==> totals::aggregated(made, metric) == made
        }),
{
    let made = node::new_directory(name);
    totals::lemma_aggregated_directory(made, metric);
    totals::lemma_all_aggregated(made.children, metric);
    let none = totals::all_aggregated(made.children, metric);
    assert(none =~= Seq::empty());
    assert(totals::ranked(none, metric) =~= Seq::empty());
    assert(totals::sum(made.children) == totals::Totals::none());
    assert(totals::aggregated(made, metric).children =~= made.children);
}

/// Once a directory's figures are worked out, its largest child is one that no
/// other weighs more than; there is one unless it is empty.
pub proof fn lemma_largest_child(tree: Tree, metric: Metric, other: int)
    requires
        tree.kind is Directory,
        0 <= other < tree.children.len(),
    ensures
        ({
            let after = totals::aggregated(tree, metric);
            &&& node::largest(after) matches Some(index)
            &&& index < after.children.len()
            &&& metric is Bytes ==> after.children[index as int].bytes
                >= after.children[other].bytes
            &&& metric is Files ==> after.children[index as int].files
                >= after.children[other].files
        }),
        node::largest(node::new_directory(tree.name)) is None,
{
    laws::lemma_children_kept(tree, metric);
    laws::lemma_largest_first(tree, metric, 0, other);
}

} // verus!
