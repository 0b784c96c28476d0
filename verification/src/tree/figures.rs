//! What a tree's figures say of the leaves beneath it, once they are worked
//! out.

use vstd::prelude::*;
use vstd::utf8::encode_utf8;

use crate::sort;
use crate::text;
use crate::tree::ages;
use crate::tree::laws;
use crate::tree::node::{Metric, Tree};
use crate::tree::totals;

verus! {

/// `measure` of each of `trees`, added up.
pub open spec fn added(trees: Seq<Tree>, measure: spec_fn(Tree) -> int) -> int
    decreases trees.len(),
{
    if trees.len() == 0 {
        0
    } else {
        added(trees.drop_last(), measure) + measure(trees.last())
    }
}

/// What is added up of two is added up of both.
pub proof fn lemma_added_joined(left: Seq<Tree>, right: Seq<Tree>, measure: spec_fn(Tree) -> int)
    ensures
        added(left + right, measure) == added(left, measure) + added(right, measure),
    decreases right.len(),
{
    if right.len() == 0 {
        assert(left + right =~= left);
    } else {
        assert((left + right).drop_last() =~= left + right.drop_last());
        lemma_added_joined(left, right.drop_last(), measure);
    }
}

proof fn lemma_added_inserted(
    sorted: Seq<Tree>,
    item: Tree,
    leq: spec_fn(Tree, Tree) -> bool,
    measure: spec_fn(Tree) -> int,
)
    ensures
        added(sort::inserted(sorted, item, leq), measure) == added(sorted, measure) + measure(item),
    decreases sorted.len(),
{
    let after = sort::inserted(sorted, item, leq);
    if sorted.len() == 0 || leq(sorted.last(), item) {
        assert(after.drop_last() =~= sorted);
    } else {
        lemma_added_inserted(sorted.drop_last(), item, leq, measure);
        assert(after.drop_last() =~= sort::inserted(sorted.drop_last(), item, leq));
    }
}

proof fn lemma_added_ordered(
    trees: Seq<Tree>,
    leq: spec_fn(Tree, Tree) -> bool,
    measure: spec_fn(Tree) -> int,
)
    ensures
        added(sort::ordered(trees, leq), measure) == added(trees, measure),
    decreases trees.len(),
{
    if trees.len() > 0 {
        lemma_added_ordered(trees.drop_last(), leq, measure);
        lemma_added_inserted(
            sort::ordered(trees.drop_last(), leq),
            trees.last(),
            leq,
            measure,
        );
    }
}

/// Bytes of a tree.
pub open spec fn bytes() -> spec_fn(Tree) -> int {
    |tree: Tree| tree.bytes as int
}

/// Files of a tree.
pub open spec fn files() -> spec_fn(Tree) -> int {
    |tree: Tree| tree.files as int
}

/// Directories of a tree.
pub open spec fn dirs() -> spec_fn(Tree) -> int {
    |tree: Tree| tree.dirs as int
}

/// Bytes of a leaf, and none of a directory.
pub open spec fn leaf_bytes() -> spec_fn(Tree) -> int {
    |tree: Tree| if tree.kind is Directory { 0 } else { tree.bytes as int }
}

/// Files of a leaf, and none of a directory.
pub open spec fn leaf_files() -> spec_fn(Tree) -> int {
    |tree: Tree| if tree.kind is Directory { 0 } else { tree.files as int }
}

/// What a tree holds itself, in bytes.
pub open spec fn held_bytes() -> spec_fn(Tree) -> int {
    |tree: Tree| tree.own_bytes as int
}

/// What a tree holds itself, in files.
pub open spec fn held_files() -> spec_fn(Tree) -> int {
    |tree: Tree| tree.own_files as int
}

proof fn lemma_children_add_up(children: Seq<Tree>, metric: Metric)
    requires
        totals::sum(children).fit(),
    ensures
        ({
            let after = totals::all_aggregated(children, metric);
            &&& added(after, bytes()) == totals::sum(children).bytes
            &&& added(after, files()) == totals::sum(children).files
            &&& added(after, dirs()) == totals::sum(children).dirs
            &&& added(after, leaf_bytes()) == totals::direct(children).bytes
            &&& added(after, leaf_files()) == totals::direct(children).files
        }),
    decreases children.len(),
{
    if children.len() > 0 {
        let (before, last) = (children.drop_last(), children.last());
        lemma_children_add_up(before, metric);
        laws::lemma_fields_are_totals(last, metric);
        assert(totals::all_aggregated(children, metric).drop_last() =~= totals::all_aggregated(
            before,
            metric,
        ));
    }
}

/// Each figure of a directory is made of its children's: bytes and files are
/// those of all of them together, directories are these and itself, and what
/// is directly in it is what its leaves hold. A leaf amounts to what it holds
/// itself.
pub proof fn lemma_figures_add_up(tree: Tree, metric: Metric)
    requires
        totals::totals(tree).fit(),
    ensures
        ({
            let after = totals::aggregated(tree, metric);
            if tree.kind is Directory {
                &&& after.bytes == added(after.children, bytes())
                &&& after.files == added(after.children, files())
                &&& after.dirs == 1 + added(after.children, dirs())
                &&& after.own_bytes == added(after.children, leaf_bytes())
                &&& after.own_files == added(after.children, leaf_files())
            } else {
                &&& after.bytes == tree.own_bytes == after.own_bytes
                &&& after.files == tree.own_files == after.own_files
                &&& after.dirs == 0
                &&& after.modified == tree.modified
                &&& after.children == tree.children
            }
        }),
{
    if tree.kind is Directory {
        let worked = totals::all_aggregated(tree.children, metric);
        let ranking = totals::ranking(metric);
        totals::lemma_aggregated_directory(tree, metric);
        totals::lemma_direct(tree.children);
        lemma_children_add_up(tree.children, metric);
        lemma_added_ordered(worked, ranking, bytes());
        lemma_added_ordered(worked, ranking, files());
        lemma_added_ordered(worked, ranking, dirs());
        lemma_added_ordered(worked, ranking, leaf_bytes());
        lemma_added_ordered(worked, ranking, leaf_files());
    }
}

/// Working out a tree's figures changes nothing else of it, and keeps every
/// child, itself worked out, once.
pub proof fn lemma_only_figures_change(tree: Tree, metric: Metric)
    ensures
        ({
            let after = totals::aggregated(tree, metric);
            &&& after.name == tree.name
            &&& after.kind == tree.kind
            &&& after.inode == tree.inode
            &&& after.read_error == tree.read_error
            &&& after.category == tree.category
            &&& after.reclaim == tree.reclaim
            &&& tree.kind is Directory ==> after.children.to_multiset() == Seq::new(
                tree.children.len(),
                |i: int| totals::aggregated(tree.children[i], metric),
            ).to_multiset()
        }),
{
    if tree.kind is Directory {
        totals::lemma_aggregated_directory(tree, metric);
        totals::lemma_all_aggregated(tree.children, metric);
        laws::lemma_children_kept(tree, metric);
        assert(totals::all_aggregated(tree.children, metric) =~= Seq::new(
            tree.children.len(),
            |i: int| totals::aggregated(tree.children[i], metric),
        ));
    }
}

proof fn lemma_held_children(children: Seq<Tree>)
    ensures
        added(ages::all_leaves(children), held_bytes()) == totals::sum(children).bytes,
        added(ages::all_leaves(children), held_files()) == totals::sum(children).files,
    decreases children, 0int,
{
    if children.len() > 0 {
        let (before, last) = (children.drop_last(), children.last());
        lemma_held_children(before);
        lemma_held(last);
        lemma_added_joined(ages::all_leaves(before), ages::leaves(last), held_bytes());
        lemma_added_joined(ages::all_leaves(before), ages::leaves(last), held_files());
    }
}

proof fn lemma_held(tree: Tree)
    ensures
        added(ages::leaves(tree), held_bytes()) == totals::totals(tree).bytes,
        added(ages::leaves(tree), held_files()) == totals::totals(tree).files,
    decreases tree, 1int,
{
    if tree.kind is Directory {
        ages::lemma_leaves(tree);
        totals::lemma_aggregated_directory(tree, Metric::Bytes);
        lemma_held_children(tree.children);
    } else {
        let alone = seq![tree];
        assert(alone.drop_last() =~= Seq::empty());
        assert(added(alone.drop_last(), held_bytes()) == 0);
        assert(added(alone.drop_last(), held_files()) == 0);
        assert(alone.last() == tree);
    }
}

/// However deep they lie, the leaves of a tree hold all its bytes and all its
/// files between them.
pub proof fn lemma_leaves_make_it_up(tree: Tree, metric: Metric)
    requires
        totals::totals(tree).fit(),
    ensures
        totals::aggregated(tree, metric).bytes == added(ages::leaves(tree), held_bytes()),
        totals::aggregated(tree, metric).files == added(ages::leaves(tree), held_files()),
{
    lemma_held(tree);
    laws::lemma_fields_are_totals(tree, metric);
}

/// Whether `seconds` is later than 1980-01-02 and not npm's stamp.
pub open spec fn dated(seconds: i64) -> bool {
    seconds > 315_619_200 && seconds != 499_162_500
}

/// The Unix epoch, zip's epoch and npm's stamp say nothing of when a file was
/// written, nor does any time before them; all later times but that stamp do.
pub proof fn lemma_placeholder_times(seconds: i64)
    ensures
        seconds <= 315_619_200 ==> !totals::tells_time(seconds),
        seconds == 499_162_500 ==> !totals::tells_time(seconds),
        315_619_200 < seconds < 499_162_500 ==> totals::tells_time(seconds),
        499_162_500 < seconds ==> totals::tells_time(seconds),
        totals::tells_time(seconds) == dated(seconds),
{
}

/// Whether `newest` is the latest of the times among `trees` that say when; 0
/// where none does.
pub open spec fn latest(trees: Seq<Tree>, newest: i64) -> bool {
    &&& forall|i: int|
        0 <= i < trees.len() && dated((#[trigger] trees[i]).modified) ==> trees[i].modified
            <= newest
    &&& newest == 0 || exists|i: int|
        0 <= i < trees.len() && (#[trigger] trees[i]).modified == newest && dated(newest)
}

proof fn lemma_newest_child(children: Seq<Tree>, metric: Metric)
    ensures
        latest(
            ages::all_leaves(children),
            totals::newest(totals::all_aggregated(children, metric)),
        ),
    decreases children, 0int,
{
    if children.len() > 0 {
        let (before, last) = (children.drop_last(), children.last());
        let worked = totals::all_aggregated(children, metric);
        lemma_newest_child(before, metric);
        assert(worked.drop_last() =~= totals::all_aggregated(before, metric));
        let (above, beneath) = (ages::all_leaves(before), ages::leaves(last));
        let all = above + beneath;
        let earlier = totals::newest(worked.drop_last());
        let own = totals::aggregated(last, metric).modified;
        let newest = totals::newest(worked);
        assert(ages::all_leaves(children) == all);
        assert(worked.last() == totals::aggregated(last, metric));
        if last.kind is Directory {
            lemma_newest_write(last, metric);
        } else {
            assert(own == last.modified);
            assert(beneath == seq![last]);
        }
        assert forall|i: int|
            0 <= i < all.len() && dated((#[trigger] all[i]).modified) implies all[i].modified
            <= newest by {
            if i < above.len() {
                assert(above[i] == all[i]);
            } else {
                assert(beneath[i - above.len()] == all[i]);
            }
        }
        if newest != 0 {
            if newest == earlier {
                let i = choose|i: int|
                    0 <= i < above.len() && (#[trigger] above[i]).modified == earlier;
                assert(all[i] == above[i]);
            } else {
                assert(newest == own);
                if last.kind is Directory {
                    let i = choose|i: int|
                        0 <= i < beneath.len() && (#[trigger] beneath[i]).modified == own;
                    assert(all[above.len() + i] == beneath[i]);
                } else {
                    assert(all[above.len() as int] == last);
                }
            }
        }
    }
}

/// A directory was last written when the latest of the leaves beneath it was,
/// at whatever depth, of those that say when; and it does not say where none
/// of them does.
pub proof fn lemma_newest_write(tree: Tree, metric: Metric)
    requires
        tree.kind is Directory,
    ensures
        latest(ages::leaves(tree), totals::aggregated(tree, metric).modified),
    decreases tree, 1int,
{
    ages::lemma_leaves(tree);
    totals::lemma_aggregated_directory(tree, metric);
    lemma_newest_child(tree.children, metric);
}

/// Of two children that weigh as much the one whose name comes first stands
/// first; by bytes a tree weighs its bytes, by files its files.
pub proof fn lemma_ties_by_name(tree: Tree, metric: Metric, left: int, right: int)
    requires
        tree.kind is Directory,
        0 <= left < right < totals::aggregated(tree, metric).children.len(),
    ensures
        ({
            let children = totals::aggregated(tree, metric).children;
            let (first, second) = (children[left], children[right]);
            &&& metric is Bytes ==> first.bytes >= second.bytes
            &&& metric is Files ==> first.files >= second.files
            &&& (if metric is Bytes {
                first.bytes == second.bytes
            } else {
                first.files == second.files
            }) ==> text::precedes(encode_utf8(first.name), encode_utf8(second.name))
        }),
{
    totals::lemma_aggregated_directory(tree, metric);
    totals::lemma_ranking(metric);
    let children = totals::aggregated(tree, metric).children;
    sort::lemma_ordered(totals::all_aggregated(tree.children, metric), totals::ranking(metric));
    assert(totals::ranking(metric)(children[left], children[right]));
}

/// Whether `crumbs` lead from `tree` through directories to `leaf`, which is
/// none.
pub open spec fn leads_to(tree: Tree, crumbs: Seq<int>, leaf: Tree) -> bool
    decreases crumbs.len(),
{
    if crumbs.len() == 0 {
        tree == leaf && !(leaf.kind is Directory)
    } else {
        &&& tree.kind is Directory
        &&& 0 <= crumbs[0] < tree.children.len()
        &&& leads_to(tree.children[crumbs[0]], crumbs.skip(1), leaf)
    }
}

proof fn lemma_leaf_of_child(children: Seq<Tree>, index: int, leaf: Tree)
    requires
        0 <= index < children.len(),
        ages::leaves(children[index]).contains(leaf),
    ensures
        ages::all_leaves(children).contains(leaf),
    decreases children.len(),
{
    let (before, last) = (ages::all_leaves(children.drop_last()), ages::leaves(children.last()));
    if index < children.len() - 1 {
        lemma_leaf_of_child(children.drop_last(), index, leaf);
        let i = choose|i: int| 0 <= i < before.len() && before[i] == leaf;
        assert((before + last)[i] == leaf);
    } else {
        let i = choose|i: int| 0 <= i < last.len() && last[i] == leaf;
        assert((before + last)[before.len() + i] == leaf);
    }
}

/// Whatever is no directory and can be reached through directories is a leaf.
pub proof fn lemma_reached_is_leaf(tree: Tree, crumbs: Seq<int>, leaf: Tree)
    requires
        leads_to(tree, crumbs, leaf),
    ensures
        ages::leaves(tree).contains(leaf),
    decreases crumbs.len(),
{
    if crumbs.len() == 0 {
        assert(ages::leaves(tree)[0] == leaf);
    } else {
        lemma_reached_is_leaf(tree.children[crumbs[0]], crumbs.skip(1), leaf);
        ages::lemma_leaves(tree);
        lemma_leaf_of_child(tree.children, crumbs[0], leaf);
    }
}

proof fn lemma_leaf_among(children: Seq<Tree>, leaf: Tree) -> (place: (int, Seq<int>))
    requires
        ages::all_leaves(children).contains(leaf),
    ensures
        0 <= place.0 < children.len(),
        leads_to(children[place.0], place.1, leaf),
    decreases children, 0int,
{
    let (before, last) = (ages::all_leaves(children.drop_last()), ages::leaves(children.last()));
    let all = ages::all_leaves(children);
    let i = choose|i: int| 0 <= i < all.len() && all[i] == leaf;
    if i < before.len() {
        assert(before[i] == leaf);
        lemma_leaf_among(children.drop_last(), leaf)
    } else {
        assert(last[i - before.len()] == leaf);
        let crumbs = lemma_leaf_is_reached(children.last(), leaf);
        (children.len() - 1, crumbs)
    }
}

/// Every leaf can be reached through directories, and is none.
pub proof fn lemma_leaf_is_reached(tree: Tree, leaf: Tree) -> (crumbs: Seq<int>)
    requires
        ages::leaves(tree).contains(leaf),
    ensures
        leads_to(tree, crumbs, leaf),
    decreases tree, 1int,
{
    if tree.kind is Directory {
        ages::lemma_leaves(tree);
        let (index, rest) = lemma_leaf_among(tree.children, leaf);
        let crumbs = seq![index] + rest;
        assert(crumbs.skip(1) =~= rest);
        crumbs
    } else {
        assert(leaf == tree);
        Seq::empty()
    }
}

} // verus!
