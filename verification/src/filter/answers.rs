//! What each pick takes, told by what it is to find.

use vstd::prelude::*;
use vstd::utf8::encode_utf8;

use crate::classify::Category;
use crate::filter::by_file;
use crate::filter::by_place;
use crate::filter::keeping;
use crate::filter::keeping::Keep;
use crate::filter::outcome;
use crate::filter::picks;
use crate::filter::picks::{Found, PickModel, Query};
use crate::filter::sizes;
use crate::tree::ages;
use crate::tree::figures;
use crate::tree::node::{Metric, Tree};
use crate::tree::spans;

verus! {

/// A file is as old as asked if it says when it was written and that is at
/// least `after + 1` days ago and less than `through + 1`, in seconds; none
/// is younger than no days.
pub proof fn lemma_age_in_seconds(now: i64, after: i64, through: i64, tree: Tree)
    ensures
        picks::answers(Query::Age { now, after, through }, tree) <==> {
            &&& figures::dated(tree.modified)
            &&& after >= 0 ==> now - tree.modified >= (after + 1) * 86_400
            &&& through >= 0
            &&& now - tree.modified < (through + 1) * 86_400
        },
{
    spans::lemma_days_in_seconds(now, tree.modified);
    figures::lemma_placeholder_times(tree.modified);
    if after >= 0 {
        spans::lemma_days_within(now, tree.modified, after as int);
    }
    if through >= 0 {
        spans::lemma_days_within(now, tree.modified, through as int);
    }
}

/// Ages that meet end to end take what they take together: each file is in one
/// of them, and in no two.
pub proof fn lemma_ages_meet(now: i64, after: i64, middle: i64, through: i64, tree: Tree)
    requires
        after <= middle <= through,
    ensures
        ({
            let younger = picks::answers(Query::Age { now, after, through: middle }, tree);
            let older = picks::answers(Query::Age { now, after: middle, through }, tree);
            let either = picks::answers(Query::Age { now, after, through }, tree);
            &&& !(younger && older)
            &&& either == (younger || older)
        }),
{
}

/// A file is of its own kind and of no other; it can be had back if there is a
/// reason why.
pub proof fn lemma_kind_taken(category: Category, tree: Tree)
    ensures
        picks::answers(Query::Category(category), tree) <==> category == tree.category,
        picks::answers(Query::Reclaimable, tree) <==> tree.reclaim is Some,
{
}

/// Nothing but what is asked for decides: files that agree on it are taken or
/// left together.
pub proof fn lemma_asked_alone_decides(query: Query, left: Tree, right: Tree)
    requires
        match query {
            Query::Category(_) => left.category == right.category,
            Query::Reclaimable => left.reclaim == right.reclaim,
            Query::Age { .. } => left.modified == right.modified,
        },
    ensures
        picks::answers(query, left) == picks::answers(query, right),
{
}

/// Whether `byte`, made small if it is a capital ASCII letter, is `wanted`.
pub open spec fn reads_as(byte: u8, wanted: u8) -> bool {
    if 65 <= byte <= 90 {
        byte + 32 == wanted
    } else {
        byte == wanted
    }
}

/// A name holds a needle if a part of it, whatever comes before and after,
/// reads like it letter for letter, capitals taken for small letters.
pub proof fn lemma_needle_is_part(hay: Seq<u8>, needle: Seq<u8>)
    ensures
        picks::stands_in(hay, needle) <==> exists|before: Seq<u8>, part: Seq<u8>, after: Seq<u8>|
            {
                &&& hay == #[trigger] (before + part + after)
                &&& part.len() == needle.len()
                &&& forall|i: int| 0 <= i < part.len() ==> reads_as(#[trigger] part[i], needle[i])
            },
{
    if picks::stands_in(hay, needle) {
        let at = choose|at: int| #[trigger] picks::stands_at(hay, needle, at);
        let (before, part, after) = (
            hay.take(at),
            hay.subrange(at, at + needle.len()),
            hay.skip(at + needle.len()),
        );
        assert(hay =~= before + part + after);
        assert forall|i: int| 0 <= i < part.len() implies reads_as(
            #[trigger] part[i],
            needle[i],
        ) by {
            assert(part[i] == hay[at + i]);
            assert(picks::lower_byte(hay[at + i]) == needle[i]);
        }
        assert(hay == before + part + after);
    }
    if exists|before: Seq<u8>, part: Seq<u8>, after: Seq<u8>|
        {
            &&& hay == #[trigger] (before + part + after)
            &&& part.len() == needle.len()
            &&& forall|i: int| 0 <= i < part.len() ==> reads_as(#[trigger] part[i], needle[i])
        } {
        let (before, part, after) = choose|before: Seq<u8>, part: Seq<u8>, after: Seq<u8>|
            {
                &&& hay == #[trigger] (before + part + after)
                &&& part.len() == needle.len()
                &&& forall|i: int| 0 <= i < part.len() ==> reads_as(#[trigger] part[i], needle[i])
            };
        let at = before.len() as int;
        assert forall|i: int| 0 <= i < needle.len() implies picks::lower_byte(
            #[trigger] hay[at + i],
        ) == needle[i] by {
            assert(hay[at + i] == part[i]);
        }
        assert(picks::stands_at(hay, needle, at));
    }
}

/// A name is taken by what it holds, a query by what it asks.
pub proof fn lemma_pick_takes(needle: Seq<char>, query: Query, tree: Tree)
    ensures
        picks::takes(PickModel::Name(needle), tree) == picks::stands_in(
            encode_utf8(tree.name),
            encode_utf8(needle),
        ),
        picks::takes(PickModel::Query(query), tree) == picks::answers(query, tree),
{
}

/// Bytes of a leaf that `pick` takes.
pub open spec fn taken_bytes(pick: PickModel) -> spec_fn(Tree) -> int {
    |leaf: Tree| if picks::takes(pick, leaf) { leaf.bytes as int } else { 0 }
}

/// Files of a leaf that `pick` takes.
pub open spec fn taken_files(pick: PickModel) -> spec_fn(Tree) -> int {
    |leaf: Tree| if picks::takes(pick, leaf) { leaf.files as int } else { 0 }
}

proof fn lemma_taken_at(child: Tree, pick: PickModel)
    ensures
        by_file::judged_at(child, pick).part.bytes == figures::added(
            ages::leaves(child),
            taken_bytes(pick),
        ),
        by_file::judged_at(child, pick).part.files == figures::added(
            ages::leaves(child),
            taken_files(pick),
        ),
    decreases child, 1int,
{
    if child.kind is Directory {
        by_file::lemma_judged(child, pick);
        ages::lemma_leaves(child);
        lemma_taken_among(child.children, pick);
    } else {
        let alone = seq![child];
        assert(alone.drop_last() =~= Seq::empty());
        assert(figures::added(alone.drop_last(), taken_bytes(pick)) == 0);
        assert(figures::added(alone.drop_last(), taken_files(pick)) == 0);
        assert(alone.last() == child);
    }
}

proof fn lemma_taken_among(children: Seq<Tree>, pick: PickModel)
    ensures
        by_file::judged_among(children, pick).part.bytes == figures::added(
            ages::all_leaves(children),
            taken_bytes(pick),
        ),
        by_file::judged_among(children, pick).part.files == figures::added(
            ages::all_leaves(children),
            taken_files(pick),
        ),
    decreases children, 0int,
{
    if children.len() > 0 {
        let (before, last) = (children.drop_last(), children.last());
        lemma_taken_among(before, pick);
        lemma_taken_at(last, pick);
        figures::lemma_added_joined(
            ages::all_leaves(before),
            ages::leaves(last),
            taken_bytes(pick),
        );
        figures::lemma_added_joined(
            ages::all_leaves(before),
            ages::leaves(last),
            taken_files(pick),
        );
    }
}

/// What is found of a folder file by file is what the files taken hold, at
/// whatever depth, each counted once; some are found if one is taken.
pub proof fn lemma_part_is_taken_files(tree: Tree, pick: PickModel)
    requires
        tree.kind is Directory,
    ensures
        by_file::judged(tree, pick).part.bytes == figures::added(
            ages::leaves(tree),
            taken_bytes(pick),
        ),
        by_file::judged(tree, pick).part.files == figures::added(
            ages::leaves(tree),
            taken_files(pick),
        ),
{
    lemma_taken_at(tree, pick);
}

proof fn lemma_added_parts(
    leaves: Seq<Tree>,
    all: spec_fn(Tree) -> int,
    first: spec_fn(Tree) -> int,
    second: spec_fn(Tree) -> int,
)
    requires
        forall|leaf: Tree| #[trigger] all(leaf) == first(leaf) + second(leaf),
    ensures
        figures::added(leaves, all) == figures::added(leaves, first) + figures::added(
            leaves,
            second,
        ),
    decreases leaves.len(),
{
    if leaves.len() > 0 {
        lemma_added_parts(leaves.drop_last(), all, first, second);
    }
}

/// Ages that meet end to end hold together what the whole span holds.
pub proof fn lemma_ages_add_up(now: i64, after: i64, middle: i64, through: i64, tree: Tree)
    requires
        tree.kind is Directory,
        after <= middle <= through,
    ensures
        ({
            let younger = PickModel::Query(Query::Age { now, after, through: middle });
            let older = PickModel::Query(Query::Age { now, after: middle, through });
            let either = PickModel::Query(Query::Age { now, after, through });
            by_file::judged(tree, either).part == by_file::judged(tree, younger).part.and(
                by_file::judged(tree, older).part,
            )
        }),
{
    let younger = PickModel::Query(Query::Age { now, after, through: middle });
    let older = PickModel::Query(Query::Age { now, after: middle, through });
    let either = PickModel::Query(Query::Age { now, after, through });
    lemma_part_is_taken_files(tree, younger);
    lemma_part_is_taken_files(tree, older);
    lemma_part_is_taken_files(tree, either);
    let leaves = ages::leaves(tree);
    assert forall|leaf: Tree| #[trigger]
        taken_bytes(either)(leaf) == taken_bytes(younger)(leaf) + taken_bytes(older)(leaf) by {
        lemma_ages_meet(now, after, middle, through, leaf);
    }
    assert forall|leaf: Tree| #[trigger]
        taken_files(either)(leaf) == taken_files(younger)(leaf) + taken_files(older)(leaf) by {
        lemma_ages_meet(now, after, middle, through, leaf);
    }
    lemma_added_parts(leaves, taken_bytes(either), taken_bytes(younger), taken_bytes(older));
    lemma_added_parts(leaves, taken_files(either), taken_files(younger), taken_files(older));
}

/// What is found by place of `child`: all that it says it holds where it is
/// taken, and else what is found beneath it.
pub proof fn lemma_found_where_it_starts(child: Tree, pick: PickModel)
    ensures
        picks::takes(pick, child) ==> by_place::found_at(child, pick) == (Found {
            bytes: child.bytes as nat,
            files: child.files as nat,
        }),
        !picks::takes(pick, child) ==> by_place::found_at(child, pick) == by_place::found(
            child,
            pick,
        ),
        picks::takes(pick, child) ==> by_place::places_at(child, pick) == 1,
        !picks::takes(pick, child) ==> by_place::places_at(child, pick) == by_place::places(
            child,
            pick,
        ),
{
}

/// What is found by place of a node is what is found of each of its children.
pub proof fn lemma_found_of_each_child(tree: Tree, pick: PickModel)
    ensures
        by_place::found(tree, pick).bytes == figures::added(
            tree.children,
            |child: Tree| by_place::found_at(child, pick).bytes as int,
        ),
        by_place::found(tree, pick).files == figures::added(
            tree.children,
            |child: Tree| by_place::found_at(child, pick).files as int,
        ),
        by_place::places(tree, pick) == figures::added(
            tree.children,
            |child: Tree| by_place::places_at(child, pick) as int,
        ),
{
    by_place::lemma_found(tree, pick);
    lemma_found_of_each(tree.children, pick);
}

proof fn lemma_found_of_each(children: Seq<Tree>, pick: PickModel)
    ensures
        by_place::found_among(children, pick).bytes == figures::added(
            children,
            |child: Tree| by_place::found_at(child, pick).bytes as int,
        ),
        by_place::found_among(children, pick).files == figures::added(
            children,
            |child: Tree| by_place::found_at(child, pick).files as int,
        ),
        by_place::places_among(children, pick) == figures::added(
            children,
            |child: Tree| by_place::places_at(child, pick) as int,
        ),
    decreases children.len(),
{
    if children.len() > 0 {
        lemma_found_of_each(children.drop_last(), pick);
    }
}

/// Crumbs lead to a base or beneath it if they go on from it.
pub proof fn lemma_goes_on_from_base(crumbs: Seq<usize>, base: Seq<usize>)
    ensures
        outcome::from_base(crumbs, base) <==> exists|rest: Seq<usize>|
            crumbs == #[trigger] (base + rest),
        keeping::beneath(crumbs, base) <==> exists|rest: Seq<usize>|
            rest.len() > 0 && crumbs == #[trigger] (base + rest),
{
    let length = base.len() as int;
    if outcome::from_base(crumbs, base) {
        let rest = crumbs.skip(length);
        assert(crumbs =~= base + rest);
    }
    if keeping::beneath(crumbs, base) {
        let rest = crumbs.skip(length);
        assert(crumbs =~= base + rest);
        assert(rest.len() > 0 && crumbs == base + rest);
    }
    if exists|rest: Seq<usize>| crumbs == #[trigger] (base + rest) {
        let rest = choose|rest: Seq<usize>| crumbs == #[trigger] (base + rest);
        assert(crumbs.take(length) =~= base);
    }
}

/// A node is laid out by what it is drawn as: by its bytes or by its files.
pub proof fn lemma_laid_out_as_drawn(keep: Keep, tree: Tree, metric: Metric)
    ensures
        outcome::laid_out_by(keep, tree, metric) == match metric {
            Metric::Bytes => sizes::drawn(Some(keep), tree).bytes,
            Metric::Files => sizes::drawn(Some(keep), tree).files,
        },
        sizes::drawn(Some(Keep::Whole), tree) == (Found {
            bytes: tree.bytes as nat,
            files: tree.files as nat,
        }),
{
}

} // verus!
