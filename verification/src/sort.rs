//! Putting things in order, those that tie in the order they came.

use vstd::prelude::*;

verus! {

/// Whether `leq` puts any two things in some order, and consistently.
pub open spec fn orders<T>(leq: spec_fn(T, T) -> bool) -> bool {
    &&& forall|left: T, right: T| #[trigger] leq(left, right) || leq(right, left)
    &&& forall|first: T, second: T, third: T|
        #[trigger] leq(first, second) && #[trigger] leq(second, third) ==> leq(first, third)
}

/// `sorted` with `item` behind the last thing that does not come after it.
pub open spec fn inserted<T>(sorted: Seq<T>, item: T, leq: spec_fn(T, T) -> bool) -> Seq<T>
    decreases sorted.len(),
{
    if sorted.len() == 0 || leq(sorted.last(), item) {
        sorted.push(item)
    } else {
        inserted(sorted.drop_last(), item, leq).push(sorted.last())
    }
}

/// `items` in order, those that tie in the order they came.
pub open spec fn ordered<T>(items: Seq<T>, leq: spec_fn(T, T) -> bool) -> Seq<T>
    decreases items.len(),
{
    if items.len() == 0 {
        Seq::empty()
    } else {
        inserted(ordered(items.drop_last(), leq), items.last(), leq)
    }
}

/// Whether each of `items` may stand before all that follow it.
pub open spec fn in_order<T>(items: Seq<T>, leq: spec_fn(T, T) -> bool) -> bool {
    forall|i: int, j: int| 0 <= i < j < items.len() ==> leq(#[trigger] items[i], #[trigger] items[j])
}

/// Two sequences in order as one, the left one first among what ties.
spec fn merged<T>(left: Seq<T>, right: Seq<T>, leq: spec_fn(T, T) -> bool) -> Seq<T>
    decreases left.len() + right.len(),
{
    if left.len() == 0 {
        right
    } else if right.len() == 0 {
        left
    } else if leq(left.last(), right.last()) {
        merged(left, right.drop_last(), leq).push(right.last())
    } else {
        merged(left.drop_last(), right, leq).push(left.last())
    }
}

proof fn lemma_merged_insert<T>(
    left: Seq<T>,
    right: Seq<T>,
    item: T,
    leq: spec_fn(T, T) -> bool,
)
    requires
        orders(leq),
    ensures
        merged(left, inserted(right, item, leq), leq) == inserted(
            merged(left, right, leq),
            item,
            leq,
        ),
    decreases left.len() + right.len(),
{
    let after = inserted(right, item, leq);
    let both = merged(left, right, leq);
    assert(after.len() > 0);
    if left.len() == 0 {
    } else if right.len() == 0 {
        assert(after =~= seq![item]);
        assert(after.drop_last() =~= Seq::empty());
        assert(right =~= Seq::empty());
        if !leq(left.last(), item) {
            lemma_merged_insert(left.drop_last(), right, item, leq);
            assert(merged(left.drop_last(), right, leq) =~= left.drop_last());
        }
    } else if leq(right.last(), item) {
        assert(after.drop_last() =~= right);
        if leq(left.last(), item) {
            assert(both.last() == left.last() || both.last() == right.last());
        } else {
            lemma_merged_insert(left.drop_last(), right, item, leq);
            assert(!leq(left.last(), right.last()));
            assert(both.drop_last() =~= merged(left.drop_last(), right, leq));
        }
    } else {
        assert(after.drop_last() =~= inserted(right.drop_last(), item, leq));
        if leq(left.last(), right.last()) {
            lemma_merged_insert(left, right.drop_last(), item, leq);
            assert(both.drop_last() =~= merged(left, right.drop_last(), leq));
        } else {
            lemma_merged_insert(left.drop_last(), right, item, leq);
            assert(both.drop_last() =~= merged(left.drop_last(), right, leq));
            assert(leq(right.last(), left.last()));
        }
    }
}

proof fn lemma_merged_ordered<T>(left: Seq<T>, right: Seq<T>, leq: spec_fn(T, T) -> bool)
    requires
        orders(leq),
    ensures
        merged(ordered(left, leq), ordered(right, leq), leq) == ordered(left + right, leq),
    decreases right.len(),
{
    if right.len() == 0 {
        assert(left + right =~= left);
        assert(merged(ordered(left, leq), Seq::empty(), leq) =~= ordered(left, leq));
    } else {
        assert((left + right).drop_last() =~= left + right.drop_last());
        lemma_merged_ordered(left, right.drop_last(), leq);
        lemma_merged_insert(
            ordered(left, leq),
            ordered(right.drop_last(), leq),
            right.last(),
            leq,
        );
    }
}

proof fn lemma_inserted<T>(sorted: Seq<T>, item: T, leq: spec_fn(T, T) -> bool)
    requires
        orders(leq),
    ensures
        inserted(sorted, item, leq).to_multiset() == sorted.to_multiset().insert(item),
        inserted(sorted, item, leq).len() == sorted.len() + 1,
        in_order(sorted, leq) ==> in_order(inserted(sorted, item, leq), leq),
        forall|i: int|
            0 <= i <= sorted.len() ==> (#[trigger] inserted(sorted, item, leq)[i] == item
                || sorted.contains(inserted(sorted, item, leq)[i])),
    decreases sorted.len(),
{
    broadcast use vstd::seq_lib::group_to_multiset_ensures;

    let after = inserted(sorted, item, leq);
    if sorted.len() == 0 || leq(sorted.last(), item) {
        assert forall|i: int| 0 <= i <= sorted.len() implies (#[trigger] after[i] == item
            || sorted.contains(after[i])) by {
            if i < sorted.len() {
                assert(sorted[i] == after[i]);
            }
        }
        if in_order(sorted, leq) {
            assert forall|i: int, j: int| 0 <= i < j < after.len() implies leq(
                #[trigger] after[i],
                #[trigger] after[j],
            ) by {
                if j == sorted.len() && i < sorted.len() - 1 {
                    assert(leq(sorted[i], sorted[sorted.len() - 1]));
                    assert(leq(sorted.last(), item));
                }
            }
        }
    } else {
        let before = sorted.drop_last();
        lemma_inserted(before, item, leq);
        assert(before.push(sorted.last()) =~= sorted);
        assert(before.to_multiset().insert(item).insert(sorted.last())
            =~= before.to_multiset().insert(sorted.last()).insert(item));
        assert forall|i: int| 0 <= i <= sorted.len() implies (#[trigger] after[i] == item
            || sorted.contains(after[i])) by {
            if i < sorted.len() {
                assert(after[i] == inserted(before, item, leq)[i]);
                if after[i] != item {
                    let k = choose|k: int| 0 <= k < before.len() && before[k] == after[i];
                    assert(sorted[k] == after[i]);
                }
            } else {
                assert(sorted[sorted.len() - 1] == after[i]);
            }
        }
        if in_order(sorted, leq) {
            assert(in_order(before, leq)) by {
                assert forall|i: int, j: int| 0 <= i < j < before.len() implies leq(
                    #[trigger] before[i],
                    #[trigger] before[j],
                ) by {
                    assert(leq(sorted[i], sorted[j]));
                }
            }
            assert forall|i: int, j: int| 0 <= i < j < after.len() implies leq(
                #[trigger] after[i],
                #[trigger] after[j],
            ) by {
                if j < after.len() - 1 {
                    assert(leq(inserted(before, item, leq)[i], inserted(before, item, leq)[j]));
                } else {
                    assert(after[i] == inserted(before, item, leq)[i]);
                    if after[i] == item {
                        assert(leq(item, sorted.last()) || leq(sorted.last(), item));
                    } else {
                        let k = choose|k: int| 0 <= k < before.len() && before[k] == after[i];
                        assert(leq(sorted[k], sorted[sorted.len() - 1]));
                    }
                }
            }
        }
    }
}

/// What is put in order holds the same things, and is in order.
pub proof fn lemma_ordered<T>(items: Seq<T>, leq: spec_fn(T, T) -> bool)
    requires
        orders(leq),
    ensures
        ordered(items, leq).to_multiset() == items.to_multiset(),
        ordered(items, leq).len() == items.len(),
        in_order(ordered(items, leq), leq),
    decreases items.len(),
{
    broadcast use vstd::seq_lib::group_to_multiset_ensures;

    if items.len() == 0 {
        assert(items =~= Seq::empty());
    } else {
        lemma_ordered(items.drop_last(), leq);
        lemma_inserted(ordered(items.drop_last(), leq), items.last(), leq);
        assert(items.drop_last().push(items.last()) =~= items);
    }
}

/// What is in order stays as it is.
pub proof fn lemma_ordered_keeps<T>(items: Seq<T>, leq: spec_fn(T, T) -> bool)
    requires
        in_order(items, leq),
    ensures
        ordered(items, leq) == items,
    decreases items.len(),
{
    if items.len() == 0 {
        assert(items =~= Seq::empty());
    } else {
        let before = items.drop_last();
        assert(in_order(before, leq)) by {
            assert forall|i: int, j: int| 0 <= i < j < before.len() implies leq(
                #[trigger] before[i],
                #[trigger] before[j],
            ) by {
                assert(leq(items[i], items[j]));
            }
        }
        lemma_ordered_keeps(before, leq);
        if before.len() > 0 {
            assert(leq(items[before.len() - 1], items[items.len() - 1]));
        }
        assert(before.push(items.last()) =~= items);
    }
}

proof fn lemma_inserted_maps<T, U>(
    sorted: Seq<T>,
    item: T,
    leq: spec_fn(T, T) -> bool,
    view: spec_fn(T) -> U,
    leq_view: spec_fn(U, U) -> bool,
)
    requires
        forall|left: T, right: T| #[trigger] leq(left, right) == leq_view(view(left), view(right)),
    ensures
        inserted(sorted, item, leq).map_values(view) == inserted(
            sorted.map_values(view),
            view(item),
            leq_view,
        ),
    decreases sorted.len(),
{
    let mapped = sorted.map_values(view);
    if sorted.len() > 0 {
        assert(leq(sorted.last(), item) == leq_view(mapped.last(), view(item)));
    }
    if sorted.len() == 0 || leq(sorted.last(), item) {
        assert(sorted.push(item).map_values(view) =~= mapped.push(view(item)));
    } else {
        let before = sorted.drop_last();
        lemma_inserted_maps(before, item, leq, view, leq_view);
        assert(before.map_values(view) =~= mapped.drop_last());
        assert(inserted(before, item, leq).push(sorted.last()).map_values(view) =~= inserted(
            before,
            item,
            leq,
        ).map_values(view).push(view(sorted.last())));
    }
}

/// An order on views puts things and their views in the same order.
pub proof fn lemma_ordered_maps<T, U>(
    items: Seq<T>,
    leq: spec_fn(T, T) -> bool,
    view: spec_fn(T) -> U,
    leq_view: spec_fn(U, U) -> bool,
)
    requires
        forall|left: T, right: T| #[trigger] leq(left, right) == leq_view(view(left), view(right)),
    ensures
        ordered(items, leq).map_values(view) == ordered(items.map_values(view), leq_view),
    decreases items.len(),
{
    if items.len() == 0 {
        assert(ordered(items, leq).map_values(view) =~= Seq::empty());
    } else {
        let before = items.drop_last();
        lemma_ordered_maps(before, leq, view, leq_view);
        lemma_inserted_maps(ordered(before, leq), items.last(), leq, view, leq_view);
        assert(before.map_values(view) =~= items.map_values(view).drop_last());
    }
}

fn merge<T, F: Fn(&T, &T) -> bool>(
    left: Vec<T>,
    right: Vec<T>,
    le: &F,
    Ghost(leq): Ghost<spec_fn(T, T) -> bool>,
) -> (both: Vec<T>)
    requires
        forall|a: &T, b: &T| call_requires(le, (a, b)),
        forall|a: &T, b: &T, first: bool|
            #[trigger] call_ensures(le, (a, b), first) ==> first == leq(*a, *b),
        left@.len() + right@.len() <= usize::MAX,
    ensures
        both@ == merged(left@, right@, leq),
{
    let (mut left, mut right) = (left, right);
    let ghost (first, second) = (left@, right@);
    let mut backwards: Vec<T> = Vec::with_capacity(left.len() + right.len());
    assert(merged(first, second, leq) + Seq::<T>::empty().reverse() =~= merged(first, second, leq));
    loop
        invariant
            forall|a: &T, b: &T| call_requires(le, (a, b)),
            forall|a: &T, b: &T, first: bool|
                #[trigger] call_ensures(le, (a, b), first) ==> first == leq(*a, *b),
            merged(left@, right@, leq) + backwards@.reverse() == merged(first, second, leq),
        ensures
            left@.len() == 0 && right@.len() == 0,
            backwards@.reverse() == merged(first, second, leq),
        decreases left@.len() + right@.len(),
    {
        let ghost (l, r, b) = (left@, right@, backwards@);
        let (left_count, right_count): (usize, usize) = (left.len(), right.len());
        let from_right = if right_count == 0 {
            false
        } else if left_count == 0 {
            true
        } else {
            le(&left[left_count - 1], &right[right_count - 1])
        };
        let last = if from_right {
            right.pop()
        } else {
            left.pop()
        };
        match last {
            Some(item) => {
                backwards.push(item);
                proof {
                    assert(merged(l, r, leq) == merged(left@, right@, leq).push(item)) by {
                        if l.len() == 0 {
                            assert(right@.push(item) =~= r);
                        } else if r.len() == 0 {
                            assert(left@.push(item) =~= l);
                        }
                    }
                    assert(merged(left@, right@, leq).push(item) + b.reverse() =~= merged(
                        left@,
                        right@,
                        leq,
                    ) + backwards@.reverse());
                }
            },
            None => {
                assert(merged(l, r, leq) + b.reverse() =~= b.reverse());
                break;
            },
        }
    }
    let mut both: Vec<T> = Vec::with_capacity(backwards.len());
    let ghost all = backwards@.reverse();
    assert(both@ + backwards@.reverse() =~= all);
    while backwards.len() > 0
        invariant
            both@ + backwards@.reverse() == all,
        decreases backwards@.len(),
    {
        let ghost (before, popped) = (both@, backwards@);
        if let Some(item) = backwards.pop() {
            both.push(item);
        }
        assert(before + popped.reverse() =~= both@ + backwards@.reverse());
    }
    assert(both@ =~= all);
    both
}

/// `items` in the order that `le` gives, those that tie in the order they
/// came.
pub(crate) fn sort<T, F: Fn(&T, &T) -> bool>(
    items: Vec<T>,
    le: &F,
    Ghost(leq): Ghost<spec_fn(T, T) -> bool>,
) -> (result: Vec<T>)
    requires
        orders(leq),
        forall|a: &T, b: &T| call_requires(le, (a, b)),
        forall|a: &T, b: &T, first: bool|
            #[trigger] call_ensures(le, (a, b), first) ==> first == leq(*a, *b),
    ensures
        result@ == ordered(items@, leq),
    decreases items@.len(),
{
    let mut items = items;
    let ghost all = items@;
    let count: usize = items.len();
    if count < 2 {
        proof {
            lemma_ordered_keeps(all, leq);
        }
        return items;
    }
    let tail = items.split_off(count / 2);
    assert(items@ + tail@ =~= all);
    proof {
        lemma_merged_ordered(items@, tail@, leq);
        lemma_ordered(items@, leq);
        lemma_ordered(tail@, leq);
    }
    let left = sort(items, le, Ghost(leq));
    let right = sort(tail, le, Ghost(leq));
    merge(left, right, le, Ghost(leq))
}

} // verus!
