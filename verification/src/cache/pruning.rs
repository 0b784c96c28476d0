//! Which caches to keep.

use vstd::prelude::*;

use crate::sort;

verus! {

/// Cached roots kept; the least recently written go first.
pub const KEEP: usize = 8;

/// Whether a cache may stand before another when the latest is first.
pub open spec fn latest_first() -> spec_fn((i128, usize), (i128, usize)) -> bool {
    |left: (i128, usize), right: (i128, usize)| left.0 >= right.0
}

/// When each cache was written, and which one it is.
pub open spec fn dated(written: Seq<i128>) -> Seq<(i128, usize)> {
    Seq::new(written.len(), |index: int| (written[index], index as usize))
}

/// The caches by when they were written, the latest first.
pub open spec fn by_date(written: Seq<i128>) -> Seq<(i128, usize)> {
    sort::ordered(dated(written), latest_first())
}

/// The places of the caches that are one too many.
pub open spec fn gone(written: Seq<i128>) -> Seq<usize> {
    if written.len() <= KEEP {
        Seq::empty()
    } else {
        by_date(written).skip(KEEP as int).map_values(|cache: (i128, usize)| cache.1)
    }
}

/// The caches that are one too many: all but the [`KEEP`] most recently
/// written. Each of `written` is when a cache was written; what comes back is
/// their places in it.
pub fn stale(written: &[i128]) -> (list: Vec<usize>)
    ensures
        list@ == gone(written@),
{
    let mut caches: Vec<(i128, usize)> = Vec::new();
    let mut index: usize = 0;
    while index < written.len()
        invariant
            index <= written@.len(),
            caches@ == dated(written@).take(index as int),
        decreases written@.len() - index,
    {
        let ghost before = caches@;
        caches.push((written[index], index));
        assert(caches@ =~= dated(written@).take(index + 1));
        index = index + 1;
    }
    assert(caches@ =~= dated(written@));
    let le = |left: &(i128, usize), right: &(i128, usize)| -> (first: bool)
        ensures
            first == (left.0 >= right.0),
        { left.0 >= right.0 };
    let ghost leq = latest_first();
    let sorted = sort::sort(caches, &le, Ghost(leq));
    proof {
        sort::lemma_ordered(dated(written@), leq);
    }
    let mut list: Vec<usize> = Vec::new();
    if sorted.len() <= KEEP {
        assert(list@ =~= Seq::empty());
        return list;
    }
    let ghost rest = sorted@.skip(KEEP as int).map_values(|cache: (i128, usize)| cache.1);
    let mut next: usize = KEEP;
    assert(rest.take(0) =~= Seq::empty());
    while next < sorted.len()
        invariant
            KEEP <= next <= sorted@.len(),
            rest == sorted@.skip(KEEP as int).map_values(|cache: (i128, usize)| cache.1),
            list@ == rest.take(next - KEEP),
        decreases sorted@.len() - next,
    {
        list.push(sorted[next].1);
        assert(list@ =~= rest.take(next + 1 - KEEP));
        next = next + 1;
    }
    assert(rest.take(next - KEEP) =~= rest);
    list
}

/// The caches that go are the oldest: none of them was written after one
/// that stays. Those that stay are [`KEEP`], or all where there are fewer.
pub proof fn lemma_oldest_go(written: Seq<i128>, stays: int, goes: int)
    requires
        0 <= stays < KEEP <= goes < written.len(),
    ensures
        by_date(written).len() == written.len(),
        by_date(written)[stays].0 >= by_date(written)[goes].0,
        by_date(written).to_multiset() == dated(written).to_multiset(),
{
    sort::lemma_ordered(dated(written), latest_first());
    assert(latest_first()(by_date(written)[stays], by_date(written)[goes]));
}

/// Where `index` is in the order of dates.
proof fn lemma_place(written: Seq<i128>, index: usize) -> (place: int)
    requires
        index < written.len() <= usize::MAX,
    ensures
        0 <= place < written.len(),
        by_date(written)[place] == (written[index as int], index),
{
    broadcast use vstd::seq_lib::group_to_multiset_ensures;

    sort::lemma_ordered(dated(written), latest_first());
    let cache = (written[index as int], index);
    assert(dated(written)[index as int] == cache);
    assert(dated(written).contains(cache));
    assert(by_date(written).to_multiset().count(cache) > 0);
    assert(by_date(written).contains(cache));
    choose|place: int| 0 <= place < by_date(written).len() && by_date(written)[place] == cache
}

/// What is in the order of dates is one of the caches.
proof fn lemma_placed(written: Seq<i128>, place: int)
    requires
        0 <= place < written.len() <= usize::MAX,
    ensures
        ({
            let cache = by_date(written)[place];
            cache.1 < written.len() && written[cache.1 as int] == cache.0
        }),
{
    broadcast use vstd::seq_lib::group_to_multiset_ensures;

    sort::lemma_ordered(dated(written), latest_first());
    let cache = by_date(written)[place];
    assert(by_date(written).contains(cache));
    assert(dated(written).to_multiset().count(cache) > 0);
    assert(dated(written).contains(cache));
    let index = choose|index: int|
        0 <= index < dated(written).len() && dated(written)[index] == cache;
    assert(dated(written)[index] == (written[index], index as usize));
}

/// Eight caches stay, or all where there are fewer, and as many go as are
/// left; each that goes is one of them, and none of them was written after
/// one that stays.
pub proof fn lemma_eight_stay(written: Seq<i128>, stays: usize, goes: usize)
    requires
        written.len() <= usize::MAX,
        stays < written.len(),
        !gone(written).contains(stays),
        gone(written).contains(goes),
    ensures
        gone(written).len() == written.len() - 8,
        goes < written.len(),
        written[goes as int] <= written[stays as int],
{
    sort::lemma_ordered(dated(written), latest_first());
    let list = gone(written);
    let sorted = by_date(written);
    let k = choose|k: int| 0 <= k < list.len() && list[k] == goes;
    assert(list[k] == sorted[k + 8].1);
    lemma_placed(written, k + 8);
    let place = lemma_place(written, stays);
    if place >= 8 {
        assert(list[place - 8] == stays);
    } else {
        assert(latest_first()(sorted[place], sorted[k + 8]));
    }
}

/// As many caches go as there are more than eight.
pub proof fn lemma_how_many_go(written: Seq<i128>)
    ensures
        written.len() <= 8 ==> gone(written).len() == 0,
        written.len() > 8 ==> gone(written).len() == written.len() - 8,
{
    sort::lemma_ordered(dated(written), latest_first());
}

} // verus!
