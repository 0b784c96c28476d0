//! How old the bytes in a subtree are.

use vstd::prelude::*;

use crate::tree::node;
use crate::tree::node::{Node, Tree};
use crate::tree::totals;
use crate::tree::totals::known_time;

verus! {

broadcast use crate::tree::node::group_trees;

/// Seconds in a day.
pub const DAY: i64 = 86_400;

/// How old the bytes in a subtree are.
///
/// A directory's `modified` is its newest write, which for anything large
/// is nearly always "just now" and says little about the rest; this says
/// how the bytes spread over time.
#[derive(Clone, Debug, PartialEq, Eq)]
pub struct AgeProfile {
    /// Bytes last written within each band given to [`age_profile`],
    /// youngest first. Files with no known write time are left out.
    pub bytes: Vec<u64>,
    /// Oldest and newest write among the files, Unix seconds; `0` when
    /// no file has a known one.
    pub oldest: i64,
    pub newest: i64,
}

impl Default for AgeProfile {
    fn default() -> (profile: Self)
        ensures
            profile.bytes@.len() == 0,
            profile.oldest == 0,
            profile.newest == 0,
    {
        AgeProfile { bytes: Vec::new(), oldest: 0, newest: 0 }
    }
}

/// The sum of `numbers`.
pub open spec fn sum(numbers: Seq<u64>) -> nat
    decreases numbers.len(),
{
    if numbers.len() == 0 {
        0
    } else {
        sum(numbers.drop_last()) + numbers.last() as nat
    }
}

proof fn lemma_sum_grows(numbers: Seq<u64>, few: int)
    requires
        0 <= few < numbers.len(),
    ensures
        sum(numbers.take(few + 1)) == sum(numbers.take(few)) + numbers[few],
        sum(numbers.take(few + 1)) <= sum(numbers),
    decreases numbers.len(),
{
    let next = numbers.take(few + 1);
    assert(next.drop_last() =~= numbers.take(few));
    if few + 1 < numbers.len() {
        let shorter = numbers.drop_last();
        lemma_sum_grows(shorter, few);
        assert(shorter.take(few + 1) =~= next);
    } else {
        assert(next =~= numbers);
    }
}

impl AgeProfile {
    pub fn total(&self) -> (total: u64)
        requires
            sum(self.bytes@) <= u64::MAX,
        ensures
            total == sum(self.bytes@),
    {
        let mut total: u64 = 0;
        let mut next: usize = 0;
        assert(self.bytes@.take(0) =~= Seq::empty());
        while next < self.bytes.len()
            invariant
                next <= self.bytes@.len(),
                sum(self.bytes@) <= u64::MAX,
                total == sum(self.bytes@.take(next as int)),
            decreases self.bytes@.len() - next,
        {
            proof {
                lemma_sum_grows(self.bytes@, next as int);
            }
            total = total + self.bytes[next];
            next = next + 1;
        }
        assert(self.bytes@.take(next as int) =~= self.bytes@);
        total
    }
}

/// The leaves of `tree`: itself, or those beneath a directory.
pub open spec fn leaves(tree: Tree) -> Seq<Tree>
    decreases tree,
{
    if tree.kind is Directory {
        all_leaves(tree.children)
    } else {
        seq![tree]
    }
}

/// The leaves of `children`.
pub open spec fn all_leaves(children: Seq<Tree>) -> Seq<Tree>
    decreases children,
{
    if children.len() == 0 {
        Seq::empty()
    } else {
        all_leaves(children.drop_last()) + leaves(children.last())
    }
}

/// The leaves of a directory are those of its children.
pub proof fn lemma_leaves(tree: Tree)
    requires
        tree.kind is Directory,
    ensures
        leaves(tree) == all_leaves(tree.children),
{
    reveal_with_fuel(leaves, 2);
    reveal_with_fuel(all_leaves, 2);
}

proof fn lemma_all_leaves(left: Seq<Tree>, right: Seq<Tree>)
    ensures
        all_leaves(left + right) == all_leaves(left) + all_leaves(right),
    decreases right.len(),
{
    if right.len() == 0 {
        assert(left + right =~= left);
        assert(all_leaves(left) + all_leaves(right) =~= all_leaves(left));
    } else {
        assert((left + right).drop_last() =~= left + right.drop_last());
        lemma_all_leaves(left, right.drop_last());
        assert(all_leaves(left) + all_leaves(right.drop_last()) + leaves(right.last())
            =~= all_leaves(left) + (all_leaves(right.drop_last()) + leaves(right.last())));
    }
}

/// Nodes at or beneath `tree`.
spec fn size(tree: Tree) -> nat
    decreases tree,
{
    1 + sizes(tree.children)
}

spec fn sizes(children: Seq<Tree>) -> nat
    decreases children,
{
    if children.len() == 0 {
        0
    } else {
        sizes(children.drop_last()) + size(children.last())
    }
}

proof fn lemma_sizes(left: Seq<Tree>, right: Seq<Tree>)
    ensures
        sizes(left + right) == sizes(left) + sizes(right),
    decreases right.len(),
{
    if right.len() == 0 {
        assert(left + right =~= left);
    } else {
        assert((left + right).drop_last() =~= left + right.drop_last());
        lemma_sizes(left, right.drop_last());
    }
}

/// Whole days from `modified` to `now`; none for a time yet to come.
pub open spec fn days_old(now: i64, modified: i64) -> int {
    if now >= modified {
        (now - modified) / DAY as int
    } else {
        0
    }
}

/// Whether `days` falls in band `band`: `limits` are the bands' upper bounds,
/// and the last band takes all that is older.
pub open spec fn in_band(days: int, limits: Seq<i64>, band: int) -> bool {
    &&& 0 <= band < limits.len()
    &&& forall|younger: int| 0 <= younger < band ==> days > #[trigger] limits[younger]
    &&& days <= limits[band] || band == limits.len() - 1
}

/// Bytes of the `files` whose last write is known and falls in `band`.
pub open spec fn band_bytes(files: Seq<Tree>, now: i64, limits: Seq<i64>, band: int) -> nat
    decreases files.len(),
{
    if files.len() == 0 {
        0
    } else {
        let file = files[0];
        let rest = band_bytes(files.skip(1), now, limits, band);
        if totals::tells_time(file.modified) && in_band(
            days_old(now, file.modified),
            limits,
            band,
        ) {
            rest + file.bytes as nat
        } else {
            rest
        }
    }
}

/// The oldest known write among `files`; `0` when none is known.
pub open spec fn oldest(files: Seq<Tree>) -> i64
    decreases files.len(),
{
    if files.len() == 0 {
        0
    } else {
        let (first, rest) = (files[0].modified, oldest(files.skip(1)));
        if totals::tells_time(first) && (rest == 0 || first < rest) {
            first
        } else {
            rest
        }
    }
}

/// The newest known write among `files`; `0` when none is known.
pub open spec fn newest(files: Seq<Tree>) -> i64
    decreases files.len(),
{
    if files.len() == 0 {
        0
    } else {
        let (first, rest) = (files[0].modified, newest(files.skip(1)));
        if totals::tells_time(first) && first > rest {
            first
        } else {
            rest
        }
    }
}

/// Whole days from `modified`, which is known, to `now`; none for a time yet
/// to come.
pub fn count_days(now: i64, modified: i64) -> (days: i64)
    requires
        totals::tells_time(modified),
    ensures
        days == days_old(now, modified),
{
    if now > modified {
        (now - modified) / DAY
    } else {
        0
    }
}

/// The band that `days` falls in.
fn band_of(days: i64, limits: &[i64]) -> (band: usize)
    requires
        limits@.len() > 0,
    ensures
        in_band(days as int, limits@, band as int),
{
    let last: usize = limits.len() - 1;
    let mut band: usize = 0;
    while band < last
        invariant
            last == limits@.len() - 1,
            band <= last,
            forall|younger: int| 0 <= younger < band ==> days > #[trigger] limits@[younger],
        decreases last - band,
    {
        if days <= limits[band] {
            return band;
        }
        band = band + 1;
    }
    band
}

/// Bands do not overlap.
pub proof fn lemma_one_band(days: int, limits: Seq<i64>, left: int, right: int)
    requires
        in_band(days, limits, left),
        in_band(days, limits, right),
    ensures
        left == right,
{
    if left < right {
        assert(days > limits[left]);
    } else if right < left {
        assert(days > limits[right]);
    }
}

proof fn lemma_band_bytes_suffix(
    files: Seq<Tree>,
    from: int,
    now: i64,
    limits: Seq<i64>,
    band: int,
)
    requires
        0 <= from <= files.len(),
    ensures
        band_bytes(files.skip(from), now, limits, band) <= band_bytes(files, now, limits, band),
    decreases from,
{
    if from > 0 {
        lemma_band_bytes_suffix(files.skip(1), from - 1, now, limits, band);
        assert(files.skip(1).skip(from - 1) =~= files.skip(from));
    } else {
        assert(files.skip(0) =~= files);
    }
}

/// What the nodes on a stack say.
spec fn stacked(stack: Seq<&Node>) -> Seq<Tree> {
    stack.map_values(|node: &Node| node@)
}

/// Spread `node`'s file bytes over age bands: `limits` are each band's
/// upper bound in days, youngest first; anything older falls in the last.
pub fn age_profile(node: &Node, now: i64, limits: &[i64]) -> (profile: AgeProfile)
    requires
        forall|band: int|
            0 <= band < limits@.len() ==> #[trigger] band_bytes(
                leaves(node@),
                now,
                limits@,
                band,
            ) <= u64::MAX,
    ensures
        profile.bytes@.len() == limits@.len(),
        forall|band: int|
            0 <= band < limits@.len() ==> #[trigger] profile.bytes@[band] == band_bytes(
                leaves(node@),
                now,
                limits@,
                band,
            ),
        profile.oldest == (if limits@.len() > 0 {
            oldest(leaves(node@))
        } else {
            0
        }),
        profile.newest == (if limits@.len() > 0 {
            newest(leaves(node@))
        } else {
            0
        }),
{
    let mut profile = AgeProfile::default();
    profile.bytes.resize(limits.len(), 0);
    if limits.len() == 0 {
        return profile;
    }
    let ghost all = leaves(node@);
    // A stack, not recursion: a whole disk is millions of nodes deep in
    // places, and this runs on the UI thread for the selection.
    let mut stack: Vec<&Node> = Vec::new();
    stack.push(node);
    proof {
        assert(stacked(stack@) =~= seq![node@]);
        assert(seq![node@].drop_last() =~= Seq::empty());
        assert(all_leaves(Seq::<Tree>::empty()) =~= Seq::empty());
        assert(all_leaves(seq![node@]) == Seq::<Tree>::empty() + leaves(node@));
        assert(all_leaves(stacked(stack@)) =~= all);
        assert(all.take(all.len() as int) =~= all);
        assert(all.skip(all.len() as int) =~= Seq::empty());
    }
    while stack.len() > 0
        invariant
            limits@.len() > 0,
            profile.bytes@.len() == limits@.len(),
            all == leaves(node@),
            forall|band: int|
                0 <= band < limits@.len() ==> #[trigger] band_bytes(all, now, limits@, band)
                    <= u64::MAX,
            all_leaves(stacked(stack@)).len() <= all.len(),
            all_leaves(stacked(stack@)) == all.take(all_leaves(stacked(stack@)).len() as int),
            forall|band: int|
                0 <= band < limits@.len() ==> #[trigger] profile.bytes@[band] == band_bytes(
                    all.skip(all_leaves(stacked(stack@)).len() as int),
                    now,
                    limits@,
                    band,
                ),
            profile.oldest == oldest(all.skip(all_leaves(stacked(stack@)).len() as int)),
            profile.newest == newest(all.skip(all_leaves(stacked(stack@)).len() as int)),
        decreases sizes(stacked(stack@)),
    {
        let ghost before = stacked(stack@);
        let ghost left = all_leaves(before).len() as int;
        if let Some(node) = stack.pop() {
            proof {
                assert(before.drop_last() =~= stacked(stack@));
                assert(before.last() == node@);
                assert(all_leaves(before) == all_leaves(stacked(stack@)) + leaves(node@));
                assert(sizes(before) == sizes(stacked(stack@)) + size(node@));
                reveal_with_fuel(size, 2);
                reveal_with_fuel(sizes, 2);
                assert(size(node@) == 1 + sizes(node@.children));
            }
            if node.is_dir() {
                let ghost rest = stacked(stack@);
                let mut next: usize = 0;
                assert(rest + node@.children.take(0) =~= rest);
                while next < node.children.len()
                    invariant
                        next <= node.children@.len(),
                        stacked(stack@) == rest + node@.children.take(next as int),
                    decreases node.children@.len() - next,
                {
                    let child = &node.children[next];
                    let ghost held = stack@;
                    stack.push(child);
                    proof {
                        assert(stacked(stack@) =~= stacked(held).push(child@));
                        assert(rest + node@.children.take(next + 1) =~= (rest
                            + node@.children.take(next as int)).push(child@));
                    }
                    next = next + 1;
                }
                proof {
                    assert(node@.children.take(next as int) =~= node@.children);
                    lemma_all_leaves(rest, node@.children);
                    lemma_leaves(node@);
                    lemma_sizes(rest, node@.children);
                }
                continue;
            }
            let ghost here = left - 1;
            let ghost done = profile.bytes@;
            proof {
                assert(leaves(node@) == seq![node@]);
                assert(all_leaves(stacked(stack@)).len() == here);
                assert(all[here] == all.take(left)[here]);
                assert(all[here] == node@);
                assert(all_leaves(stacked(stack@)) =~= all.take(here));
                assert(all.skip(here).skip(1) =~= all.skip(left));
                assert(all.skip(here)[0] == node@);
            }
            if known_time(node.modified) {
                let days: i64 = count_days(now, node.modified);
                let band: usize = band_of(days, limits);
                proof {
                    lemma_band_bytes_suffix(all, here, now, limits@, band as int);
                    assert(band_bytes(all, now, limits@, band as int) <= u64::MAX);
                    assert(done[band as int] == band_bytes(
                        all.skip(left),
                        now,
                        limits@,
                        band as int,
                    ));
                }
                let sum: u64 = profile.bytes[band] + node.bytes;
                profile.bytes.set(band, sum);
                if profile.oldest == 0 || node.modified < profile.oldest {
                    profile.oldest = node.modified;
                }
                if node.modified > profile.newest {
                    profile.newest = node.modified;
                }
                proof {
                    assert forall|other: int| 0 <= other < limits@.len() implies
                        #[trigger] profile.bytes@[other] == band_bytes(
                        all.skip(here),
                        now,
                        limits@,
                        other,
                    ) by {
                        assert(done[other] == band_bytes(all.skip(left), now, limits@, other));
                        if in_band(days as int, limits@, other) {
                            lemma_one_band(days as int, limits@, other, band as int);
                        }
                    }
                }
            } else {
                proof {
                    assert forall|other: int| 0 <= other < limits@.len() implies
                        #[trigger] profile.bytes@[other] == band_bytes(
                        all.skip(here),
                        now,
                        limits@,
                        other,
                    ) by {
                        assert(done[other] == band_bytes(all.skip(left), now, limits@, other));
                    }
                }
            }
        }
    }
    proof {
        assert(stacked(stack@) =~= Seq::empty());
        assert(all.skip(0) =~= all);
    }
    profile
}

/// Bytes of the `files` whose last write is known.
pub open spec fn dated_bytes(files: Seq<Tree>) -> nat
    decreases files.len(),
{
    if files.len() == 0 {
        0
    } else {
        let rest = dated_bytes(files.skip(1));
        if totals::tells_time(files[0].modified) {
            rest + files[0].bytes as nat
        } else {
            rest
        }
    }
}

/// Bytes in the first `count` bands.
spec fn bands_bytes(files: Seq<Tree>, now: i64, limits: Seq<i64>, count: nat) -> nat
    decreases count,
{
    if count == 0 {
        0
    } else {
        bands_bytes(files, now, limits, (count - 1) as nat) + band_bytes(
            files,
            now,
            limits,
            count - 1,
        )
    }
}

/// There is a band for every age.
pub proof fn lemma_some_band(days: int, limits: Seq<i64>, from: int) -> (band: int)
    requires
        0 <= from < limits.len(),
        forall|younger: int| 0 <= younger < from ==> days > #[trigger] limits[younger],
    ensures
        in_band(days, limits, band),
    decreases limits.len() - from,
{
    if days <= limits[from] || from == limits.len() - 1 {
        from
    } else {
        lemma_some_band(days, limits, from + 1)
    }
}

proof fn lemma_bands_step(
    files: Seq<Tree>,
    now: i64,
    limits: Seq<i64>,
    count: nat,
    band: int,
)
    requires
        files.len() > 0,
        count <= limits.len(),
        in_band(days_old(now, files[0].modified), limits, band),
    ensures
        bands_bytes(files, now, limits, count) == bands_bytes(
            files.skip(1),
            now,
            limits,
            count,
        ) + (if band < count && totals::tells_time(files[0].modified) {
            files[0].bytes as nat
        } else {
            0
        }),
    decreases count,
{
    if count > 0 {
        lemma_bands_step(files, now, limits, (count - 1) as nat, band);
        let days = days_old(now, files[0].modified);
        if in_band(days, limits, count - 1) {
            lemma_one_band(days, limits, count - 1, band);
        }
    }
}

proof fn lemma_bands_all(files: Seq<Tree>, now: i64, limits: Seq<i64>)
    requires
        limits.len() > 0,
    ensures
        bands_bytes(files, now, limits, limits.len()) == dated_bytes(files),
    decreases files.len(),
{
    if files.len() == 0 {
        lemma_bands_none(files, now, limits, limits.len());
    } else {
        let band = lemma_some_band(days_old(now, files[0].modified), limits, 0);
        lemma_bands_step(files, now, limits, limits.len(), band);
        lemma_bands_all(files.skip(1), now, limits);
    }
}

proof fn lemma_bands_none(files: Seq<Tree>, now: i64, limits: Seq<i64>, count: nat)
    requires
        files.len() == 0,
    ensures
        bands_bytes(files, now, limits, count) == 0,
    decreases count,
{
    if count > 0 {
        lemma_bands_none(files, now, limits, (count - 1) as nat);
    }
}

proof fn lemma_bands_sum(
    bytes: Seq<u64>,
    files: Seq<Tree>,
    now: i64,
    limits: Seq<i64>,
    count: nat,
)
    requires
        count <= bytes.len() == limits.len(),
        forall|band: int|
            0 <= band < limits.len() ==> #[trigger] bytes[band] == band_bytes(
                files,
                now,
                limits,
                band,
            ),
    ensures
        sum(bytes.take(count as int)) == bands_bytes(files, now, limits, count),
    decreases count,
{
    if count > 0 {
        lemma_bands_sum(bytes, files, now, limits, (count - 1) as nat);
        assert(bytes.take(count as int).drop_last() =~= bytes.take(count - 1));
        assert(bytes[count - 1] == band_bytes(files, now, limits, count - 1));
    }
}

/// The bands together hold the bytes of every file whose last write is
/// known, each once, and of no other.
pub proof fn lemma_bands_cover(bytes: Seq<u64>, files: Seq<Tree>, now: i64, limits: Seq<i64>)
    requires
        limits.len() > 0,
        bytes.len() == limits.len(),
        forall|band: int|
            0 <= band < limits.len() ==> #[trigger] bytes[band] == band_bytes(
                files,
                now,
                limits,
                band,
            ),
    ensures
        sum(bytes) == dated_bytes(files),
{
    lemma_bands_sum(bytes, files, now, limits, limits.len());
    lemma_bands_all(files, now, limits);
    assert(bytes.take(limits.len() as int) =~= bytes);
}

} // verus!
