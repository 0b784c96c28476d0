//! Ages in seconds, and what falls in which band of them.

use vstd::prelude::*;

use crate::tree::ages;
use crate::tree::figures;
use crate::tree::node::Tree;
use crate::tree::totals;

verus! {

/// A file is as many days old as whole days have gone by since it was written;
/// one written later than now is none.
pub proof fn lemma_days_in_seconds(now: i64, modified: i64)
    ensures
        now >= modified ==> ages::days_old(now, modified) * 86_400 <= now - modified < (
        ages::days_old(now, modified) + 1) * 86_400,
        now < modified ==> ages::days_old(now, modified) == 0,
        ages::days_old(now, modified) >= 0,
{
}

/// A file that is `limit` days old or less was written less than `limit + 1`
/// days ago, and the other way round.
pub proof fn lemma_days_within(now: i64, modified: i64, limit: int)
    requires
        limit >= 0,
    ensures
        ages::days_old(now, modified) <= limit <==> now - modified < (limit + 1) * 86_400,
{
    lemma_days_in_seconds(now, modified);
    let days = ages::days_old(now, modified);
    if days <= limit {
        assert((days + 1) * 86_400 <= (limit + 1) * 86_400);
    } else {
        assert(days * 86_400 >= (limit + 1) * 86_400);
    }
}

/// Each band takes what is older than every limit before it and no older than
/// its own, told in seconds; the last takes all that is older.
pub proof fn lemma_band_in_seconds(now: i64, modified: i64, limits: Seq<i64>, band: int)
    requires
        0 <= band < limits.len(),
        forall|i: int| 0 <= i < limits.len() ==> #[trigger] limits[i] >= 0,
    ensures
        ages::in_band(ages::days_old(now, modified), limits, band) <==> {
            &&& forall|younger: int|
                0 <= younger < band ==> now - modified >= (#[trigger] limits[younger] + 1) * 86_400
            &&& band < limits.len() - 1 ==> now - modified < (limits[band] + 1) * 86_400
        },
{
    let days = ages::days_old(now, modified);
    assert forall|younger: int| 0 <= younger < limits.len() implies (days > limits[younger]) == (
    now - modified >= (#[trigger] limits[younger] + 1) * 86_400) by {
        lemma_days_within(now, modified, limits[younger] as int);
    }
}

/// A file falls in exactly one band.
pub proof fn lemma_exactly_one_band(days: int, limits: Seq<i64>)
    requires
        limits.len() > 0,
    ensures
        exists|band: int| #[trigger] ages::in_band(days, limits, band),
        forall|left: int, right: int| #[trigger]
            ages::in_band(days, limits, left) && #[trigger] ages::in_band(days, limits, right)
                ==> left == right,
{
    let band = ages::lemma_some_band(days, limits, 0);
    assert(ages::in_band(days, limits, band));
    assert forall|left: int, right: int| #[trigger]
        ages::in_band(days, limits, left) && #[trigger] ages::in_band(
        days,
        limits,
        right,
    ) implies left == right by {
        ages::lemma_one_band(days, limits, left, right);
    }
}

/// The newest write of a profile is the latest among the files that say when
/// they were written.
pub proof fn lemma_newest_is_latest(files: Seq<Tree>)
    ensures
        figures::latest(files, ages::newest(files)),
    decreases files.len(),
{
    if files.len() > 0 {
        let rest = files.skip(1);
        lemma_newest_is_latest(rest);
        let newest = ages::newest(files);
        assert forall|i: int|
            0 <= i < files.len() && figures::dated((#[trigger] files[i]).modified) implies
            files[i].modified <= newest by {
            if i > 0 {
                assert(rest[i - 1] == files[i]);
            }
        }
        if newest != 0 {
            if newest == ages::newest(rest) {
                let i = choose|i: int|
                    0 <= i < rest.len() && (#[trigger] rest[i]).modified == newest;
                assert(files[i + 1] == rest[i]);
            } else {
                assert(files[0].modified == newest);
            }
        }
    }
}

/// Whether `oldest` is the earliest of the times among `files` that say when;
/// 0 where none does.
pub open spec fn earliest(files: Seq<Tree>, oldest: i64) -> bool {
    if oldest == 0 {
        forall|i: int| 0 <= i < files.len() ==> !figures::dated((#[trigger] files[i]).modified)
    } else {
        &&& forall|i: int|
            0 <= i < files.len() && figures::dated((#[trigger] files[i]).modified)
                ==> files[i].modified >= oldest
        &&& exists|i: int|
            0 <= i < files.len() && (#[trigger] files[i]).modified == oldest && figures::dated(
                oldest,
            )
    }
}

/// The oldest write of a profile is the earliest among the files that say
/// when they were written.
pub proof fn lemma_oldest_is_earliest(files: Seq<Tree>)
    ensures
        earliest(files, ages::oldest(files)),
    decreases files.len(),
{
    if files.len() > 0 {
        let rest = files.skip(1);
        lemma_oldest_is_earliest(rest);
        let oldest = ages::oldest(files);
        assert forall|i: int|
            0 <= i < files.len() && figures::dated((#[trigger] files[i]).modified) implies oldest
            != 0 && files[i].modified >= oldest by {
            if i > 0 {
                assert(rest[i - 1] == files[i]);
            }
        }
        if oldest != 0 {
            if oldest == ages::oldest(rest) {
                let i = choose|i: int|
                    0 <= i < rest.len() && (#[trigger] rest[i]).modified == oldest;
                assert(files[i + 1] == rest[i]);
            } else {
                assert(files[0].modified == oldest);
            }
        }
    }
}

/// A band gains the bytes of one file more if and only if that file says when
/// it was written and its age falls there.
pub proof fn lemma_band_takes(
    files: Seq<Tree>,
    now: i64,
    limits: Seq<i64>,
    band: int,
    file: Tree,
)
    ensures
        ages::band_bytes(seq![file] + files, now, limits, band) == ages::band_bytes(
            files,
            now,
            limits,
            band,
        ) + if figures::dated(file.modified) && ages::in_band(
            ages::days_old(now, file.modified),
            limits,
            band,
        ) {
            file.bytes as nat
        } else {
            0
        },
        totals::tells_time(file.modified) == figures::dated(file.modified),
{
    let all = seq![file] + files;
    assert(all.skip(1) =~= files);
    assert(all[0] == file);
}

} // verus!
