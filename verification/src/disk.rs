//! Watching disk space: which disk a directory is on, when to warn, and when to stop.

use vstd::prelude::*;

verus! {

/// How long what is known of the disks stays good, in nanoseconds.
pub const DISK_REFRESH_NANOS: u128 = 2_000_000_000;

/// Whether the list of disks, read so many nanoseconds ago, has to be read again.
pub fn disks_are_stale(age_nanos: u128) -> (r: bool)
    ensures
        r == (age_nanos >= DISK_REFRESH_NANOS),
{
    age_nanos >= DISK_REFRESH_NANOS
}

/// Free space that was found for a directory before.
#[derive(Clone, Copy, Debug)]
pub struct KnownSpace {
    pub age_nanos: u128,
    /// The free space, if it could be found.
    pub available: Option<u64>,
}

/// What was found before, as long as it is still good; otherwise the disks have to be asked.
pub fn recall_space(known: Option<KnownSpace>) -> (r: Option<Option<u64>>)
    ensures
        match known {
            Some(k) => if k.age_nanos < DISK_REFRESH_NANOS {
                r == Some(k.available)
            } else {
                r is None
            },
            None => r is None,
        },
{
    match known {
        Some(k) => if k.age_nanos < DISK_REFRESH_NANOS {
            Some(k.available)
        } else {
            None
        },
        None => None,
    }
}

/// A mounted disk, as seen from one directory.
#[derive(Clone, Copy, Debug)]
pub struct Mount {
    /// The directory is below the mount point.
    pub holds_dir: bool,
    /// Length of the mount point's path.
    pub path_len: usize,
    /// Free bytes.
    pub available: u64,
}

/// The disk the directory is on: of those it is below, the one with the longest path, the last one
/// if several are equally long.
pub open spec fn is_disk_of(mounts: Seq<Mount>, i: int) -> bool {
    &&& 0 <= i < mounts.len()
    &&& mounts[i].holds_dir
    &&& forall|j: int|
        0 <= j < mounts.len() && (#[trigger] mounts[j]).holds_dir ==> mounts[j].path_len
            <= mounts[i].path_len && (j > i ==> mounts[j].path_len < mounts[i].path_len)
}

/// The free space for a directory: that of the disk it is on.
pub fn available_space_for(mounts: &[Mount]) -> (r: Option<u64>)
    ensures
        match r {
            Some(n) => exists|i: int|
                #[trigger] is_disk_of(mounts@, i) && mounts@[i].available == n,
            None => forall|i: int| 0 <= i < mounts@.len() ==> !(#[trigger] mounts@[i]).holds_dir,
        },
{
    let mut best: Option<usize> = None;
    let mut i: usize = 0;
    while i < mounts.len()
        invariant
            i <= mounts@.len(),
            match best {
                Some(b) => b < i && is_disk_of(mounts@.take(i as int), b as int),
                None => forall|j: int| 0 <= j < i ==> !(#[trigger] mounts@[j]).holds_dir,
            },
        decreases mounts@.len() - i,
    {
        let ghost seen = mounts@.take(i as int);
        let ghost more = mounts@.take(i + 1);
        let m = mounts[i];
        proof {
            assert(forall|j: int| 0 <= j < i ==> more[j] == #[trigger] seen[j]);
            assert(forall|j: int| 0 <= j < i ==> seen[j] == #[trigger] more[j]);
            assert(more[i as int] == m);
        }
        let better = match best {
            Some(b) => m.holds_dir && m.path_len >= mounts[b].path_len,
            None => m.holds_dir,
        };
        if better {
            best = Some(i);
            assert(is_disk_of(more, i as int));
        } else {
            proof {
                if let Some(b) = best {
                    assert(is_disk_of(more, b as int));
                }
            }
        }
        i = i + 1;
    }
    assert(mounts@.take(i as int) =~= mounts@);
    match best {
        Some(b) => {
            assert(is_disk_of(mounts@, b as int));
            Some(mounts[b].available)
        },
        None => None,
    }
}

/// Only one disk is the one a directory is on.
pub proof fn lemma_one_disk(mounts: Seq<Mount>, i: int, j: int)
    requires
        is_disk_of(mounts, i),
        is_disk_of(mounts, j),
    ensures
        i == j,
{
}

/// What is to be done about the disk space for some work.
#[derive(Clone, Copy, Debug, PartialEq, Eq, Structural)]
pub enum SpaceVerdict {
    /// Go on: there is enough, or the free space is not known.
    Enough,
    /// Go on, with a warning.
    Low { available: u64 },
    /// Stop.
    NotEnough { available: u64 },
}

/// What is to be done with so much free space for work that takes `required` bytes.
pub open spec fn space_verdict(available: Option<u64>, required: u64, roomy: bool) -> SpaceVerdict {
    match available {
        None => SpaceVerdict::Enough,
        Some(n) => if n < required {
            SpaceVerdict::NotEnough { available: n }
        } else if !roomy {
            SpaceVerdict::Low { available: n }
        } else {
            SpaceVerdict::Enough
        },
    }
}

/// Decides whether work that takes `required` bytes may go on. `roomy` says whether the free space
/// is comfortably above that.
pub fn ensure_disk_space(available: Option<u64>, required: u64, roomy: bool) -> (r: SpaceVerdict)
    ensures
        r == space_verdict(available, required, roomy),
{
    match available {
        None => SpaceVerdict::Enough,
        Some(n) => if n < required {
            SpaceVerdict::NotEnough { available: n }
        } else if !roomy {
            SpaceVerdict::Low { available: n }
        } else {
            SpaceVerdict::Enough
        },
    }
}

/// Free space below which there is always a warning.
pub const LOW_SPACE_WARN_BYTES: u64 = 0x8000_0000;

/// A tenth of the input, but no less than [`LOW_SPACE_WARN_BYTES`].
pub open spec fn warning_level(total_input_bytes: u64) -> u64 {
    if total_input_bytes / 10 < LOW_SPACE_WARN_BYTES {
        LOW_SPACE_WARN_BYTES
    } else {
        total_input_bytes / 10
    }
}

/// Free space below which the watchdog warns: a tenth of the input, but no less than
/// [`LOW_SPACE_WARN_BYTES`].
pub fn watchdog_threshold(total_input_bytes: u64) -> (r: u64)
    ensures
        r == warning_level(total_input_bytes),
{
    let tenth: u64 = total_input_bytes / 10;
    if tenth < LOW_SPACE_WARN_BYTES {
        LOW_SPACE_WARN_BYTES
    } else {
        tenth
    }
}

/// The watchdog does not warn more often than this, in nanoseconds.
pub const WATCHDOG_WARN_NANOS: u128 = 30_000_000_000;

/// A warning is due: the free space is low, and the last warning was long enough ago.
pub open spec fn warning_due(
    available: Option<u64>,
    threshold: u64,
    since_last_nanos: Option<u128>,
) -> bool {
    &&& match available {
        Some(n) => n < threshold,
        None => false,
    }
    &&& match since_last_nanos {
        Some(t) => t >= WATCHDOG_WARN_NANOS,
        None => true,
    }
}

/// Whether the watchdog warns now: the free space is known to be below the threshold, and the last
/// warning, if there was one, was long enough ago.
pub fn watchdog_warns(
    available: Option<u64>,
    threshold: u64,
    since_last_nanos: Option<u128>,
) -> (r: bool)
    ensures
        r == warning_due(available, threshold, since_last_nanos),
{
    let low = match available {
        Some(n) => n < threshold,
        None => false,
    };
    let due = match since_last_nanos {
        Some(t) => t >= WATCHDOG_WARN_NANOS,
        None => true,
    };
    low && due
}

/// Watches the free space while runs are merged in groups.
pub struct MergeWatch {
    warned: bool,
}

impl MergeWatch {
    /// There was a warning, and the space has been low since.
    pub closed spec fn has_warned(&self) -> bool {
        self.warned
    }

    /// A watch that has not warned yet.
    pub fn new() -> (r: MergeWatch)
        ensures
            !r.has_warned(),
    {
        MergeWatch { warned: false }
    }

    /// Takes note of the free space, and says whether to warn: once each time it gets low. Space
    /// that is not known changes nothing.
    pub fn observe(&mut self, available: Option<u64>) -> (warn: bool)
        ensures
            match available {
                Some(n) => {
                    &&& warn == (n < LOW_SPACE_WARN_BYTES && !old(self).has_warned())
                    &&& final(self).has_warned() == (n < LOW_SPACE_WARN_BYTES)
                },
                None => !warn && final(self).has_warned() == old(self).has_warned(),
            },
    {
        match available {
            Some(n) => {
                let low = n < LOW_SPACE_WARN_BYTES;
                let warn = low && !self.warned;
                self.warned = low;
                warn
            },
            None => false,
        }
    }
}

/// Whether to warn at the start that the input is larger than the free space.
pub fn input_exceeds_space(available: u64, total_input_bytes: u64) -> (r: bool)
    ensures
        r == (total_input_bytes > 0 && available < total_input_bytes),
{
    total_input_bytes > 0 && available < total_input_bytes
}

/// A directory is on a disk as soon as it is below any mount point: the one with the longest path.
pub proof fn lemma_directory_has_a_disk(mounts: Seq<Mount>, k: int)
    requires
        0 <= k < mounts.len(),
        mounts[k].holds_dir,
    ensures
        exists|i: int| #[trigger]
            is_disk_of(mounts, i) && mounts[i].path_len >= mounts[k].path_len,
    decreases mounts.len(),
{
    let shorter = mounts.drop_last();
    let last = mounts.len() - 1;
    if exists|j: int| 0 <= j < last && (#[trigger] mounts[j]).holds_dir {
        let j = choose|j: int| 0 <= j < last && (#[trigger] mounts[j]).holds_dir;
        assert(shorter[j].holds_dir);
        lemma_directory_has_a_disk(shorter, j);
        let b = choose|b: int| #[trigger] is_disk_of(shorter, b);
        assert(forall|x: int| 0 <= x < last ==> mounts[x] == #[trigger] shorter[x]);
        assert(forall|x: int| 0 <= x < last ==> shorter[x] == #[trigger] mounts[x]);
        if mounts[last].holds_dir && mounts[last].path_len >= mounts[b].path_len {
            assert(is_disk_of(mounts, last));
        } else {
            assert(is_disk_of(mounts, b));
        }
    } else {
        assert(k == last);
        assert(is_disk_of(mounts, last));
    }
}

/// The disk of a directory holds it, and no mount point that holds it has a longer path; of equally
/// long ones the last counts.
pub proof fn lemma_disk_is_longest(mounts: Seq<Mount>, i: int, j: int)
    requires
        is_disk_of(mounts, i),
        0 <= j < mounts.len(),
        mounts[j].holds_dir,
    ensures
        mounts[i].holds_dir,
        mounts[j].path_len <= mounts[i].path_len,
        mounts[j].path_len == mounts[i].path_len ==> j <= i,
{
}

/// Disks are asked again after two seconds, the watchdog warns at most every thirty, and space is
/// low below two GiB.
pub proof fn lemma_disk_limits()
    ensures
        DISK_REFRESH_NANOS == 2 * 1000 * 1000 * 1000,
        WATCHDOG_WARN_NANOS == 30 * 1000 * 1000 * 1000,
        LOW_SPACE_WARN_BYTES == 2 * 1024 * 1024 * 1024,
{
}

/// Work is stopped exactly if the free space is known and less than it takes; more space never
/// stops it, and unknown space neither stops it nor warns.
pub proof fn lemma_when_work_stops(n: u64, more: u64, required: u64, roomy: bool)
    requires
        n <= more,
    ensures
        space_verdict(Some(n), required, roomy) == (SpaceVerdict::NotEnough { available: n })
            <==> n < required,
        space_verdict(Some(n), required, roomy) == (SpaceVerdict::Low { available: n }) <==> n
            >= required && !roomy,
        space_verdict(Some(more), required, roomy) is NotEnough ==> space_verdict(
            Some(n),
            required,
            roomy,
        ) is NotEnough,
        space_verdict(None, required, roomy) == SpaceVerdict::Enough,
{
}

/// The level at which the watchdog warns is 2 GiB, or more with one byte for every ten of the input.
pub proof fn lemma_warning_level(total: u64)
    ensures
        warning_level(total) >= 2 * 1024 * 1024 * 1024,
        warning_level(total) > 2 * 1024 * 1024 * 1024 ==> 10 * warning_level(total) <= total,
        total < 10 * (warning_level(total) + 1),
{
}

/// The watchdog warns of known space below the level and of no other, at once the first time, and
/// then again only thirty seconds after the last warning.
pub proof fn lemma_when_the_watchdog_warns(n: u64, level: u64, since: u128)
    ensures
        warning_due(Some(n), level, None) <==> n < level,
        warning_due(Some(n), level, Some(since)) <==> n < level && since >= 30_000_000_000,
        !warning_due(None, level, None),
        !warning_due(None, level, Some(since)),
{
}

} // verus!
