//! The manager of tablet snapshots: whole directories, each the checkpoint of
//! a region for one peer.
use vstd::prelude::*;
use crate::cf_file::TMP_FILE_SUFFIX;
use crate::error::{Cause, Error};
use crate::key::TabletSnapKey;
use crate::paths::{join_path, joined_path};
use crate::snapshot::{SNAP_GEN_PREFIX, SNAP_REV_PREFIX};
use crate::text::{ends_with, starts_with, to_chars};

verus! {

/// How long the parts of the transfer of one snapshot took.
#[derive(Clone, Copy, PartialEq, Eq, Debug, Default, Structural)]
pub struct SnapshotStat {
    pub region_id: u64,
    pub generate_duration_sec: u64,
    pub send_duration_sec: u64,
    pub total_duration_sec: u64,
    pub transport_size: u64,
}

/// The statistics of the snapshots of a store.
#[derive(Clone, Debug, PartialEq, Eq)]
pub struct SnapStats {
    pub sending_count: usize,
    pub receiving_count: usize,
    pub stats: Vec<SnapshotStat>,
}

/// The right to receive the tablet snapshot of one key. It is handed back
/// when the receiving is over.
#[derive(Debug)]
pub struct ReceivingGuard {
    key: TabletSnapKey,
}

impl ReceivingGuard {
    pub closed spec fn spec_key(&self) -> TabletSnapKey {
        self.key
    }

    pub fn key(&self) -> (key: &TabletSnapKey)
        ensures
            *key == self.spec_key(),
    {
        &self.key
    }
}

/// A snapshot whose transfer is being timed.
#[derive(Clone, Copy, PartialEq, Eq, Debug, Structural)]
pub struct Timing {
    pub key: TabletSnapKey,
    /// The reading of the clock when the snapshot was begun, in nanoseconds.
    pub start: u64,
    pub stat: SnapshotStat,
}

/// The whole seconds from the clock reading `from` to the reading `now`, both
/// in nanoseconds; none where `now` is the earlier.
pub open spec fn elapsed_secs(from: u64, now: u64) -> u64 {
    if now > from {
        ((now - from) / 1_000_000_000) as u64
    } else {
        0
    }
}

pub fn elapsed_seconds(from: u64, now: u64) -> (secs: u64)
    ensures
        secs == elapsed_secs(from, now),
{
    if now > from {
        (now - from) / 1_000_000_000
    } else {
        0
    }
}

pub struct TabletSnapManagerView {
    pub base: Seq<char>,
    /// The keys that are being received.
    pub receiving: Seq<TabletSnapKey>,
    /// The snapshots that are being timed.
    pub timings: Seq<Timing>,
    pub sending_count: usize,
    pub recving_count: usize,
}

/// The timings with the one of `key` begun anew: in its old place where there
/// was one, else at the end.
pub open spec fn begun(timings: Seq<Timing>, t: Timing) -> Seq<Timing>
    decreases timings.len(),
{
    if timings.len() == 0 {
        seq![t]
    } else if timings[0].key == t.key {
        seq![t] + timings.drop_first()
    } else {
        seq![timings[0]] + begun(timings.drop_first(), t)
    }
}

/// The timing of a snapshot that is through: the seconds since it was sent
/// and since it was begun are taken down, and its region, which marks it as
/// finished.
pub open spec fn finished_timing(t: Timing, send: u64, now: u64) -> Timing {
    Timing {
        stat: SnapshotStat {
            send_duration_sec: elapsed_secs(send, now),
            total_duration_sec: elapsed_secs(t.start, now),
            region_id: t.key.region_id,
            ..t.stat
        },
        ..t
    }
}

/// The timings with those of `key` finished.
pub open spec fn finished(timings: Seq<Timing>, key: TabletSnapKey, send: u64, now: u64) -> Seq<
    Timing,
> {
    timings.map_values(
        |t: Timing|
            if t.key == key {
                finished_timing(t, send, now)
            } else {
                t
            },
    )
}

/// The timings that are not finished, among the first `n`.
pub open spec fn unfinished(timings: Seq<Timing>, n: int) -> Seq<Timing>
    decreases n,
{
    if n <= 0 {
        Seq::empty()
    } else if timings[n - 1].stat.region_id > 0 {
        unfinished(timings, n - 1)
    } else {
        unfinished(timings, n - 1).push(timings[n - 1])
    }
}

/// What is reported of the first `n` timings: those that are finished and
/// took more than a second in all.
pub open spec fn reported(timings: Seq<Timing>, n: int) -> Seq<SnapshotStat>
    decreases n,
{
    if n <= 0 {
        Seq::empty()
    } else if timings[n - 1].stat.region_id > 0 && timings[n - 1].stat.total_duration_sec > 1 {
        reported(timings, n - 1).push(timings[n - 1].stat)
    } else {
        reported(timings, n - 1)
    }
}

/// The name of the directory of a tablet snapshot: a prefix and the key.
pub open spec fn tablet_dir_name(prefix: Seq<char>, key: TabletSnapKey) -> Seq<char> {
    prefix + seq!['_'] + key.spec_to_string()
}

/// Keeps the tablet snapshots of a store.
#[derive(Debug)]
pub struct TabletSnapManager {
    base: String,
    receiving: Vec<TabletSnapKey>,
    timings: Vec<Timing>,
    sending_count: usize,
    recving_count: usize,
}

impl View for TabletSnapManager {
    type V = TabletSnapManagerView;

    closed spec fn view(&self) -> TabletSnapManagerView {
        TabletSnapManagerView {
            base: self.base@,
            receiving: self.receiving@,
            timings: self.timings@,
            sending_count: self.sending_count,
            recving_count: self.recving_count,
        }
    }
}

impl TabletSnapManager {
    /// No key is being received twice.
    pub open spec fn wf(&self) -> bool {
        self@.receiving.no_duplicates()
    }

    /// A manager of the tablet snapshots in directory `base`.
    pub fn new(base: String) -> (m: TabletSnapManager)
        ensures
            m.wf(),
            m@ == (TabletSnapManagerView {
                base: base@,
                receiving: Seq::empty(),
                timings: Seq::empty(),
                sending_count: 0,
                recving_count: 0,
            }),
    {
        TabletSnapManager {
            base,
            receiving: Vec::new(),
            timings: Vec::new(),
            sending_count: 0,
            recving_count: 0,
        }
    }

    pub fn root_path(&self) -> (path: &str)
        ensures
            path@ == self@.base,
    {
        self.base.as_str()
    }

    pub fn sending_count(&self) -> (n: usize)
        ensures
            n == self@.sending_count,
    {
        self.sending_count
    }

    pub fn recving_count(&self) -> (n: usize)
        ensures
            n == self@.recving_count,
    {
        self.recving_count
    }

    pub fn set_sending_count(&mut self, n: usize)
        ensures
            final(self)@ == (TabletSnapManagerView { sending_count: n, ..old(self)@ }),
    {
        self.sending_count = n;
    }

    pub fn set_recving_count(&mut self, n: usize)
        ensures
            final(self)@ == (TabletSnapManagerView { recving_count: n, ..old(self)@ }),
    {
        self.recving_count = n;
    }

    fn dir_path(&self, prefix: &str, key: &TabletSnapKey, suffix: &str) -> (path: String)
        ensures
            path@ == joined_path(self@.base, tablet_dir_name(prefix@, *key) + suffix@),
    {
        proof {
            reveal_strlit("_");
        }
        let mut name = String::from_str(prefix);
        name.append("_");
        name.append(key.to_string().as_str());
        name.append(suffix);
        assert(name@ =~= tablet_dir_name(prefix@, *key) + suffix@);
        join_path(self.base.as_str(), name.as_str())
    }

    /// The directory of the snapshot of `key` that this store generated.
    pub fn tablet_gen_path(&self, key: &TabletSnapKey) -> (path: String)
        ensures
            path@ == joined_path(self@.base, tablet_dir_name(SNAP_GEN_PREFIX@, *key)),
    {
        proof {
            reveal_strlit("");
        }
        let path = self.dir_path(SNAP_GEN_PREFIX, key, "");
        assert(tablet_dir_name(SNAP_GEN_PREFIX@, *key) + ""@ =~= tablet_dir_name(
            SNAP_GEN_PREFIX@,
            *key,
        ));
        path
    }

    /// The directory of the snapshot of `key` that this store received.
    pub fn final_recv_path(&self, key: &TabletSnapKey) -> (path: String)
        ensures
            path@ == joined_path(self@.base, tablet_dir_name(SNAP_REV_PREFIX@, *key)),
    {
        proof {
            reveal_strlit("");
        }
        let path = self.dir_path(SNAP_REV_PREFIX, key, "");
        assert(tablet_dir_name(SNAP_REV_PREFIX@, *key) + ""@ =~= tablet_dir_name(
            SNAP_REV_PREFIX@,
            *key,
        ));
        path
    }

    /// The directory of the snapshot of `key` while this store receives it.
    pub fn tmp_recv_path(&self, key: &TabletSnapKey) -> (path: String)
        ensures
            path@ == joined_path(
                self@.base,
                tablet_dir_name(SNAP_REV_PREFIX@, *key) + TMP_FILE_SUFFIX@,
            ),
    {
        self.dir_path(SNAP_REV_PREFIX, key, TMP_FILE_SUFFIX)
    }

    /// Begins to time the snapshot of `key`, which was begun at the clock
    /// reading `start` and took `generate_duration_sec` seconds to generate.
    pub fn begin_snapshot(&mut self, key: TabletSnapKey, start: u64, generate_duration_sec: u64)
        ensures
            final(self)@ == (TabletSnapManagerView {
                timings: begun(
                    old(self)@.timings,
                    Timing {
                        key,
                        start,
                        stat: SnapshotStat {
                            region_id: 0,
                            generate_duration_sec,
                            send_duration_sec: 0,
                            total_duration_sec: 0,
                            transport_size: 0,
                        },
                    },
                ),
                ..old(self)@
            }),
    {
        let stat = SnapshotStat {
            region_id: 0,
            generate_duration_sec,
            send_duration_sec: 0,
            total_duration_sec: 0,
            transport_size: 0,
        };
        let t = Timing { key, start, stat };
        let ghost all = self.timings@;
        let mut i: usize = 0;
        proof {
            assert(all.skip(0) =~= all);
            assert(all.take(0) + begun(all, t) =~= begun(all, t));
        }
        while i < self.timings.len()
            invariant
                i <= self.timings@.len(),
                all == self.timings@,
                *self == *old(self),
                t == (Timing { key, start, stat }),
                stat == (SnapshotStat {
                    region_id: 0,
                    generate_duration_sec,
                    send_duration_sec: 0,
                    total_duration_sec: 0,
                    transport_size: 0,
                }),
                begun(all, t) == all.take(i as int) + begun(all.skip(i as int), t),
            decreases self.timings@.len() - i,
        {
            let ghost rest = all.skip(i as int);
            assert(rest[0] == all[i as int]);
            assert(rest.drop_first() =~= all.skip(i + 1));
            if self.timings[i].key == key {
                self.timings.set(i, t);
                assert(begun(rest, t) == seq![t] + rest.drop_first());
                assert(self.timings@ =~= all.take(i as int) + (seq![t] + rest.drop_first()));
                return ;
            }
            assert(begun(rest, t) == seq![rest[0]] + begun(rest.drop_first(), t));
            assert(all.take(i as int) + (seq![rest[0]] + begun(rest.drop_first(), t)) =~= all.take(
                i + 1,
            ) + begun(all.skip(i + 1), t));
            i += 1;
        }
        assert(all.skip(i as int) =~= Seq::<Timing>::empty());
        self.timings.push(t);
        assert(self.timings@ =~= all.take(i as int) + seq![t]);
    }

    /// Finishes the timing of the snapshot of `key`, which was sent at the
    /// clock reading `send`, at the reading `now`.
    pub fn finish_snapshot(&mut self, key: TabletSnapKey, send: u64, now: u64)
        ensures
            final(self)@ == (TabletSnapManagerView {
                timings: finished(old(self)@.timings, key, send, now),
                ..old(self)@
            }),
    {
        let ghost all = self.timings@;
        let mut i: usize = 0;
        while i < self.timings.len()
            invariant
                i <= all.len(),
                self.timings@.len() == all.len(),
                all == old(self)@.timings,
                self@ == (TabletSnapManagerView { timings: self@.timings, ..old(self)@ }),
                forall|j: int| 0 <= j < i ==> self.timings@[j] == finished(all, key, send, now)[j],
                forall|j: int| i <= j < all.len() ==> self.timings@[j] == all[j],
            decreases all.len() - i,
        {
            let t = self.timings[i];
            if t.key == key {
                let stat = SnapshotStat {
                    send_duration_sec: elapsed_seconds(send, now),
                    total_duration_sec: elapsed_seconds(t.start, now),
                    region_id: key.region_id,
                    ..t.stat
                };
                self.timings.set(i, Timing { stat, ..t });
            }
            i += 1;
        }
        assert(self.timings@ =~= finished(all, key, send, now));
    }

    /// Reports the snapshots that are through and took more than a second in
    /// all. Every snapshot that is through is taken off the list, reported or
    /// not; the others stay.
    pub fn stats(&mut self) -> (stats: SnapStats)
        ensures
            final(self)@ == (TabletSnapManagerView {
                timings: unfinished(old(self)@.timings, old(self)@.timings.len() as int),
                ..old(self)@
            }),
            stats.sending_count == old(self)@.sending_count,
            stats.receiving_count == old(self)@.recving_count,
            stats.stats@ == reported(old(self)@.timings, old(self)@.timings.len() as int),
    {
        let ghost all = self.timings@;
        let mut kept: Vec<Timing> = Vec::new();
        let mut out: Vec<SnapshotStat> = Vec::new();
        let mut i: usize = 0;
        while i < self.timings.len()
            invariant
                i <= all.len(),
                *self == *old(self),
                all == self.timings@,
                kept@ == unfinished(all, i as int),
                out@ == reported(all, i as int),
            decreases all.len() - i,
        {
            let t = self.timings[i];
            if t.stat.region_id > 0 {
                if t.stat.total_duration_sec > 1 {
                    out.push(t.stat);
                }
            } else {
                kept.push(t);
            }
            i += 1;
        }
        self.timings = kept;
        SnapStats {
            sending_count: self.sending_count,
            receiving_count: self.recving_count,
            stats: out,
        }
    }

    /// Begins to receive the snapshot of `key`, unless it is being received
    /// already: a key is received by one at a time.
    pub fn start_receive(&mut self, key: TabletSnapKey) -> (guard: Option<ReceivingGuard>)
        requires
            old(self).wf(),
        ensures
            final(self).wf(),
            if old(self)@.receiving.contains(key) {
                guard is None && final(self)@ == old(self)@
            } else {
                &&& guard matches Some(g)
                &&& g.spec_key() == key
                &&& final(self)@ == (TabletSnapManagerView {
                    receiving: old(self)@.receiving.push(key),
                    ..old(self)@
                })
            },
    {
        let mut i: usize = 0;
        while i < self.receiving.len()
            invariant
                i <= self.receiving@.len(),
                *self == *old(self),
                self.wf(),
                forall|j: int| 0 <= j < i ==> self.receiving@[j] != key,
            decreases self.receiving@.len() - i,
        {
            if self.receiving[i] == key {
                return None;
            }
            i += 1;
        }
        let ghost before = self.receiving@;
        self.receiving.push(key);
        assert(self@.receiving.no_duplicates()) by {
            assert forall|a: int, b: int|
                0 <= a < before.len() + 1 && 0 <= b < before.len() + 1 && a
                    != b implies before.push(key)[a] != before.push(key)[b] by {
                if a < before.len() && b < before.len() {
                    assert(before[a] != before[b]);
                }
            }
        }
        Some(ReceivingGuard { key })
    }

    /// Ends the receiving that `guard` stands for: its key leaves the list of
    /// those that are being received, and may be received again.
    pub fn finish_receive(&mut self, guard: ReceivingGuard)
        requires
            old(self).wf(),
        ensures
            final(self).wf(),
            !final(self)@.receiving.contains(guard.spec_key()),
            if old(self)@.receiving.contains(guard.spec_key()) {
                exists|i: int|
                    0 <= i < old(self)@.receiving.len() && old(self)@.receiving[i]
                        == guard.spec_key() && final(self)@ == (TabletSnapManagerView {
                        receiving: old(self)@.receiving.remove(i),
                        ..old(self)@
                    })
            } else {
                final(self)@ == old(self)@
            },
    {
        let ghost before = self.receiving@;
        let mut i: usize = 0;
        while i < self.receiving.len()
            invariant
                i <= self.receiving@.len(),
                *self == *old(self),
                self.wf(),
                before == self.receiving@,
                forall|j: int| 0 <= j < i ==> self.receiving@[j] != guard.key,
            decreases self.receiving@.len() - i,
        {
            if self.receiving[i] == guard.key {
                let _ = self.receiving.remove(i);
                let ghost after = self.receiving@;
                proof {
                    assert(after == before.remove(i as int));
                    assert forall|a: int| 0 <= a < after.len() implies #[trigger] after[a]
                        == before[if a < i {
                        a
                    } else {
                        a + 1
                    }] by {}
                    assert(after.no_duplicates()) by {
                        assert forall|a: int, b: int|
                            0 <= a < after.len() && 0 <= b < after.len() && a != b implies after[a]
                            != after[b] by {
                            let a0 = if a < i {
                                a
                            } else {
                                a + 1
                            };
                            let b0 = if b < i {
                                b
                            } else {
                                b + 1
                            };
                            assert(before[a0] != before[b0]);
                        }
                    }
                    assert(!after.contains(guard.key)) by {
                        if after.contains(guard.key) {
                            let a = choose|a: int| 0 <= a < after.len() && after[a] == guard.key;
                            let a0 = if a < i {
                                a
                            } else {
                                a + 1
                            };
                            assert(before[a0] == before[i as int]);
                        }
                    }
                    assert(before.contains(guard.key));
                }
                return ;
            }
            i += 1;
        }
    }

    /// The directories of the snapshots that this store generated, among the
    /// names found in the base directory: those that begin as generated
    /// snapshots do, and do not end as temporary ones.
    pub fn list_snapshot(&self, names: &Vec<String>) -> (paths: Vec<String>)
        ensures
            paths.deep_view() == listed(self@.base, names.deep_view(), names@.len() as int),
    {
        let mut paths: Vec<String> = Vec::new();
        let ghost all = names.deep_view();
        assert(paths.deep_view() =~= Seq::empty());
        let mut i: usize = 0;
        while i < names.len()
            invariant
                i <= names@.len(),
                all == names.deep_view(),
                paths.deep_view() == listed(self@.base, all, i as int),
            decreases names@.len() - i,
        {
            let name = names[i].as_str();
            assert(all[i as int] == name@);
            let chars = to_chars(name);
            let ghost before = paths.deep_view();
            if starts_with(&chars, SNAP_GEN_PREFIX) && !ends_with(&chars, TMP_FILE_SUFFIX) {
                let path = join_path(self.base.as_str(), name);
                paths.push(path);
                assert(paths.deep_view() =~= before.push(path@));
            }
            i += 1;
        }
        paths
    }

    /// Whether the directory of that name counts towards the bytes of the
    /// tablet snapshots: the snapshots that were received do, as does a
    /// directory whose name cannot be read.
    pub fn counts_toward_size(name: Option<&str>) -> (counts: bool)
        ensures
            counts == match name {
                Some(n) => SNAP_REV_PREFIX@.is_prefix_of(n@),
                None => true,
            },
    {
        match name {
            Some(n) => {
                let chars = to_chars(n);
                starts_with(&chars, SNAP_REV_PREFIX)
            },
            None => true,
        }
    }
}

/// The paths of the generated snapshots among the first `n` names.
pub open spec fn listed(base: Seq<char>, names: Seq<Seq<char>>, n: int) -> Seq<Seq<char>>
    decreases n,
{
    if n <= 0 {
        Seq::empty()
    } else if SNAP_GEN_PREFIX@.is_prefix_of(names[n - 1]) && !TMP_FILE_SUFFIX@.is_suffix_of(
        names[n - 1],
    ) {
        listed(base, names, n - 1).push(joined_path(base, names[n - 1]))
    } else {
        listed(base, names, n - 1)
    }
}

/// The sum of the first `n` sizes.
pub open spec fn sum_sizes(sizes: Seq<u64>, n: int) -> nat
    decreases n,
{
    if n <= 0 {
        0
    } else {
        sum_sizes(sizes, n - 1) + sizes[n - 1] as nat
    }
}

/// More sizes do not sum to less.
pub proof fn lemma_sum_sizes_grows(sizes: Seq<u64>, i: int, j: int)
    requires
        0 <= i <= j,
    ensures
        sum_sizes(sizes, i) <= sum_sizes(sizes, j),
    decreases j - i,
{
    if i < j {
        lemma_sum_sizes_grows(sizes, i, j - 1);
    }
}

/// The bytes of files of the given sizes, where that number is a `u64`.
pub fn total_size(sizes: &Vec<u64>) -> (r: Result<u64, Error>)
    ensures
        match r {
            Ok(total) => total == sum_sizes(sizes@, sizes@.len() as int),
            Err(e) => e == Error::Other(Cause::Overflow) && sum_sizes(
                sizes@,
                sizes@.len() as int,
            ) > u64::MAX,
        },
{
    let mut total: u64 = 0;
    let mut i: usize = 0;
    while i < sizes.len()
        invariant
            i <= sizes@.len(),
            total == sum_sizes(sizes@, i as int),
        decreases sizes@.len() - i,
    {
        proof {
            lemma_sum_sizes_grows(sizes@, i as int + 1, sizes@.len() as int);
        }
        if sizes[i] > u64::MAX - total {
            return Err(Error::Other(Cause::Overflow));
        }
        total = total + sizes[i];
        i += 1;
    }
    Ok(total)
}

} // verus!
