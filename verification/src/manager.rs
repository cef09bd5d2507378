//! The manager of the snapshots of a store: which of them are in use, which
//! lie idle on disk, how many bytes they hold, and how they are configured.
use vstd::prelude::*;
use crate::cf_file::{CLONE_FILE_SUFFIX, META_FILE_SUFFIX, SST_FILE_SUFFIX, TMP_FILE_SUFFIX};
use crate::error::{Cause, Error};
use crate::key::{SnapKey, TabletSnapKey};
use crate::paths::{join_path, joined_path};
use crate::registry::{
    deregistered, may_delete, receiving_keys, registered, Registry, sending_keys, SnapEntry,
};
use crate::snapshot::{
    new_snapshot, removal_views, CheckPolicy, Removal, Snapshot, SNAP_GEN_PREFIX,
};
use crate::tablet::{SnapStats, SnapshotStat, TabletSnapManager};
use crate::text::{decimal, ends_with, push_decimal, starts_with, to_chars};

verus! {

/// Name prefix of the temporary files that hold keys to delete.
pub const DEL_RANGE_PREFIX: &'static str = "del_range";

/// What a directory listing says of one entry.
#[derive(Clone, Debug, PartialEq, Eq)]
pub struct FileInfo {
    pub name: String,
    /// Whether it is a regular file.
    pub is_file: bool,
    /// Its size in bytes.
    pub len: u64,
}

pub struct FileInfoView {
    pub name: Seq<char>,
    pub is_file: bool,
    pub len: u64,
}

impl View for FileInfo {
    type V = FileInfoView;

    open spec fn view(&self) -> FileInfoView {
        FileInfoView { name: self.name@, is_file: self.is_file, len: self.len }
    }
}

/// The views of a directory listing.
pub open spec fn listing_view(listing: Seq<FileInfo>) -> Seq<FileInfoView> {
    listing.map_values(|f: FileInfo| f@)
}

/// The idle snapshot that an entry of the base directory belongs to, with
/// whether it is a generated one: the entry must be a file, not one of keys to
/// delete, carry a key, and the key must not be registered.
pub open spec fn idle_entry(
    registry: Map<SnapKey, Seq<SnapEntry>>,
    item: FileInfoView,
) -> Option<(SnapKey, bool)> {
    if !item.is_file || DEL_RANGE_PREFIX@.is_prefix_of(item.name) {
        None
    } else {
        match SnapKey::of_file_name(item.name) {
            None => None,
            Some(key) => if registry.contains_key(key) {
                None
            } else {
                Some((key, SNAP_GEN_PREFIX@.is_prefix_of(item.name)))
            },
        }
    }
}

/// The order of idle snapshots: by key, a received one before a generated one.
pub open spec fn pair_lt(a: (SnapKey, bool), b: (SnapKey, bool)) -> bool {
    a.0.spec_lt(&b.0) || (a.0 == b.0 && !a.1 && b.1)
}

/// Ascending, hence without duplicates.
pub open spec fn ascending(v: Seq<(SnapKey, bool)>) -> bool {
    forall|i: int, j: int| 0 <= i < j < v.len() ==> pair_lt(v[i], v[j])
}

fn insert_ascending(v: &mut Vec<(SnapKey, bool)>, p: (SnapKey, bool))
    requires
        ascending(old(v)@),
    ensures
        ascending(final(v)@),
        forall|q: (SnapKey, bool)| final(v)@.contains(q) <==> old(v)@.contains(q) || q == p,
{
    let ghost before = v@;
    let mut i: usize = 0;
    while i < v.len() && (v[i].0.precedes(&p.0) || (v[i].0 == p.0 && !v[i].1 && p.1))
        invariant
            i <= v@.len(),
            v@ == before,
            forall|j: int| 0 <= j < i ==> pair_lt(before[j], p),
        decreases v@.len() - i,
    {
        i += 1;
    }
    if i < v.len() && v[i].0 == p.0 && v[i].1 == p.1 {
        assert(before[i as int] == p);
        return ;
    }
    v.insert(i, p);
    proof {
        let after = v@;
        assert forall|a: int, b: int| 0 <= a < b < after.len() implies pair_lt(
            after[a],
            after[b],
        ) by {
            let a0 = if a < i {
                a
            } else {
                a - 1
            };
            let b0 = if b < i {
                b
            } else {
                b - 1
            };
            if a != i && b != i {
                assert(pair_lt(before[a0], before[b0]));
            } else if a == i {
                assert(pair_lt(before[i as int], before[b0]) || b0 == i);
            }
        }
        assert forall|q: (SnapKey, bool)| after.contains(q) <==> before.contains(q) || q == p by {
            if after.contains(q) {
                let a = choose|a: int| 0 <= a < after.len() && after[a] == q;
                if a < i {
                    assert(before[a] == q);
                } else if a > i {
                    assert(before[a - 1] == q);
                }
            }
            if before.contains(q) {
                let b = choose|b: int| 0 <= b < before.len() && before[b] == q;
                if b < i {
                    assert(after[b] == q);
                } else {
                    assert(after[b + 1] == q);
                }
            }
            assert(after[i as int] == p);
        }
    }
}

/// The snapshots that lie idle, given the entries of the base directory:
/// each once, in ascending order.
pub fn list_idle_snap(registry: &Registry, listing: &Vec<FileInfo>) -> (idle: Vec<(SnapKey, bool)>)
    requires
        registry.wf(),
    ensures
        ascending(idle@),
        forall|q: (SnapKey, bool)|
            idle@.contains(q) <==> exists|i: int|
                0 <= i < listing@.len() && idle_entry(registry@, (#[trigger] listing@[i])@)
                    == Some(q),
{
    let mut idle: Vec<(SnapKey, bool)> = Vec::new();
    let mut i: usize = 0;
    while i < listing.len()
        invariant
            i <= listing@.len(),
            registry.wf(),
            ascending(idle@),
            forall|q: (SnapKey, bool)|
                idle@.contains(q) <==> exists|j: int|
                    0 <= j < i && idle_entry(registry@, (#[trigger] listing@[j])@) == Some(q),
        decreases listing@.len() - i,
    {
        let item = &listing[i];
        let ghost before = idle@;
        let ghost found = idle_entry(registry@, item@);
        if item.is_file {
            let chars = to_chars(item.name.as_str());
            if !starts_with(&chars, DEL_RANGE_PREFIX) {
                let is_sending: bool = starts_with(&chars, SNAP_GEN_PREFIX);
                match SnapKey::from_file_name(item.name.as_str()) {
                    Some(key) => {
                        if !registry.has_registered(&key) {
                            insert_ascending(&mut idle, (key, is_sending));
                        }
                    },
                    None => {},
                }
            }
        }
        proof {
            assert forall|q: (SnapKey, bool)| idle@.contains(q) <==> exists|j: int|
                0 <= j < i + 1 && idle_entry(registry@, (#[trigger] listing@[j])@) == Some(q) by {
                if idle@.contains(q) {
                    if before.contains(q) {
                        let j = choose|j: int|
                            0 <= j < i && idle_entry(registry@, (#[trigger] listing@[j])@) == Some(
                                q,
                            );
                        assert(0 <= j < i + 1);
                    } else {
                        assert(idle_entry(registry@, listing@[i as int]@) == Some(q));
                    }
                }
                if exists|j: int|
                    0 <= j < i + 1 && idle_entry(registry@, (#[trigger] listing@[j])@) == Some(
                        q,
                    ) {
                    let j = choose|j: int|
                        0 <= j < i + 1 && idle_entry(registry@, (#[trigger] listing@[j])@) == Some(
                            q,
                        );
                    if j < i {
                        assert(before.contains(q));
                    }
                }
            }
        }
        i += 1;
    }
    idle
}

/// The keys of the idle snapshots that this store generated: they are the
/// ones that may be evicted.
pub fn sending_snaps(idle: &Vec<(SnapKey, bool)>) -> (keys: Vec<SnapKey>)
    ensures
        keys@ == idle@.filter(|p: (SnapKey, bool)| p.1).map_values(|p: (SnapKey, bool)| p.0),
{
    let mut keys: Vec<SnapKey> = Vec::new();
    let ghost pred = |p: (SnapKey, bool)| p.1;
    let ghost first = |p: (SnapKey, bool)| p.0;
    let mut i: usize = 0;
    assert(idle@.take(0) =~= Seq::empty());
    proof {
        reveal(Seq::filter);
    }
    assert(keys@ =~= idle@.take(0).filter(pred).map_values(first));
    while i < idle.len()
        invariant
            i <= idle@.len(),
            pred == |p: (SnapKey, bool)| p.1,
            first == |p: (SnapKey, bool)| p.0,
            keys@ == idle@.take(i as int).filter(pred).map_values(first),
        decreases idle@.len() - i,
    {
        let ghost head = idle@.take(i as int);
        let ghost next = idle@.take(i + 1);
        proof {
            reveal(Seq::filter);
            assert(next.drop_last() =~= head);
            assert(next.last() == idle@[i as int]);
        }
        if idle[i].1 {
            keys.push(idle[i].0);
            assert(next.filter(pred) =~= head.filter(pred).push(idle@[i as int]));
            assert(keys@ =~= next.filter(pred).map_values(first));
        } else {
            assert(next.filter(pred) =~= head.filter(pred));
        }
        i += 1;
    }
    assert(idle@.take(i as int) =~= idle@);
    keys
}

/// Whether an entry of the base directory counts towards the bytes of the
/// snapshots: files do, but for the copies, which are links to data files
/// and would be counted twice, and for the metadata.
pub open spec fn counted(item: FileInfoView) -> bool {
    item.is_file && !CLONE_FILE_SUFFIX@.is_suffix_of(item.name) && !META_FILE_SUFFIX@.is_suffix_of(
        item.name,
    )
}

/// The bytes of the snapshots among the first `n` entries of the base directory.
pub open spec fn snap_size(listing: Seq<FileInfoView>, n: int) -> nat
    decreases n,
{
    if n <= 0 {
        0
    } else {
        snap_size(listing, n - 1) + if counted(listing[n - 1]) {
            listing[n - 1].len as nat
        } else {
            0
        }
    }
}

/// More entries do not hold fewer bytes.
pub proof fn lemma_snap_size_grows(listing: Seq<FileInfoView>, i: int, j: int)
    requires
        0 <= i <= j,
    ensures
        snap_size(listing, i) <= snap_size(listing, j),
    decreases j - i,
{
    if i < j {
        lemma_snap_size_grows(listing, i, j - 1);
    }
}

/// The names of the temporary files among the first `n` entries.
pub open spec fn tmp_names(listing: Seq<FileInfoView>, n: int) -> Seq<Seq<char>>
    decreases n,
{
    if n <= 0 {
        Seq::empty()
    } else if listing[n - 1].is_file && TMP_FILE_SUFFIX@.is_suffix_of(listing[n - 1].name) {
        tmp_names(listing, n - 1).push(listing[n - 1].name)
    } else {
        tmp_names(listing, n - 1)
    }
}

/// The temporary files in the base directory. They are what a crash left
/// behind, and are removed when the manager starts.
pub fn stale_tmp_files(listing: &Vec<FileInfo>) -> (names: Vec<String>)
    ensures
        names.deep_view() == tmp_names(listing_view(listing@), listing@.len() as int),
{
    let ghost all = listing_view(listing@);
    let mut names: Vec<String> = Vec::new();
    assert(names.deep_view() =~= Seq::empty());
    let mut i: usize = 0;
    while i < listing.len()
        invariant
            i <= listing@.len(),
            all == listing_view(listing@),
            names.deep_view() == tmp_names(all, i as int),
        decreases listing@.len() - i,
    {
        let item = &listing[i];
        assert(all[i as int] == item@);
        if item.is_file {
            let chars = to_chars(item.name.as_str());
            if ends_with(&chars, TMP_FILE_SUFFIX) {
                let ghost before = names.deep_view();
                names.push(item.name.clone());
                assert(names.deep_view() =~= before.push(item.name@));
            }
        }
        i += 1;
    }
    names
}

/// How a snapshot is opened.
#[derive(Clone, Copy, PartialEq, Eq, Debug, Structural)]
pub enum OpenMode {
    Building,
    Sending,
    Receiving,
    Applying,
    /// To stand for a tablet snapshot that was received.
    TabletSnapshot,
    /// To be deleted; the snapshot is a generated one or a received one.
    Gc(bool),
}

impl OpenMode {
    /// Whether the snapshot is among those that this store generated.
    pub fn is_sending(&self) -> (r: bool)
        ensures
            r == match *self {
                OpenMode::Building | OpenMode::Sending => true,
                OpenMode::Gc(generated) => generated,
                _ => false,
            },
    {
        match self {
            OpenMode::Building | OpenMode::Sending => true,
            OpenMode::Gc(generated) => *generated,
            _ => false,
        }
    }

    /// What is done with metadata that is found on disk. A build goes on
    /// without a snapshot that is corrupted; every other use of it fails;
    /// deleting it does not read it.
    pub fn check_policy(&self) -> (policy: CheckPolicy)
        ensures
            policy == match *self {
                OpenMode::Building => CheckPolicy::ErrAllowed,
                OpenMode::Gc(_) => CheckPolicy::Skip,
                _ => CheckPolicy::ErrNotAllowed,
            },
    {
        match self {
            OpenMode::Building => CheckPolicy::ErrAllowed,
            OpenMode::Gc(_) => CheckPolicy::Skip,
            _ => CheckPolicy::ErrNotAllowed,
        }
    }
}


pub struct SnapManagerCoreView {
    /// The directory that holds the snapshot files.
    pub base: Seq<char>,
    pub registry: Map<SnapKey, Seq<SnapEntry>>,
    pub temp_sst_id: u64,
    pub max_per_file_size: u64,
    pub enable_multi_snapshot_files: bool,
    pub stats: Seq<SnapshotStat>,
    /// The size up to which a snapshot is replayed rather than ingested; zero
    /// for never.
    pub min_ingest_cf_size: u64,
    /// The number of keys up to which a snapshot is replayed rather than ingested.
    pub min_ingest_cf_kvs: u64,
    pub max_total_size: u64,
    /// Whether the store is marked as offline.
    pub offlined: bool,
    /// The bytes that may be written each second; unlimited where not positive.
    pub max_write_bytes_per_sec: i64,
}

/// What all snapshots of a store share.
#[derive(Debug)]
pub struct SnapManagerCore {
    base: String,
    registry: Registry,
    temp_sst_id: u64,
    max_per_file_size: u64,
    enable_multi_snapshot_files: bool,
    stats: Vec<SnapshotStat>,
    min_ingest_cf_size: u64,
    min_ingest_cf_kvs: u64,
    max_total_size: u64,
    offlined: bool,
    max_write_bytes_per_sec: i64,
}

impl View for SnapManagerCore {
    type V = SnapManagerCoreView;

    closed spec fn view(&self) -> SnapManagerCoreView {
        SnapManagerCoreView {
            base: self.base@,
            registry: self.registry@,
            temp_sst_id: self.temp_sst_id,
            max_per_file_size: self.max_per_file_size,
            enable_multi_snapshot_files: self.enable_multi_snapshot_files,
            stats: self.stats@,
            min_ingest_cf_size: self.min_ingest_cf_size,
            min_ingest_cf_kvs: self.min_ingest_cf_kvs,
            max_total_size: self.max_total_size,
            offlined: self.offlined,
            max_write_bytes_per_sec: self.max_write_bytes_per_sec,
        }
    }
}

impl SnapManagerCoreView {
    /// The most bytes of keys and values that one file of a snapshot may
    /// hold: unbounded unless both the caller and the configuration allow
    /// several files.
    pub open spec fn actual_max_per_file_size(self, allow_multi_files_snapshot: bool) -> u64 {
        if allow_multi_files_snapshot && self.enable_multi_snapshot_files {
            self.max_per_file_size
        } else {
            u64::MAX
        }
    }

    /// Whether a snapshot of that size and number of keys is applied by
    /// writing its keys and values rather than by ingesting its files.
    pub open spec fn can_apply_without_ingest(self, cf_size: u64, cf_kvs: u64) -> bool {
        self.min_ingest_cf_size != 0 && cf_size <= self.min_ingest_cf_size && cf_kvs
            <= self.min_ingest_cf_kvs
    }
}

impl SnapManagerCore {
    pub closed spec fn wf(&self) -> bool {
        self.registry.wf()
    }

    pub fn base(&self) -> (base: &str)
        ensures
            base@ == self@.base,
    {
        self.base.as_str()
    }

    /// The bytes of the snapshots in the base directory, given its entries.
    pub fn get_total_snap_size(&self, listing: &Vec<FileInfo>) -> (r: Result<u64, Error>)
        ensures
            match r {
                Ok(total) => total == snap_size(listing_view(listing@), listing@.len() as int),
                Err(e) => e == Error::Other(Cause::Overflow) && snap_size(
                    listing_view(listing@),
                    listing@.len() as int,
                ) > u64::MAX,
            },
    {
        let ghost all = listing_view(listing@);
        let mut total: u64 = 0;
        let mut i: usize = 0;
        while i < listing.len()
            invariant
                i <= listing@.len(),
                all == listing_view(listing@),
                total == snap_size(all, i as int),
            decreases listing@.len() - i,
        {
            let item = &listing[i];
            assert(all[i as int] == item@);
            proof {
                lemma_snap_size_grows(all, i as int + 1, all.len() as int);
            }
            if item.is_file {
                let chars = to_chars(item.name.as_str());
                if !ends_with(&chars, CLONE_FILE_SUFFIX) && !ends_with(&chars, META_FILE_SUFFIX) {
                    if item.len > u64::MAX - total {
                        return Err(Error::Other(Cause::Overflow));
                    }
                    total = total + item.len;
                }
            }
            i += 1;
        }
        Ok(total)
    }

    /// What is to be removed to delete the snapshot of `key`, unless the
    /// snapshot is in use and is not to be deleted.
    pub fn delete_snapshot(
        &self,
        key: &SnapKey,
        snap: &Snapshot,
        on_disk: &Vec<String>,
        check_entry: bool,
    ) -> (plan: Option<Vec<Removal>>)
        requires
            self.wf(),
            snap.wf(),
        ensures
            match plan {
                Some(p) => may_delete(self@.registry, *key, check_entry) && removal_views(p@)
                    == snap@.removals(crate::paths::path_set(on_disk@), on_disk@.len() as int),
                None => !may_delete(self@.registry, *key, check_entry),
            },
    {
        if !self.registry.may_delete(key, check_entry) {
            return None;
        }
        Some(snap.delete(on_disk))
    }

    pub fn get_actual_max_per_file_size(&self, allow_multi_files_snapshot: bool) -> (max: u64)
        ensures
            max == self@.actual_max_per_file_size(allow_multi_files_snapshot),
    {
        if !allow_multi_files_snapshot {
            return u64::MAX;
        }
        if self.enable_multi_snapshot_files {
            return self.max_per_file_size;
        }
        u64::MAX
    }

    pub fn can_apply_cf_without_ingest(&self, cf_size: u64, cf_kvs: u64) -> (can: bool)
        ensures
            can == self@.can_apply_without_ingest(cf_size, cf_kvs),
    {
        if self.min_ingest_cf_size == 0 {
            return false;
        }
        cf_size <= self.min_ingest_cf_size && cf_kvs <= self.min_ingest_cf_kvs
    }
}

/// The fewest keys that the limit below which snapshots are replayed allows.
pub const MIN_INGEST_KVS: u64 = 10000;

/// The limit on keys below which snapshots are replayed, given the number
/// that the limit on bytes stands for.
pub open spec fn ingest_kvs(scaled: u64) -> u64 {
    if scaled > MIN_INGEST_KVS {
        scaled
    } else {
        MIN_INGEST_KVS
    }
}

/// Collects the configuration of a manager.
#[derive(Clone, Copy, Default, Debug, PartialEq, Eq, Structural)]
pub struct SnapManagerBuilder {
    pub max_write_bytes_per_sec: i64,
    pub max_total_size: u64,
    pub max_per_file_size: u64,
    pub enable_multi_snapshot_files: bool,
    pub enable_receive_tablet_snapshot: bool,
    pub min_ingest_snapshot_size: u64,
    pub min_ingest_snapshot_kvs: u64,
}

pub struct SnapManagerView {
    pub core: SnapManagerCoreView,
    pub tablet: Option<crate::tablet::TabletSnapManagerView>,
}

/// Keeps the snapshots of a store.
#[derive(Debug)]
pub struct SnapManager {
    core: SnapManagerCore,
    tablet_snap_manager: Option<TabletSnapManager>,
}

impl View for SnapManager {
    type V = SnapManagerView;

    closed spec fn view(&self) -> SnapManagerView {
        SnapManagerView {
            core: self.core@,
            tablet: match self.tablet_snap_manager {
                Some(t) => Some(t@),
                None => None,
            },
        }
    }
}

/// The manager that a builder makes for the directory `path`. A limit of
/// zero stands for none.
pub open spec fn built(b: SnapManagerBuilder, path: Seq<char>) -> SnapManagerView {
    SnapManagerView {
        core: SnapManagerCoreView {
            base: path,
            registry: Map::empty(),
            temp_sst_id: 0,
            max_per_file_size: if b.max_per_file_size == 0 {
                u64::MAX
            } else {
                b.max_per_file_size
            },
            enable_multi_snapshot_files: b.enable_multi_snapshot_files,
            stats: Seq::empty(),
            min_ingest_cf_size: b.min_ingest_snapshot_size,
            min_ingest_cf_kvs: b.min_ingest_snapshot_kvs,
            max_total_size: if b.max_total_size > 0 {
                b.max_total_size
            } else {
                u64::MAX
            },
            offlined: false,
            max_write_bytes_per_sec: b.max_write_bytes_per_sec,
        },
        tablet: if b.enable_receive_tablet_snapshot {
            Some(
                crate::tablet::TabletSnapManagerView {
                    base: path + "_v2"@,
                    receiving: Seq::empty(),
                    timings: Seq::empty(),
                    sending_count: 0,
                    recving_count: 0,
                },
            )
        } else {
            None
        },
    }
}

impl SnapManagerBuilder {
    /// The builder with nothing set.
    pub open spec fn spec_default() -> SnapManagerBuilder {
        SnapManagerBuilder {
            max_write_bytes_per_sec: 0,
            max_total_size: 0,
            max_per_file_size: 0,
            enable_multi_snapshot_files: false,
            enable_receive_tablet_snapshot: false,
            min_ingest_snapshot_size: 0,
            min_ingest_snapshot_kvs: 0,
        }
    }

    pub fn new() -> (b: SnapManagerBuilder)
        ensures
            b == SnapManagerBuilder::spec_default(),
    {
        SnapManagerBuilder {
            max_write_bytes_per_sec: 0,
            max_total_size: 0,
            max_per_file_size: 0,
            enable_multi_snapshot_files: false,
            enable_receive_tablet_snapshot: false,
            min_ingest_snapshot_size: 0,
            min_ingest_snapshot_kvs: 0,
        }
    }

    #[must_use]
    pub fn max_write_bytes_per_sec(self, bytes: i64) -> (b: SnapManagerBuilder)
        ensures
            b == (SnapManagerBuilder { max_write_bytes_per_sec: bytes, ..self }),
    {
        SnapManagerBuilder { max_write_bytes_per_sec: bytes, ..self }
    }

    #[must_use]
    pub fn max_total_size(self, bytes: u64) -> (b: SnapManagerBuilder)
        ensures
            b == (SnapManagerBuilder { max_total_size: bytes, ..self }),
    {
        SnapManagerBuilder { max_total_size: bytes, ..self }
    }

    pub fn max_per_file_size(self, bytes: u64) -> (b: SnapManagerBuilder)
        ensures
            b == (SnapManagerBuilder { max_per_file_size: bytes, ..self }),
    {
        SnapManagerBuilder { max_per_file_size: bytes, ..self }
    }

    pub fn enable_multi_snapshot_files(self, enabled: bool) -> (b: SnapManagerBuilder)
        ensures
            b == (SnapManagerBuilder { enable_multi_snapshot_files: enabled, ..self }),
    {
        SnapManagerBuilder { enable_multi_snapshot_files: enabled, ..self }
    }

    pub fn enable_receive_tablet_snapshot(self, enabled: bool) -> (b: SnapManagerBuilder)
        ensures
            b == (SnapManagerBuilder { enable_receive_tablet_snapshot: enabled, ..self }),
    {
        SnapManagerBuilder { enable_receive_tablet_snapshot: enabled, ..self }
    }

    /// Sets the size up to which snapshots are replayed rather than
    /// ingested. `scaled_kvs` is the number of keys that this size stands for,
    /// at ten thousand keys to the mebibyte; at least ten thousand are allowed.
    pub fn min_ingest_snapshot_limit(self, bytes: u64, scaled_kvs: u64) -> (b: SnapManagerBuilder)
        ensures
            b == (SnapManagerBuilder {
                min_ingest_snapshot_size: bytes,
                min_ingest_snapshot_kvs: ingest_kvs(scaled_kvs),
                ..self
            }),
    {
        let kvs: u64 = if scaled_kvs > MIN_INGEST_KVS {
            scaled_kvs
        } else {
            MIN_INGEST_KVS
        };
        SnapManagerBuilder { min_ingest_snapshot_size: bytes, min_ingest_snapshot_kvs: kvs, ..self }
    }

    /// Makes the manager of the snapshots in directory `path`.
    pub fn build(self, path: &str) -> (m: SnapManager)
        requires
            path@.len() > 0,
        ensures
            m.wf(),
            m@ == built(self, path@),
    {
        let max_total_size: u64 = if self.max_total_size > 0 {
            self.max_total_size
        } else {
            u64::MAX
        };
        let tablet_snap_manager = if self.enable_receive_tablet_snapshot {
            let mut path_v2 = String::from_str(path);
            path_v2.append("_v2");
            Some(TabletSnapManager::new(path_v2))
        } else {
            None
        };
        let mut m = SnapManager {
            core: SnapManagerCore {
                base: String::from_str(path),
                registry: Registry::new(),
                temp_sst_id: 0,
                max_per_file_size: u64::MAX,
                enable_multi_snapshot_files: self.enable_multi_snapshot_files,
                stats: Vec::new(),
                min_ingest_cf_size: self.min_ingest_snapshot_size,
                min_ingest_cf_kvs: self.min_ingest_snapshot_kvs,
                max_total_size,
                offlined: false,
                max_write_bytes_per_sec: self.max_write_bytes_per_sec,
            },
            tablet_snap_manager,
        };
        m.set_max_per_file_size(self.max_per_file_size);
        m
    }
}

/// The name of the temporary file number `id` of keys to delete.
pub open spec fn ingest_file_name(id: u64) -> Seq<char> {
    DEL_RANGE_PREFIX@ + seq!['_'] + decimal(id as nat) + SST_FILE_SUFFIX@ + TMP_FILE_SUFFIX@
}

impl SnapManager {
    pub closed spec fn wf(&self) -> bool {
        &&& self.core.wf()
        &&& self.tablet_snap_manager matches Some(t) ==> t.wf()
    }

    /// The manager of the snapshots in directory `path`, with nothing configured.
    pub fn new(path: &str) -> (m: SnapManager)
        requires
            path@.len() > 0,
        ensures
            m.wf(),
            m@ == built(SnapManagerBuilder::spec_default(), path@),
    {
        SnapManagerBuilder::new().build(path)
    }

    /// What the snapshots of the store share.
    pub fn shared(&self) -> (shared: &SnapManagerCore)
        requires
            self.wf(),
        ensures
            shared@ == self@.core,
            shared.wf(),
    {
        &self.core
    }

    pub fn tablet_snap_manager(&self) -> (t: Option<&TabletSnapManager>)
        requires
            self.wf(),
        ensures
            match t {
                Some(m) => self@.tablet == Some(m@) && m.wf(),
                None => self@.tablet is None,
            },
    {
        self.tablet_snap_manager.as_ref()
    }

    /// The snapshots that lie idle, given the entries of the base directory.
    pub fn list_idle_snap(&self, listing: &Vec<FileInfo>) -> (idle: Vec<(SnapKey, bool)>)
        requires
            self.wf(),
        ensures
            ascending(idle@),
            forall|q: (SnapKey, bool)|
                idle@.contains(q) <==> exists|i: int|
                    0 <= i < listing@.len() && idle_entry(
                        self@.core.registry,
                        (#[trigger] listing@[i])@,
                    ) == Some(q),
    {
        list_idle_snap(&self.core.registry, listing)
    }

    /// The path of a new temporary file for keys to delete.
    pub fn get_temp_path_for_ingest(&mut self) -> (path: String)
        requires
            old(self).wf(),
        ensures
            final(self).wf(),
            path@ == joined_path(old(self)@.core.base, ingest_file_name(old(self)@.core.temp_sst_id)),
            final(self)@ == (SnapManagerView {
                core: SnapManagerCoreView {
                    temp_sst_id: if old(self)@.core.temp_sst_id == u64::MAX {
                        0
                    } else {
                        (old(self)@.core.temp_sst_id + 1) as u64
                    },
                    ..old(self)@.core
                },
                ..old(self)@
            }),
    {
        proof {
            reveal_strlit("_");
        }
        let id: u64 = self.core.temp_sst_id;
        self.core.temp_sst_id = if id == u64::MAX {
            0
        } else {
            id + 1
        };
        let mut name = String::from_str(DEL_RANGE_PREFIX);
        name.append("_");
        push_decimal(&mut name, id);
        name.append(SST_FILE_SUFFIX);
        name.append(TMP_FILE_SUFFIX);
        assert(name@ =~= ingest_file_name(id));
        join_path(self.core.base.as_str(), name.as_str())
    }

    pub fn has_registered(&self, key: &SnapKey) -> (r: bool)
        requires
            self.wf(),
        ensures
            r == self@.core.registry.contains_key(*key),
    {
        self.core.registry.has_registered(key)
    }

    /// Names the snapshot of `key` as it is opened in `mode`.
    pub fn open_snapshot(&self, key: &SnapKey, mode: OpenMode) -> (s: Snapshot)
        ensures
            s.wf(),
            s@ == new_snapshot(
                self@.core.base,
                *key,
                match mode {
                    OpenMode::Building | OpenMode::Sending => true,
                    OpenMode::Gc(generated) => generated,
                    _ => false,
                },
            ),
    {
        Snapshot::new(self.core.base.as_str(), key, mode.is_sending())
    }

    /// Names the snapshot of `key` for its deletion. Nothing of it is read.
    pub fn get_snapshot_for_gc(&self, key: &SnapKey, is_sending: bool) -> (s: Snapshot)
        ensures
            s.wf(),
            s@ == new_snapshot(self@.core.base, *key, is_sending),
    {
        Snapshot::new(self.core.base.as_str(), key, is_sending)
    }

    /// Names the snapshot that stands for the tablet snapshot of
    /// `tablet_snap_key` once that was received, and gives it its metadata,
    /// which points to the directory of the tablet snapshot.
    pub fn gen_empty_snapshot_for_tablet_snapshot(
        &self,
        tablet_snap_key: &TabletSnapKey,
        for_balance: bool,
    ) -> (s: Snapshot)
        requires
            self.wf(),
            self@.tablet is Some,
        ensures
            s.wf(),
            ({
                let key = SnapKey {
                    region_id: tablet_snap_key.region_id,
                    term: tablet_snap_key.term,
                    idx: tablet_snap_key.idx,
                };
                let fresh = new_snapshot(self@.core.base, key, false);
                s@ == (crate::snapshot::SnapshotView {
                    meta: Some(
                        crate::meta::SnapshotMetaView {
                            cf_files: crate::meta::meta_entries(fresh.cf_files, 3),
                            for_balance,
                            start: 0,
                            generate_duration_sec: 0,
                            tablet_snap_path: joined_path(
                                self@.tablet->0.base,
                                crate::tablet::tablet_dir_name(
                                    crate::snapshot::SNAP_REV_PREFIX@,
                                    *tablet_snap_key,
                                ),
                            ),
                        },
                    ),
                    ..fresh
                })
            }),
    {
        let snap_key = SnapKey::new(
            tablet_snap_key.region_id,
            tablet_snap_key.term,
            tablet_snap_key.idx,
        );
        let mut s = Snapshot::new(self.core.base.as_str(), &snap_key, false);
        match &self.tablet_snap_manager {
            Some(t) => {
                let path = t.final_recv_path(tablet_snap_key);
                let _ = s.set_tablet_meta(path.as_str(), for_balance);
            },
            None => {},
        }
        s
    }

    /// Fails unless the snapshot that is to be used was found on disk.
    pub fn require_snapshot(found: bool) -> (r: Result<(), Error>)
        ensures
            r == if found {
                Ok::<(), Error>(())
            } else {
                Err::<(), Error>(Error::Other(Cause::NotExists))
            },
    {
        if !found {
            return Err(Error::Other(Cause::NotExists));
        }
        Ok(())
    }

    /// The bytes of all snapshots: those in the base directory, given its
    /// entries, and, where tablet snapshots are received, `tablet_size` bytes
    /// of them.
    pub fn get_total_snap_size(&self, listing: &Vec<FileInfo>, tablet_size: u64) -> (r: Result<
        u64,
        Error,
    >)
        requires
            self.wf(),
        ensures
            ({
                let total = snap_size(listing_view(listing@), listing@.len() as int) + if (
                self@.tablet is Some) {
                    tablet_size as nat
                } else {
                    0
                };
                match r {
                    Ok(t) => t == total,
                    Err(e) => e == Error::Other(Cause::Overflow) && total > u64::MAX,
                }
            }),
    {
        let size_v1: u64 = self.core.get_total_snap_size(listing)?;
        let size_v2: u64 = if self.tablet_snap_manager.is_some() {
            tablet_size
        } else {
            0
        };
        if size_v2 > u64::MAX - size_v1 {
            return Err(Error::Other(Cause::Overflow));
        }
        Ok(size_v1 + size_v2)
    }

    pub fn max_total_snap_size(&self) -> (max: u64)
        ensures
            max == self@.core.max_total_size,
    {
        self.core.max_total_size
    }

    pub fn set_max_total_snap_size(&mut self, max_total_size: u64)
        requires
            old(self).wf(),
        ensures
            final(self).wf(),
            final(self)@ == (SnapManagerView {
                core: SnapManagerCoreView { max_total_size, ..old(self)@.core },
                ..old(self)@
            }),
    {
        self.core.max_total_size = max_total_size;
    }

    /// Sets the most bytes of keys and values that one file of a snapshot may
    /// hold. Zero stands for no limit.
    pub fn set_max_per_file_size(&mut self, max_per_file_size: u64)
        requires
            old(self).wf(),
        ensures
            final(self).wf(),
            final(self)@ == (SnapManagerView {
                core: SnapManagerCoreView {
                    max_per_file_size: if max_per_file_size == 0 {
                        u64::MAX
                    } else {
                        max_per_file_size
                    },
                    ..old(self)@.core
                },
                ..old(self)@
            }),
    {
        if max_per_file_size == 0 {
            self.core.max_per_file_size = u64::MAX;
        } else {
            self.core.max_per_file_size = max_per_file_size;
        }
    }

    pub fn get_actual_max_per_file_size(&self, allow_multi_files_snapshot: bool) -> (max: u64)
        ensures
            max == self@.core.actual_max_per_file_size(allow_multi_files_snapshot),
    {
        self.core.get_actual_max_per_file_size(allow_multi_files_snapshot)
    }

    pub fn set_enable_multi_snapshot_files(&mut self, enable_multi_snapshot_files: bool)
        requires
            old(self).wf(),
        ensures
            final(self).wf(),
            final(self)@ == (SnapManagerView {
                core: SnapManagerCoreView { enable_multi_snapshot_files, ..old(self)@.core },
                ..old(self)@
            }),
    {
        self.core.enable_multi_snapshot_files = enable_multi_snapshot_files;
    }

    /// The bytes that may be written each second; unlimited where not positive.
    pub fn max_write_bytes_per_sec(&self) -> (bytes: i64)
        ensures
            bytes == self@.core.max_write_bytes_per_sec,
    {
        self.core.max_write_bytes_per_sec
    }

    /// Sets the size up to which snapshots are replayed rather than
    /// ingested, as the builder does.
    pub fn set_min_ingest_cf_limit(&mut self, bytes: u64, scaled_kvs: u64)
        requires
            old(self).wf(),
        ensures
            final(self).wf(),
            final(self)@ == (SnapManagerView {
                core: SnapManagerCoreView {
                    min_ingest_cf_size: bytes,
                    min_ingest_cf_kvs: ingest_kvs(scaled_kvs),
                    ..old(self)@.core
                },
                ..old(self)@
            }),
    {
        self.core.min_ingest_cf_size = bytes;
        self.core.min_ingest_cf_kvs = if scaled_kvs > MIN_INGEST_KVS {
            scaled_kvs
        } else {
            MIN_INGEST_KVS
        };
    }

    /// Takes down the statistics of one snapshot.
    pub fn collect_stat(&mut self, snap: SnapshotStat)
        requires
            old(self).wf(),
        ensures
            final(self).wf(),
            final(self)@ == (SnapManagerView {
                core: SnapManagerCoreView {
                    stats: old(self)@.core.stats.push(snap),
                    ..old(self)@.core
                },
                ..old(self)@
            }),
    {
        self.core.stats.push(snap);
    }

    /// Registers the snapshot of `key` as in use under `entry`.
    pub fn register(&mut self, key: SnapKey, entry: SnapEntry)
        requires
            old(self).wf(),
        ensures
            final(self).wf(),
            final(self)@ == (SnapManagerView {
                core: SnapManagerCoreView {
                    registry: registered(old(self)@.core.registry, key, entry),
                    ..old(self)@.core
                },
                ..old(self)@
            }),
    {
        let _ = self.core.registry.register(key, entry);
    }

    /// Ends the use of the snapshot of `key` under `entry`.
    pub fn deregister(&mut self, key: &SnapKey, entry: &SnapEntry)
        requires
            old(self).wf(),
        ensures
            final(self).wf(),
            final(self)@ == (SnapManagerView {
                core: SnapManagerCoreView {
                    registry: deregistered(old(self)@.core.registry, *key, *entry),
                    ..old(self)@.core
                },
                ..old(self)@
            }),
    {
        let _ = self.core.registry.deregister(key, entry);
    }

    /// Reports how many snapshots are in use on each side, and hands out the
    /// statistics taken down since the last report.
    pub fn stats(&mut self) -> (stats: SnapStats)
        requires
            old(self).wf(),
        ensures
            final(self).wf(),
            stats.sending_count == sending_keys(old(self)@.core.registry).len(),
            stats.receiving_count == receiving_keys(old(self)@.core.registry).len(),
            stats.stats@ == old(self)@.core.stats,
            final(self)@ == (SnapManagerView {
                core: SnapManagerCoreView { stats: Seq::empty(), ..old(self)@.core },
                ..old(self)@
            }),
    {
        let (sending_count, receiving_count) = self.core.registry.counts();
        let mut stats: Vec<SnapshotStat> = Vec::new();
        core::mem::swap(&mut stats, &mut self.core.stats);
        SnapStats { sending_count, receiving_count, stats }
    }

    /// What is to be removed to delete the snapshot of `key`, unless the
    /// snapshot is in use and is not to be deleted.
    pub fn delete_snapshot(
        &self,
        key: &SnapKey,
        snap: &Snapshot,
        on_disk: &Vec<String>,
        check_entry: bool,
    ) -> (plan: Option<Vec<Removal>>)
        requires
            self.wf(),
            snap.wf(),
        ensures
            match plan {
                Some(p) => may_delete(self@.core.registry, *key, check_entry) && removal_views(p@)
                    == snap@.removals(crate::paths::path_set(on_disk@), on_disk@.len() as int),
                None => !may_delete(self@.core.registry, *key, check_entry),
            },
    {
        self.core.delete_snapshot(key, snap, on_disk, check_entry)
    }

    pub fn set_offline(&mut self, state: bool)
        requires
            old(self).wf(),
        ensures
            final(self).wf(),
            final(self)@ == (SnapManagerView {
                core: SnapManagerCoreView { offlined: state, ..old(self)@.core },
                ..old(self)@
            }),
    {
        self.core.offlined = state;
    }

    pub fn is_offlined(&self) -> (offlined: bool)
        ensures
            offlined == self@.core.offlined,
    {
        self.core.offlined
    }
}


/// The files of a snapshot are found under its key: a file in the base
/// directory whose name begins as the names of the files of the snapshot of
/// `key` do, and goes on with an underscore or a dot, is listed as that
/// snapshot, a generated one or a received one as it is, unless the key is
/// registered.
pub proof fn lemma_snapshot_files_are_listed(
    registry: Map<SnapKey, Seq<SnapEntry>>,
    key: SnapKey,
    is_sending: bool,
    rest: Seq<char>,
    len: u64,
)
    requires
        rest.len() > 0,
        rest[0] == '_' || rest[0] == '.',
    ensures
        idle_entry(
            registry,
            FileInfoView {
                name: crate::snapshot::snap_prefix(is_sending, key) + rest,
                is_file: true,
                len,
            },
        ) == if registry.contains_key(key) {
            None
        } else {
            Some((key, is_sending))
        },
{
    reveal_strlit("gen");
    reveal_strlit("rev");
    reveal_strlit("del_range");
    let prefix = if is_sending {
        SNAP_GEN_PREFIX@
    } else {
        crate::snapshot::SNAP_REV_PREFIX@
    };
    let name = crate::snapshot::snap_prefix(is_sending, key) + rest;
    assert(name =~= prefix + seq!['_'] + key.spec_to_string() + rest);
    crate::key::lemma_snap_key_roundtrip(prefix, key, rest);
    assert(name[0] == prefix[0]);
    assert(name[1] == prefix[1]);
    assert(name[2] == prefix[2]);
    assert(!DEL_RANGE_PREFIX@.is_prefix_of(name)) by {
        if DEL_RANGE_PREFIX@.is_prefix_of(name) {
            assert(name.subrange(0, 9)[0] == DEL_RANGE_PREFIX@[0]);
        }
    }
    assert(SNAP_GEN_PREFIX@.is_prefix_of(name) == is_sending) by {
        if is_sending {
            assert(name.subrange(0, 3) =~= SNAP_GEN_PREFIX@);
        } else if SNAP_GEN_PREFIX@.is_prefix_of(name) {
            assert(name.subrange(0, 3)[0] == SNAP_GEN_PREFIX@[0]);
        }
    }
}

} // verus!
