//! One snapshot on disk: its files, its metadata, and what is recorded of them
//! while it is built, sent, received and applied.
use vstd::prelude::*;
use crate::cf_file::{
    chunk_file_name, sum_u64, CfFile, CfFileView, META_FILE_SUFFIX, SST_FILE_SUFFIX,
    TMP_FILE_SUFFIX,
};
use crate::error::{Cause, Error};
use crate::key::SnapKey;
use crate::meta::{
    all_wf, cf_views, SnapshotCfFileView, SnapshotMeta, SnapshotMetaView, CF_DEFAULT, CF_LOCK,
    CF_WRITE,
};
use crate::paths::{join_path, joined_path};
use crate::stream::{Stream, StreamChunk, StreamView, WritePlan};
use crate::text::str_eq;

verus! {

/// Name prefix of the files of a snapshot that this store generated.
pub const SNAP_GEN_PREFIX: &'static str = "gen";

/// Name prefix of the files of a snapshot that this store received.
pub const SNAP_REV_PREFIX: &'static str = "rev";

/// How often the deletion of a corrupted snapshot is tried.
pub const DELETE_RETRY_MAX_TIMES: u32 = 6;

/// How long to wait after a deletion that was refused, in milliseconds.
pub const DELETE_RETRY_TIME_MILLIS: u64 = 500;

/// What to do with metadata that is found on disk when a snapshot is opened.
#[derive(Clone, Copy, PartialEq, Eq, Debug, Structural)]
pub enum CheckPolicy {
    /// Load it; where that fails, delete the snapshot and go on without it.
    ErrAllowed,
    /// Load it; where that fails, fail.
    ErrNotAllowed,
    /// Leave it unread.
    Skip,
}

/// The snapshot as a mathematical value.
pub struct SnapshotView {
    pub key: SnapKey,
    pub display_path: Seq<char>,
    pub dir_path: Seq<char>,
    pub cf_files: Seq<CfFileView>,
    /// The column family that is being built.
    pub cf_index: int,
    pub meta: Option<SnapshotMetaView>,
    pub meta_path: Seq<char>,
    pub meta_tmp_path: Seq<char>,
    /// Whether the temporary metadata file is held open for writing.
    pub meta_file_open: bool,
    /// Whether the snapshot is uncommitted and owns temporary files.
    pub hold_tmp_files: bool,
    /// For a snapshot that is being sent or received: its chunks in the order
    /// of transfer, and how far the transfer has come.
    pub stream: StreamView,
}

/// The common beginning of the names of a snapshot's files.
pub open spec fn snap_prefix(is_sending: bool, key: SnapKey) -> Seq<char> {
    (if is_sending {
        SNAP_GEN_PREFIX@
    } else {
        SNAP_REV_PREFIX@
    }) + seq!['_'] + key.spec_to_string()
}

/// The files of column family `cf`, before any chunk is recorded.
pub open spec fn new_cf_file(dir: Seq<char>, prefix: Seq<char>, cf: Seq<char>) -> CfFileView {
    CfFileView {
        cf,
        path: dir,
        file_prefix: prefix + seq!['_'] + cf,
        file_suffix: SST_FILE_SUFFIX@,
        kv_count: 0,
        size: Seq::empty(),
        checksum: Seq::empty(),
    }
}

/// How a snapshot is shown: its directory and the pattern of its file names.
pub open spec fn display_path_of(dir: Seq<char>, prefix: Seq<char>) -> Seq<char> {
    dir + seq!['/'] + prefix + seq!['_'] + "(default|lock|write)"@ + SST_FILE_SUFFIX@
}

/// A snapshot that was just named: nothing recorded, nothing held.
pub open spec fn new_snapshot(dir: Seq<char>, key: SnapKey, is_sending: bool) -> SnapshotView {
    let prefix = snap_prefix(is_sending, key);
    SnapshotView {
        key,
        display_path: display_path_of(dir, prefix),
        dir_path: dir,
        cf_files: seq![
            new_cf_file(dir, prefix, CF_DEFAULT@),
            new_cf_file(dir, prefix, CF_LOCK@),
            new_cf_file(dir, prefix, CF_WRITE@),
        ],
        cf_index: 0,
        meta: None,
        meta_path: joined_path(dir, prefix + META_FILE_SUFFIX@),
        meta_tmp_path: joined_path(dir, prefix + META_FILE_SUFFIX@ + TMP_FILE_SUFFIX@),
        meta_file_open: false,
        hold_tmp_files: false,
        stream: StreamView { chunks: Seq::empty(), cursor: 0 },
    }
}

/// The bytes of the chunks of the first `n` column families.
pub open spec fn total_size_of(files: Seq<CfFileView>, n: int) -> nat
    decreases n,
{
    if n <= 0 {
        0
    } else {
        total_size_of(files, n - 1) + sum_u64(files[n - 1].size)
    }
}

/// The keys of the first `n` column families.
pub open spec fn total_count_of(files: Seq<CfFileView>, n: int) -> nat
    decreases n,
{
    if n <= 0 {
        0
    } else {
        total_count_of(files, n - 1) + files[n - 1].kv_count as nat
    }
}

impl SnapshotView {
    /// The bytes of all chunks.
    pub open spec fn total_size(self) -> nat {
        total_size_of(self.cf_files, self.cf_files.len() as int)
    }

    /// The keys of all column families.
    pub open spec fn total_count(self) -> nat {
        total_count_of(self.cf_files, self.cf_files.len() as int)
    }
}

#[derive(Debug)]
struct MetaFile {
    meta: Option<SnapshotMeta>,
    path: String,
    tmp_path: String,
    open: bool,
}

/// One snapshot on disk.
#[derive(Debug)]
pub struct Snapshot {
    key: SnapKey,
    display_path: String,
    dir_path: String,
    cf_files: Vec<CfFile>,
    cf_index: usize,
    meta_file: MetaFile,
    hold_tmp_files: bool,
    stream: Stream,
}

impl View for Snapshot {
    type V = SnapshotView;

    closed spec fn view(&self) -> SnapshotView {
        SnapshotView {
            key: self.key,
            display_path: self.display_path@,
            dir_path: self.dir_path@,
            cf_files: cf_views(self.cf_files@),
            cf_index: self.cf_index as int,
            meta: match self.meta_file.meta {
                Some(m) => Some(m@),
                None => None,
            },
            meta_path: self.meta_file.path@,
            meta_tmp_path: self.meta_file.tmp_path@,
            meta_file_open: self.meta_file.open,
            hold_tmp_files: self.hold_tmp_files,
            stream: self.stream@,
        }
    }
}

impl Snapshot {
    /// There are the three column families of a snapshot, each well formed,
    /// and the stream is in order.
    pub closed spec fn wf(&self) -> bool {
        &&& all_wf(self.cf_files@)
        &&& self.cf_files@.len() == 3
        &&& self.cf_files@[0]@.cf == CF_DEFAULT@
        &&& self.cf_files@[1]@.cf == CF_LOCK@
        &&& self.cf_files@[2]@.cf == CF_WRITE@
        &&& self.stream@.wf()
    }

    /// What `wf` means for the view.
    pub proof fn lemma_wf(&self)
        requires
            self.wf(),
        ensures
            self@.cf_files.len() == 3,
            self@.cf_files[0].cf == CF_DEFAULT@,
            self@.cf_files[1].cf == CF_LOCK@,
            self@.cf_files[2].cf == CF_WRITE@,
            self@.stream.wf(),
            forall|i: int| 0 <= i < self@.cf_files.len() ==> (#[trigger] self@.cf_files[i]).wf(),
    {
        assert forall|i: int| 0 <= i < self@.cf_files.len() implies (
        #[trigger] self@.cf_files[i]).wf() by {
            assert(self.cf_files@[i].wf());
        }
    }

    fn name_prefix(key: &SnapKey, is_sending: bool) -> (prefix: String)
        ensures
            prefix@ == snap_prefix(is_sending, *key),
    {
        proof {
            reveal_strlit("_");
        }
        let mut prefix = String::from_str(
            if is_sending {
                SNAP_GEN_PREFIX
            } else {
                SNAP_REV_PREFIX
            },
        );
        prefix.append("_");
        prefix.append(key.to_string().as_str());
        assert(prefix@ =~= snap_prefix(is_sending, *key));
        prefix
    }

    fn new_cf(dir: &str, prefix: &str, cf: &'static str) -> (f: CfFile)
        ensures
            f.wf(),
            f@ == new_cf_file(dir@, prefix@, cf@),
    {
        proof {
            reveal_strlit("_");
        }
        let mut file_prefix = String::from_str(prefix);
        file_prefix.append("_");
        file_prefix.append(cf);
        assert(file_prefix@ =~= prefix@ + seq!['_'] + cf@);
        CfFile::new(cf, String::from_str(dir), file_prefix, String::from_str(SST_FILE_SUFFIX))
    }

    /// How a snapshot in `dir_path` whose file names begin with `prefix` is shown.
    pub fn get_display_path(dir_path: &str, prefix: &str) -> (shown: String)
        ensures
            shown@ == display_path_of(dir_path@, prefix@),
    {
        proof {
            reveal_strlit("_");
            reveal_strlit("/");
        }
        let mut shown = String::from_str(dir_path);
        shown.append("/");
        shown.append(prefix);
        shown.append("_");
        shown.append("(default|lock|write)");
        shown.append(SST_FILE_SUFFIX);
        assert(shown@ =~= display_path_of(dir_path@, prefix@));
        shown
    }

    /// Names the snapshot of `key` in directory `dir`: a generated one where
    /// `is_sending`, a received one else. Nothing on disk is looked at.
    pub fn new(dir: &str, key: &SnapKey, is_sending: bool) -> (s: Snapshot)
        ensures
            s.wf(),
            s@ == new_snapshot(dir@, *key, is_sending),
    {
        let prefix = Snapshot::name_prefix(key, is_sending);
        let display_path = Snapshot::get_display_path(dir, prefix.as_str());
        let mut cf_files: Vec<CfFile> = Vec::new();
        cf_files.push(Snapshot::new_cf(dir, prefix.as_str(), CF_DEFAULT));
        cf_files.push(Snapshot::new_cf(dir, prefix.as_str(), CF_LOCK));
        cf_files.push(Snapshot::new_cf(dir, prefix.as_str(), CF_WRITE));
        let mut meta_filename = prefix.clone();
        meta_filename.append(META_FILE_SUFFIX);
        let meta_path = join_path(dir, meta_filename.as_str());
        meta_filename.append(TMP_FILE_SUFFIX);
        let meta_tmp_path = join_path(dir, meta_filename.as_str());
        let s = Snapshot {
            key: *key,
            display_path,
            dir_path: String::from_str(dir),
            cf_files,
            cf_index: 0,
            meta_file: MetaFile { meta: None, path: meta_path, tmp_path: meta_tmp_path, open: false },
            hold_tmp_files: false,
            stream: Stream::empty(),
        };
        assert(s@.cf_files =~= new_snapshot(dir@, *key, is_sending).cf_files);
        assert(s@.stream.chunks =~= Seq::<StreamChunk>::empty());
        s
    }

    pub fn key(&self) -> (key: &SnapKey)
        ensures
            *key == self@.key,
    {
        &self.key
    }

    /// How the snapshot is shown.
    pub fn path(&self) -> (shown: &str)
        ensures
            shown@ == self@.display_path,
    {
        self.display_path.as_str()
    }

    pub fn dir_path(&self) -> (dir: &str)
        ensures
            dir@ == self@.dir_path,
    {
        self.dir_path.as_str()
    }

    pub fn meta_path(&self) -> (path: &str)
        ensures
            path@ == self@.meta_path,
    {
        self.meta_file.path.as_str()
    }

    pub fn meta_tmp_path(&self) -> (path: &str)
        ensures
            path@ == self@.meta_tmp_path,
    {
        self.meta_file.tmp_path.as_str()
    }

    pub fn hold_tmp_files(&self) -> (held: bool)
        ensures
            held == self@.hold_tmp_files,
    {
        self.hold_tmp_files
    }

    pub fn cf_files(&self) -> (files: &Vec<CfFile>)
        requires
            self.wf(),
        ensures
            cf_views(files@) == self@.cf_files,
            all_wf(files@),
    {
        &self.cf_files
    }

    pub fn snapshot_meta(&self) -> (meta: &Option<SnapshotMeta>)
        ensures
            match *meta {
                Some(m) => self@.meta == Some(m@),
                None => self@.meta is None,
            },
    {
        &self.meta_file.meta
    }

    /// Where the tablet snapshot lies that this one passes through, if the
    /// metadata is loaded.
    pub fn tablet_snap_path(&self) -> (path: Option<String>)
        ensures
            match path {
                Some(p) => self@.meta is Some && p@ == self@.meta->0.tablet_snap_path,
                None => self@.meta is None,
            },
    {
        match &self.meta_file.meta {
            Some(m) => Some(m.tablet_snap_path.clone()),
            None => None,
        }
    }
}


/// What walking the entries of a metadata list has found: the lengths of the
/// runs that are closed, the column family of the run that is open, and how
/// many entries that run has so far.
pub struct RunCount {
    pub counts: Seq<nat>,
    pub current: Seq<char>,
    pub file_count: nat,
}

/// The runs among the first `n` entries. An entry opens a new run where its
/// column family differs from that of the run before it; while no name is at
/// hand, which is so at the start and behind an entry with an empty name, the
/// next entry starts the count afresh.
pub open spec fn count_runs(entries: Seq<SnapshotCfFileView>, n: int) -> RunCount
    decreases n,
{
    if n <= 0 {
        RunCount { counts: Seq::empty(), current: Seq::empty(), file_count: 0 }
    } else {
        let s = count_runs(entries, n - 1);
        let cf = entries[n - 1].cf;
        if s.current.len() == 0 {
            RunCount { current: cf, file_count: 1, ..s }
        } else if s.current != cf {
            RunCount { counts: s.counts.push(s.file_count), current: cf, file_count: 1 }
        } else {
            RunCount { file_count: s.file_count + 1, ..s }
        }
    }
}

/// How many entries the metadata holds for each column family, in order.
pub open spec fn cf_file_counts(entries: Seq<SnapshotCfFileView>) -> Seq<nat> {
    let s = count_runs(entries, entries.len() as int);
    s.counts.push(s.file_count)
}

/// Where the walk over the entries stands: the column family and the chunk
/// that the next entry is for, the column families as recorded so far, and the
/// fault that stopped the walk, if one did.
pub struct Placement {
    pub cf_idx: int,
    pub file_idx: int,
    pub files: Seq<CfFileView>,
    pub fault: Option<Cause>,
}

/// Records one entry. Its column family must be the one that its run stands
/// for; an entry of size zero records nothing; any other is recorded as the
/// chunk of its place in the run, which must be a chunk already recorded or
/// the next one.
pub open spec fn place_entry(st: Placement, counts: Seq<nat>, e: SnapshotCfFileView) -> Placement {
    if st.fault is Some {
        st
    } else if 0 <= st.cf_idx < counts.len() && st.cf_idx < st.files.len() && st.file_idx
        < counts[st.cf_idx] {
        let f = st.files[st.cf_idx];
        if e.cf != f.cf {
            Placement { fault: Some(Cause::CfName { index: st.cf_idx as usize }), ..st }
        } else if e.size != 0 && st.file_idx > f.size.len() {
            Placement {
                fault: Some(
                    Cause::ChunkGap {
                        cf_index: st.cf_idx as usize,
                        file_index: st.file_idx as usize,
                    },
                ),
                ..st
            }
        } else {
            let files = if e.size != 0 {
                st.files.update(st.cf_idx, f.upsert(st.file_idx, e.size, e.checksum))
            } else {
                st.files
            };
            if st.file_idx + 1 >= counts[st.cf_idx] {
                Placement { cf_idx: st.cf_idx + 1, file_idx: 0, files, fault: None }
            } else {
                Placement { cf_idx: st.cf_idx, file_idx: st.file_idx + 1, files, fault: None }
            }
        }
    } else {
        st
    }
}

/// Records the first `n` entries, one after the other.
pub open spec fn place_entries(
    files: Seq<CfFileView>,
    counts: Seq<nat>,
    entries: Seq<SnapshotCfFileView>,
    n: int,
) -> Placement
    decreases n,
{
    if n <= 0 {
        Placement { cf_idx: 0, file_idx: 0, files, fault: None }
    } else {
        place_entry(place_entries(files, counts, entries, n - 1), counts, entries[n - 1])
    }
}

/// The run lengths as numbers.
pub open spec fn as_nats(v: Seq<usize>) -> Seq<nat> {
    v.map_values(|c: usize| c as nat)
}

impl Snapshot {
    /// Makes `cf` the column family that is worked on.
    pub fn switch_to_cf_file(&mut self, cf: &str) -> (r: Result<(), Error>)
        requires
            old(self).wf(),
        ensures
            final(self).wf(),
            match r {
                Ok(()) => {
                    &&& 0 <= final(self)@.cf_index < old(self)@.cf_files.len()
                    &&& old(self)@.cf_files[final(self)@.cf_index].cf == cf@
                    &&& forall|i: int|
                        0 <= i < final(self)@.cf_index ==> (#[trigger] old(self)@.cf_files[i]).cf
                            != cf@
                    &&& final(self)@ == (SnapshotView {
                        cf_index: final(self)@.cf_index,
                        ..old(self)@
                    })
                },
                Err(e) => {
                    &&& e == Error::Other(Cause::UnknownCf)
                    &&& forall|i: int|
                        0 <= i < old(self)@.cf_files.len() ==> (
                        #[trigger] old(self)@.cf_files[i]).cf != cf@
                    &&& final(self)@ == old(self)@
                },
            },
    {
        let mut i: usize = 0;
        while i < self.cf_files.len()
            invariant
                i <= self.cf_files@.len(),
                *self == *old(self),
                self.wf(),
                forall|j: int| 0 <= j < i ==> (#[trigger] self@.cf_files[j]).cf != cf@,
            decreases self.cf_files@.len() - i,
        {
            if str_eq(self.cf_files[i].cf(), cf) {
                self.cf_index = i;
                return Ok(());
            }
            i += 1;
        }
        Err(Error::Other(Cause::UnknownCf))
    }

    /// The bytes of all chunks.
    pub fn total_size(&self) -> (total: u64)
        requires
            self.wf(),
            self@.total_size() <= u64::MAX,
        ensures
            total == self@.total_size(),
    {
        let ghost views = self@.cf_files;
        let mut total: u64 = 0;
        let mut k: usize = 0;
        while k < self.cf_files.len()
            invariant
                k <= self.cf_files@.len(),
                views == cf_views(self.cf_files@),
                total == total_size_of(views, k as int),
                total_size_of(views, views.len() as int) <= u64::MAX,
            decreases self.cf_files@.len() - k,
        {
            let sizes = self.cf_files[k].size();
            assert(sizes@ == views[k as int].size);
            proof {
                lemma_total_size_grows(views, k as int + 1, views.len() as int);
            }
            let mut sum: u64 = 0;
            let mut i: usize = 0;
            while i < sizes.len()
                invariant
                    i <= sizes@.len(),
                    sum == sum_u64(sizes@.take(i as int)),
                    sum_u64(sizes@) <= u64::MAX,
                decreases sizes@.len() - i,
            {
                proof {
                    lemma_sum_u64_grows(sizes@, i as int + 1, sizes@.len() as int);
                    assert(sizes@.take(i + 1).drop_last() =~= sizes@.take(i as int));
                }
                sum = sum + sizes[i];
                i += 1;
            }
            assert(sizes@.take(i as int) =~= sizes@);
            total = total + sum;
            k += 1;
        }
        total
    }

    /// The bytes of all chunks, where that number is a `u64`.
    pub fn checked_total_size(&self) -> (total: Option<u64>)
        requires
            self.wf(),
        ensures
            match total {
                Some(t) => t == self@.total_size(),
                None => self@.total_size() > u64::MAX,
            },
    {
        let ghost views = self@.cf_files;
        let mut total: u64 = 0;
        let mut k: usize = 0;
        while k < self.cf_files.len()
            invariant
                k <= self.cf_files@.len(),
                views == cf_views(self.cf_files@),
                total == total_size_of(views, k as int),
            decreases self.cf_files@.len() - k,
        {
            let sizes = self.cf_files[k].size();
            assert(sizes@ == views[k as int].size);
            proof {
                lemma_total_size_grows(views, k as int + 1, views.len() as int);
            }
            let mut i: usize = 0;
            let ghost base = total;
            while i < sizes.len()
                invariant
                    i <= sizes@.len(),
                    total == base + sum_u64(sizes@.take(i as int)),
                    base + sum_u64(sizes@) <= total_size_of(views, views.len() as int),
                    views == cf_views(self.cf_files@),
                decreases sizes@.len() - i,
            {
                proof {
                    lemma_sum_u64_grows(sizes@, i as int + 1, sizes@.len() as int);
                    assert(sizes@.take(i + 1).drop_last() =~= sizes@.take(i as int));
                }
                if sizes[i] > u64::MAX - total {
                    assert(sum_u64(sizes@.take(i + 1)) == sum_u64(sizes@.take(i as int))
                        + sizes@[i as int]);
                    assert(views == self@.cf_files);
                    return None;
                }
                total = total + sizes[i];
                i += 1;
            }
            assert(sizes@.take(i as int) =~= sizes@);
            k += 1;
        }
        Some(total)
    }

    /// The keys of all column families, where that number is a `u64`.
    pub fn checked_total_count(&self) -> (total: Option<u64>)
        requires
            self.wf(),
        ensures
            match total {
                Some(t) => t == self@.total_count(),
                None => self@.total_count() > u64::MAX,
            },
    {
        let ghost views = self@.cf_files;
        let mut total: u64 = 0;
        let mut k: usize = 0;
        while k < self.cf_files.len()
            invariant
                k <= self.cf_files@.len(),
                views == cf_views(self.cf_files@),
                total == total_count_of(views, k as int),
            decreases self.cf_files@.len() - k,
        {
            let count: u64 = self.cf_files[k].kv_count();
            assert(count == views[k as int].kv_count);
            proof {
                lemma_total_count_grows(views, k as int + 1, views.len() as int);
            }
            if count > u64::MAX - total {
                return None;
            }
            total = total + count;
            k += 1;
        }
        Some(total)
    }

    /// The keys of all column families.
    pub fn total_count(&self) -> (total: u64)
        requires
            self.wf(),
            self@.total_count() <= u64::MAX,
        ensures
            total == self@.total_count(),
    {
        match self.checked_total_count() {
            Some(t) => t,
            None => 0,
        }
    }
}

/// A longer beginning of a list of sizes does not sum to less.
pub proof fn lemma_sum_u64_grows(s: Seq<u64>, i: int, j: int)
    requires
        0 <= i <= j <= s.len(),
    ensures
        sum_u64(s.take(i)) <= sum_u64(s.take(j)),
        j == s.len() ==> sum_u64(s.take(j)) == sum_u64(s),
    decreases j - i,
{
    if j == s.len() {
        assert(s.take(j) =~= s);
    }
    if i < j {
        lemma_sum_u64_grows(s, i, j - 1);
        assert(s.take(j).drop_last() =~= s.take(j - 1));
    }
}

/// More column families do not hold fewer bytes.
pub proof fn lemma_total_size_grows(files: Seq<CfFileView>, i: int, j: int)
    requires
        0 <= i <= j,
    ensures
        total_size_of(files, i) <= total_size_of(files, j),
    decreases j - i,
{
    if i < j {
        lemma_total_size_grows(files, i, j - 1);
    }
}

/// More column families do not hold fewer keys.
pub proof fn lemma_total_count_grows(files: Seq<CfFileView>, i: int, j: int)
    requires
        0 <= i <= j,
    ensures
        total_count_of(files, i) <= total_count_of(files, j),
    decreases j - i,
{
    if i < j {
        lemma_total_count_grows(files, i, j - 1);
    }
}


/// Once a fault has stopped the walk, further entries change nothing.
pub proof fn lemma_fault_stays(
    files: Seq<CfFileView>,
    counts: Seq<nat>,
    entries: Seq<SnapshotCfFileView>,
    k: int,
    n: int,
)
    requires
        0 <= k <= n,
        place_entries(files, counts, entries, k).fault is Some,
    ensures
        place_entries(files, counts, entries, n) == place_entries(files, counts, entries, k),
    decreases n - k,
{
    if k < n {
        lemma_fault_stays(files, counts, entries, k, n - 1);
    }
}

impl Snapshot {
    /// Takes the metadata for this snapshot and records its chunks.
    ///
    /// The entries must fall into as many runs as the snapshot has column
    /// families, else nothing is recorded and the count of runs is reported.
    /// The entries are then recorded in order, up to the first that is for
    /// another column family than its run, or that leaves a chunk out; with
    /// such an entry the metadata is refused. It is kept only when every entry
    /// was recorded.
    pub fn set_snapshot_meta(&mut self, snapshot_meta: SnapshotMeta) -> (r: Result<(), Error>)
        requires
            old(self).wf(),
        ensures
            final(self).wf(),
            ({
                let entries = snapshot_meta@.cf_files;
                let counts = cf_file_counts(entries);
                if counts.len() != 3 {
                    &&& r == Err::<(), Error>(
                        Error::Other(Cause::CfCount { expected: 3, got: counts.len() as usize }),
                    )
                    &&& final(self)@ == old(self)@
                } else {
                    let p = place_entries(
                        old(self)@.cf_files,
                        counts,
                        entries,
                        entries.len() as int,
                    );
                    match p.fault {
                        Some(c) => {
                            &&& r == Err::<(), Error>(Error::Other(c))
                            &&& final(self)@ == (SnapshotView { cf_files: p.files, ..old(self)@ })
                        },
                        None => {
                            &&& r == Ok::<(), Error>(())
                            &&& final(self)@ == (SnapshotView {
                                cf_files: p.files,
                                meta: Some(snapshot_meta@),
                                ..old(self)@
                            })
                        },
                    }
                }
            }),
    {
        let ghost ev = snapshot_meta@.cf_files;
        let entries = &snapshot_meta.cf_files;
        let mut counts: Vec<usize> = Vec::new();
        let mut file_count: usize = 0;
        let mut current: &str = "";
        proof {
            reveal_strlit("");
        }
        let mut i: usize = 0;
        while i < entries.len()
            invariant
                i <= entries@.len(),
                ev == entries@.map_values(|e: crate::meta::SnapshotCfFile| e@),
                as_nats(counts@) == count_runs(ev, i as int).counts,
                current@ == count_runs(ev, i as int).current,
                file_count == count_runs(ev, i as int).file_count,
                file_count <= i,
            decreases entries@.len() - i,
        {
            let cf = entries[i].cf.as_str();
            assert(ev[i as int].cf == cf@);
            if current.is_empty() {
                current = cf;
                file_count = 1;
            } else if !str_eq(current, cf) {
                let ghost before = as_nats(counts@);
                counts.push(file_count);
                assert(as_nats(counts@) =~= before.push(file_count as nat));
                current = cf;
                file_count = 1;
            } else {
                file_count += 1;
            }
            i += 1;
        }
        let ghost before = as_nats(counts@);
        counts.push(file_count);
        assert(as_nats(counts@) =~= before.push(file_count as nat));
        let ghost nats = as_nats(counts@);
        assert(nats == cf_file_counts(ev));
        if counts.len() != 3 {
            return Err(Error::Other(Cause::CfCount { expected: 3, got: counts.len() }));
        }
        let ghost old_files = self@.cf_files;
        let mut file_idx: usize = 0;
        let mut cf_idx: usize = 0;
        let mut i: usize = 0;
        while i < entries.len()
            invariant
                i <= entries@.len(),
                ev == entries@.map_values(|e: crate::meta::SnapshotCfFile| e@),
                nats == as_nats(counts@),
                nats == cf_file_counts(ev),
                ev == snapshot_meta@.cf_files,
                counts@.len() == 3,
                self.wf(),
                old_files == old(self)@.cf_files,
                self@ == (SnapshotView { cf_files: self@.cf_files, ..old(self)@ }),
                place_entries(old_files, nats, ev, i as int) == (Placement {
                    cf_idx: cf_idx as int,
                    file_idx: file_idx as int,
                    files: self@.cf_files,
                    fault: None,
                }),
            decreases entries@.len() - i,
        {
            let ghost st = place_entries(old_files, nats, ev, i as int);
            let ghost next = place_entry(st, nats, ev[i as int]);
            assert(place_entries(old_files, nats, ev, i + 1) == next);
            let entry = &entries[i];
            assert(ev[i as int] == entry@);
            if cf_idx < counts.len() && file_idx < counts[cf_idx] {
                assert(nats[cf_idx as int] == counts@[cf_idx as int]);
                assert(self.cf_files@[cf_idx as int].wf());
                assert(self@.cf_files[cf_idx as int] == self.cf_files@[cf_idx as int]@);
                if !str_eq(entry.cf.as_str(), self.cf_files[cf_idx].cf()) {
                    proof {
                        assert(next.fault == Some(Cause::CfName { index: cf_idx }));
                        lemma_fault_stays(old_files, nats, ev, i + 1, ev.len() as int);
                    }
                    return Err(Error::Other(Cause::CfName { index: cf_idx }));
                }
                if entry.size != 0 {
                    if file_idx > self.cf_files[cf_idx].size().len() {
                        proof {
                            assert(next.fault == Some(
                                Cause::ChunkGap { cf_index: cf_idx, file_index: file_idx },
                            ));
                            lemma_fault_stays(old_files, nats, ev, i + 1, ev.len() as int);
                        }
                        return Err(
                            Error::Other(Cause::ChunkGap { cf_index: cf_idx, file_index: file_idx }),
                        );
                    }
                    let ghost prev = self.cf_files@;
                    let _ = self.cf_files[cf_idx].add_file_with_size_checksum(
                        file_idx,
                        entry.size,
                        entry.checksum,
                    );
                    assert forall|j: int| 0 <= j < self.cf_files@.len() implies (
                    #[trigger] self.cf_files@[j]).wf() by {
                        if j != cf_idx {
                            assert(self.cf_files@[j] == prev[j]);
                        }
                    }
                    assert(self@.cf_files =~= next.files);
                }
                file_idx += 1;
                if file_idx >= counts[cf_idx] {
                    cf_idx += 1;
                    file_idx = 0;
                }
            }
            i += 1;
        }
        self.meta_file.meta = Some(snapshot_meta);
        Ok(())
    }
}


/// The chunks of column family `c` among its first `upto` that hold bytes, in
/// order, as a transfer finds them at its start.
pub open spec fn cf_stream(f: CfFileView, c: int, upto: int) -> Seq<StreamChunk>
    decreases upto,
{
    if upto <= 0 {
        Seq::empty()
    } else {
        let rest = cf_stream(f, c, upto - 1);
        if f.size[upto - 1] != 0 {
            rest.push(
                StreamChunk {
                    cf_index: c as usize,
                    file_index: (upto - 1) as usize,
                    size: f.size[upto - 1],
                    checksum: f.checksum[upto - 1],
                    done: 0,
                    digest: 0,
                },
            )
        } else {
            rest
        }
    }
}

/// The chunks of the first `n` column families that hold bytes, in the order of
/// transfer: column family by column family, chunk by chunk.
pub open spec fn fresh_stream(files: Seq<CfFileView>, n: int) -> Seq<StreamChunk>
    decreases n,
{
    if n <= 0 {
        Seq::empty()
    } else {
        fresh_stream(files, n - 1) + cf_stream(
            files[n - 1],
            n - 1,
            files[n - 1].size.len() as int,
        )
    }
}

/// Every chunk of a fresh stream holds bytes and has none transferred, and lies
/// within its column family.
pub proof fn lemma_cf_stream(f: CfFileView, c: int, upto: int)
    requires
        0 <= upto <= f.size.len(),
        0 <= c <= usize::MAX,
        f.size.len() <= usize::MAX,
    ensures
        forall|k: int|
            0 <= k < cf_stream(f, c, upto).len() ==> {
                let ch = #[trigger] cf_stream(f, c, upto)[k];
                &&& ch.size > 0
                &&& ch.done == 0
                &&& ch.cf_index == c
                &&& ch.file_index < upto
            },
    decreases upto,
{
    if upto > 0 {
        lemma_cf_stream(f, c, upto - 1);
        let rest = cf_stream(f, c, upto - 1);
        assert forall|k: int| 0 <= k < cf_stream(f, c, upto).len() implies {
            let ch = #[trigger] cf_stream(f, c, upto)[k];
            &&& ch.size > 0
            &&& ch.done == 0
            &&& ch.cf_index == c
            &&& ch.file_index < upto
        } by {
            if k < rest.len() {
                assert(cf_stream(f, c, upto)[k] == rest[k]);
            }
        }
    }
}

impl SnapshotView {
    /// The path of chunk `i` of column family `c`.
    pub open spec fn chunk_path(self, c: int, i: int) -> Seq<char> {
        self.cf_files[c].file_paths()[i]
    }

    /// Whether the snapshot is on disk, given the files that are: the metadata
    /// file is there, and so is the file of every chunk that holds bytes.
    pub open spec fn exists_on(self, on_disk: Set<Seq<char>>) -> bool {
        &&& on_disk.contains(self.meta_path)
        &&& forall|c: int, i: int|
            0 <= c < self.cf_files.len() && 0 <= i < self.cf_files[c].size.len()
                && self.cf_files[c].size[i] != 0 ==> on_disk.contains(
                #[trigger] self.chunk_path(c, i),
            )
    }

    /// The chunks that hold bytes, in the order of transfer.
    pub open spec fn chunks(self) -> Seq<StreamChunk> {
        fresh_stream(self.cf_files, self.cf_files.len() as int)
    }
}

/// What to do when a snapshot is to be built.
#[derive(Clone, Copy, PartialEq, Eq, Debug, Structural)]
pub enum BuildStart {
    /// The snapshot is on disk and sound: there is nothing to do.
    UpToDate,
    /// The snapshot is on disk and corrupted: delete it, then build it.
    Rebuild,
    /// The snapshot is not on disk: build it.
    Build,
}

/// What to do after a try to delete a snapshot.
#[derive(Clone, Copy, PartialEq, Eq, Debug, Structural)]
pub enum RetryStep {
    /// The snapshot is deleted.
    Deleted,
    /// Wait for so many milliseconds, then try again.
    WaitAndRetry(u64),
    /// Wait for so many milliseconds, then give up.
    WaitAndGiveUp(u64),
}

/// What follows try number `attempt` to delete a snapshot, the first being
/// number zero: after a refusal a wait, and after the wait another try, until
/// the tries are used up.
pub fn delete_retry_step(attempt: u32, deleted: bool) -> (step: RetryStep)
    ensures
        step == if deleted {
            RetryStep::Deleted
        } else if attempt + 1 < DELETE_RETRY_MAX_TIMES {
            RetryStep::WaitAndRetry(DELETE_RETRY_TIME_MILLIS)
        } else {
            RetryStep::WaitAndGiveUp(DELETE_RETRY_TIME_MILLIS)
        },
{
    if deleted {
        RetryStep::Deleted
    } else if attempt < DELETE_RETRY_MAX_TIMES - 1 {
        RetryStep::WaitAndRetry(DELETE_RETRY_TIME_MILLIS)
    } else {
        RetryStep::WaitAndGiveUp(DELETE_RETRY_TIME_MILLIS)
    }
}

/// Whether a file has the size that the metadata declares.
pub fn check_file_size(got_size: u64, expected_size: u64) -> (r: Result<(), Error>)
    ensures
        got_size == expected_size ==> r == Ok::<(), Error>(()),
        got_size != expected_size ==> r == Err::<(), Error>(
            Error::Other(Cause::FileSize { got: got_size, expected: expected_size }),
        ),
{
    if got_size != expected_size {
        return Err(Error::Other(Cause::FileSize { got: got_size, expected: expected_size }));
    }
    Ok(())
}

/// Whether a file has the checksum that the metadata declares.
pub fn check_file_checksum(got_checksum: u32, expected_checksum: u32) -> (r: Result<(), Error>)
    ensures
        got_checksum == expected_checksum ==> r == Ok::<(), Error>(()),
        got_checksum != expected_checksum ==> r == Err::<(), Error>(
            Error::Other(Cause::FileChecksum { got: got_checksum, expected: expected_checksum }),
        ),
{
    if got_checksum != expected_checksum {
        return Err(
            Error::Other(Cause::FileChecksum { got: got_checksum, expected: expected_checksum }),
        );
    }
    Ok(())
}

/// Whether a file is the one that the metadata declares: the size is looked
/// at first, then the checksum. A file with another checksum never passes.
pub fn check_file_size_and_checksum(
    got_size: u64,
    got_checksum: u32,
    expected_size: u64,
    expected_checksum: u32,
) -> (r: Result<(), Error>)
    ensures
        r == file_check(got_size, got_checksum, expected_size, expected_checksum),
{
    check_file_size(got_size, expected_size)?;
    check_file_checksum(got_checksum, expected_checksum)?;
    Ok(())
}

/// What the check of a file says, given what was measured of it and what the
/// metadata declares.
pub open spec fn file_check(
    got_size: u64,
    got_checksum: u32,
    expected_size: u64,
    expected_checksum: u32,
) -> Result<(), Error> {
    if got_size != expected_size {
        Err(Error::Other(Cause::FileSize { got: got_size, expected: expected_size }))
    } else if got_checksum != expected_checksum {
        Err(Error::Other(Cause::FileChecksum { got: got_checksum, expected: expected_checksum }))
    } else {
        Ok(())
    }
}

/// What the check of chunk `k` says, where `measured[k]` is the size and the
/// checksum of its file. A chunk without a measurement has no file.
pub open spec fn chunk_check(chunks: Seq<StreamChunk>, measured: Seq<(u64, u32)>, k: int) -> Result<
    (),
    Error,
> {
    if k < measured.len() {
        file_check(measured[k].0, measured[k].1, chunks[k].size, chunks[k].checksum)
    } else {
        Err(Error::Other(Cause::MissingCfFile))
    }
}

/// What the check of the first `n` chunks says: what is wrong with the first
/// of them that is not as declared, if one is not.
pub open spec fn validation_of(chunks: Seq<StreamChunk>, measured: Seq<(u64, u32)>, n: int) -> Result<
    (),
    Error,
>
    decreases n,
{
    if n <= 0 {
        Ok(())
    } else {
        match validation_of(chunks, measured, n - 1) {
            Err(e) => Err(e),
            Ok(_) => chunk_check(chunks, measured, n - 1),
        }
    }
}

/// The files pass exactly where each chunk has a file of the declared size
/// and checksum: one file with another checksum, and the snapshot is refused.
pub proof fn lemma_validation(chunks: Seq<StreamChunk>, measured: Seq<(u64, u32)>, n: int)
    requires
        0 <= n <= chunks.len(),
    ensures
        validation_of(chunks, measured, n) is Ok <==> forall|k: int|
            0 <= k < n ==> k < measured.len() && measured[k] == (
                (#[trigger] chunks[k]).size,
                chunks[k].checksum,
            ),
    decreases n,
{
    if n > 0 {
        lemma_validation(chunks, measured, n - 1);
        if validation_of(chunks, measured, n) is Ok {
            assert(chunk_check(chunks, measured, n - 1) is Ok);
        }
    }
}

/// A fault, once found, is the verdict.
proof fn lemma_validation_stays(chunks: Seq<StreamChunk>, measured: Seq<(u64, u32)>, k: int, n: int)
    requires
        0 <= k <= n,
        validation_of(chunks, measured, k) is Err,
    ensures
        validation_of(chunks, measured, n) == validation_of(chunks, measured, k),
    decreases n - k,
{
    if k < n {
        lemma_validation_stays(chunks, measured, k, n - 1);
    }
}

impl CheckPolicy {
    /// Whether the metadata on disk is loaded when a snapshot is opened.
    pub fn loads_meta(&self, meta_file_exists: bool) -> (load: bool)
        ensures
            load == (*self != CheckPolicy::Skip && meta_file_exists),
    {
        match self {
            CheckPolicy::Skip => false,
            _ => meta_file_exists,
        }
    }

    /// Whether a snapshot whose metadata does not load is deleted and opened
    /// anew; else the failure to load is the failure to open.
    pub fn heals(&self) -> (heal: bool)
        ensures
            heal == (*self == CheckPolicy::ErrAllowed),
    {
        match self {
            CheckPolicy::ErrAllowed => true,
            _ => false,
        }
    }
}

impl Snapshot {
    /// What to do when the snapshot is to be built: nothing where it is on
    /// disk and validates, a rebuild where it is on disk and does not, a build
    /// where it is not on disk.
    pub fn build_start(on_disk: bool, validation: &Result<(), Error>) -> (start: BuildStart)
        ensures
            start == (if !on_disk {
                BuildStart::Build
            } else if (validation is Ok) {
                BuildStart::UpToDate
            } else {
                BuildStart::Rebuild
            }),
    {
        if !on_disk {
            BuildStart::Build
        } else {
            match validation {
                Ok(_) => BuildStart::UpToDate,
                Err(_) => BuildStart::Rebuild,
            }
        }
    }

    /// Checks the files of the chunks that hold bytes against the metadata,
    /// in the order of transfer: `measured[k]` is the size and the checksum
    /// of the file of chunk `k`. The first file that is not as declared
    /// decides.
    pub fn validate(&self, measured: &Vec<(u64, u32)>) -> (r: Result<(), Error>)
        requires
            self.wf(),
        ensures
            r == validation_of(self@.chunks(), measured@, self@.chunks().len() as int),
    {
        let chunks = self.chunks();
        let mut k: usize = 0;
        while k < chunks.len()
            invariant
                k <= chunks@.len(),
                chunks@ == self@.chunks(),
                validation_of(chunks@, measured@, k as int) is Ok,
            decreases chunks@.len() - k,
        {
            let verdict = if k < measured.len() {
                check_file_size_and_checksum(
                    measured[k].0,
                    measured[k].1,
                    chunks[k].size,
                    chunks[k].checksum,
                )
            } else {
                Err(Error::Other(Cause::MissingCfFile))
            };
            assert(verdict == chunk_check(chunks@, measured@, k as int));
            if verdict.is_err() {
                proof {
                    assert(validation_of(chunks@, measured@, k as int + 1) == verdict);
                    lemma_validation_stays(chunks@, measured@, k as int + 1, chunks@.len() as int);
                }
                return verdict;
            }
            k += 1;
        }
        Ok(())
    }

    /// The chunks that hold bytes, in the order of transfer.
    pub fn chunks(&self) -> (chunks: Vec<StreamChunk>)
        requires
            self.wf(),
        ensures
            chunks@ == self@.chunks(),
            forall|k: int|
                0 <= k < chunks@.len() ==> {
                    let ch = #[trigger] chunks@[k];
                    &&& ch.size > 0
                    &&& ch.done == 0
                    &&& ch.cf_index < 3
                    &&& ch.file_index < self@.cf_files[ch.cf_index as int].size.len()
                },
    {
        let ghost views = self@.cf_files;
        let mut chunks: Vec<StreamChunk> = Vec::new();
        let mut c: usize = 0;
        while c < self.cf_files.len()
            invariant
                c <= 3,
                self.wf(),
                views == self@.cf_files,
                chunks@ == fresh_stream(views, c as int),
                forall|k: int|
                    0 <= k < chunks@.len() ==> {
                        let ch = #[trigger] chunks@[k];
                        &&& ch.size > 0
                        &&& ch.done == 0
                        &&& ch.cf_index < 3
                        &&& ch.file_index < views[ch.cf_index as int].size.len()
                    },
            decreases 3 - c,
        {
            let f = &self.cf_files[c];
            assert(f.wf());
            assert(views[c as int] == f@);
            let sizes = f.size();
            let sums = f.checksum();
            let ghost before = chunks@;
            let mut i: usize = 0;
            while i < sizes.len()
                invariant
                    i <= sizes@.len(),
                    c < 3,
                    sizes@ == f@.size,
                    sums@ == f@.checksum,
                    f@.wf(),
                    views[c as int] == f@,
                    chunks@ == before + cf_stream(f@, c as int, i as int),
                decreases sizes@.len() - i,
            {
                if sizes[i] != 0 {
                    chunks.push(
                        StreamChunk {
                            cf_index: c,
                            file_index: i,
                            size: sizes[i],
                            checksum: sums[i],
                            done: 0,
                            digest: 0,
                        },
                    );
                }
                assert(chunks@ =~= before + cf_stream(f@, c as int, i + 1));
                i += 1;
            }
            proof {
                lemma_cf_stream(f@, c as int, sizes@.len() as int);
            }
            c += 1;
        }
        chunks
    }

    /// The path of chunk `file_index` of column family `cf_index`.
    pub fn file_path(&self, cf_index: usize, file_index: usize) -> (path: String)
        requires
            self.wf(),
            cf_index < 3,
            file_index < self@.cf_files[cf_index as int].size.len(),
        ensures
            path@ == self@.chunk_path(cf_index as int, file_index as int),
    {
        assert(self.cf_files@[cf_index as int].wf());
        self.cf_files[cf_index].file_path(file_index)
    }

    /// The path of that chunk while it is being written.
    pub fn tmp_file_path(&self, cf_index: usize, file_index: usize) -> (path: String)
        requires
            self.wf(),
            cf_index < 3,
            file_index < self@.cf_files[cf_index as int].size.len(),
        ensures
            path@ == self@.cf_files[cf_index as int].tmp_file_paths()[file_index as int],
    {
        assert(self.cf_files@[cf_index as int].wf());
        self.cf_files[cf_index].tmp_file_path(file_index)
    }

    /// The path of the copy of that chunk that the engine is given.
    pub fn clone_file_path(&self, cf_index: usize, file_index: usize) -> (path: String)
        requires
            self.wf(),
            cf_index < 3,
            file_index < self@.cf_files[cf_index as int].size.len(),
        ensures
            path@ == self@.cf_files[cf_index as int].clone_file_paths()[file_index as int],
    {
        assert(self.cf_files@[cf_index as int].wf());
        self.cf_files[cf_index].clone_file_path(file_index)
    }

    /// The path of chunk `file_id` of column family `cf_index` while it is
    /// being written, be the chunk recorded or not.
    pub fn gen_tmp_file_path(&self, cf_index: usize, file_id: usize) -> (path: String)
        requires
            self.wf(),
            cf_index < 3,
        ensures
            path@ == kind_path(self@.cf_files[cf_index as int], FileKind::Tmp, file_id as int),
    {
        kind_file_path(&self.cf_files[cf_index], FileKind::Tmp, file_id)
    }

    /// Whether the chunks of column family `cf_index` are copied before they
    /// are applied: those of the engine's format are, plain files are not.
    pub fn needs_clone(&self, cf_index: usize) -> (needed: bool)
        requires
            self.wf(),
            cf_index < 3,
        ensures
            needed == (self@.cf_files[cf_index as int].cf != CF_LOCK@),
    {
        !crate::meta::plain_file_used(self.cf_files[cf_index].cf())
    }

    /// Whether the snapshot is on disk, `on_disk` being the files that are.
    pub fn exists_on_disk(&self, on_disk: &Vec<String>) -> (found: bool)
        requires
            self.wf(),
        ensures
            found == self@.exists_on(crate::paths::path_set(on_disk@)),
    {
        let ghost set = crate::paths::path_set(on_disk@);
        let ghost view = self@;
        if !crate::paths::contains_path(on_disk, self.meta_file.path.as_str()) {
            return false;
        }
        let mut c: usize = 0;
        while c < self.cf_files.len()
            invariant
                c <= 3,
                self.wf(),
                view == self@,
                view.cf_files.len() == 3,
                set == crate::paths::path_set(on_disk@),
                set.contains(view.meta_path),
                forall|d: int, i: int|
                    0 <= d < c && 0 <= i < view.cf_files[d].size.len() && view.cf_files[d].size[i]
                        != 0 ==> set.contains(#[trigger] view.chunk_path(d, i)),
            decreases 3 - c,
        {
            let f = &self.cf_files[c];
            assert(f.wf());
            assert(view.cf_files[c as int] == f@);
            let sizes = f.size();
            let mut i: usize = 0;
            while i < sizes.len()
                invariant
                    i <= sizes@.len(),
                    c < 3,
                    sizes@ == f@.size,
                    f.wf(),
                    view.cf_files.len() == 3,
                    view.cf_files[c as int] == f@,
                    view == self@,
                    set == crate::paths::path_set(on_disk@),
                    forall|j: int|
                        0 <= j < i && f@.size[j] != 0 ==> set.contains(
                            #[trigger] view.chunk_path(c as int, j),
                        ),
                decreases sizes@.len() - i,
            {
                if sizes[i] != 0 {
                    let path = f.file_path(i);
                    if !crate::paths::contains_path(on_disk, path.as_str()) {
                        assert(!set.contains(view.chunk_path(c as int, i as int)));
                        return false;
                    }
                }
                i += 1;
            }
            c += 1;
        }
        true
    }

    /// Takes the metadata that was read from disk. It must be in order, and
    /// the files that it lists must be on disk: else the snapshot is corrupted.
    pub fn load_snapshot_meta(&mut self, snapshot_meta: SnapshotMeta, on_disk: &Vec<String>) -> (r:
        Result<(), Error>)
        requires
            old(self).wf(),
        ensures
            final(self).wf(),
            ({
                let entries = snapshot_meta@.cf_files;
                let counts = cf_file_counts(entries);
                if counts.len() != 3 {
                    &&& r == Err::<(), Error>(
                        Error::Other(Cause::CfCount { expected: 3, got: counts.len() as usize }),
                    )
                    &&& final(self)@ == old(self)@
                } else {
                    let p = place_entries(
                        old(self)@.cf_files,
                        counts,
                        entries,
                        entries.len() as int,
                    );
                    match p.fault {
                        Some(c) => {
                            &&& r == Err::<(), Error>(Error::Other(c))
                            &&& final(self)@ == (SnapshotView { cf_files: p.files, ..old(self)@ })
                        },
                        None => {
                            &&& final(self)@ == (SnapshotView {
                                cf_files: p.files,
                                meta: Some(snapshot_meta@),
                                ..old(self)@
                            })
                            &&& r == if final(self)@.exists_on(crate::paths::path_set(on_disk@)) {
                                Ok::<(), Error>(())
                            } else {
                                Err::<(), Error>(Error::Other(Cause::MissingCfFile))
                            }
                        },
                    }
                }
            }),
    {
        self.set_snapshot_meta(snapshot_meta)?;
        if !self.exists_on_disk(on_disk) {
            return Err(Error::Other(Cause::MissingCfFile));
        }
        Ok(())
    }

    /// Whether the metadata is to be loaded from disk: it is not loaded yet,
    /// and its file is there.
    pub fn needs_meta_load(&self, meta_file_exists: bool) -> (load: bool)
        ensures
            load == (self@.meta is None && meta_file_exists),
    {
        self.meta_file.meta.is_none() && meta_file_exists
    }

    /// Records that the temporary metadata file was created and is held: from
    /// now on the snapshot owns temporary files, and nobody else can build or
    /// receive it.
    pub fn tmp_meta_created(&mut self)
        requires
            old(self).wf(),
        ensures
            final(self).wf(),
            final(self)@ == (SnapshotView {
                meta_file_open: true,
                hold_tmp_files: true,
                ..old(self)@
            }),
    {
        self.meta_file.open = true;
        self.hold_tmp_files = true;
    }

    /// Puts the transfer at its start: the chunks that hold bytes, none of them
    /// transferred.
    pub fn begin_transfer(&mut self)
        requires
            old(self).wf(),
        ensures
            final(self).wf(),
            final(self)@ == (SnapshotView {
                stream: StreamView { chunks: old(self)@.chunks(), cursor: 0 },
                ..old(self)@
            }),
    {
        let chunks = self.chunks();
        self.stream = Stream::new(chunks);
    }

    /// The chunks of the transfer, with the progress of each.
    pub fn stream_chunks(&self) -> (chunks: &Vec<StreamChunk>)
        ensures
            chunks@ == self@.stream.chunks,
    {
        self.stream.chunks()
    }

    /// The chunk at which the transfer stands: its place in the stream. There
    /// is none when the stream is complete.
    pub fn current_chunk(&self) -> (r: Option<usize>)
        requires
            self.wf(),
        ensures
            match r {
                Some(k) => k == self@.stream.cursor && k < self@.stream.chunks.len(),
                None => self@.stream.complete(),
            },
    {
        self.stream.current()
    }

    /// Records that the chunk at which the transfer stands is through, and
    /// moves on to the next.
    pub fn finish_chunk(&mut self)
        requires
            old(self).wf(),
        ensures
            final(self).wf(),
            final(self)@ == (SnapshotView { stream: final(self)@.stream, ..old(self)@ }),
            old(self)@.stream.complete() ==> final(self)@.stream == old(self)@.stream,
            !old(self)@.stream.complete() ==> {
                let k = old(self)@.stream.cursor;
                let c = old(self)@.stream.chunks[k];
                &&& final(self)@.stream.cursor == k + 1
                &&& final(self)@.stream.chunks == old(self)@.stream.chunks.update(
                    k,
                    StreamChunk { done: c.size, ..c },
                )
            },
    {
        self.stream.finish_current();
    }

    /// Takes received bytes from the start of `buf`, as many as the snapshot
    /// still lacks, and says which of them go to which chunk.
    pub fn write(&mut self, buf: &[u8]) -> (plan: WritePlan)
        requires
            old(self).wf(),
        ensures
            final(self).wf(),
            final(self)@ == (SnapshotView { stream: final(self)@.stream, ..old(self)@ }),
            crate::stream::write_post(
                old(self)@.stream,
                final(self)@.stream,
                buf@,
                plan.written as int,
                plan.segments@,
            ),
    {
        self.stream.write(buf)
    }

    /// Checks what was received, before it is committed: every chunk must have
    /// all its bytes under the checksum declared, and the temporary metadata
    /// file must be held with metadata to write to it. Where that holds, the
    /// transfer is closed and the metadata file given up for writing; it is
    /// then for the caller to move the files to their places, and to `commit`.
    pub fn save(&mut self) -> (r: Result<(), Error>)
        requires
            old(self).wf(),
        ensures
            final(self).wf(),
            match crate::stream::first_fault(
                old(self)@.stream.chunks,
                old(self)@.stream.chunks.len() as int,
            ) {
                Some(c) => r == Err::<(), Error>(Error::Other(c)) && final(self)@ == old(self)@,
                None => if old(self)@.meta is None || !old(self)@.meta_file_open {
                    r == Err::<(), Error>(Error::Other(Cause::NoMetaFile)) && final(self)@ == old(
                        self,
                    )@
                } else {
                    &&& r == Ok::<(), Error>(())
                    &&& final(self)@ == (SnapshotView {
                        meta_file_open: false,
                        stream: StreamView { chunks: Seq::empty(), cursor: 0 },
                        ..old(self)@
                    })
                },
            },
    {
        self.stream.check_complete()?;
        if self.meta_file.meta.is_none() || !self.meta_file.open {
            return Err(Error::Other(Cause::NoMetaFile));
        }
        self.meta_file.open = false;
        self.stream = Stream::empty();
        assert(self@.stream.chunks =~= Seq::<StreamChunk>::empty());
        Ok(())
    }

    /// Gives up the temporary metadata file for the writing of the metadata.
    /// Without that file held, or without metadata, there is nothing to save.
    pub fn save_meta_file(&mut self) -> (r: Result<(), Error>)
        requires
            old(self).wf(),
        ensures
            final(self).wf(),
            if old(self)@.meta is None || !old(self)@.meta_file_open {
                r == Err::<(), Error>(Error::Other(Cause::NoMetaFile)) && final(self)@ == old(
                    self,
                )@
            } else {
                r == Ok::<(), Error>(()) && final(self)@ == (SnapshotView {
                    meta_file_open: false,
                    ..old(self)@
                })
            },
    {
        if self.meta_file.meta.is_none() || !self.meta_file.open {
            return Err(Error::Other(Cause::NoMetaFile));
        }
        self.meta_file.open = false;
        Ok(())
    }

    /// Records that the metadata file is in its place: the snapshot is
    /// committed and owns no temporary file any more.
    pub fn commit(&mut self)
        requires
            old(self).wf(),
        ensures
            final(self).wf(),
            final(self)@ == (SnapshotView { hold_tmp_files: false, ..old(self)@ }),
    {
        self.hold_tmp_files = false;
    }
}


/// What a removal is of.
#[derive(Clone, Copy, PartialEq, Eq, Debug, Structural)]
pub enum RemovalKind {
    /// A file.
    File,
    /// A data file, whose entry with the encryption key manager goes with it.
    DataFile,
    /// A directory with all that is in it.
    Dir,
}

/// A file or directory to remove. What is not there is passed over.
#[derive(Clone, Debug, PartialEq, Eq)]
pub struct Removal {
    pub path: String,
    pub kind: RemovalKind,
}

pub struct RemovalView {
    pub path: Seq<char>,
    pub kind: RemovalKind,
}

impl View for Removal {
    type V = RemovalView;

    open spec fn view(&self) -> RemovalView {
        RemovalView { path: self.path@, kind: self.kind }
    }
}

/// The views of a list of removals.
pub open spec fn removal_views(list: Seq<Removal>) -> Seq<RemovalView> {
    list.map_values(|r: Removal| r@)
}

/// The three files that a chunk has in its time.
#[derive(Clone, Copy, PartialEq, Eq, Debug, Structural)]
pub enum FileKind {
    /// The copy that the engine is given.
    Clone,
    /// The file while it is being written.
    Tmp,
    /// The file in its place.
    Data,
}

/// The path of the file of kind `kind` of chunk `id`.
pub open spec fn kind_path(f: CfFileView, kind: FileKind, id: int) -> Seq<char> {
    joined_path(
        f.path,
        match kind {
            FileKind::Clone => f.clone_file_name(id as nat),
            FileKind::Tmp => f.tmp_file_name(id as nat),
            FileKind::Data => f.file_name(id as nat),
        },
    )
}

/// From chunk `id` on, the first chunk below `limit` whose file of kind
/// `kind` is not on disk.
pub open spec fn probe_end(
    f: CfFileView,
    kind: FileKind,
    on_disk: Set<Seq<char>>,
    id: int,
    limit: int,
) -> int
    decreases limit - id,
{
    if id >= limit || !on_disk.contains(kind_path(f, kind, id)) {
        id
    } else {
        probe_end(f, kind, on_disk, id + 1, limit)
    }
}

pub open spec fn removal_kind(kind: FileKind) -> RemovalKind {
    if kind == FileKind::Data {
        RemovalKind::DataFile
    } else {
        RemovalKind::File
    }
}

/// The files of kind `kind` to remove for a column family. Where chunks are
/// recorded, the file of each; where none is, which is so when the metadata was
/// lost, the files that are found on disk by trying the names of the chunks
/// in order until one is missing.
pub open spec fn kind_removals(
    f: CfFileView,
    kind: FileKind,
    on_disk: Set<Seq<char>>,
    limit: int,
) -> Seq<RemovalView> {
    let n = if f.size.len() > 0 {
        f.size.len() as int
    } else {
        probe_end(f, kind, on_disk, 0, limit)
    };
    Seq::new(
        n as nat,
        |i: int| RemovalView { path: kind_path(f, kind, i), kind: removal_kind(kind) },
    )
}

/// The files to remove for a column family: the copies, the temporary files
/// where the snapshot holds any, and the data files.
pub open spec fn cf_removals(
    f: CfFileView,
    hold_tmp_files: bool,
    on_disk: Set<Seq<char>>,
    limit: int,
) -> Seq<RemovalView> {
    kind_removals(f, FileKind::Clone, on_disk, limit) + (if hold_tmp_files {
        kind_removals(f, FileKind::Tmp, on_disk, limit)
    } else {
        Seq::empty()
    }) + kind_removals(f, FileKind::Data, on_disk, limit)
}

/// The files to remove for the first `n` column families.
pub open spec fn cfs_removals(
    files: Seq<CfFileView>,
    hold_tmp_files: bool,
    on_disk: Set<Seq<char>>,
    limit: int,
    n: int,
) -> Seq<RemovalView>
    decreases n,
{
    if n <= 0 {
        Seq::empty()
    } else {
        cfs_removals(files, hold_tmp_files, on_disk, limit, n - 1) + cf_removals(
            files[n - 1],
            hold_tmp_files,
            on_disk,
            limit,
        )
    }
}

impl SnapshotView {
    /// All that is removed when the snapshot is deleted: the files of the
    /// column families, the directory of the tablet snapshot that it passes
    /// through, the metadata file, and the temporary metadata file where the
    /// snapshot holds temporary files.
    pub open spec fn removals(self, on_disk: Set<Seq<char>>, limit: int) -> Seq<RemovalView> {
        cfs_removals(
            self.cf_files,
            self.hold_tmp_files,
            on_disk,
            limit,
            self.cf_files.len() as int,
        ) + (if self.meta is Some && self.meta->0.tablet_snap_path.len() > 0 {
            seq![RemovalView { path: self.meta->0.tablet_snap_path, kind: RemovalKind::Dir }]
        } else {
            Seq::empty()
        }) + seq![RemovalView { path: self.meta_path, kind: RemovalKind::File }] + (
        if self.hold_tmp_files {
            seq![RemovalView { path: self.meta_tmp_path, kind: RemovalKind::File }]
        } else {
            Seq::empty()
        })
    }
}

fn kind_file_path(f: &CfFile, kind: FileKind, id: usize) -> (path: String)
    ensures
        path@ == kind_path(f@, kind, id as int),
{
    let name = match kind {
        FileKind::Clone => f.gen_clone_file_name(id),
        FileKind::Tmp => f.gen_tmp_file_name(id),
        FileKind::Data => f.gen_file_name(id),
    };
    join_path(f.path(), name.as_str())
}

fn push_kind_removals(f: &CfFile, kind: FileKind, on_disk: &Vec<String>, out: &mut Vec<Removal>)
    requires
        f.wf(),
    ensures
        removal_views(final(out)@) == removal_views(old(out)@) + kind_removals(
            f@,
            kind,
            crate::paths::path_set(on_disk@),
            on_disk@.len() as int,
        ),
{
    let ghost start = removal_views(out@);
    let ghost set = crate::paths::path_set(on_disk@);
    let ghost limit = on_disk@.len() as int;
    let rkind = match kind {
        FileKind::Data => RemovalKind::DataFile,
        _ => RemovalKind::File,
    };
    let recorded: usize = f.size().len();
    let mut id: usize = 0;
    if recorded > 0 {
        while id < recorded
            invariant
                id <= recorded,
                recorded == f@.size.len(),
                rkind == removal_kind(kind),
                removal_views(out@) == start + Seq::new(
                    id as nat,
                    |i: int| RemovalView { path: kind_path(f@, kind, i), kind: removal_kind(kind) },
                ),
            decreases recorded - id,
        {
            let path = kind_file_path(f, kind, id);
            let ghost before = removal_views(out@);
            out.push(Removal { path, kind: rkind });
            assert(removal_views(out@) =~= before.push(
                RemovalView { path: kind_path(f@, kind, id as int), kind: removal_kind(kind) },
            ));
            assert(removal_views(out@) =~= start + Seq::new(
                (id + 1) as nat,
                |i: int| RemovalView { path: kind_path(f@, kind, i), kind: removal_kind(kind) },
            ));
            id += 1;
        }
    } else {
        while id < on_disk.len()
            invariant
                id <= on_disk@.len(),
                limit == on_disk@.len(),
                set == crate::paths::path_set(on_disk@),
                rkind == removal_kind(kind),
                f@.size.len() == 0,
                start == removal_views(old(out)@),
                probe_end(f@, kind, set, 0, limit) == probe_end(f@, kind, set, id as int, limit),
                removal_views(out@) == start + Seq::new(
                    id as nat,
                    |i: int| RemovalView { path: kind_path(f@, kind, i), kind: removal_kind(kind) },
                ),
            decreases on_disk@.len() - id,
        {
            let path = kind_file_path(f, kind, id);
            if !crate::paths::contains_path(on_disk, path.as_str()) {
                return ;
            }
            let ghost before = removal_views(out@);
            out.push(Removal { path, kind: rkind });
            assert(removal_views(out@) =~= before.push(
                RemovalView { path: kind_path(f@, kind, id as int), kind: removal_kind(kind) },
            ));
            assert(removal_views(out@) =~= start + Seq::new(
                (id + 1) as nat,
                |i: int| RemovalView { path: kind_path(f@, kind, i), kind: removal_kind(kind) },
            ));
            id += 1;
        }
    }
}

/// How a column family is applied.
#[derive(Clone, Copy, PartialEq, Eq, Debug, Structural)]
pub enum ApplyMethod {
    /// The keys and values of a plain file are written to the engine.
    Plain,
    /// The keys and values of the engine's files are written to the engine.
    Replay,
    /// The engine takes the files in as they are.
    Ingest,
}

/// One column family to apply.
#[derive(Clone, Debug, PartialEq, Eq)]
pub struct CfApply {
    pub cf_index: usize,
    pub method: ApplyMethod,
    /// The files to apply: the plain file itself, or the copies of the chunks.
    pub files: Vec<String>,
}

pub struct CfApplyView {
    pub cf_index: usize,
    pub method: ApplyMethod,
    pub files: Seq<Seq<char>>,
}

impl View for CfApply {
    type V = CfApplyView;

    open spec fn view(&self) -> CfApplyView {
        CfApplyView {
            cf_index: self.cf_index,
            method: self.method,
            files: self.files.deep_view(),
        }
    }
}

/// How column family `c` is applied, if it has chunks: a plain file by its
/// keys and values; files of the engine by ingestion, or, where the snapshot
/// is small enough to replay, by their keys and values.
pub open spec fn cf_apply(f: CfFileView, c: int, without_ingest: bool) -> Seq<CfApplyView> {
    if f.size.len() == 0 {
        Seq::empty()
    } else if f.cf == CF_LOCK@ {
        seq![
            CfApplyView {
                cf_index: c as usize,
                method: ApplyMethod::Plain,
                files: seq![f.file_paths()[0]],
            },
        ]
    } else {
        seq![
            CfApplyView {
                cf_index: c as usize,
                method: if without_ingest {
                    ApplyMethod::Replay
                } else {
                    ApplyMethod::Ingest
                },
                files: f.clone_file_paths(),
            },
        ]
    }
}

/// How the first `n` column families are applied.
pub open spec fn apply_plan_of(files: Seq<CfFileView>, without_ingest: bool, n: int) -> Seq<
    CfApplyView,
>
    decreases n,
{
    if n <= 0 {
        Seq::empty()
    } else {
        apply_plan_of(files, without_ingest, n - 1) + cf_apply(files[n - 1], n - 1, without_ingest)
    }
}

/// The views of a plan.
pub open spec fn apply_views(plan: Seq<CfApply>) -> Seq<CfApplyView> {
    plan.map_values(|a: CfApply| a@)
}

/// What a build hands to the one who asked for the snapshot.
#[derive(Clone, Debug, PartialEq, Eq)]
pub struct SnapshotData {
    /// The bytes of all chunks.
    pub file_size: u64,
    /// The format version.
    pub version: u64,
    pub meta: SnapshotMeta,
}

impl Snapshot {
    /// All that is to be removed to delete the snapshot, `on_disk` being the
    /// files that are on disk. As many names are tried as `on_disk` has files.
    pub fn delete(&self, on_disk: &Vec<String>) -> (plan: Vec<Removal>)
        requires
            self.wf(),
        ensures
            removal_views(plan@) == self@.removals(
                crate::paths::path_set(on_disk@),
                on_disk@.len() as int,
            ),
    {
        let ghost set = crate::paths::path_set(on_disk@);
        let ghost limit = on_disk@.len() as int;
        let ghost view = self@;
        let mut plan: Vec<Removal> = Vec::new();
        assert(removal_views(plan@) =~= Seq::empty());
        let mut c: usize = 0;
        while c < self.cf_files.len()
            invariant
                c <= 3,
                self.wf(),
                view == self@,
                set == crate::paths::path_set(on_disk@),
                limit == on_disk@.len(),
                removal_views(plan@) == cfs_removals(
                    view.cf_files,
                    view.hold_tmp_files,
                    set,
                    limit,
                    c as int,
                ),
            decreases 3 - c,
        {
            let f = &self.cf_files[c];
            assert(f.wf());
            assert(view.cf_files[c as int] == f@);
            push_kind_removals(f, FileKind::Clone, on_disk, &mut plan);
            if self.hold_tmp_files {
                push_kind_removals(f, FileKind::Tmp, on_disk, &mut plan);
            }
            push_kind_removals(f, FileKind::Data, on_disk, &mut plan);
            assert(removal_views(plan@) =~= cfs_removals(
                view.cf_files,
                view.hold_tmp_files,
                set,
                limit,
                c + 1,
            ));
            c += 1;
        }
        match &self.meta_file.meta {
            Some(meta) => {
                if meta.tablet_snap_path.as_str().unicode_len() > 0 {
                    let ghost before = removal_views(plan@);
                    plan.push(Removal { path: meta.tablet_snap_path.clone(), kind: RemovalKind::Dir });
                    assert(removal_views(plan@) =~= before.push(
                        RemovalView { path: meta.tablet_snap_path@, kind: RemovalKind::Dir },
                    ));
                }
            },
            None => {},
        }
        let ghost before = removal_views(plan@);
        plan.push(Removal { path: self.meta_file.path.clone(), kind: RemovalKind::File });
        assert(removal_views(plan@) =~= before.push(
            RemovalView { path: view.meta_path, kind: RemovalKind::File },
        ));
        if self.hold_tmp_files {
            let ghost before = removal_views(plan@);
            plan.push(Removal { path: self.meta_file.tmp_path.clone(), kind: RemovalKind::File });
            assert(removal_views(plan@) =~= before.push(
                RemovalView { path: view.meta_tmp_path, kind: RemovalKind::File },
            ));
        }
        assert(removal_views(plan@) =~= view.removals(set, limit));
        plan
    }

    /// How each column family that has chunks is applied.
    pub fn apply_plan(&self, apply_without_ingest: bool) -> (plan: Vec<CfApply>)
        requires
            self.wf(),
        ensures
            apply_views(plan@) == apply_plan_of(self@.cf_files, apply_without_ingest, 3),
    {
        let ghost view = self@;
        let mut plan: Vec<CfApply> = Vec::new();
        assert(apply_views(plan@) =~= Seq::empty());
        let mut c: usize = 0;
        while c < self.cf_files.len()
            invariant
                c <= 3,
                self.wf(),
                view == self@,
                apply_views(plan@) == apply_plan_of(view.cf_files, apply_without_ingest, c as int),
            decreases 3 - c,
        {
            let f = &self.cf_files[c];
            assert(f.wf());
            assert(view.cf_files[c as int] == f@);
            let ghost before = apply_views(plan@);
            if f.size().len() > 0 {
                if crate::meta::plain_file_used(f.cf()) {
                    let mut files: Vec<String> = Vec::new();
                    files.push(f.file_path(0));
                    assert(files.deep_view() =~= seq![f@.file_paths()[0]]);
                    let item = CfApply { cf_index: c, method: ApplyMethod::Plain, files };
                    plan.push(item);
                    assert(apply_views(plan@) =~= before.push(item@));
                } else {
                    let method = if apply_without_ingest {
                        ApplyMethod::Replay
                    } else {
                        ApplyMethod::Ingest
                    };
                    let item = CfApply { cf_index: c, method, files: f.clone_file_paths() };
                    plan.push(item);
                    assert(apply_views(plan@) =~= before.push(item@));
                }
            }
            assert(apply_views(plan@) =~= before + cf_apply(f@, c as int, apply_without_ingest));
            c += 1;
        }
        plan
    }
}


impl Snapshot {
    /// Makes the plain file of the column family that is being built from the
    /// keys and values that the scan gave.
    pub fn build_plain_cf_file(&mut self, entries: &Vec<crate::snap_io::Entry>) -> (r: Result<
        (crate::snap_io::BuildStatistics, Vec<u8>),
        Error,
    >)
        requires
            old(self).wf(),
            old(self)@.cf_index < 3,
        ensures
            final(self).wf(),
            crate::snap_io::plain_buildable(crate::snap_io::entries_view(entries@)) <==> r is Ok,
            match r {
                Ok((stats, body)) => {
                    &&& stats.key_count == entries@.len()
                    &&& stats.total_size == crate::snap_io::all_size(
                        crate::snap_io::entries_view(entries@),
                    )
                    &&& if entries@.len() > 0 {
                        &&& body@ == crate::snap_io::plain_file(
                            crate::snap_io::entries_view(entries@),
                        )
                        &&& final(self)@ == (SnapshotView {
                            cf_files: old(self)@.cf_files.update(
                                old(self)@.cf_index,
                                old(self)@.cf_files[old(self)@.cf_index].upsert(0, 0, 0),
                            ),
                            ..old(self)@
                        })
                    } else {
                        &&& body@.len() == 0
                        &&& final(self)@ == old(self)@
                    }
                },
                Err(e) => e == Error::Other(Cause::Overflow) && final(self)@ == old(self)@,
            },
    {
        let c: usize = self.cf_index;
        assert(self.cf_files@[c as int].wf());
        let r = crate::snap_io::build_plain_cf_file(&mut self.cf_files[c], entries);
        proof {
            self.lemma_cf_changed(old(self), c as int);
            let files = old(self)@.cf_files;
            assert(files.update(c as int, files[c as int]) =~= files);
            assert(files[c as int] == old(self).cf_files@[c as int]@);
        }
        r
    }

    /// After one column family changed, the snapshot is in order and is else as before.
    proof fn lemma_cf_changed(&self, before: &Snapshot, c: int)
        requires
            before.wf(),
            0 <= c < 3,
            self.cf_files@.len() == 3,
            self.cf_files@[c].wf(),
            self.cf_files@[c]@.cf == before.cf_files@[c]@.cf,
            forall|j: int| 0 <= j < 3 && j != c ==> self.cf_files@[j] == before.cf_files@[j],
            self.key == before.key,
            self.display_path == before.display_path,
            self.dir_path == before.dir_path,
            self.cf_index == before.cf_index,
            self.meta_file == before.meta_file,
            self.hold_tmp_files == before.hold_tmp_files,
            self.stream == before.stream,
        ensures
            self.wf(),
            self@ == (SnapshotView {
                cf_files: before@.cf_files.update(c, self.cf_files@[c]@),
                ..before@
            }),
    {
        assert forall|j: int| 0 <= j < self.cf_files@.len() implies (
        #[trigger] self.cf_files@[j]).wf() by {
            if j != c {
                assert(before.cf_files@[j].wf());
            }
        }
        assert(self@.cf_files =~= before@.cf_files.update(c, self.cf_files@[c]@));
    }

    /// Records the files into which the data of the column family that is
    /// being built was split, with no bytes yet.
    pub fn record_sst_files(&mut self, list: &crate::snap_io::SstFileList) -> (stats:
        crate::snap_io::BuildStatistics)
        requires
            old(self).wf(),
            old(self)@.cf_index < 3,
            list.wf(),
        ensures
            final(self).wf(),
            stats.key_count == list@.key_count,
            stats.total_size == list@.total_size,
            final(self)@ == (SnapshotView {
                cf_files: old(self)@.cf_files.update(
                    old(self)@.cf_index,
                    crate::snap_io::with_blank_files(
                        old(self)@.cf_files[old(self)@.cf_index],
                        crate::snap_io::file_count(list@) as int,
                    ),
                ),
                ..old(self)@
            }),
    {
        let c: usize = self.cf_index;
        assert(self.cf_files@[c as int].wf());
        crate::snap_io::record_files(&mut self.cf_files[c], list.file_count());
        proof {
            crate::snap_io::lemma_with_blank_files(
                old(self).cf_files@[c as int]@,
                crate::snap_io::file_count(list@) as int,
            );
            self.lemma_cf_changed(old(self), c as int);
        }
        list.stats()
    }

    /// Records how many keys the column family that is being built has. Says
    /// whether it has any: then its files are moved to their places, else its
    /// temporary files are removed.
    pub fn finish_cf_build(&mut self, key_count: usize) -> (has_data: bool)
        requires
            old(self).wf(),
            old(self)@.cf_index < 3,
        ensures
            final(self).wf(),
            has_data == (key_count > 0),
            final(self)@ == (SnapshotView {
                cf_files: old(self)@.cf_files.update(
                    old(self)@.cf_index,
                    CfFileView {
                        kv_count: key_count as u64,
                        ..old(self)@.cf_files[old(self)@.cf_index]
                    },
                ),
                ..old(self)@
            }),
    {
        let c: usize = self.cf_index;
        assert(self.cf_files@[c as int].wf());
        self.cf_files[c].set_kv_count(key_count as u64);
        proof {
            self.lemma_cf_changed(old(self), c as int);
        }
        key_count > 0
    }

    /// Records size and checksum of a chunk of the column family that is being
    /// built, as they were found once its file was in its place.
    pub fn record_chunk(&mut self, file_index: usize, size: u64, checksum: u32)
        requires
            old(self).wf(),
            old(self)@.cf_index < 3,
            file_index <= old(self)@.cf_files[old(self)@.cf_index].size.len(),
        ensures
            final(self).wf(),
            final(self)@ == (SnapshotView {
                cf_files: old(self)@.cf_files.update(
                    old(self)@.cf_index,
                    old(self)@.cf_files[old(self)@.cf_index].upsert(
                        file_index as int,
                        size,
                        checksum,
                    ),
                ),
                ..old(self)@
            }),
    {
        let c: usize = self.cf_index;
        assert(self.cf_files@[c as int].wf());
        let _ = self.cf_files[c].add_file_with_size_checksum(file_index, size, checksum);
        proof {
            self.lemma_cf_changed(old(self), c as int);
        }
    }

    /// Makes the metadata of what was built.
    pub fn set_built_meta(&mut self, for_balance: bool) -> (r: Result<(), Error>)
        requires
            old(self).wf(),
        ensures
            r is Ok,
            final(self).wf(),
            match r {
                Ok(()) => final(self)@ == (SnapshotView {
                    meta: Some(
                        SnapshotMetaView {
                            cf_files: crate::meta::meta_entries(old(self)@.cf_files, 3),
                            for_balance,
                            start: 0,
                            generate_duration_sec: 0,
                            tablet_snap_path: Seq::empty(),
                        },
                    ),
                    ..old(self)@
                }),
                Err(e) => e == Error::Other(Cause::InvalidCf) && final(self)@ == old(self)@,
            },
    {
        match crate::meta::gen_snapshot_meta(&self.cf_files, for_balance) {
            Ok(meta) => {
                proof {
                    assert forall|i: int| 0 <= i < 3 implies crate::meta::is_snapshot_cf(
                        (#[trigger] old(self)@.cf_files[i]).cf,
                    ) by {
                        assert(crate::meta::is_snapshot_cf(old(self).cf_files@[i]@.cf));
                    }
                }
                self.meta_file.meta = Some(meta);
                Ok(())
            },
            Err(e) => {
                proof {
                    let i = choose|i: int|
                        0 <= i < self.cf_files@.len() && !crate::meta::is_snapshot_cf(
                            (#[trigger] self.cf_files@[i])@.cf,
                        );
                    assert(i == 0 || i == 1 || i == 2);
                }
                Err(e)
            },
        }
    }

    /// Makes the metadata of a snapshot that stands for the tablet snapshot in
    /// directory `tablet_snapshot_path`.
    pub fn set_tablet_meta(&mut self, tablet_snapshot_path: &str, for_balance: bool) -> (r: Result<
        (),
        Error,
    >)
        requires
            old(self).wf(),
        ensures
            r is Ok,
            final(self).wf(),
            match r {
                Ok(()) => final(self)@ == (SnapshotView {
                    meta: Some(
                        SnapshotMetaView {
                            cf_files: crate::meta::meta_entries(old(self)@.cf_files, 3),
                            for_balance,
                            start: 0,
                            generate_duration_sec: 0,
                            tablet_snap_path: tablet_snapshot_path@,
                        },
                    ),
                    ..old(self)@
                }),
                Err(e) => e == Error::Other(Cause::InvalidCf) && final(self)@ == old(self)@,
            },
    {
        match crate::meta::gen_snapshot_meta(&self.cf_files, for_balance) {
            Ok(mut meta) => {
                meta.tablet_snap_path = String::from_str(tablet_snapshot_path);
                self.meta_file.meta = Some(meta);
                Ok(())
            },
            Err(e) => {
                proof {
                    let i = choose|i: int|
                        0 <= i < self.cf_files@.len() && !crate::meta::is_snapshot_cf(
                            (#[trigger] self.cf_files@[i])@.cf,
                        );
                    assert(i == 0 || i == 1 || i == 2);
                }
                Err(e)
            },
        }
    }

    /// Closes a build: stamps the metadata with the time at which the build
    /// began and the seconds it took, and hands out what the one who asked for
    /// the snapshot gets.
    pub fn finish_build(&mut self, start: u64, generate_duration_sec: u64) -> (r: Result<
        SnapshotData,
        Error,
    >)
        requires
            old(self).wf(),
        ensures
            final(self).wf(),
            if old(self)@.meta is None {
                r matches Err(e) && e == Error::Other(Cause::NoMetaFile) && final(self)@ == old(
                    self,
                )@
            } else if old(self)@.total_size() > u64::MAX {
                r matches Err(e) && e == Error::Other(Cause::Overflow) && final(self)@ == old(
                    self,
                )@
            } else {
                let stamped = SnapshotMetaView {
                    start,
                    generate_duration_sec,
                    ..old(self)@.meta->0
                };
                &&& final(self)@ == (SnapshotView { meta: Some(stamped), ..old(self)@ })
                &&& r matches Ok(data)
                &&& data.file_size == old(self)@.total_size()
                &&& data.version == crate::meta::SNAPSHOT_VERSION
                &&& data.meta@ == stamped
            },
    {
        if self.meta_file.meta.is_none() {
            return Err(Error::Other(Cause::NoMetaFile));
        }
        let total: u64 = match self.checked_total_size() {
            Some(t) => t,
            None => {
                return Err(Error::Other(Cause::Overflow));
            },
        };
        let mut meta: SnapshotMeta = SnapshotMeta {
            cf_files: Vec::new(),
            for_balance: false,
            start: 0,
            generate_duration_sec: 0,
            tablet_snap_path: String::new(),
        };
        match &self.meta_file.meta {
            Some(m) => {
                meta = m.duplicate();
            },
            None => {},
        }
        meta.start = start;
        meta.generate_duration_sec = generate_duration_sec;
        let copy = meta.duplicate();
        self.meta_file.meta = Some(meta);
        Ok(SnapshotData { file_size: total, version: crate::meta::SNAPSHOT_VERSION, meta: copy })
    }
}


/// Where the entries of column family `c` begin in the metadata of `files`.
pub open spec fn run_start(files: Seq<CfFileView>, c: int) -> int {
    crate::meta::meta_entries(files, c).len() as int
}

/// How many entries column family `f` has in the metadata.
pub open spec fn run_len(f: CfFileView) -> int {
    crate::meta::entries_of(f).len() as int
}

/// The column families of a snapshot that was built: the three of a
/// snapshot, each with a checksum for each size, and no recorded chunk empty.
pub open spec fn built_files(files: Seq<CfFileView>) -> bool {
    &&& files.len() == 3
    &&& files[0].cf == CF_DEFAULT@
    &&& files[1].cf == CF_LOCK@
    &&& files[2].cf == CF_WRITE@
    &&& forall|c: int| 0 <= c < 3 ==> (#[trigger] files[c]).wf()
    &&& forall|c: int, i: int|
        0 <= c < 3 && 0 <= i < files[c].size.len() ==> #[trigger] files[c].size[i] != 0
}

/// The column families of a snapshot that was just named, for the same
/// column families as `files`.
pub open spec fn blank_for(blank: Seq<CfFileView>, files: Seq<CfFileView>) -> bool {
    &&& blank.len() == 3
    &&& forall|c: int|
        0 <= c < 3 ==> (#[trigger] blank[c]).cf == files[c].cf && blank[c].size.len() == 0
            && blank[c].checksum.len() == 0
}

/// Column family `c` with the first `t` entries of its run recorded.
pub open spec fn partly_recorded(blank: CfFileView, f: CfFileView, t: int) -> CfFileView {
    if f.size.len() == 0 {
        blank
    } else {
        CfFileView { size: f.size.take(t), checksum: f.checksum.take(t), ..blank }
    }
}

/// The column families once the first `t` entries of the run of column
/// family `c` are recorded, and all entries of the runs before it.
pub open spec fn recorded_upto(
    blank: Seq<CfFileView>,
    files: Seq<CfFileView>,
    c: int,
    t: int,
) -> Seq<CfFileView> {
    Seq::new(
        3,
        |d: int|
            if d < c {
                partly_recorded(blank[d], files[d], run_len(files[d]))
            } else if d == c {
                partly_recorded(blank[d], files[d], t)
            } else {
                blank[d]
            },
    )
}

/// The runs of the metadata of a snapshot that was built.
pub open spec fn run_lens(files: Seq<CfFileView>, c: int) -> Seq<nat> {
    Seq::new(c as nat, |d: int| run_len(files[d]) as nat)
}

proof fn lemma_run_entry(files: Seq<CfFileView>, n: int, c: int, j: int)
    requires
        0 <= c < n <= files.len(),
        0 <= j < run_len(files[c]),
    ensures
        run_start(files, c) + run_len(files[c]) <= crate::meta::meta_entries(files, n).len(),
        run_start(files, c + 1) == run_start(files, c) + run_len(files[c]),
        crate::meta::meta_entries(files, n)[run_start(files, c) + j] == crate::meta::entries_of(
            files[c],
        )[j],
    decreases n,
{
    if c < n - 1 {
        lemma_run_entry(files, n - 1, c, j);
    }
}

proof fn lemma_count_runs_built(files: Seq<CfFileView>, c: int, t: int)
    requires
        built_files(files),
        0 <= c < 3,
        1 <= t <= run_len(files[c]),
    ensures
        count_runs(crate::meta::meta_entries(files, 3), run_start(files, c) + t) == (RunCount {
            counts: run_lens(files, c),
            current: files[c].cf,
            file_count: t as nat,
        }),
    decreases c, t,
{
    let es = crate::meta::meta_entries(files, 3);
    let at = run_start(files, c) + t;
    let cf = files[c].cf;
    crate::meta::lemma_snapshot_cfs_differ();
    lemma_run_entry(files, 3, c, t - 1);
    assert(es[at - 1].cf == cf);
    assert(cf.len() > 0);
    assert(at >= 1);
    let prev = count_runs(es, at - 1);
    if t > 1 {
        lemma_count_runs_built(files, c, t - 1);
        assert(prev == (RunCount {
            counts: run_lens(files, c),
            current: cf,
            file_count: (t - 1) as nat,
        }));
        assert(count_runs(es, at) == (RunCount { file_count: prev.file_count + 1, ..prev }));
    } else if c > 0 {
        let last = run_len(files[c - 1]);
        lemma_run_entry(files, 3, c - 1, 0);
        assert(at - 1 == run_start(files, c - 1) + last);
        lemma_count_runs_built(files, c - 1, last);
        assert(prev == (RunCount {
            counts: run_lens(files, c - 1),
            current: files[c - 1].cf,
            file_count: last as nat,
        }));
        assert(prev.current.len() > 0);
        assert(prev.current != cf);
        assert(count_runs(es, at) == (RunCount {
            counts: prev.counts.push(prev.file_count),
            current: cf,
            file_count: 1,
        }));
        assert(run_lens(files, c - 1).push(last as nat) =~= run_lens(files, c));
    } else {
        assert(at - 1 == 0);
        assert(prev == (RunCount { counts: Seq::empty(), current: Seq::empty(), file_count: 0 }));
        assert(count_runs(es, at) == (RunCount { current: cf, file_count: 1, ..prev }));
        assert(run_lens(files, 0) =~= Seq::<nat>::empty());
    }
}

proof fn lemma_place_built(blank: Seq<CfFileView>, files: Seq<CfFileView>, c: int, t: int)
    requires
        built_files(files),
        blank_for(blank, files),
        0 <= c < 3,
        0 <= t <= run_len(files[c]),
    ensures
        place_entries(
            blank,
            run_lens(files, 3),
            crate::meta::meta_entries(files, 3),
            run_start(files, c) + t,
        ) == (Placement {
            cf_idx: if t < run_len(files[c]) {
                c
            } else {
                c + 1
            },
            file_idx: if t < run_len(files[c]) {
                t
            } else {
                0
            },
            files: recorded_upto(blank, files, c, t),
            fault: None,
        }),
    decreases c, t,
{
    let es = crate::meta::meta_entries(files, 3);
    let counts = run_lens(files, 3);
    let f = files[c];
    if t == 0 {
        assert(partly_recorded(blank[c], f, 0) == blank[c]) by {
            assert(f.wf());
            assert(f.size.take(0) =~= blank[c].size);
            assert(f.checksum.take(0) =~= blank[c].checksum);
        }
        if c == 0 {
            assert(recorded_upto(blank, files, 0, 0) =~= blank);
        } else {
            lemma_run_entry(files, 3, c - 1, 0);
            lemma_place_built(blank, files, c - 1, run_len(files[c - 1]));
            assert(recorded_upto(blank, files, c, 0) =~= recorded_upto(
                blank,
                files,
                c - 1,
                run_len(files[c - 1]),
            ));
        }
    } else {
        lemma_place_built(blank, files, c, t - 1);
        lemma_run_entry(files, 3, c, t - 1);
        let before = recorded_upto(blank, files, c, t - 1);
        let e = es[run_start(files, c) + t - 1];
        assert(e == crate::meta::entries_of(f)[t - 1]);
        assert(counts[c] == run_len(f));
        assert(before[c] == partly_recorded(blank[c], f, t - 1));
        if f.size.len() == 0 {
            assert(recorded_upto(blank, files, c, t) =~= before);
        } else {
            assert(e.size == f.size[t - 1]);
            assert(f.size.take(t - 1).push(f.size[t - 1]) =~= f.size.take(t));
            assert(f.checksum.take(t - 1).push(f.checksum[t - 1]) =~= f.checksum.take(t));
            assert(before.update(c, before[c].upsert(t - 1, e.size, e.checksum)) =~= recorded_upto(
                blank,
                files,
                c,
                t,
            ));
        }
    }
}

/// What a build records is what a receiver records of the metadata of the
/// build: a snapshot that was just named takes the metadata that is made of
/// the column families of a built snapshot, and has then the same sizes and
/// checksums, chunk by chunk.
pub proof fn lemma_built_meta_is_accepted(blank: Seq<CfFileView>, files: Seq<CfFileView>)
    requires
        built_files(files),
        blank_for(blank, files),
    ensures
        ({
            let entries = crate::meta::meta_entries(files, 3);
            let counts = cf_file_counts(entries);
            let placed = place_entries(blank, counts, entries, entries.len() as int);
            &&& counts.len() == 3
            &&& placed.fault is None
            &&& placed.files.len() == 3
            &&& forall|c: int|
                0 <= c < 3 ==> (#[trigger] placed.files[c]) == (CfFileView {
                    size: files[c].size,
                    checksum: files[c].checksum,
                    ..blank[c]
                })
        }),
{
    let entries = crate::meta::meta_entries(files, 3);
    lemma_run_entry(files, 3, 0, 0);
    lemma_run_entry(files, 3, 1, 0);
    lemma_run_entry(files, 3, 2, 0);
    assert(entries.len() == run_start(files, 2) + run_len(files[2])) by {
        reveal_with_fuel(crate::meta::meta_entries, 4);
    }
    lemma_count_runs_built(files, 2, run_len(files[2]));
    assert(cf_file_counts(entries) =~= run_lens(files, 3));
    lemma_place_built(blank, files, 2, run_len(files[2]));
    let placed = recorded_upto(blank, files, 2, run_len(files[2]));
    assert forall|c: int| 0 <= c < 3 implies (#[trigger] placed[c]) == (CfFileView {
        size: files[c].size,
        checksum: files[c].checksum,
        ..blank[c]
    }) by {
        let f = files[c];
        assert(f.wf());
        if f.size.len() > 0 {
            assert(f.size.take(run_len(f)) =~= f.size);
            assert(f.checksum.take(run_len(f)) =~= f.checksum);
        } else {
            assert(blank[c].size =~= f.size);
            assert(blank[c].checksum =~= f.checksum);
        }
    }
}


/// How much a snapshot holds.
#[derive(Clone, Copy, PartialEq, Eq, Debug, Structural)]
pub struct SnapshotStatistics {
    pub size: u64,
    pub kv_count: usize,
}

impl SnapshotStatistics {
    /// The statistics of a snapshot that holds nothing.
    pub fn new() -> (stats: SnapshotStatistics)
        ensures
            stats == (SnapshotStatistics { size: 0, kv_count: 0 }),
    {
        SnapshotStatistics { size: 0, kv_count: 0 }
    }
}

impl Default for SnapshotStatistics {
    fn default() -> (stats: SnapshotStatistics)
        ensures
            stats == (SnapshotStatistics { size: 0, kv_count: 0 }),
    {
        SnapshotStatistics::new()
    }
}

impl Snapshot {
    /// How much the snapshot holds, where the bytes are counted in a `u64`
    /// and the keys in a `usize`.
    pub fn statistics(&self) -> (stats: Option<SnapshotStatistics>)
        requires
            self.wf(),
        ensures
            match stats {
                Some(s) => s.size == self@.total_size() && s.kv_count == self@.total_count(),
                None => self@.total_size() > u64::MAX || self@.total_count() > usize::MAX,
            },
    {
        let size: u64 = match self.checked_total_size() {
            Some(s) => s,
            None => {
                return None;
            },
        };
        let count: u64 = match self.checked_total_count() {
            Some(c) => c,
            None => {
                return None;
            },
        };
        if count > usize::MAX as u64 {
            return None;
        }
        Some(SnapshotStatistics { size, kv_count: count as usize })
    }
}

} // verus!
