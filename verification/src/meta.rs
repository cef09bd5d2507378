//! The metadata of a snapshot: which chunks each column family has, with the
//! size and checksum of each.
use vstd::prelude::*;
use crate::cf_file::{CfFile, CfFileView};
use crate::error::{Cause, Error};
use crate::text::str_eq;

verus! {

pub const CF_DEFAULT: &'static str = "default";

pub const CF_LOCK: &'static str = "lock";

pub const CF_WRITE: &'static str = "write";

/// The format version of a snapshot of files.
pub const SNAPSHOT_VERSION: u64 = 2;

/// The format version of a tablet snapshot.
pub const TABLET_SNAPSHOT_VERSION: u64 = 3;

/// Whether `cf` is one of the column families that a snapshot carries:
/// default, lock and write, in this order.
pub open spec fn is_snapshot_cf(cf: Seq<char>) -> bool {
    cf == CF_DEFAULT@ || cf == CF_LOCK@ || cf == CF_WRITE@
}

/// The three names differ, and none is empty.
pub proof fn lemma_snapshot_cfs_differ()
    ensures
        CF_DEFAULT@ != CF_LOCK@,
        CF_DEFAULT@ != CF_WRITE@,
        CF_LOCK@ != CF_WRITE@,
        CF_DEFAULT@.len() > 0,
        CF_LOCK@.len() > 0,
        CF_WRITE@.len() > 0,
{
    reveal_strlit("default");
    reveal_strlit("lock");
    reveal_strlit("write");
    assert(CF_DEFAULT@.len() == 7);
    assert(CF_LOCK@.len() == 4);
    assert(CF_WRITE@.len() == 5);
}

/// The column family of locks is small and is kept in a plain file; the others
/// are kept in files of the engine's own format.
pub fn plain_file_used(cf: &str) -> (plain: bool)
    ensures
        plain == (cf@ == CF_LOCK@),
{
    str_eq(cf, CF_LOCK)
}

/// One chunk in the metadata.
#[derive(Clone, Debug, PartialEq, Eq, Default)]
pub struct SnapshotCfFile {
    pub cf: String,
    pub size: u64,
    pub checksum: u32,
}

pub struct SnapshotCfFileView {
    pub cf: Seq<char>,
    pub size: u64,
    pub checksum: u32,
}

impl View for SnapshotCfFile {
    type V = SnapshotCfFileView;

    open spec fn view(&self) -> SnapshotCfFileView {
        SnapshotCfFileView { cf: self.cf@, size: self.size, checksum: self.checksum }
    }
}

/// The metadata of a snapshot.
#[derive(Clone, Debug, PartialEq, Eq, Default)]
pub struct SnapshotMeta {
    /// The chunks, column family by column family.
    pub cf_files: Vec<SnapshotCfFile>,
    /// Whether the snapshot was made to balance load.
    pub for_balance: bool,
    /// When the snapshot was begun, in seconds.
    pub start: u64,
    /// How many seconds it took to generate.
    pub generate_duration_sec: u64,
    /// For a tablet snapshot that passes through: where its directory is.
    pub tablet_snap_path: String,
}

pub struct SnapshotMetaView {
    pub cf_files: Seq<SnapshotCfFileView>,
    pub for_balance: bool,
    pub start: u64,
    pub generate_duration_sec: u64,
    pub tablet_snap_path: Seq<char>,
}

impl View for SnapshotMeta {
    type V = SnapshotMetaView;

    open spec fn view(&self) -> SnapshotMetaView {
        SnapshotMetaView {
            cf_files: self.cf_files@.map_values(|e: SnapshotCfFile| e@),
            for_balance: self.for_balance,
            start: self.start,
            generate_duration_sec: self.generate_duration_sec,
            tablet_snap_path: self.tablet_snap_path@,
        }
    }
}

impl SnapshotMeta {
    /// A copy of the metadata.
    pub fn duplicate(&self) -> (copy: SnapshotMeta)
        ensures
            copy@ == self@,
    {
        let mut cf_files: Vec<SnapshotCfFile> = Vec::new();
        let mut i: usize = 0;
        while i < self.cf_files.len()
            invariant
                i <= self.cf_files@.len(),
                cf_files@.len() == i,
                forall|j: int| 0 <= j < i ==> (#[trigger] cf_files@[j])@ == self.cf_files@[j]@,
            decreases self.cf_files@.len() - i,
        {
            let e = &self.cf_files[i];
            cf_files.push(SnapshotCfFile { cf: e.cf.clone(), size: e.size, checksum: e.checksum });
            i += 1;
        }
        let copy = SnapshotMeta {
            cf_files,
            for_balance: self.for_balance,
            start: self.start,
            generate_duration_sec: self.generate_duration_sec,
            tablet_snap_path: self.tablet_snap_path.clone(),
        };
        assert(copy@.cf_files =~= self@.cf_files);
        copy
    }
}

/// The entries that stand for one column family: one for each chunk, or a
/// single entry of size zero where it has no chunk.
pub open spec fn entries_of(f: CfFileView) -> Seq<SnapshotCfFileView> {
    if f.size.len() > 0 {
        Seq::new(
            f.size.len(),
            |i: int| SnapshotCfFileView { cf: f.cf, size: f.size[i], checksum: f.checksum[i] },
        )
    } else {
        seq![SnapshotCfFileView { cf: f.cf, size: 0, checksum: 0 }]
    }
}

/// The entries of the first `n` column families, one family after the other.
pub open spec fn meta_entries(files: Seq<CfFileView>, n: int) -> Seq<SnapshotCfFileView>
    decreases n,
{
    if n <= 0 {
        Seq::empty()
    } else {
        meta_entries(files, n - 1) + entries_of(files[n - 1])
    }
}

/// The views of a list of column families.
pub open spec fn cf_views(files: Seq<CfFile>) -> Seq<CfFileView> {
    files.map_values(|f: CfFile| f@)
}

pub open spec fn all_wf(files: Seq<CfFile>) -> bool {
    forall|i: int| 0 <= i < files.len() ==> (#[trigger] files[i]).wf()
}

/// Whether `cf` is one of the column families that a snapshot carries.
pub fn is_snapshot_cf_name(cf: &str) -> (r: bool)
    ensures
        r == is_snapshot_cf(cf@),
{
    str_eq(cf, CF_DEFAULT) || str_eq(cf, CF_LOCK) || str_eq(cf, CF_WRITE)
}

/// The metadata for the given column families: the entries of each in turn.
/// A column family that snapshots do not carry is refused.
pub fn gen_snapshot_meta(cf_files: &Vec<CfFile>, for_balance: bool) -> (r: Result<
    SnapshotMeta,
    Error,
>)
    requires
        all_wf(cf_files@),
    ensures
        match r {
            Ok(meta) => {
                &&& forall|i: int|
                    0 <= i < cf_files@.len() ==> is_snapshot_cf((#[trigger] cf_files@[i])@.cf)
                &&& meta@ == (SnapshotMetaView {
                    cf_files: meta_entries(cf_views(cf_files@), cf_files@.len() as int),
                    for_balance,
                    start: 0,
                    generate_duration_sec: 0,
                    tablet_snap_path: Seq::empty(),
                })
            },
            Err(e) => {
                &&& e == Error::Other(Cause::InvalidCf)
                &&& exists|i: int|
                    0 <= i < cf_files@.len() && !is_snapshot_cf((#[trigger] cf_files@[i])@.cf)
            },
        },
{
    let ghost views = cf_views(cf_files@);
    let mut entries: Vec<SnapshotCfFile> = Vec::new();
    let mut k: usize = 0;
    while k < cf_files.len()
        invariant
            k <= cf_files@.len(),
            all_wf(cf_files@),
            views == cf_views(cf_files@),
            forall|i: int| 0 <= i < k ==> is_snapshot_cf((#[trigger] cf_files@[i])@.cf),
            entries@.map_values(|e: SnapshotCfFile| e@) == meta_entries(views, k as int),
        decreases cf_files@.len() - k,
    {
        let cf_file = &cf_files[k];
        assert(cf_file.wf());
        assert(views[k as int] == cf_file@);
        if !is_snapshot_cf_name(cf_file.cf()) {
            return Err(Error::Other(Cause::InvalidCf));
        }
        let ghost before = entries@.map_values(|e: SnapshotCfFile| e@);
        let sizes = cf_file.size();
        let sums = cf_file.checksum();
        if sizes.len() > 0 {
            let mut i: usize = 0;
            while i < sizes.len()
                invariant
                    i <= sizes@.len(),
                    sizes@ == cf_file@.size,
                    sums@ == cf_file@.checksum,
                    cf_file@.wf(),
                    sizes@.len() > 0,
                    entries@.map_values(|e: SnapshotCfFile| e@) == before + entries_of(
                        cf_file@,
                    ).take(i as int),
                decreases sizes@.len() - i,
            {
                let ghost prev = entries@.map_values(|e: SnapshotCfFile| e@);
                let entry = SnapshotCfFile {
                    cf: String::from_str(cf_file.cf()),
                    size: sizes[i],
                    checksum: sums[i],
                };
                entries.push(entry);
                assert(entries@.map_values(|e: SnapshotCfFile| e@) =~= prev.push(entry@));
                assert(entries_of(cf_file@).take(i + 1) =~= entries_of(cf_file@).take(
                    i as int,
                ).push(entry@));
                i += 1;
            }
            assert(entries_of(cf_file@).take(i as int) =~= entries_of(cf_file@));
        } else {
            let entry = SnapshotCfFile { cf: String::from_str(cf_file.cf()), size: 0, checksum: 0 };
            entries.push(entry);
            assert(entries@.map_values(|e: SnapshotCfFile| e@) =~= before + entries_of(cf_file@));
        }
        k += 1;
    }
    let meta = SnapshotMeta {
        cf_files: entries,
        for_balance,
        start: 0,
        generate_duration_sec: 0,
        tablet_snap_path: String::new(),
    };
    Ok(meta)
}

} // verus!
