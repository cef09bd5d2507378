use raftstore_snap::meta::{gen_snapshot_meta, plain_file_used, CF_DEFAULT, CF_LOCK, CF_WRITE};
use raftstore_snap::{
    Cause, CfFile, Error, SnapKey, Snapshot, SnapshotCfFile, SnapshotMeta, SnapshotStatistics,
};

const SNAPSHOT_CFS: [&str; 3] = [CF_DEFAULT, CF_LOCK, CF_WRITE];

#[test]
fn test_gen_snapshot_meta() {
    let mut cf_file = Vec::with_capacity(SNAPSHOT_CFS.len());
    for (i, cf) in SNAPSHOT_CFS.iter().enumerate() {
        let mut f = CfFile::new(cf, String::new(), String::new(), String::new());
        f.add_file_with_size_checksum(0, 100 * (i + 1) as u64, 1000 * (i + 1) as u32);
        f.add_file_with_size_checksum(1, 100 * (i + 2) as u64, 1000 * (i + 2) as u32);
        cf_file.push(f);
    }
    let meta = gen_snapshot_meta(&cf_file, false).unwrap();
    let cf_files = &meta.cf_files;
    assert_eq!(cf_files.len(), SNAPSHOT_CFS.len() * 2); // each CF has two snapshot files;
    for (i, cf_file_meta) in meta.cf_files.iter().enumerate() {
        let cf_file_idx = i / 2;
        let size_idx = i % 2;
        if cf_file_meta.cf != cf_file[cf_file_idx].cf() {
            panic!(
                "{}: expect cf {}, got {}",
                i,
                cf_file[cf_file_idx].cf(),
                cf_file_meta.cf
            );
        }
        if cf_file_meta.size != cf_file[cf_file_idx].size()[size_idx] {
            panic!(
                "{}: expect cf size {}, got {}",
                i,
                cf_file[cf_file_idx].size()[size_idx],
                cf_file_meta.size
            );
        }
        if cf_file_meta.checksum != cf_file[cf_file_idx].checksum()[size_idx] {
            panic!(
                "{}: expect cf checksum {}, got {}",
                i,
                cf_file[cf_file_idx].checksum()[size_idx],
                cf_file_meta.checksum
            );
        }
    }
    assert!(!meta.for_balance);
    assert_eq!(meta.start, 0);
    assert_eq!(meta.generate_duration_sec, 0);
    assert_eq!(meta.tablet_snap_path, "");
}

#[test]
fn test_gen_snapshot_meta_of_empty_cf_and_invalid_cf() {
    let f = CfFile::new("lock", String::new(), String::new(), String::new());
    let meta = gen_snapshot_meta(&vec![f], true).unwrap();
    assert_eq!(
        meta.cf_files,
        vec![SnapshotCfFile { cf: "lock".to_string(), size: 0, checksum: 0 }]
    );
    assert!(meta.for_balance);
    let raft = CfFile::new("raft", String::new(), String::new(), String::new());
    assert_eq!(gen_snapshot_meta(&vec![raft], false), Err(Error::Other(Cause::InvalidCf)));
}

#[test]
fn test_plain_file_used() {
    assert!(plain_file_used("lock"));
    assert!(!plain_file_used("default"));
    assert!(!plain_file_used("write"));
    assert!(!plain_file_used(""));
}

fn entry(cf: &str, size: u64, checksum: u32) -> SnapshotCfFile {
    SnapshotCfFile { cf: cf.to_string(), size, checksum }
}

fn meta(entries: Vec<SnapshotCfFile>) -> SnapshotMeta {
    SnapshotMeta { cf_files: entries, ..Default::default() }
}

fn fresh() -> Snapshot {
    Snapshot::new("/snap", &SnapKey::new(1, 1, 1), false)
}

#[test]
fn test_set_snapshot_meta_records_chunks() {
    let mut s = fresh();
    let m = meta(vec![
        entry("default", 10, 1),
        entry("default", 20, 2),
        entry("lock", 0, 0),
        entry("write", 30, 3),
    ]);
    assert_eq!(s.set_snapshot_meta(m.clone()), Ok(()));
    assert_eq!(s.cf_files()[0].size(), &vec![10, 20]);
    assert_eq!(s.cf_files()[0].checksum(), &vec![1, 2]);
    assert!(s.cf_files()[1].size().is_empty());
    assert_eq!(s.cf_files()[2].size(), &vec![30]);
    assert_eq!(s.snapshot_meta(), &Some(m));
    assert_eq!(s.total_size(), 60);
    assert_eq!(s.checked_total_size(), Some(60));
    assert_eq!(s.total_count(), 0);
    let chunks: Vec<(usize, usize, u64, u32)> = s
        .chunks()
        .iter()
        .map(|c| (c.cf_index, c.file_index, c.size, c.checksum))
        .collect();
    assert_eq!(chunks, vec![(0, 0, 10, 1), (0, 1, 20, 2), (2, 0, 30, 3)]);
}

#[test]
fn test_set_snapshot_meta_rejects_malformed() {
    // No entries at all count as one run.
    let mut s = fresh();
    assert_eq!(
        s.set_snapshot_meta(meta(vec![])),
        Err(Error::Other(Cause::CfCount { expected: 3, got: 1 }))
    );
    // Two column families only.
    assert_eq!(
        s.set_snapshot_meta(meta(vec![entry("default", 1, 1), entry("lock", 1, 1)])),
        Err(Error::Other(Cause::CfCount { expected: 3, got: 2 }))
    );
    // A column family that comes back makes a fourth run.
    assert_eq!(
        s.set_snapshot_meta(meta(vec![
            entry("default", 1, 1),
            entry("lock", 1, 1),
            entry("write", 1, 1),
            entry("default", 1, 1),
        ])),
        Err(Error::Other(Cause::CfCount { expected: 3, got: 4 }))
    );
    assert!(s.snapshot_meta().is_none());
    assert!(s.cf_files()[0].size().is_empty());
    // The order of the column families is fixed. What was recorded before
    // the fault stays recorded.
    assert_eq!(
        s.set_snapshot_meta(meta(vec![
            entry("default", 5, 1),
            entry("write", 1, 1),
            entry("lock", 1, 1),
        ])),
        Err(Error::Other(Cause::CfName { index: 1 }))
    );
    assert_eq!(s.cf_files()[0].size(), &vec![5]);
    assert!(s.cf_files()[1].size().is_empty());
    assert!(s.snapshot_meta().is_none());
    // A chunk cannot follow a chunk that is left out.
    let mut s = fresh();
    assert_eq!(
        s.set_snapshot_meta(meta(vec![
            entry("default", 0, 0),
            entry("default", 5, 1),
            entry("lock", 1, 1),
            entry("write", 1, 1),
        ])),
        Err(Error::Other(Cause::ChunkGap { cf_index: 0, file_index: 1 }))
    );
    // An entry without a name is for no column family.
    let mut s = fresh();
    assert_eq!(
        s.set_snapshot_meta(meta(vec![
            entry("", 1, 1),
            entry("default", 1, 1),
            entry("lock", 1, 1),
            entry("write", 1, 1),
        ])),
        Err(Error::Other(Cause::CfName { index: 0 }))
    );
}

#[test]
fn test_meta_of_built_files_is_accepted() {
    let mut built = fresh();
    built.switch_to_cf_file("default").unwrap();
    built.record_chunk(0, 11, 1);
    built.record_chunk(1, 22, 2);
    built.switch_to_cf_file("write").unwrap();
    built.record_chunk(0, 33, 3);
    built.set_built_meta(true).unwrap();
    let m = built.snapshot_meta().as_ref().unwrap().duplicate();
    assert_eq!(m.cf_files.len(), 4);
    let mut received = fresh();
    received.set_snapshot_meta(m).unwrap();
    for c in 0..3 {
        assert_eq!(received.cf_files()[c].size(), built.cf_files()[c].size());
        assert_eq!(received.cf_files()[c].checksum(), built.cf_files()[c].checksum());
    }
}

#[test]
fn test_switch_to_cf_file() {
    let mut s = fresh();
    assert_eq!(s.switch_to_cf_file("write"), Ok(()));
    s.record_chunk(0, 1, 1);
    assert_eq!(s.cf_files()[2].size(), &vec![1]);
    assert_eq!(s.switch_to_cf_file("raft"), Err(Error::Other(Cause::UnknownCf)));
    s.record_chunk(1, 2, 2);
    assert_eq!(s.cf_files()[2].size(), &vec![1, 2]);
    assert!(s.finish_cf_build(5));
    assert_eq!(s.cf_files()[2].kv_count(), 5);
    assert_eq!(s.total_count(), 5);
    assert!(!s.finish_cf_build(0));
}

#[test]
fn test_snapshot_statistics() {
    assert_eq!(SnapshotStatistics::new(), SnapshotStatistics { size: 0, kv_count: 0 });
    assert_eq!(SnapshotStatistics::default(), SnapshotStatistics::new());
    let mut s = fresh();
    assert_eq!(s.statistics(), Some(SnapshotStatistics::new()));
    s.switch_to_cf_file("lock").unwrap();
    s.record_chunk(0, 40, 1);
    s.finish_cf_build(3);
    s.switch_to_cf_file("write").unwrap();
    s.record_chunk(0, 2, 1);
    s.finish_cf_build(4);
    assert_eq!(s.statistics(), Some(SnapshotStatistics { size: 42, kv_count: 7 }));
    s.record_chunk(1, u64::MAX, 1);
    assert_eq!(s.statistics(), None);
    assert_eq!(s.checked_total_size(), None);
    assert_eq!(s.checked_total_count(), Some(7));
}
