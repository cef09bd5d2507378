use raftstore_snap::manager::{
    list_idle_snap, sending_snaps, stale_tmp_files, FileInfo, OpenMode, SnapManager,
    SnapManagerBuilder,
};
use raftstore_snap::quota::{Candidate, EvictStep, Eviction};
use raftstore_snap::snapshot::{delete_retry_step, CheckPolicy, RetryStep};
use raftstore_snap::tablet::SnapshotStat;
use raftstore_snap::{Cause, Error, Registry, SnapEntry, SnapKey, Snapshot};

fn file(name: &str, len: u64) -> FileInfo {
    FileInfo { name: name.to_string(), is_file: true, len }
}

fn dir(name: &str) -> FileInfo {
    FileInfo { name: name.to_string(), is_file: false, len: 4096 }
}

#[test]
fn test_registry_multiplicity() {
    let key = SnapKey::new(1, 1, 1);
    let mut registry = Registry::new();
    assert!(!registry.has_registered(&key));
    assert!(registry.may_delete(&key, false));
    assert!(registry.may_delete(&key, true));
    assert!(registry.register(key, SnapEntry::Generating));
    // A second registration under the same role changes nothing.
    assert!(!registry.register(key, SnapEntry::Generating));
    assert_eq!(registry.role_count(&key), 1);
    assert!(!registry.may_delete(&key, false));
    assert!(registry.may_delete(&key, true));
    assert!(registry.register(key, SnapEntry::Sending));
    assert_eq!(registry.role_count(&key), 2);
    assert!(!registry.may_delete(&key, false));
    assert!(!registry.may_delete(&key, true));
    // The key stays until both roles are gone.
    assert!(registry.deregister(&key, &SnapEntry::Generating));
    assert!(registry.has_registered(&key));
    assert!(!registry.may_delete(&key, false));
    assert!(!registry.deregister(&key, &SnapEntry::Generating));
    assert!(!registry.deregister(&key, &SnapEntry::Applying));
    assert!(registry.has_registered(&key));
    assert!(registry.deregister(&key, &SnapEntry::Sending));
    assert!(!registry.has_registered(&key));
    assert!(registry.may_delete(&key, false));
    assert!(!registry.deregister(&key, &SnapEntry::Sending));
}

#[test]
fn test_registry_counts() {
    let mut registry = Registry::new();
    assert_eq!(registry.counts(), (0, 0));
    registry.register(SnapKey::new(1, 1, 1), SnapEntry::Generating);
    registry.register(SnapKey::new(1, 1, 1), SnapEntry::Sending);
    registry.register(SnapKey::new(2, 1, 1), SnapEntry::Receiving);
    registry.register(SnapKey::new(3, 1, 1), SnapEntry::Applying);
    registry.register(SnapKey::new(3, 1, 1), SnapEntry::Sending);
    assert_eq!(registry.counts(), (2, 2));
    registry.deregister(&SnapKey::new(3, 1, 1), &SnapEntry::Applying);
    assert_eq!(registry.counts(), (2, 1));
    assert!(SnapEntry::Generating.is_sending());
    assert!(!SnapEntry::Applying.is_sending());
}

#[test]
fn test_snap_deletion_on_registry() {
    let mut src_mgr = SnapManager::new("/src");
    let key = SnapKey::new(1, 1, 1);
    let listing = vec![
        file("gen_1_1_1_default.sst", 10),
        file("gen_1_1_1_lock.sst", 10),
        file("gen_1_1_1.meta", 10),
    ];
    let on_disk: Vec<String> = listing.iter().map(|f| format!("/src/{}", f.name)).collect();

    // Ensure the snapshot being built will not be deleted on GC.
    src_mgr.register(key, SnapEntry::Generating);
    let snap_keys = src_mgr.list_idle_snap(&listing);
    assert!(snap_keys.is_empty());
    assert!(src_mgr.has_registered(&key));
    let s = src_mgr.get_snapshot_for_gc(&key, true);
    assert_eq!(src_mgr.delete_snapshot(&key, &s, &on_disk, false), None);
    src_mgr.deregister(&key, &SnapEntry::Generating);
    let mut snap_keys = src_mgr.list_idle_snap(&listing);
    assert_eq!(snap_keys.len(), 1);
    let (snap_key, is_sending) = snap_keys.pop().unwrap();
    assert_eq!(snap_key, key);
    assert!(is_sending);
    assert!(!src_mgr.has_registered(&snap_key));

    // Ensure the snapshot to be applied will not be deleted on GC.
    src_mgr.register(key, SnapEntry::Applying);
    assert_eq!(src_mgr.delete_snapshot(&key, &s, &on_disk, false), None);
    // Its holder may delete it.
    let plan = src_mgr.delete_snapshot(&key, &s, &on_disk, true).unwrap();
    let paths: Vec<&str> = plan.iter().map(|r| r.path.as_str()).collect();
    assert_eq!(
        paths,
        vec!["/src/gen_1_1_1_default.sst", "/src/gen_1_1_1_lock.sst", "/src/gen_1_1_1.meta"]
    );
    src_mgr.register(key, SnapEntry::Sending);
    assert_eq!(src_mgr.delete_snapshot(&key, &s, &on_disk, true), None);
}

#[test]
fn test_list_idle_snap() {
    let mut registry = Registry::new();
    registry.register(SnapKey::new(9, 9, 9), SnapEntry::Sending);
    let listing = vec![
        file("rev_2_1_1_default.sst", 1),
        file("gen_2_1_1_default.sst", 1),
        file("gen_2_1_1_write_0001.sst", 1),
        file("gen_2_1_1.meta", 1),
        file("gen_1_5_7.meta.tmp", 1),
        file("gen_9_9_9.meta", 1),
        file("del_range_1_2_3.sst.tmp", 1),
        file("gen_1_2", 1),
        file("LOCK", 1),
        dir("gen_4_4_4"),
    ];
    assert_eq!(
        list_idle_snap(&registry, &listing),
        vec![
            (SnapKey::new(1, 5, 7), true),
            (SnapKey::new(2, 1, 1), false),
            (SnapKey::new(2, 1, 1), true),
        ]
    );
    assert_eq!(
        sending_snaps(&list_idle_snap(&registry, &listing)),
        vec![SnapKey::new(1, 5, 7), SnapKey::new(2, 1, 1)]
    );
    assert_eq!(
        stale_tmp_files(&listing),
        vec!["gen_1_5_7.meta.tmp", "del_range_1_2_3.sst.tmp"]
    );
}

#[test]
fn test_total_snap_size() {
    let mgr = SnapManager::new("/snap");
    let listing = vec![
        file("gen_1_1_1_default.sst", 100),
        file("gen_1_1_1_default.sst.clone", 100),
        file("gen_1_1_1_lock.sst.tmp", 20),
        file("gen_1_1_1.meta", 3),
        dir("sub.sst"),
        file("clone", 1),
    ];
    assert_eq!(mgr.shared().get_total_snap_size(&listing), Ok(121));
    // Without a manager of tablet snapshots their bytes do not count.
    assert_eq!(mgr.get_total_snap_size(&listing, 1000), Ok(121));
    let v2 = SnapManagerBuilder::new().enable_receive_tablet_snapshot(true).build("/snap");
    assert_eq!(v2.get_total_snap_size(&listing, 1000), Ok(1121));
    let huge = vec![file("a", u64::MAX), file("b", 1)];
    assert_eq!(mgr.shared().get_total_snap_size(&huge), Err(Error::Other(Cause::Overflow)));
    assert_eq!(v2.get_total_snap_size(&huge[..1].to_vec(), 1), Err(Error::Other(Cause::Overflow)));
}

#[test]
fn test_snapshot_max_total_size() {
    // Twenty snapshots of one size, and a quota for some of them.
    let snap_size: u64 = 700;
    let max_total_size: u64 = 10240;
    let snap_mgr = SnapManagerBuilder::new().max_total_size(max_total_size).build("/snap");
    assert_eq!(snap_mgr.max_total_snap_size(), max_total_size);
    let max_snap_count = (max_total_size + snap_size - 1) / snap_size;

    // The oldest snapshot on disk is a received one.
    let mut disk: Vec<(SnapKey, bool, u64)> = vec![(SnapKey::new(100, 100, 100), false, 0)];
    for (i, region_id) in (0..20u64).enumerate() {
        let listing: Vec<FileInfo> = disk
            .iter()
            .map(|(k, sending, _)| {
                let prefix = if *sending { "gen" } else { "rev" };
                file(&format!("{}_{}_default.sst", prefix, k.to_string()), snap_size)
            })
            .collect();
        let mut eviction = Eviction::new();
        let mut total = snap_mgr.get_total_snap_size(&listing, 0).unwrap();
        loop {
            match eviction.next(total, snap_mgr.max_total_snap_size()) {
                EvictStep::Proceed => break,
                EvictStep::ListCandidates => {
                    let idle = snap_mgr.list_idle_snap(&listing);
                    let candidates = sending_snaps(&idle)
                        .into_iter()
                        .map(|key| Candidate {
                            key,
                            modified: disk.iter().find(|d| d.0 == key).unwrap().2,
                        })
                        .collect();
                    eviction.set_candidates(candidates);
                }
                EvictStep::Evict(key) => {
                    // The least recently modified goes first.
                    let oldest = disk.iter().filter(|d| d.1).map(|d| d.2).min().unwrap();
                    let pos = disk.iter().position(|d| d.0 == key && d.1).unwrap();
                    assert_eq!(disk[pos].2, oldest);
                    disk.remove(pos);
                    total -= snap_size;
                }
                EvictStep::TooManySnapshots => panic!("nothing to evict"),
            }
        }
        disk.push((SnapKey::new(region_id, 1, 1), true, i as u64 + 1));
        // The first snap_size is for region 100.
        // That snapshot won't be deleted because it's not for generating.
        assert!(disk.iter().any(|d| d.0 == SnapKey::new(100, 100, 100)));
        assert_eq!(
            disk.len() as u64 * snap_size,
            snap_size * u64::min(max_snap_count, (i + 2) as u64)
        );
        assert!((disk.len() as u64 - 1) * snap_size <= max_total_size);
    }
}

#[test]
fn test_quota_without_candidates_fails() {
    let mut eviction = Eviction::new();
    assert_eq!(eviction.next(10, 10), EvictStep::Proceed);
    assert_eq!(eviction.next(11, 10), EvictStep::ListCandidates);
    assert_eq!(eviction.next(11, 10), EvictStep::ListCandidates);
    // Every snapshot is registered: none may be evicted.
    eviction.set_candidates(Vec::new());
    assert_eq!(eviction.next(11, 10), EvictStep::TooManySnapshots);
    assert_eq!(eviction.next(10, 10), EvictStep::Proceed);
}

#[test]
fn test_eviction_order() {
    let mut eviction = Eviction::new();
    let k = |r| SnapKey::new(r, 1, 1);
    eviction.set_candidates(vec![
        Candidate { key: k(1), modified: 30 },
        Candidate { key: k(2), modified: 10 },
        Candidate { key: k(3), modified: 20 },
        Candidate { key: k(4), modified: 10 },
    ]);
    // Of those modified at the same time the last goes first.
    assert_eq!(eviction.next(100, 1), EvictStep::Evict(k(4)));
    assert_eq!(eviction.next(100, 1), EvictStep::Evict(k(2)));
    assert_eq!(eviction.next(100, 1), EvictStep::Evict(k(3)));
    assert_eq!(eviction.next(1, 1), EvictStep::Proceed);
    assert_eq!(eviction.next(100, 1), EvictStep::Evict(k(1)));
    assert_eq!(eviction.next(100, 1), EvictStep::TooManySnapshots);
}

#[test]
fn test_builder_and_settings() {
    let mut mgr = SnapManagerBuilder::new()
        .max_write_bytes_per_sec(1024)
        .max_total_size(0)
        .max_per_file_size(0)
        .enable_multi_snapshot_files(true)
        .min_ingest_snapshot_limit(2 << 20, 20000)
        .build("/snap");
    assert_eq!(mgr.max_total_snap_size(), u64::MAX);
    assert_eq!(mgr.max_write_bytes_per_sec(), 1024);
    assert_eq!(mgr.get_actual_max_per_file_size(true), u64::MAX);
    assert!(mgr.tablet_snap_manager().is_none());
    mgr.set_max_per_file_size(100);
    assert_eq!(mgr.get_actual_max_per_file_size(true), 100);
    assert_eq!(mgr.get_actual_max_per_file_size(false), u64::MAX);
    mgr.set_enable_multi_snapshot_files(false);
    assert_eq!(mgr.get_actual_max_per_file_size(true), u64::MAX);
    assert_eq!(mgr.shared().get_actual_max_per_file_size(true), u64::MAX);
    mgr.set_max_total_snap_size(77);
    assert_eq!(mgr.max_total_snap_size(), 77);
    assert!(!mgr.is_offlined());
    mgr.set_offline(true);
    assert!(mgr.is_offlined());

    // A snapshot is replayed where it is small in bytes and in keys.
    assert!(mgr.shared().can_apply_cf_without_ingest(2 << 20, 20000));
    assert!(!mgr.shared().can_apply_cf_without_ingest((2 << 20) + 1, 1));
    assert!(!mgr.shared().can_apply_cf_without_ingest(1, 20001));
    mgr.set_min_ingest_cf_limit(100, 5);
    assert!(mgr.shared().can_apply_cf_without_ingest(100, 10000));
    assert!(!mgr.shared().can_apply_cf_without_ingest(100, 10001));
    mgr.set_min_ingest_cf_limit(0, 0);
    assert!(!mgr.shared().can_apply_cf_without_ingest(0, 0));
    assert_eq!(mgr.shared().base(), "/snap");
}

#[test]
fn test_init_enable_receive_tablet_snapshot() {
    let builder = SnapManagerBuilder::new().enable_receive_tablet_snapshot(true);
    let snap_mgr = builder.build("/tmp/test_snap_path_does_not_exist/snap");
    assert_eq!(snap_mgr.shared().base(), "/tmp/test_snap_path_does_not_exist/snap");
    assert_eq!(
        snap_mgr.tablet_snap_manager().unwrap().root_path(),
        "/tmp/test_snap_path_does_not_exist/snap_v2"
    );
}

#[test]
fn test_snap_temp_file_delete() {
    let mut src_mgr = SnapManager::new("/snap");
    let sst_path = src_mgr.get_temp_path_for_ingest();
    assert_eq!(sst_path, "/snap/del_range_0.sst.tmp");
    assert_eq!(src_mgr.get_temp_path_for_ingest(), "/snap/del_range_1.sst.tmp");
    // The sst_path will be deleted by SnapManager because it is a temp filet.
    let listing = vec![file("del_range_0.sst.tmp", 10), file("gen_1_1_1.meta", 1)];
    assert_eq!(stale_tmp_files(&listing), vec!["del_range_0.sst.tmp"]);
    assert!(src_mgr.list_idle_snap(&listing[..1].to_vec()).is_empty());
}

#[test]
fn test_manager_stats() {
    let mut mgr = SnapManager::new("/snap");
    mgr.register(SnapKey::new(1, 1, 1), SnapEntry::Sending);
    mgr.register(SnapKey::new(2, 1, 1), SnapEntry::Receiving);
    let stat = SnapshotStat { region_id: 1, total_duration_sec: 3, ..Default::default() };
    mgr.collect_stat(stat);
    let stats = mgr.stats();
    assert_eq!(stats.sending_count, 1);
    assert_eq!(stats.receiving_count, 1);
    assert_eq!(stats.stats, vec![stat]);
    assert!(mgr.stats().stats.is_empty());
}

#[test]
fn test_open_modes() {
    let mgr = SnapManager::new("/snap");
    let key = SnapKey::new(1, 2, 3);
    assert_eq!(mgr.open_snapshot(&key, OpenMode::Building).meta_path(), "/snap/gen_1_2_3.meta");
    assert_eq!(mgr.open_snapshot(&key, OpenMode::Sending).meta_path(), "/snap/gen_1_2_3.meta");
    assert_eq!(mgr.open_snapshot(&key, OpenMode::Receiving).meta_path(), "/snap/rev_1_2_3.meta");
    assert_eq!(mgr.open_snapshot(&key, OpenMode::Applying).meta_path(), "/snap/rev_1_2_3.meta");
    assert_eq!(mgr.open_snapshot(&key, OpenMode::Gc(true)).meta_path(), "/snap/gen_1_2_3.meta");
    assert_eq!(mgr.get_snapshot_for_gc(&key, false).meta_path(), "/snap/rev_1_2_3.meta");
    assert_eq!(OpenMode::Building.check_policy(), CheckPolicy::ErrAllowed);
    assert_eq!(OpenMode::Sending.check_policy(), CheckPolicy::ErrNotAllowed);
    assert_eq!(OpenMode::TabletSnapshot.check_policy(), CheckPolicy::ErrNotAllowed);
    assert_eq!(OpenMode::Gc(true).check_policy(), CheckPolicy::Skip);
    assert!(CheckPolicy::ErrAllowed.loads_meta(true));
    assert!(!CheckPolicy::ErrAllowed.loads_meta(false));
    assert!(!CheckPolicy::Skip.loads_meta(true));
    assert!(CheckPolicy::ErrAllowed.heals());
    assert!(!CheckPolicy::ErrNotAllowed.heals());
    assert_eq!(SnapManager::require_snapshot(true), Ok(()));
    assert_eq!(SnapManager::require_snapshot(false), Err(Error::Other(Cause::NotExists)));
    let s = Snapshot::new("/snap", &key, true);
    assert!(s.needs_meta_load(true));
    assert!(!s.needs_meta_load(false));
}

#[test]
fn test_delete_retry() {
    assert_eq!(delete_retry_step(0, true), RetryStep::Deleted);
    assert_eq!(delete_retry_step(0, false), RetryStep::WaitAndRetry(500));
    assert_eq!(delete_retry_step(4, false), RetryStep::WaitAndRetry(500));
    assert_eq!(delete_retry_step(5, false), RetryStep::WaitAndGiveUp(500));
    assert_eq!(delete_retry_step(5, true), RetryStep::Deleted);
}
