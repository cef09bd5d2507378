use raftstore_snap::tablet::{elapsed_seconds, total_size, TabletSnapManager};
use raftstore_snap::{Cause, Error, TabletSnapKey};

const SEC: u64 = 1_000_000_000;

#[test]
fn test_snapshot_stats() {
    let now = 1000 * SEC;
    let mut mgr = TabletSnapManager::new("/snap_v2".to_string());
    let key = TabletSnapKey::new(1, 1, 1, 1);
    mgr.begin_snapshot(key, now - 2 * SEC, 1);
    // filter out the snapshot that is not finished
    assert!(mgr.stats().stats.is_empty());
    mgr.finish_snapshot(key, now - SEC, now);
    let stats = mgr.stats().stats;
    assert_eq!(stats.len(), 1);
    assert_eq!(stats[0].total_duration_sec, 2);
    assert_eq!(stats[0].send_duration_sec, 1);
    assert_eq!(stats[0].generate_duration_sec, 1);
    assert_eq!(stats[0].region_id, 1);
    assert!(mgr.stats().stats.is_empty());

    // filter out the total duration seconds less than one sencond.
    mgr.begin_snapshot(key, now - SEC, 1);
    mgr.finish_snapshot(key, now - SEC / 2, now);
    assert_eq!(mgr.stats().stats.len(), 0);
    // It was taken off the list all the same.
    mgr.finish_snapshot(key, now, now + 10 * SEC);
    assert_eq!(mgr.stats().stats.len(), 0);
    assert_eq!(mgr.tablet_gen_path(&key), "/snap_v2/gen_1_1_1_1");
}

#[test]
fn test_begin_snapshot_twice_begins_anew() {
    let mut mgr = TabletSnapManager::new("/v2".to_string());
    let a = TabletSnapKey::new(1, 1, 1, 1);
    let b = TabletSnapKey::new(2, 1, 1, 1);
    mgr.begin_snapshot(a, 0, 5);
    mgr.begin_snapshot(b, 0, 6);
    mgr.begin_snapshot(a, 7 * SEC, 9);
    mgr.finish_snapshot(a, 8 * SEC, 10 * SEC);
    mgr.finish_snapshot(b, 8 * SEC, 10 * SEC);
    let stats = mgr.stats().stats;
    assert_eq!(stats.len(), 2);
    assert_eq!((stats[0].region_id, stats[0].total_duration_sec), (1, 3));
    assert_eq!(stats[0].generate_duration_sec, 9);
    assert_eq!((stats[1].region_id, stats[1].total_duration_sec), (2, 10));
}

#[test]
fn test_elapsed_seconds() {
    assert_eq!(elapsed_seconds(0, 0), 0);
    assert_eq!(elapsed_seconds(5, 3), 0);
    assert_eq!(elapsed_seconds(0, SEC - 1), 0);
    assert_eq!(elapsed_seconds(1, SEC + 1), 1);
    assert_eq!(elapsed_seconds(0, u64::MAX), 18_446_744_073);
}

#[test]
fn test_tablet_paths() {
    let mgr = TabletSnapManager::new("/base".to_string());
    let key = TabletSnapKey::new(1, 2, 3, 4);
    assert_eq!(mgr.root_path(), "/base");
    assert_eq!(mgr.tablet_gen_path(&key), "/base/gen_1_2_3_4");
    assert_eq!(mgr.final_recv_path(&key), "/base/rev_1_2_3_4");
    assert_eq!(mgr.tmp_recv_path(&key), "/base/rev_1_2_3_4.tmp");
    assert_eq!(TabletSnapKey::from_path(&mgr.tablet_gen_path(&key)), Ok(key));
}

#[test]
fn test_start_receive_once_per_key() {
    let mut mgr = TabletSnapManager::new("/base".to_string());
    let a = TabletSnapKey::new(1, 2, 3, 4);
    let b = TabletSnapKey::new(1, 2, 3, 5);
    let guard_a = mgr.start_receive(a).unwrap();
    assert_eq!(guard_a.key(), &a);
    assert!(mgr.start_receive(a).is_none());
    let guard_b = mgr.start_receive(b).unwrap();
    mgr.finish_receive(guard_a);
    assert!(mgr.start_receive(b).is_none());
    let guard_a = mgr.start_receive(a).unwrap();
    mgr.finish_receive(guard_b);
    mgr.finish_receive(guard_a);
    assert!(mgr.start_receive(b).is_some());
}

#[test]
fn test_list_snapshot_and_sizes() {
    let mut mgr = TabletSnapManager::new("/base".to_string());
    let names: Vec<String> = ["gen_1_2_3_4", "rev_1_2_3_4", "gen_5_6_7_8.tmp", "general", "x"]
        .iter()
        .map(|n| n.to_string())
        .collect();
    assert_eq!(mgr.list_snapshot(&names), vec!["/base/gen_1_2_3_4", "/base/general"]);
    assert!(TabletSnapManager::counts_toward_size(Some("rev_1_2_3_4")));
    assert!(!TabletSnapManager::counts_toward_size(Some("gen_1_2_3_4")));
    assert!(TabletSnapManager::counts_toward_size(None));
    assert_eq!(total_size(&vec![1, 2, 3]), Ok(6));
    assert_eq!(total_size(&vec![]), Ok(0));
    assert_eq!(total_size(&vec![u64::MAX, 1]), Err(Error::Other(Cause::Overflow)));
    assert_eq!((mgr.sending_count(), mgr.recving_count()), (0, 0));
    mgr.set_sending_count(2);
    mgr.set_recving_count(3);
    let stats = mgr.stats();
    assert_eq!((stats.sending_count, stats.receiving_count), (2, 3));
}
