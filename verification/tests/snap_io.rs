use std::sync::atomic::AtomicUsize;
use std::sync::Arc;

use raftstore_snap::snap_io::{
    abort_status, apply_plain_cf_file, build_plain_cf_file, build_sst_cf_file_list, check_abort,
    clone_method, decode_compact_bytes, enc_end_key, enc_start_key, encode_compact_bytes,
    next_plain_entry, push_varint,
    ApplyAbortChecker, ApplyBatch, CloneMethod, Entry, Placement, SstFileList, StaleDetector,
    JOB_STATUS_CANCELLING, JOB_STATUS_RUNNING,
};
use raftstore_snap::{BuildStatistics, Cause, CfFile, Error};

struct TestStaleDetector;

impl StaleDetector for TestStaleDetector {
    fn is_stale(&self) -> bool {
        false
    }
}

struct Stale;

impl StaleDetector for Stale {
    fn is_stale(&self) -> bool {
        true
    }
}

fn cf_file(cf: &str, prefix: &str) -> CfFile {
    CfFile::new(cf, "/snap".to_string(), prefix.to_string(), ".sst".to_string())
}

fn peer(id: u8) -> Vec<u8> {
    vec![0x08, id, 0x10, 0x01]
}

fn db_with_100keys() -> Vec<Entry> {
    let mut entries: Vec<Entry> =
        (0..100).map(|k| (format!("zakey{}", k).into_bytes(), peer(1))).collect();
    entries.sort();
    entries
}

#[test]
fn test_cf_build_and_apply_plain_files() {
    let dbs: [Vec<Entry>; 2] = [Vec::new(), vec![(b"zakey".to_vec(), peer(2))]];
    for db in dbs {
        let mut cf_file = cf_file("lock", "test_plain_sst");
        let (stats, body) = build_plain_cf_file(&mut cf_file, &db).unwrap();
        if stats.key_count == 0 {
            assert_eq!(cf_file.file_paths().len(), 0);
            assert_eq!(cf_file.clone_file_paths().len(), 0);
            assert_eq!(cf_file.tmp_file_paths().len(), 0);
            assert_eq!(cf_file.size().len(), 0);
            assert!(body.is_empty());
            continue;
        }
        assert_eq!(cf_file.tmp_file_paths(), vec!["/snap/test_plain_sst.sst.tmp"]);
        let detector = TestStaleDetector {};
        let mut applied_keys: Vec<Entry> = Vec::new();
        for batch in apply_plain_cf_file(&body, &detector, 16).unwrap() {
            applied_keys.extend(batch);
        }
        assert_eq!(applied_keys, db);
    }
}

#[test]
fn test_cf_build_and_apply_sst_files() {
    let dbs: [Vec<Entry>; 2] = [Vec::new(), db_with_100keys()];
    let max_file_sizes = [u64::MAX, 100];
    for max_file_size in max_file_sizes {
        for db in &dbs {
            let mut cf_file = cf_file("default", "test_sst");
            let sizes: Vec<(usize, usize)> = db.iter().map(|(k, v)| (k.len(), v.len())).collect();
            let stats = build_sst_cf_file_list(&mut cf_file, &sizes, max_file_size).unwrap();
            if stats.key_count == 0 {
                assert_eq!(cf_file.file_paths().len(), 0);
                assert_eq!(cf_file.clone_file_paths().len(), 0);
                assert_eq!(cf_file.tmp_file_paths().len(), 0);
                assert_eq!(cf_file.size().len(), 0);
                assert_eq!(cf_file.checksum().len(), 0);
                continue;
            } else {
                assert!(
                    cf_file.file_paths().len() == 12 && max_file_size < u64::MAX
                        || cf_file.file_paths().len() == 1 && max_file_size == u64::MAX
                );
                assert!(cf_file.clone_file_paths().len() == cf_file.file_paths().len());
                assert!(cf_file.tmp_file_paths().len() == cf_file.file_paths().len());
                assert!(cf_file.size().len() == cf_file.file_paths().len());
                assert!(cf_file.checksum().len() == cf_file.file_paths().len());
            }
            assert_eq!(stats.key_count, 100);
            assert_eq!(stats.total_size, 10 * 10 + 90 * 11);
        }
    }
}

#[test]
fn test_chunks_sum_to_the_totals_of_an_unbounded_build() {
    let db = db_with_100keys();
    let mut unbounded = SstFileList::new(u64::MAX);
    for (k, v) in &db {
        let p = unbounded.add_entry(k.len(), v.len()).unwrap();
        assert_eq!(p.file_id, 0);
        assert!(!p.new_file);
    }
    assert_eq!(unbounded.file_count(), 1);
    for limit in [11u64, 21, 50, 100, 500, 1089, 1090] {
        let mut list = SstFileList::new(limit);
        let mut sizes: Vec<usize> = vec![0];
        let mut keys: Vec<usize> = vec![0];
        for (k, v) in &db {
            let p = list.add_entry(k.len(), v.len()).unwrap();
            if p.new_file {
                sizes.push(0);
                keys.push(0);
            }
            assert_eq!(p.file_id + 1, sizes.len());
            *sizes.last_mut().unwrap() += k.len() + v.len();
            *keys.last_mut().unwrap() += 1;
        }
        assert_eq!(list.file_count(), sizes.len());
        assert!(sizes.iter().all(|s| *s as u64 <= limit && *s > 0));
        // No file could have taken the first entry of the next.
        for w in 0..sizes.len() - 1 {
            let first_of_next: usize = keys[..=w].iter().sum();
            let len = db[first_of_next].0.len() + db[first_of_next].1.len();
            assert!((sizes[w] + len) as u64 > limit);
        }
        assert_eq!(sizes.iter().sum::<usize>(), unbounded.stats().total_size);
        assert_eq!(keys.iter().sum::<usize>(), unbounded.stats().key_count);
        assert_eq!(list.stats(), unbounded.stats());
    }
    let mut list = SstFileList::new(1090);
    for (k, v) in &db {
        list.add_entry(k.len(), v.len()).unwrap();
    }
    assert_eq!(list.file_count(), 1);
}

#[test]
fn test_sst_file_list_placements() {
    let mut list = SstFileList::new(10);
    assert_eq!(list.file_count(), 0);
    assert_eq!(list.stats(), BuildStatistics { key_count: 0, total_size: 0 });
    assert_eq!(
        list.add_entry(3, 3),
        Ok(Placement { file_id: 0, new_file: false, limiter_units: 1 })
    );
    assert_eq!(
        list.add_entry(2, 2),
        Ok(Placement { file_id: 0, new_file: false, limiter_units: 0 })
    );
    assert_eq!(
        list.add_entry(1, 0),
        Ok(Placement { file_id: 1, new_file: true, limiter_units: 0 })
    );
    // 4085 bytes of quota are left; an entry of 8182 takes two units more,
    // which leaves 4095.
    assert_eq!(
        list.add_entry(8000, 182),
        Ok(Placement { file_id: 2, new_file: true, limiter_units: 2 })
    );
    assert_eq!(
        list.add_entry(0, 4096 * 2),
        Ok(Placement { file_id: 3, new_file: true, limiter_units: 2 })
    );
    assert_eq!(
        list.add_entry(4094, 0),
        Ok(Placement { file_id: 4, new_file: true, limiter_units: 0 })
    );
    assert_eq!(
        list.add_entry(0, 1),
        Ok(Placement { file_id: 5, new_file: true, limiter_units: 0 })
    );
    assert_eq!(
        list.add_entry(1, 0),
        Ok(Placement { file_id: 5, new_file: false, limiter_units: 1 })
    );
    assert_eq!(list.file_count(), 6);
    assert_eq!(list.stats().key_count, 8);
    assert_eq!(list.add_entry(usize::MAX, 1), Err(Error::Other(Cause::Overflow)));
    assert_eq!(list.add_entry(usize::MAX - 10, 1), Err(Error::Other(Cause::Overflow)));
    assert_eq!(list.stats().key_count, 8);
}

#[test]
fn test_an_entry_beyond_the_limit_leaves_the_first_file_empty() {
    let mut list = SstFileList::new(5);
    assert_eq!(
        list.add_entry(6, 0),
        Ok(Placement { file_id: 1, new_file: true, limiter_units: 1 })
    );
    assert_eq!(list.file_count(), 2);
}

#[test]
fn test_varint_and_compact_bytes() {
    let mut out = Vec::new();
    push_varint(&mut out, 0);
    push_varint(&mut out, 127);
    push_varint(&mut out, 128);
    push_varint(&mut out, 300);
    push_varint(&mut out, u64::MAX);
    assert_eq!(
        out,
        vec![
            0x00, 0x7f, 0x80, 0x01, 0xac, 0x02, 0xff, 0xff, 0xff, 0xff, 0xff, 0xff, 0xff, 0xff,
            0xff, 0x01
        ]
    );
    let mut out = Vec::new();
    encode_compact_bytes(&mut out, b"abc").unwrap();
    encode_compact_bytes(&mut out, b"").unwrap();
    encode_compact_bytes(&mut out, &[7u8; 100]).unwrap();
    assert_eq!(&out[..5], &[6, b'a', b'b', b'c', 0]);
    assert_eq!(&out[5..7], &[0xc8, 0x01]);
    assert_eq!(decode_compact_bytes(&out, 0), Ok((b"abc".to_vec(), 4)));
    assert_eq!(decode_compact_bytes(&out, 4), Ok((Vec::new(), 5)));
    assert_eq!(decode_compact_bytes(&out, 5), Ok((vec![7u8; 100], 107)));
    assert_eq!(decode_compact_bytes(&out, 107), Err(Error::Other(Cause::Malformed)));
    // A length that reaches beyond the data, an odd length, a number that
    // does not end, and one that is too large.
    assert_eq!(decode_compact_bytes(&[8, 1, 2, 3], 0), Err(Error::Other(Cause::Malformed)));
    assert_eq!(decode_compact_bytes(&[3, 1, 2, 3], 0), Err(Error::Other(Cause::Malformed)));
    assert_eq!(decode_compact_bytes(&[0x80, 0x80], 0), Err(Error::Other(Cause::Malformed)));
    assert_eq!(decode_compact_bytes(&[0xff; 11], 0), Err(Error::Other(Cause::Malformed)));
    assert_eq!(
        decode_compact_bytes(&[0xfe, 0xff, 0xff, 0xff, 0xff, 0xff, 0xff, 0xff, 0xff, 0x02], 0),
        Err(Error::Other(Cause::Malformed))
    );
    assert_eq!(decode_compact_bytes(&[0x80, 0x00, 9], 0), Ok((Vec::new(), 2)));
}

#[test]
fn test_plain_file_layout() {
    let mut cf = cf_file("lock", "p");
    let db: Vec<Entry> = vec![(b"k1".to_vec(), b"v".to_vec()), (b"k2".to_vec(), Vec::new())];
    let (stats, body) = build_plain_cf_file(&mut cf, &db).unwrap();
    assert_eq!(stats, BuildStatistics { key_count: 2, total_size: 5 });
    assert_eq!(body, vec![4, b'k', b'1', 2, b'v', 4, b'k', b'2', 0, 0]);
    assert_eq!(cf.size(), &vec![0]);
    assert_eq!(next_plain_entry(&body, 0, false), Ok(Some((db[0].clone(), 5))));
    assert_eq!(next_plain_entry(&body, 5, false), Ok(Some((db[1].clone(), 9))));
    assert_eq!(next_plain_entry(&body, 9, false), Ok(None));
    assert_eq!(next_plain_entry(&body, 0, true), Err(Error::Abort));
    assert_eq!(next_plain_entry(&body, 10, false), Err(Error::Other(Cause::Malformed)));
    assert_eq!(next_plain_entry(&body[..4], 0, false), Err(Error::Other(Cause::Malformed)));
    // What follows the closing key is not read.
    let mut longer = body.clone();
    longer.extend_from_slice(&[0xff, 0xff]);
    let batches = apply_plain_cf_file(&longer, &TestStaleDetector, 1000).unwrap();
    assert_eq!(batches, vec![db.clone()]);
    // A file that is cut off does not apply.
    assert_eq!(
        apply_plain_cf_file(&body[..9], &TestStaleDetector, 1000),
        Err(Error::Other(Cause::Malformed))
    );
    assert_eq!(apply_plain_cf_file(&body, &Stale, 1000), Err(Error::Abort));
}

#[test]
fn test_apply_batches() {
    let db: Vec<Entry> = (0..5u8).map(|i| (vec![b'k', i], vec![i; 4])).collect();
    let mut cf = cf_file("lock", "p");
    let (_, body) = build_plain_cf_file(&mut cf, &db).unwrap();
    // Each entry has six bytes: a batch is written out once it holds twelve.
    let batches = apply_plain_cf_file(&body, &TestStaleDetector, 12).unwrap();
    assert_eq!(batches, vec![db[0..2].to_vec(), db[2..4].to_vec(), db[4..5].to_vec()]);
    let batches = apply_plain_cf_file(&body, &TestStaleDetector, 0).unwrap();
    assert_eq!(batches.len(), 5);
    let batches = apply_plain_cf_file(&body, &TestStaleDetector, 30).unwrap();
    assert_eq!(batches, vec![db.clone()]);
    let batches = apply_plain_cf_file(&body, &TestStaleDetector, 31).unwrap();
    assert_eq!(batches, vec![db.clone()]);

    let mut batch = ApplyBatch::new(7);
    assert_eq!(batch.push(vec![1, 2], vec![3]), None);
    assert_eq!(batch.push(vec![4], vec![5, 6]), None);
    assert_eq!(
        batch.push(vec![7], vec![]),
        Some(vec![(vec![1, 2], vec![3]), (vec![4], vec![5, 6]), (vec![7], vec![])])
    );
    assert_eq!(batch.push(vec![8], vec![]), None);
    assert_eq!(batch.finish(), Some(vec![(vec![8], vec![])]));
    assert_eq!(ApplyBatch::new(7).finish(), None);
}

#[test]
fn test_check_abort() {
    assert_eq!(abort_status(JOB_STATUS_RUNNING), Ok(()));
    assert_eq!(abort_status(JOB_STATUS_CANCELLING), Err(Error::Abort));
    assert_eq!(abort_status(3), Ok(()));
    let status = AtomicUsize::new(JOB_STATUS_RUNNING);
    assert_eq!(check_abort(&status), Ok(()));
    let status = Arc::new(AtomicUsize::new(JOB_STATUS_CANCELLING));
    assert_eq!(check_abort(&status), Err(Error::Abort));
    let checker = ApplyAbortChecker(status.clone());
    assert!(checker.is_stale());
    status.store(JOB_STATUS_RUNNING, std::sync::atomic::Ordering::Relaxed);
    assert!(!checker.is_stale());
}

#[test]
fn test_clone_method() {
    assert_eq!(clone_method(false, false, 1), CloneMethod::HardLink);
    assert_eq!(clone_method(false, true, 1), CloneMethod::HardLink);
    assert_eq!(clone_method(false, false, 2), CloneMethod::Copy);
    assert_eq!(clone_method(true, false, 2), CloneMethod::Copy);
    assert_eq!(clone_method(true, true, 1), CloneMethod::CopyWritable);
}

#[test]
fn test_error_codes() {
    assert_eq!(Error::Abort.error_code(), "KV:Raftstore:SnapAbort");
    assert_eq!(Error::TooManySnapshots.error_code(), "KV:Raftstore:SnapTooMany");
    assert_eq!(Error::Other(Cause::Malformed).error_code(), "KV:Raftstore:SnapUnknown");
}

#[test]
fn test_data_keys() {
    assert_eq!(enc_start_key(b"a"), b"za".to_vec());
    assert_eq!(enc_start_key(b""), b"z".to_vec());
    assert_eq!(enc_end_key(b"z"), b"zz".to_vec());
    // An empty end stands for the end of all data.
    assert_eq!(enc_end_key(b""), b"{".to_vec());
}
