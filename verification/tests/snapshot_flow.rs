use std::collections::BTreeMap;

use raftstore_snap::checksum::{checksum, Digest};
use raftstore_snap::manager::{FileInfo, OpenMode, SnapManager, SnapManagerBuilder};
use raftstore_snap::meta::{SnapshotMeta, CF_DEFAULT, CF_LOCK, CF_WRITE};
use raftstore_snap::snap_io::{
    apply_plain_cf_file, encode_compact_bytes, BuildStatistics, Entry, SstFileList, StaleDetector,
};
use raftstore_snap::snapshot::{
    check_file_size_and_checksum, ApplyMethod, BuildStart, RemovalKind, Snapshot,
};
use raftstore_snap::{Cause, Error, SnapKey};

const BASE: &str = "/snap";

/// A directory in memory: the files by their paths.
#[derive(Default)]
struct Disk {
    files: BTreeMap<String, Vec<u8>>,
}

impl Disk {
    fn on_disk(&self) -> Vec<String> {
        self.files.keys().cloned().collect()
    }

    fn listing(&self) -> Vec<FileInfo> {
        self.files
            .iter()
            .map(|(path, body)| FileInfo {
                name: path.rsplit('/').next().unwrap().to_string(),
                is_file: true,
                len: body.len() as u64,
            })
            .collect()
    }
}

/// The keys and values of a store, column family by column family.
type Db = BTreeMap<&'static str, Vec<Entry>>;

struct NeverStale;

impl StaleDetector for NeverStale {
    fn is_stale(&self) -> bool {
        false
    }
}

fn key_of(name: &str) -> Vec<u8> {
    let mut key = b"z".to_vec();
    key.extend_from_slice(name.as_bytes());
    key
}

fn peer_value(id: u8) -> Vec<u8> {
    vec![0x08, id, 0x10, 0x01]
}

fn empty_db() -> Db {
    let mut db = Db::new();
    for cf in [CF_DEFAULT, CF_LOCK, CF_WRITE] {
        db.insert(cf, Vec::new());
    }
    db
}

fn test_db() -> Db {
    let mut db = Db::new();
    for (i, cf) in [CF_DEFAULT, CF_LOCK, CF_WRITE].into_iter().enumerate() {
        db.insert(cf, vec![(key_of("akey"), peer_value(i as u8 + 1))]);
    }
    db
}

fn test_db_with_100keys() -> Db {
    let mut db = Db::new();
    for (i, cf) in [CF_DEFAULT, CF_LOCK, CF_WRITE].into_iter().enumerate() {
        let mut entries: Vec<Entry> = (0..100)
            .map(|k| (key_of(&format!("akey{}", k)), peer_value(i as u8 + 1)))
            .collect();
        entries.sort();
        db.insert(cf, entries);
    }
    db
}

fn kv_count(db: &Db) -> u64 {
    db.values().map(|entries| entries.len() as u64).sum()
}

/// Stands for the engine's file format: the entries of one file, each behind
/// its length.
fn sst_body(entries: &[Entry]) -> Vec<u8> {
    let mut body = b"sst".to_vec();
    for (key, value) in entries {
        encode_compact_bytes(&mut body, key).unwrap();
        encode_compact_bytes(&mut body, value).unwrap();
    }
    encode_compact_bytes(&mut body, b"").unwrap();
    body
}

fn sst_entries(body: &[u8]) -> Vec<Entry> {
    assert_eq!(&body[..3], b"sst");
    apply_plain_cf_file(&body[3..], &NeverStale, usize::MAX)
        .unwrap()
        .into_iter()
        .flatten()
        .collect()
}

fn measure(disk: &Disk, path: &str) -> (u32, u64) {
    let body = &disk.files[path];
    (checksum(body), body.len() as u64)
}

fn validate(disk: &Disk, s: &Snapshot) -> Result<(), Error> {
    let mut measured = Vec::new();
    for chunk in s.chunks() {
        let path = s.file_path(chunk.cf_index, chunk.file_index);
        if !disk.files.contains_key(&path) {
            break;
        }
        let (sum, size) = measure(disk, &path);
        measured.push((size, sum));
    }
    s.validate(&measured)
}

fn new_for_building(disk: &mut Disk, dir: &str, key: &SnapKey) -> Snapshot {
    let mut s = Snapshot::new(dir, key, OpenMode::Building.is_sending());
    if disk.files.contains_key(s.meta_path()) {
        let meta = decode_meta(&disk.files[s.meta_path()]);
        if let Some(meta) = meta {
            let on_disk = disk.on_disk();
            s.load_snapshot_meta(meta, &on_disk).unwrap();
        }
    }
    if !s.exists_on_disk(&disk.on_disk()) {
        let tmp = s.meta_tmp_path().to_string();
        assert!(disk.files.insert(tmp, Vec::new()).is_none());
        s.tmp_meta_created();
    }
    s
}

fn encode_meta(meta: &SnapshotMeta) -> Vec<u8> {
    meta.write_to_bytes()
}

fn decode_meta(body: &[u8]) -> Option<SnapshotMeta> {
    SnapshotMeta::from_bytes(body).ok()
}

/// Make all the snapshot meta files in the specified corrupted to have incorrect
/// content.
fn corrupt_snapshot_meta_file(disk: &mut Disk) -> usize {
    let mut total = 0;
    for (path, body) in disk.files.iter_mut() {
        if path.ends_with(".meta") {
            // Make the last byte of the meta file corrupted
            // by turning over all bits of it
            let last = body.len() - 1;
            body[last] ^= u8::MAX;
            total += 1;
        }
    }
    total
}

fn build(disk: &mut Disk, s: &mut Snapshot, db: &Db, max_file_size: u64) -> u64 {
    let exists = s.exists_on_disk(&disk.on_disk());
    let validation = if exists { validate(disk, s) } else { Ok(()) };
    match Snapshot::build_start(exists, &validation) {
        BuildStart::UpToDate => return s.total_size(),
        BuildStart::Rebuild => {
            for removal in s.delete(&disk.on_disk()) {
                disk.files.remove(&removal.path);
            }
            let tmp = s.meta_tmp_path().to_string();
            disk.files.insert(tmp, Vec::new());
            s.tmp_meta_created();
        }
        BuildStart::Build => {}
    }
    for cf in [CF_DEFAULT, CF_LOCK, CF_WRITE] {
        s.switch_to_cf_file(cf).unwrap();
        let entries = &db[cf];
        let c = [CF_DEFAULT, CF_LOCK, CF_WRITE].iter().position(|x| *x == cf).unwrap();
        let stats: BuildStatistics;
        let mut tmp_bodies: Vec<Vec<u8>> = Vec::new();
        if raftstore_snap::plain_file_used(cf) {
            let (st, body) = s.build_plain_cf_file(entries).unwrap();
            stats = st;
            if st.key_count > 0 {
                tmp_bodies.push(body);
            }
        } else {
            let mut list = SstFileList::new(max_file_size);
            let mut files: Vec<Vec<Entry>> = vec![Vec::new()];
            for (key, value) in entries {
                let placement = list.add_entry(key.len(), value.len()).unwrap();
                if placement.new_file {
                    files.push(Vec::new());
                }
                assert_eq!(placement.file_id + 1, files.len());
                files.last_mut().unwrap().push((key.clone(), value.clone()));
            }
            stats = s.record_sst_files(&list);
            if stats.key_count > 0 {
                tmp_bodies = files.iter().map(|f| sst_body(f)).collect();
            }
        }
        if s.finish_cf_build(stats.key_count) {
            for (i, body) in tmp_bodies.into_iter().enumerate() {
                let path = s.file_path(c, i);
                let (sum, size) = (checksum(&body), body.len() as u64);
                disk.files.insert(path, body);
                s.record_chunk(i, size, sum);
            }
        }
    }
    s.set_built_meta(false).unwrap();
    s.save_meta_file().unwrap();
    let body = encode_meta(s.snapshot_meta().as_ref().unwrap());
    disk.files.remove(s.meta_tmp_path());
    disk.files.insert(s.meta_path().to_string(), body);
    s.commit();
    let data = s.finish_build(7, 0).unwrap();
    assert_eq!(data.version, 2);
    assert_eq!(data.meta.start, 7);
    data.file_size
}

fn new_for_sending(disk: &Disk, dir: &str, key: &SnapKey) -> Result<Snapshot, Error> {
    let mut s = Snapshot::new(dir, key, OpenMode::Sending.is_sending());
    if OpenMode::Sending.check_policy().loads_meta(disk.files.contains_key(s.meta_path())) {
        let meta = decode_meta(&disk.files[s.meta_path()]).ok_or(Error::Other(Cause::Malformed))?;
        s.load_snapshot_meta(meta, &disk.on_disk())?;
    }
    s.begin_transfer();
    Ok(s)
}

fn read_all(disk: &Disk, s: &mut Snapshot) -> Vec<u8> {
    let mut out = Vec::new();
    while let Some(k) = s.current_chunk() {
        let chunk = s.stream_chunks()[k];
        out.extend_from_slice(&disk.files[&s.file_path(chunk.cf_index, chunk.file_index)]);
        s.finish_chunk();
    }
    out
}

fn new_for_receiving(
    disk: &mut Disk,
    dir: &str,
    key: &SnapKey,
    meta: SnapshotMeta,
) -> Result<Snapshot, Error> {
    let mut s = Snapshot::new(dir, key, OpenMode::Receiving.is_sending());
    if OpenMode::Receiving.check_policy().loads_meta(disk.files.contains_key(s.meta_path())) {
        let old = decode_meta(&disk.files[s.meta_path()]).ok_or(Error::Other(Cause::Malformed))?;
        s.load_snapshot_meta(old, &disk.on_disk())?;
    }
    s.set_snapshot_meta(meta)?;
    if s.exists_on_disk(&disk.on_disk()) {
        return Ok(s);
    }
    disk.files.insert(s.meta_tmp_path().to_string(), Vec::new());
    s.tmp_meta_created();
    s.begin_transfer();
    for chunk in s.stream_chunks().clone() {
        let tmp = s.tmp_file_path(chunk.cf_index, chunk.file_index);
        assert!(disk.files.insert(tmp, Vec::new()).is_none());
    }
    Ok(s)
}

fn write(disk: &mut Disk, s: &mut Snapshot, buf: &[u8]) -> usize {
    let plan = s.write(buf);
    for seg in &plan.segments {
        let chunk = s.stream_chunks()[seg.chunk];
        let tmp = s.tmp_file_path(chunk.cf_index, chunk.file_index);
        disk.files.get_mut(&tmp).unwrap().extend_from_slice(&buf[seg.start..seg.end]);
        assert_eq!(seg.last, chunk.done == chunk.size);
    }
    plan.written
}

fn copy(src: &Disk, disk: &mut Disk, from: &mut Snapshot, to: &mut Snapshot, piece: usize) -> u64 {
    let bytes = read_all(src, from);
    let mut pos = 0;
    while pos < bytes.len() {
        let end = usize::min(pos + piece, bytes.len());
        let n = write(disk, to, &bytes[pos..end]);
        assert_eq!(n, end - pos);
        pos = end;
    }
    bytes.len() as u64
}

fn save(disk: &mut Disk, s: &mut Snapshot) -> Result<(), Error> {
    s.save()?;
    for chunk in s.chunks() {
        let tmp = s.tmp_file_path(chunk.cf_index, chunk.file_index);
        let body = disk.files.remove(&tmp).unwrap();
        disk.files.insert(s.file_path(chunk.cf_index, chunk.file_index), body);
    }
    let body = encode_meta(s.snapshot_meta().as_ref().unwrap());
    disk.files.remove(s.meta_tmp_path());
    disk.files.insert(s.meta_path().to_string(), body);
    s.commit();
    Ok(())
}

fn new_for_applying(disk: &Disk, dir: &str, key: &SnapKey) -> Result<Snapshot, Error> {
    let mut s = Snapshot::new(dir, key, OpenMode::Applying.is_sending());
    if OpenMode::Applying.check_policy().loads_meta(disk.files.contains_key(s.meta_path())) {
        let meta = decode_meta(&disk.files[s.meta_path()]).ok_or(Error::Other(Cause::Malformed))?;
        s.load_snapshot_meta(meta, &disk.on_disk())?;
    }
    Ok(s)
}

fn apply(disk: &mut Disk, s: &Snapshot, without_ingest: bool) -> Result<Db, Error> {
    for chunk in s.chunks() {
        let path = s.file_path(chunk.cf_index, chunk.file_index);
        let (sum, size) = measure(disk, &path);
        check_file_size_and_checksum(size, sum, chunk.size, chunk.checksum)?;
        if s.needs_clone(chunk.cf_index) {
            let body = disk.files[&path].clone();
            disk.files.insert(s.clone_file_path(chunk.cf_index, chunk.file_index), body);
        }
    }
    let mut db = empty_db();
    for item in s.apply_plan(without_ingest) {
        let cf = [CF_DEFAULT, CF_LOCK, CF_WRITE][item.cf_index];
        let target = db.get_mut(cf).unwrap();
        match item.method {
            ApplyMethod::Plain => {
                assert_eq!(item.files.len(), 1);
                let batches = apply_plain_cf_file(&disk.files[&item.files[0]], &NeverStale, 16)?;
                target.extend(batches.into_iter().flatten());
            }
            ApplyMethod::Replay | ApplyMethod::Ingest => {
                assert_eq!(item.method == ApplyMethod::Replay, without_ingest);
                for file in &item.files {
                    target.extend(sst_entries(&disk.files[file]));
                    if item.method == ApplyMethod::Ingest {
                        disk.files.remove(file);
                    }
                }
            }
        }
    }
    Ok(db)
}

fn delete(disk: &mut Disk, s: &Snapshot) {
    for removal in s.delete(&disk.on_disk()) {
        assert_ne!(removal.kind, RemovalKind::Dir);
        disk.files.remove(&removal.path);
    }
}

fn total_snap_size(disk: &Disk) -> u64 {
    SnapManager::new(BASE).shared().get_total_snap_size(&disk.listing()).unwrap()
}

fn check_snap_file(db: Db, max_file_size: u64) {
    let mut src = Disk::default();
    let key = SnapKey::new(1, 1, 1);
    let mut s1 = new_for_building(&mut src, BASE, &key);
    assert!(!s1.exists_on_disk(&src.on_disk()));
    assert_eq!(total_snap_size(&src), 0);

    let file_size = build(&mut src, &mut s1, &db, max_file_size);
    assert!(s1.exists_on_disk(&src.on_disk()));
    let size = s1.total_size();
    assert_eq!(file_size, size);
    assert_eq!(size, total_snap_size(&src));
    assert_eq!(s1.total_count(), kv_count(&db));

    let mut s2 = new_for_sending(&src, BASE, &key).unwrap();
    assert!(s2.exists_on_disk(&src.on_disk()));

    let meta = s1.snapshot_meta().as_ref().unwrap().duplicate();
    let mut dst = Disk::default();
    let mut s3 = new_for_receiving(&mut dst, BASE, &key, meta).unwrap();
    assert!(!s3.exists_on_disk(&dst.on_disk()));

    let bytes = read_all(&src, &mut s2);
    let mut pos = 0;
    while pos < bytes.len() {
        let end = usize::min(pos + 7, bytes.len());
        assert_eq!(write(&mut dst, &mut s3, &bytes[pos..end]), end - pos);
        pos = end;
    }
    assert_eq!(bytes.len() as u64, size);
    assert_eq!(write(&mut dst, &mut s3, b"more"), 0);
    assert!(!s3.exists_on_disk(&dst.on_disk()));
    save(&mut dst, &mut s3).unwrap();
    assert!(s3.exists_on_disk(&dst.on_disk()));
    assert!(!s3.hold_tmp_files());
    assert_eq!(total_snap_size(&dst), size);

    delete(&mut src, &s2);
    assert!(!s2.exists_on_disk(&src.on_disk()));
    assert!(!s1.exists_on_disk(&src.on_disk()));
    assert_eq!(total_snap_size(&src), 0);

    let s4 = new_for_applying(&dst, BASE, &key).unwrap();
    assert!(s4.exists_on_disk(&dst.on_disk()));
    let applied = apply(&mut dst, &s4, false).unwrap();
    assert_eq!(applied, db);
    let replayed = apply(&mut dst, &s4, true).unwrap();
    assert_eq!(replayed, db);

    delete(&mut dst, &s4);
    assert!(!s4.exists_on_disk(&dst.on_disk()));
    assert!(!s3.exists_on_disk(&dst.on_disk()));
    assert_eq!(total_snap_size(&dst), 0);
    assert!(dst.files.is_empty());
}

#[test]
fn test_empty_snap_file() {
    check_snap_file(empty_db(), u64::MAX);
    check_snap_file(empty_db(), 100);
}

#[test]
fn test_non_empty_snap_file() {
    check_snap_file(test_db(), u64::MAX);
    check_snap_file(test_db_with_100keys(), 100);
    check_snap_file(test_db_with_100keys(), 500);
}

fn check_snap_validation(db: Db, max_file_size: u64) {
    let mut disk = Disk::default();
    let key = SnapKey::new(1, 1, 1);
    let mut s1 = new_for_building(&mut disk, BASE, &key);
    assert!(!s1.exists_on_disk(&disk.on_disk()));
    build(&mut disk, &mut s1, &db, max_file_size);
    assert!(s1.exists_on_disk(&disk.on_disk()));

    let mut s2 = new_for_building(&mut disk, BASE, &key);
    assert!(s2.exists_on_disk(&disk.on_disk()));
    assert!(!s2.hold_tmp_files());
    let before = disk.files.clone();
    build(&mut disk, &mut s2, &db, max_file_size);
    assert!(s2.exists_on_disk(&disk.on_disk()));
    assert_eq!(before, disk.files);
}

#[test]
fn test_empty_snap_validation() {
    check_snap_validation(empty_db(), u64::MAX);
    check_snap_validation(empty_db(), 100);
}

#[test]
fn test_non_empty_snap_validation() {
    check_snap_validation(test_db(), u64::MAX);
    check_snap_validation(test_db_with_100keys(), 500);
}

#[test]
fn test_snap_corruption_on_checksum() {
    let db = test_db();
    let mut src = Disk::default();
    let key = SnapKey::new(1, 1, 1);
    let mut s1 = new_for_building(&mut src, BASE, &key);
    build(&mut src, &mut s1, &db, u64::MAX);

    let mut dst = Disk::default();
    let meta = s1.snapshot_meta().as_ref().unwrap().duplicate();
    let mut from = new_for_sending(&src, BASE, &key).unwrap();
    let mut to = new_for_receiving(&mut dst, BASE, &key, meta).unwrap();
    copy(&src, &mut dst, &mut from, &mut to, 1024);
    save(&mut dst, &mut to).unwrap();

    // The checksums in the metadata are made wrong.
    let meta_path = to.meta_path().to_string();
    let mut meta = decode_meta(&dst.files[&meta_path]).unwrap();
    for e in &mut meta.cf_files {
        e.checksum += 100;
    }
    dst.files.insert(meta_path, encode_meta(&meta));

    let s2 = new_for_applying(&dst, BASE, &key).unwrap();
    assert!(s2.exists_on_disk(&dst.on_disk()));
    let err = apply(&mut dst, &s2, false).unwrap_err();
    assert!(matches!(err, Error::Other(Cause::FileChecksum { .. })));
}

#[test]
fn test_flipped_byte_fails_apply() {
    let db = test_db_with_100keys();
    let mut disk = Disk::default();
    let key = SnapKey::new(1, 1, 1);
    let mut s1 = new_for_building(&mut disk, "/snap", &key);
    build(&mut disk, &mut s1, &db, 100);
    let path = s1.file_path(0, 3);
    disk.files.get_mut(&path).unwrap()[5] ^= 0x01;
    let gen = Snapshot::new("/snap", &key, true);
    let mut s2 = gen;
    let meta = decode_meta(&disk.files[s2.meta_path()]).unwrap();
    s2.load_snapshot_meta(meta, &disk.on_disk()).unwrap();
    let err = apply(&mut disk, &s2, false).unwrap_err();
    assert!(matches!(err, Error::Other(Cause::FileChecksum { .. })));
}

#[test]
fn test_snap_corruption_on_meta_file() {
    let db = test_db_with_100keys();
    let mut disk = Disk::default();
    let key = SnapKey::new(1, 1, 1);
    let mut s1 = new_for_building(&mut disk, BASE, &key);
    assert!(!s1.exists_on_disk(&disk.on_disk()));
    build(&mut disk, &mut s1, &db, 500);
    assert!(s1.exists_on_disk(&disk.on_disk()));

    assert_eq!(1, corrupt_snapshot_meta_file(&mut disk));

    new_for_sending(&disk, BASE, &key).unwrap_err();

    // A build goes on without the corrupted snapshot: it is deleted first.
    let mut s2 = Snapshot::new(BASE, &key, true);
    assert!(decode_meta(&disk.files[s2.meta_path()]).is_none());
    assert!(OpenMode::Building.check_policy().heals());
    let plan = SnapManager::new(BASE).delete_snapshot(&key, &s2, &disk.on_disk(), true).unwrap();
    for removal in plan {
        disk.files.remove(&removal.path);
    }
    assert!(disk.files.is_empty());
    disk.files.insert(s2.meta_tmp_path().to_string(), Vec::new());
    s2.tmp_meta_created();
    assert!(!s2.exists_on_disk(&disk.on_disk()));
    build(&mut disk, &mut s2, &db, 500);
    assert!(s2.exists_on_disk(&disk.on_disk()));

    let mut dst = Disk::default();
    let meta = s2.snapshot_meta().as_ref().unwrap().duplicate();
    let mut from = new_for_sending(&disk, BASE, &key).unwrap();
    let mut to = new_for_receiving(&mut dst, BASE, &key, meta.duplicate()).unwrap();
    copy(&disk, &mut dst, &mut from, &mut to, 100);
    save(&mut dst, &mut to).unwrap();

    assert_eq!(1, corrupt_snapshot_meta_file(&mut dst));

    new_for_applying(&dst, BASE, &key).unwrap_err();
    new_for_receiving(&mut dst, BASE, &key, meta).unwrap_err();
}

#[test]
fn test_meta_that_lists_lost_or_misplaced_files() {
    let db = test_db_with_100keys();
    let mut disk = Disk::default();
    let key = SnapKey::new(1, 1, 1);
    let mut s1 = new_for_building(&mut disk, BASE, &key);
    build(&mut disk, &mut s1, &db, 500);

    // The metadata lists a file that is gone: the snapshot is corrupted.
    let lost = s1.file_path(2, 0);
    let body = disk.files.remove(&lost).unwrap();
    let err = new_for_sending(&disk, BASE, &key).unwrap_err();
    assert_eq!(err, Error::Other(Cause::MissingCfFile));
    disk.files.insert(lost, body);
    new_for_sending(&disk, BASE, &key).unwrap();

    // The metadata names the column families in another order.
    let meta_path = s1.meta_path().to_string();
    let mut meta = decode_meta(&disk.files[&meta_path]).unwrap();
    meta.cf_files.reverse();
    disk.files.insert(meta_path, encode_meta(&meta));
    let err = new_for_sending(&disk, BASE, &key).unwrap_err();
    assert_eq!(err, Error::Other(Cause::CfName { index: 0 }));
}

#[test]
fn test_display_path() {
    let dir = tempfile::Builder::new().prefix("test-display-path").tempdir().unwrap();
    let key = SnapKey::new(1, 1, 1);
    let prefix = format!("{}_{}", "gen", key.to_string());
    let display_path = Snapshot::get_display_path(dir.path().to_str().unwrap(), &prefix);
    assert_ne!(display_path, "");
    assert_eq!(
        display_path,
        format!("{}/gen_1_1_1_(default|lock|write).sst", dir.path().display())
    );
}

#[test]
fn test_new_names_files() {
    let key = SnapKey::new(7, 8, 9);
    let s = Snapshot::new("/data/snap", &key, true);
    assert_eq!(s.path(), "/data/snap/gen_7_8_9_(default|lock|write).sst");
    assert_eq!(s.meta_path(), "/data/snap/gen_7_8_9.meta");
    assert_eq!(s.meta_tmp_path(), "/data/snap/gen_7_8_9.meta.tmp");
    assert_eq!(s.key(), &key);
    let cfs: Vec<&str> = s.cf_files().iter().map(|f| f.cf()).collect();
    assert_eq!(cfs, vec!["default", "lock", "write"]);
    assert_eq!(s.cf_files()[2].file_prefix(), "gen_7_8_9_write");
    assert_eq!(s.cf_files()[2].file_suffix(), ".sst");
    assert!(!s.hold_tmp_files());
    assert!(s.snapshot_meta().is_none());
    assert_eq!(s.tablet_snap_path(), None);
    let r = Snapshot::new("/data/snap", &key, false);
    assert_eq!(r.meta_path(), "/data/snap/rev_7_8_9.meta");
    assert_eq!(SnapKey::from_file_name("gen_7_8_9.meta"), Some(key));
    assert_eq!(SnapKey::from_file_name("rev_7_8_9_write_0003.sst.tmp"), Some(key));
}

#[test]
fn test_save_rejects_short_and_wrong_chunks() {
    let db = test_db();
    let mut src = Disk::default();
    let key = SnapKey::new(1, 1, 1);
    let mut s1 = new_for_building(&mut src, BASE, &key);
    build(&mut src, &mut s1, &db, u64::MAX);
    let mut from = new_for_sending(&src, BASE, &key).unwrap();
    let bytes = read_all(&src, &mut from);

    // One byte is missing at the end.
    let mut dst = Disk::default();
    let meta = s1.snapshot_meta().as_ref().unwrap().duplicate();
    let mut to = new_for_receiving(&mut dst, BASE, &key, meta).unwrap();
    write(&mut dst, &mut to, &bytes[..bytes.len() - 1]);
    let last = *to.stream_chunks().last().unwrap();
    assert_eq!(
        to.save(),
        Err(Error::Other(Cause::WrittenSize {
            cf_index: 2,
            file_index: 0,
            got: last.size - 1,
            expected: last.size,
        }))
    );
    assert!(to.hold_tmp_files());

    // One byte is another.
    let mut dst = Disk::default();
    let meta = s1.snapshot_meta().as_ref().unwrap().duplicate();
    let mut to = new_for_receiving(&mut dst, BASE, &key, meta).unwrap();
    let mut wrong = bytes.clone();
    wrong[0] ^= 0xff;
    write(&mut dst, &mut to, &wrong);
    let first = to.stream_chunks()[0];
    let mut digest = Digest::new();
    digest.update(&wrong[..first.size as usize]);
    assert_eq!(
        to.save(),
        Err(Error::Other(Cause::WrittenChecksum {
            cf_index: 0,
            file_index: 0,
            got: digest.finalize(),
            expected: first.checksum,
        }))
    );
}

#[test]
fn test_save_needs_the_tmp_meta_file() {
    let key = SnapKey::new(1, 1, 1);
    let mut s = Snapshot::new(BASE, &key, false);
    assert_eq!(s.save(), Err(Error::Other(Cause::NoMetaFile)));
    assert_eq!(s.save_meta_file(), Err(Error::Other(Cause::NoMetaFile)));
    s.tmp_meta_created();
    assert!(s.hold_tmp_files());
    assert_eq!(s.save_meta_file(), Err(Error::Other(Cause::NoMetaFile)));
    s.set_built_meta(true).unwrap();
    assert_eq!(s.save_meta_file(), Ok(()));
    assert!(s.hold_tmp_files());
    s.commit();
    assert!(!s.hold_tmp_files());
}

#[test]
fn test_delete_probes_when_nothing_is_recorded() {
    let key = SnapKey::new(3, 2, 1);
    let mut s = Snapshot::new("/d", &key, false);
    s.tmp_meta_created();
    let on_disk: Vec<String> = [
        "/d/rev_3_2_1_default.sst.tmp",
        "/d/rev_3_2_1_default_0001.sst.tmp",
        "/d/rev_3_2_1_default_0003.sst.tmp",
        "/d/rev_3_2_1_write.sst",
        "/d/rev_3_2_1_lock.sst.clone",
        "/d/other",
    ]
    .iter()
    .map(|p| p.to_string())
    .collect();
    let plan: Vec<(String, RemovalKind)> =
        s.delete(&on_disk).into_iter().map(|r| (r.path, r.kind)).collect();
    let expected: Vec<(String, RemovalKind)> = vec![
        ("/d/rev_3_2_1_default.sst.tmp", RemovalKind::File),
        ("/d/rev_3_2_1_default_0001.sst.tmp", RemovalKind::File),
        ("/d/rev_3_2_1_lock.sst.clone", RemovalKind::File),
        ("/d/rev_3_2_1_write.sst", RemovalKind::DataFile),
        ("/d/rev_3_2_1.meta", RemovalKind::File),
        ("/d/rev_3_2_1.meta.tmp", RemovalKind::File),
    ]
    .into_iter()
    .map(|(p, k)| (p.to_string(), k))
    .collect();
    assert_eq!(plan, expected);
}

#[test]
fn test_generate_snap_for_tablet_snapshot() {
    let snap_mgr = SnapManagerBuilder::new().enable_receive_tablet_snapshot(true).build("/snap");
    let tablet_snap_key = raftstore_snap::TabletSnapKey::new(1, 2, 3, 4);
    let mut s = snap_mgr.gen_empty_snapshot_for_tablet_snapshot(&tablet_snap_key, false);
    let mut disk = Disk::default();
    disk.files.insert(s.meta_tmp_path().to_string(), Vec::new());
    s.tmp_meta_created();
    s.save_meta_file().unwrap();
    s.commit();
    let expect_path =
        snap_mgr.tablet_snap_manager().unwrap().final_recv_path(&tablet_snap_key);
    assert_eq!(expect_path, "/snap_v2/rev_1_2_3_4");
    assert_eq!(expect_path, s.tablet_snap_path().unwrap());
    assert_eq!(s.meta_path(), "/snap/rev_1_3_4.meta");
    let plan = s.delete(&Vec::new());
    assert!(plan.iter().any(|r| r.kind == RemovalKind::Dir && r.path == expect_path));
}

#[test]
fn test_snap_mgr_v2() {
    let mut disk = Disk::default();
    assert_eq!(total_snap_size(&disk), 0);

    let db = test_db();
    let key1 = SnapKey::new(1, 1, 1);
    let mut s1 = new_for_building(&mut disk, BASE, &key1);
    build(&mut disk, &mut s1, &db, u64::MAX);
    let mut s = new_for_sending(&disk, BASE, &key1).unwrap();
    let expected_size = s.total_size();
    let meta = s1.snapshot_meta().as_ref().unwrap().duplicate();
    let mut s2 = new_for_receiving(&mut disk, BASE, &key1, meta.duplicate()).unwrap();
    let bytes = read_all(&disk, &mut s);
    assert_eq!(write(&mut disk, &mut s2, &bytes) as u64, expected_size);
    save(&mut disk, &mut s2).unwrap();

    let key2 = SnapKey::new(2, 1, 1);
    let s3 = new_for_building(&mut disk, BASE, &key2);
    let s4 = new_for_receiving(&mut disk, BASE, &key2, meta).unwrap();

    assert!(s1.exists_on_disk(&disk.on_disk()));
    assert!(s2.exists_on_disk(&disk.on_disk()));
    assert!(!s3.exists_on_disk(&disk.on_disk()));
    assert!(!s4.exists_on_disk(&disk.on_disk()));

    // A manager that starts removes what was left unfinished.
    let mgr = SnapManager::new(BASE);
    for name in raftstore_snap::manager::stale_tmp_files(&disk.listing()) {
        disk.files.remove(&format!("{}/{}", BASE, name));
    }
    assert_eq!(mgr.get_total_snap_size(&disk.listing(), 0).unwrap(), expected_size * 2);
    assert_eq!(
        mgr.list_idle_snap(&disk.listing()),
        vec![(key1, false), (key1, true)]
    );

    assert!(s1.exists_on_disk(&disk.on_disk()));
    assert!(s2.exists_on_disk(&disk.on_disk()));
    assert!(!s3.exists_on_disk(&disk.on_disk()));
    assert!(!s4.exists_on_disk(&disk.on_disk()));

    let sending = new_for_sending(&disk, BASE, &key1).unwrap();
    delete(&mut disk, &sending);
    assert_eq!(mgr.get_total_snap_size(&disk.listing(), 0).unwrap(), expected_size);
    let applying = new_for_applying(&disk, BASE, &key1).unwrap();
    delete(&mut disk, &applying);
    assert_eq!(mgr.get_total_snap_size(&disk.listing(), 0).unwrap(), 0);
}

#[test]
fn test_validate_names_the_first_fault() {
    let key = SnapKey::new(1, 1, 1);
    let mut s = Snapshot::new("/snap", &key, true);
    let mut meta = SnapshotMeta::default();
    for (cf, size, sum) in [(CF_DEFAULT, 10u64, 7u32), (CF_LOCK, 0, 0), (CF_WRITE, 20, 9)] {
        meta.cf_files.push(raftstore_snap::SnapshotCfFile {
            cf: cf.to_string(),
            size,
            checksum: sum,
        });
    }
    s.set_snapshot_meta(meta).unwrap();
    assert_eq!(s.chunks().len(), 2);

    assert_eq!(s.validate(&vec![(10, 7), (20, 9)]), Ok(()));
    assert_eq!(
        s.validate(&vec![(10, 8), (21, 9)]),
        Err(Error::Other(Cause::FileChecksum { got: 8, expected: 7 }))
    );
    assert_eq!(
        s.validate(&vec![(10, 7), (21, 1)]),
        Err(Error::Other(Cause::FileSize { got: 21, expected: 20 }))
    );
    assert_eq!(
        s.validate(&vec![(10, 7), (20, 1)]),
        Err(Error::Other(Cause::FileChecksum { got: 1, expected: 9 }))
    );
    assert_eq!(s.validate(&vec![(10, 7)]), Err(Error::Other(Cause::MissingCfFile)));
    assert_eq!(s.validate(&vec![]), Err(Error::Other(Cause::MissingCfFile)));
}
