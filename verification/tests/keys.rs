use raftstore_snap::{Cause, Error, RaftSnapshot, SnapKey, SnapshotMetadata, TabletSnapKey};

#[test]
fn test_from_path() {
    let snap_dir = tempfile::Builder::new().prefix("test_from_path").tempdir().unwrap();
    let path = snap_dir.path().join("gen_1_2_3_4");
    let key = TabletSnapKey::from_path(path.to_str().unwrap()).unwrap();
    let expect_key = TabletSnapKey::new(1, 2, 3, 4);
    assert_eq!(expect_key, key);
    let path = snap_dir.path().join("gen_1_2_3_4.tmp");
    TabletSnapKey::from_path(path.to_str().unwrap()).unwrap_err();
}

#[test]
fn test_tablet_key_from_path_without_file_name() {
    assert_eq!(TabletSnapKey::from_path("/"), Err(Error::Other(Cause::InvalidFileName)));
    assert_eq!(TabletSnapKey::from_path("/a/.."), Err(Error::Other(Cause::InvalidFileName)));
    assert_eq!(
        TabletSnapKey::from_path("/a/b/rev_9_8_7_6/"),
        Ok(TabletSnapKey::new(9, 8, 7, 6))
    );
}

#[test]
fn test_snap_key_display() {
    assert_eq!(SnapKey::new(1, 2, 3).to_string(), "1_2_3");
    assert_eq!(SnapKey::new(0, 0, 0).to_string(), "0_0_0");
    assert_eq!(
        SnapKey::new(u64::MAX, 10, 100).to_string(),
        "18446744073709551615_10_100"
    );
    assert_eq!(TabletSnapKey::new(1, 2, 3, 4).to_string(), "1_2_3_4");
}

#[test]
fn test_snap_key_from_file_name() {
    assert_eq!(SnapKey::from_file_name("gen_1_2_3.meta"), Some(SnapKey::new(1, 2, 3)));
    assert_eq!(SnapKey::from_file_name("rev_10_20_30_default.sst"), Some(SnapKey::new(10, 20, 30)));
    assert_eq!(
        SnapKey::from_file_name("gen_1_2_3_write_0012.sst.tmp"),
        Some(SnapKey::new(1, 2, 3))
    );
    // Fields that are no numbers are passed over.
    assert_eq!(SnapKey::from_file_name("gen_a_1_b_2_c_3"), Some(SnapKey::new(1, 2, 3)));
    // A plus sign is read, a minus sign is not.
    assert_eq!(SnapKey::from_file_name("gen_+1_2_3"), Some(SnapKey::new(1, 2, 3)));
    assert_eq!(SnapKey::from_file_name("gen_-1_2_3"), None);
    assert_eq!(SnapKey::from_file_name("gen_+_2_3"), None);
    // Zeros in front are read.
    assert_eq!(SnapKey::from_file_name("gen_001_02_3"), Some(SnapKey::new(1, 2, 3)));
    // Fewer than three numbers make no key.
    assert_eq!(SnapKey::from_file_name("gen_1_2"), None);
    assert_eq!(SnapKey::from_file_name("gen_1_2.3"), None);
    assert_eq!(SnapKey::from_file_name("gen"), None);
    assert_eq!(SnapKey::from_file_name(""), None);
    // The first field is the prefix and is never read.
    assert_eq!(SnapKey::from_file_name("1_2_3"), None);
    assert_eq!(SnapKey::from_file_name("1_2_3_4"), Some(SnapKey::new(2, 3, 4)));
    // A number that does not fit is no number.
    assert_eq!(
        SnapKey::from_file_name("gen_18446744073709551615_2_3"),
        Some(SnapKey::new(u64::MAX, 2, 3))
    );
    assert_eq!(SnapKey::from_file_name("gen_18446744073709551616_2_3"), None);
    assert_eq!(
        SnapKey::from_file_name("gen_18446744073709551616_2_3_4"),
        Some(SnapKey::new(2, 3, 4))
    );
}

#[test]
fn test_snap_key_roundtrip() {
    for key in [
        SnapKey::new(0, 0, 0),
        SnapKey::new(1, 22, 333),
        SnapKey::new(u64::MAX, u64::MAX - 1, 9_999_999_999),
    ] {
        for prefix in ["gen", "rev", ""] {
            for rest in ["", ".meta", "_default.sst", "_write_0007.sst.clone"] {
                let name = format!("{}_{}{}", prefix, key.to_string(), rest);
                assert_eq!(SnapKey::from_file_name(&name), Some(key), "{}", name);
            }
        }
    }
    let key = TabletSnapKey::new(5, 6, 7, 8);
    let name = format!("gen_{}", key.to_string());
    assert_eq!(TabletSnapKey::from_file_name(&name), Ok(key));
}

#[test]
fn test_tablet_key_from_file_name() {
    assert_eq!(TabletSnapKey::from_file_name("rev_1_2_3_4"), Ok(TabletSnapKey::new(1, 2, 3, 4)));
    // The whole name is read, a dot does not end it.
    assert_eq!(
        TabletSnapKey::from_file_name("rev_1_2_3_4.tmp"),
        Err(Error::Other(Cause::InvalidFileName))
    );
    assert_eq!(
        TabletSnapKey::from_file_name("rev_1_2_3"),
        Err(Error::Other(Cause::InvalidFileName))
    );
}

#[test]
fn test_keys_from_region_snap() {
    let snap = SnapshotMetadata { index: 7, term: 5 };
    assert_eq!(SnapKey::from_region_snap(3, &snap), SnapKey::new(3, 5, 7));
    assert_eq!(TabletSnapKey::from_region_snap(3, 9, &snap), TabletSnapKey::new(3, 9, 5, 7));
}

#[test]
fn test_snap_key_order() {
    let a = SnapKey::new(1, 2, 3);
    assert!(a.precedes(&SnapKey::new(2, 0, 0)));
    assert!(a.precedes(&SnapKey::new(1, 3, 0)));
    assert!(a.precedes(&SnapKey::new(1, 2, 4)));
    assert!(!a.precedes(&a));
    assert!(!a.precedes(&SnapKey::new(1, 2, 2)));
    assert_eq!(a.precedes(&SnapKey::new(1, 3, 0)), a < SnapKey::new(1, 3, 0));
}

#[test]
fn test_snap_key_from_snap() {
    // The data of a snapshot names its region in field one, and the region
    // its id in field one.
    let region = vec![0x08, 0x96, 0x01, 0x12, 1, b'a', 0x1a, 1, b'z'];
    let mut data = vec![0x0a, region.len() as u8];
    data.extend_from_slice(&region);
    data.extend_from_slice(&[0x10, 9, 0x20, 2]);
    let snap = RaftSnapshot { data, metadata: SnapshotMetadata { index: 10, term: 4 } };
    assert_eq!(SnapKey::from_snap(&snap), Ok(SnapKey::new(150, 4, 10)));
    // Data that names no region is of region zero.
    let snap = RaftSnapshot { data: vec![], metadata: SnapshotMetadata { index: 1, term: 1 } };
    assert_eq!(SnapKey::from_snap(&snap), Ok(SnapKey::new(0, 1, 1)));
    // Data that does not decode gives no key.
    let snap = RaftSnapshot { data: vec![0x0a, 5, 1], metadata: SnapshotMetadata { index: 1, term: 1 } };
    assert_eq!(SnapKey::from_snap(&snap), Err(Error::Other(Cause::Malformed)));
    let snap = RaftSnapshot { data: vec![0x08, 5], metadata: SnapshotMetadata { index: 1, term: 1 } };
    assert_eq!(SnapKey::from_snap(&snap), Err(Error::Other(Cause::Malformed)));
    let snap =
        RaftSnapshot { data: vec![0x0a, 2, 0x0a, 0], metadata: SnapshotMetadata { index: 1, term: 1 } };
    assert_eq!(SnapKey::from_snap(&snap), Err(Error::Other(Cause::Malformed)));
}
