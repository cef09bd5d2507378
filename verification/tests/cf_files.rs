use raftstore_snap::CfFile;

fn cf_file() -> CfFile {
    CfFile::new("default", "/dir".to_string(), "gen_1_2_3_default".to_string(), ".sst".to_string())
}

#[test]
fn test_chunk_file_names() {
    let f = cf_file();
    assert_eq!(f.gen_file_name(0), "gen_1_2_3_default.sst");
    assert_eq!(f.gen_file_name(1), "gen_1_2_3_default_0001.sst");
    assert_eq!(f.gen_file_name(12), "gen_1_2_3_default_0012.sst");
    assert_eq!(f.gen_file_name(345), "gen_1_2_3_default_0345.sst");
    assert_eq!(f.gen_file_name(9999), "gen_1_2_3_default_9999.sst");
    assert_eq!(f.gen_file_name(10000), "gen_1_2_3_default_10000.sst");
    assert_eq!(f.gen_tmp_file_name(0), "gen_1_2_3_default.sst.tmp");
    assert_eq!(f.gen_tmp_file_name(7), "gen_1_2_3_default_0007.sst.tmp");
    assert_eq!(f.gen_clone_file_name(0), "gen_1_2_3_default.sst.clone");
    assert_eq!(f.gen_clone_file_name(7), "gen_1_2_3_default_0007.sst.clone");
}

#[test]
fn test_new_cf_file_is_empty() {
    let f = cf_file();
    assert_eq!(f.cf(), "default");
    assert_eq!(f.path(), "/dir");
    assert_eq!(f.kv_count(), 0);
    assert!(f.size().is_empty());
    assert!(f.checksum().is_empty());
    assert!(f.file_paths().is_empty());
    assert!(f.tmp_file_paths().is_empty());
    assert!(f.clone_file_paths().is_empty());
}

#[test]
fn test_add_file_appends_and_overwrites() {
    let mut f = cf_file();
    assert_eq!(f.add_file(0), "/dir/gen_1_2_3_default.sst");
    assert_eq!(f.add_file_with_size_checksum(1, 10, 100), "/dir/gen_1_2_3_default_0001.sst");
    assert_eq!(f.size(), &vec![0, 10]);
    assert_eq!(f.checksum(), &vec![0, 100]);
    // A chunk that is recorded already is overwritten in place.
    assert_eq!(f.add_file_with_size_checksum(0, 5, 50), "/dir/gen_1_2_3_default.sst");
    assert_eq!(f.size(), &vec![5, 10]);
    assert_eq!(f.checksum(), &vec![50, 100]);
    assert_eq!(
        f.file_paths(),
        vec!["/dir/gen_1_2_3_default.sst", "/dir/gen_1_2_3_default_0001.sst"]
    );
    assert_eq!(
        f.tmp_file_paths(),
        vec!["/dir/gen_1_2_3_default.sst.tmp", "/dir/gen_1_2_3_default_0001.sst.tmp"]
    );
    assert_eq!(
        f.clone_file_paths(),
        vec!["/dir/gen_1_2_3_default.sst.clone", "/dir/gen_1_2_3_default_0001.sst.clone"]
    );
    assert_eq!(f.file_path(1), "/dir/gen_1_2_3_default_0001.sst");
    assert_eq!(f.tmp_file_path(0), "/dir/gen_1_2_3_default.sst.tmp");
    assert_eq!(f.clone_file_path(1), "/dir/gen_1_2_3_default_0001.sst.clone");
    f.set_kv_count(42);
    assert_eq!(f.kv_count(), 42);
    assert_eq!(f.size(), &vec![5, 10]);
}

#[test]
fn test_paths_are_joined_as_the_standard_library_joins() {
    let mut f = CfFile::new("lock", "/dir/".to_string(), "p".to_string(), ".sst".to_string());
    assert_eq!(f.add_file(0), "/dir/p.sst");
    let mut g = CfFile::new("lock", "".to_string(), "p".to_string(), ".sst".to_string());
    assert_eq!(g.add_file(0), "p.sst");
    let mut h = CfFile::new("lock", "rel/dir".to_string(), "p".to_string(), ".sst".to_string());
    assert_eq!(h.add_file(0), "rel/dir/p.sst");
}
