use raftstore_snap::profile::{
    activate_heap_profile, deactivate_heap_profile, extract_thread_name, heap_profile_path,
    heap_profiles_dir, pick_thread_name, start_one_cpu_profile, Deactivation, HeapProfile,
};

#[test]
fn test_extract_thread_name() {
    assert_eq!(&extract_thread_name("test-name-1"), "test-name");
    assert_eq!(&extract_thread_name("grpc-server-5"), "grpc-server");
    assert_eq!(&extract_thread_name("rocksdb:bg1000"), "rocksdb:bg");
    assert_eq!(&extract_thread_name("raftstore-1-100"), "raftstore");
    assert_eq!(&extract_thread_name("snap sender1000"), "snap-sender");
    assert_eq!(&extract_thread_name("snap_sender1000"), "snap-sender");
}

#[test]
fn test_thread_names_that_are_left_as_they_are() {
    assert_eq!(&extract_thread_name(""), "");
    assert_eq!(&extract_thread_name("Main"), "Main");
    assert_eq!(&extract_thread_name("a-1-"), "a-1-");
    assert_eq!(&extract_thread_name("a1b"), "a1b");
    assert_eq!(&extract_thread_name("a_b c"), "a-b-c");
    assert_eq!(pick_thread_name("x", None, None), "x");
    assert_eq!(pick_thread_name("x", Some("y".to_string()), None), "y");
    assert_eq!(pick_thread_name("x", Some("y".to_string()), Some("z".to_string())), "z");
}

#[test]
fn test_profile_guard_toggle() {
    let mut state = HeapProfile::Inactive;
    assert_eq!(heap_profiles_dir(&state), None);
    assert_eq!(
        deactivate_heap_profile(&mut state),
        Deactivation { was_active: false, notify: false }
    );
    assert_eq!(activate_heap_profile(&mut state, "/tmp/heap-1".to_string()), Ok(()));
    assert_eq!(heap_profiles_dir(&state), Some("/tmp/heap-1".to_string()));
    assert_eq!(
        activate_heap_profile(&mut state, "/tmp/heap-2".to_string()),
        Err("Already in Heap Profiling".to_string())
    );
    assert_eq!(
        deactivate_heap_profile(&mut state),
        Deactivation { was_active: true, notify: true }
    );
    assert_eq!(state, HeapProfile::Stopping);
    assert_eq!(heap_profiles_dir(&state), None);
    assert_eq!(
        deactivate_heap_profile(&mut state),
        Deactivation { was_active: true, notify: false }
    );
    assert_eq!(state, HeapProfile::Inactive);

    let mut cpu = false;
    assert_eq!(start_one_cpu_profile(&mut cpu), Ok(()));
    assert_eq!(start_one_cpu_profile(&mut cpu), Err("Already in CPU Profiling".to_string()));
}

#[test]
fn test_heap_profile_path() {
    assert_eq!(heap_profile_path("/d", 1), "/d/000001.heap");
    assert_eq!(heap_profile_path("/d", 123456), "/d/123456.heap");
    assert_eq!(heap_profile_path("/d", 1234567), "/d/1234567.heap");
    assert_eq!(heap_profile_path("", 42), "/000042.heap");
}
