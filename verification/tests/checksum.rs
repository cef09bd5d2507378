use raftstore_snap::checksum::{checksum, Digest};

#[test]
fn test_checksum_values() {
    assert_eq!(checksum(b""), 0);
    assert_eq!(checksum(b"hello world"), 0x0d4a_1185);
    assert_eq!(checksum(b"123456789"), 0xcbf4_3926);
    assert_ne!(checksum(b"hello world"), checksum(b"hello worle"));
}

#[test]
fn test_digest_takes_bytes_in_pieces() {
    let mut d = Digest::new();
    assert_eq!(d.finalize(), 0);
    d.update(b"hello");
    assert_eq!(d.finalize(), checksum(b"hello"));
    d.update(b" ");
    d.update(b"");
    d.update(b"world");
    assert_eq!(d.finalize(), checksum(b"hello world"));
    assert_eq!(d, Digest { state: 0x0d4a_1185 });
}
