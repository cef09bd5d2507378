use protobuf::CodedOutputStream;
use raftstore_snap::{Cause, Error, SnapshotCfFile, SnapshotMeta};

fn entry(cf: &str, size: u64, checksum: u32) -> SnapshotCfFile {
    SnapshotCfFile { cf: cf.to_string(), size, checksum }
}

fn sample() -> SnapshotMeta {
    SnapshotMeta {
        cf_files: vec![
            entry("default", 1024, 0xdead_beef),
            entry("default", 300, 7),
            entry("lock", 0, 0),
            entry("write", u64::MAX, u32::MAX),
        ],
        for_balance: true,
        start: 1_700_000_000,
        generate_duration_sec: 12,
        tablet_snap_path: "/data/snap_v2/rev_1_2_3_4".to_string(),
    }
}

/// The bytes that the runtime of protocol buffers writes for the metadata,
/// field by field, leaving out what holds nothing.
fn reference_bytes(meta: &SnapshotMeta) -> Vec<u8> {
    let mut out = Vec::new();
    {
        let mut os = CodedOutputStream::vec(&mut out);
        for e in &meta.cf_files {
            let mut body = Vec::new();
            {
                let mut inner = CodedOutputStream::vec(&mut body);
                if !e.cf.is_empty() {
                    inner.write_string(1, &e.cf).unwrap();
                }
                if e.size != 0 {
                    inner.write_uint64(2, e.size).unwrap();
                }
                if e.checksum != 0 {
                    inner.write_uint32(3, e.checksum).unwrap();
                }
                inner.flush().unwrap();
            }
            os.write_bytes(1, &body).unwrap();
        }
        if meta.for_balance {
            os.write_bool(2, true).unwrap();
        }
        if meta.start != 0 {
            os.write_uint64(4, meta.start).unwrap();
        }
        if meta.generate_duration_sec != 0 {
            os.write_uint64(5, meta.generate_duration_sec).unwrap();
        }
        if !meta.tablet_snap_path.is_empty() {
            os.write_string(6, &meta.tablet_snap_path).unwrap();
        }
        os.flush().unwrap();
    }
    out
}

#[test]
fn test_meta_bytes_are_those_of_protocol_buffers() {
    for meta in [
        sample(),
        SnapshotMeta::default(),
        SnapshotMeta { cf_files: vec![entry("", 0, 0)], ..Default::default() },
        SnapshotMeta { for_balance: true, ..Default::default() },
        SnapshotMeta { tablet_snap_path: "päth/ñ/雪".to_string(), ..Default::default() },
        SnapshotMeta {
            cf_files: vec![entry("default", 127, 128), entry("lock", 16384, 0)],
            generate_duration_sec: u64::MAX,
            ..Default::default()
        },
    ] {
        let bytes = meta.write_to_bytes();
        assert_eq!(bytes, reference_bytes(&meta));
        assert_eq!(SnapshotMeta::from_bytes(&bytes), Ok(meta));
    }
}

#[test]
fn test_meta_bytes_layout() {
    let meta = SnapshotMeta {
        cf_files: vec![entry("lock", 300, 1), entry("write", 0, 0)],
        for_balance: true,
        start: 5,
        generate_duration_sec: 0,
        tablet_snap_path: "p".to_string(),
    };
    assert_eq!(
        meta.write_to_bytes(),
        vec![
            0x0a, 11, 0x0a, 4, b'l', b'o', b'c', b'k', 0x10, 0xac, 0x02, 0x18, 1, // first entry
            0x0a, 7, 0x0a, 5, b'w', b'r', b'i', b't', b'e', // second entry
            0x10, 1, // for balance
            0x20, 5, // start
            0x32, 1, b'p', // path
        ]
    );
    assert!(SnapshotMeta::default().write_to_bytes().is_empty());
    assert_eq!(SnapshotMeta::from_bytes(&[]), Ok(SnapshotMeta::default()));
}

#[test]
fn test_flipping_the_trailing_byte_breaks_the_meta() {
    let mut metas = vec![sample()];
    // Each field in turn is the last one that is written.
    let mut m = sample();
    m.tablet_snap_path.clear();
    metas.push(m.clone());
    m.generate_duration_sec = 0;
    metas.push(m.clone());
    m.start = 0;
    metas.push(m.clone());
    m.for_balance = false;
    metas.push(m.clone());
    m.cf_files.pop();
    metas.push(m.clone());
    m.cf_files.push(entry("write", 9, 0));
    metas.push(m.clone());
    m.cf_files.push(entry("", 0, 0));
    metas.push(m.clone());
    m.tablet_snap_path = "snö".to_string();
    metas.push(m.clone());
    for meta in metas {
        let mut bytes = meta.write_to_bytes();
        assert_eq!(SnapshotMeta::from_bytes(&bytes), Ok(meta));
        // Make the last byte of the meta file corrupted
        // by turning over all bits of it
        let last = bytes.len() - 1;
        bytes[last] ^= u8::MAX;
        assert_eq!(SnapshotMeta::from_bytes(&bytes), Err(Error::Other(Cause::Malformed)));
    }
}

#[test]
fn test_meta_fields_in_any_order_and_unknown_fields() {
    let mut out = Vec::new();
    {
        let mut os = CodedOutputStream::vec(&mut out);
        os.write_uint64(4, 9).unwrap();
        os.write_bool(3, true).unwrap(); // a field that the metadata does not keep
        os.write_uint64(7, 77).unwrap(); // another
        os.write_string(6, "first").unwrap();
        os.write_bytes(1, &[0x10, 5, 0x0a, 1, b'x', 0x18, 0]).unwrap();
        os.write_fixed64(9, 1).unwrap();
        os.write_fixed32(10, 1).unwrap();
        os.write_string(11, "unknown").unwrap();
        os.write_uint64(4, 10).unwrap();
        os.write_bool(2, false).unwrap();
        os.write_string(6, "second").unwrap();
        os.write_bytes(1, &[]).unwrap();
        os.flush().unwrap();
    }
    let meta = SnapshotMeta::from_bytes(&out).unwrap();
    assert_eq!(
        meta,
        SnapshotMeta {
            cf_files: vec![entry("x", 5, 0), entry("", 0, 0)],
            for_balance: false,
            start: 10,
            generate_duration_sec: 0,
            tablet_snap_path: "second".to_string(),
        }
    );
}

#[test]
fn test_malformed_meta_bytes() {
    let bad: Vec<Vec<u8>> = vec![
        vec![0x0a],                   // a tag and nothing else
        vec![0x0a, 5, 1, 2],          // a length beyond the data
        vec![0x10],                   // a number that is missing
        vec![0x10, 0x80],             // a number that does not end
        vec![0x00, 1],                // a field without a number
        vec![0x0b, 1],                // a kind of value that is not in use
        vec![0x0c, 1],                //
        vec![0x12, 1, 1],             // the flag as a string of bytes
        vec![0x08, 1],                // an entry as a number
        vec![0x25, 0, 0, 0, 0],       // the start as four bytes
        vec![0x32, 2, 0xc3, 0x28],    // a path that is no text
        vec![0x0a, 2, 0x0a, 0x80],    // an entry whose name has a length that does not end
        vec![0x0a, 3, 0x0a, 1, 0xff], // an entry whose name is no text
        vec![0x0a, 2, 0x11, 1],       // an entry whose size is eight bytes
        vec![0x29, 1, 2, 3],          // eight bytes that are cut short
    ];
    for bytes in bad {
        assert_eq!(
            SnapshotMeta::from_bytes(&bytes),
            Err(Error::Other(Cause::Malformed)),
            "{:?}",
            bytes
        );
    }
    // A checksum keeps its low 32 bits, a flag is set by any number but zero.
    let meta = SnapshotMeta::from_bytes(&[0x0a, 7, 0x18, 0xff, 0xff, 0xff, 0xff, 0x1f, 0x10, 2])
        .unwrap_err();
    assert_eq!(meta, Error::Other(Cause::Malformed));
    let meta =
        SnapshotMeta::from_bytes(&[0x0a, 6, 0x18, 0xff, 0xff, 0xff, 0xff, 0x1f, 0x10, 2]).unwrap();
    assert_eq!(meta.cf_files, vec![entry("", 0, u32::MAX)]);
    assert!(meta.for_balance);
}
