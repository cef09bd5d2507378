//! The metadata file: how the metadata of a snapshot is laid out in bytes.
//!
//! The layout is that of a protocol buffers message. Each field is written
//! as a tag, which holds the number of the field and the kind of its value,
//! and the value: a number in the variable-length form, or a string of bytes
//! behind its length. A field that holds nothing is not written.
use vstd::prelude::*;
use vstd::utf8::{decode_utf8, encode_utf8, valid_utf8};
use crate::error::{Cause, Error};
use crate::meta::{SnapshotCfFile, SnapshotCfFileView, SnapshotMeta, SnapshotMetaView};
use crate::snap_io::{
    decode_varint, lemma_read_varint_advances, push_varint, read_varint, varint, MAX_VARINT_LEN,
};

verus! {

/// The tag of the name of the column family, in an entry.
pub const TAG_CF: u8 = 0x0a;

/// The tag of the size, in an entry.
pub const TAG_SIZE: u8 = 0x10;

/// The tag of the checksum, in an entry.
pub const TAG_CHECKSUM: u8 = 0x18;

/// The tag of an entry, in the metadata.
pub const TAG_CF_FILE: u8 = 0x0a;

/// The tag of the flag for snapshots that balance load.
pub const TAG_FOR_BALANCE: u8 = 0x10;

/// The tag of the time at which the snapshot was begun.
pub const TAG_START: u8 = 0x20;

/// The tag of the seconds that the snapshot took to generate.
pub const TAG_GENERATE_DURATION: u8 = 0x28;

/// The tag of the path of the tablet snapshot.
pub const TAG_TABLET_SNAP_PATH: u8 = 0x32;

/// What a field holds.
pub enum FieldValue {
    /// A number.
    Varint(u64),
    /// A string of bytes.
    Bytes(Seq<u8>),
    /// Four or eight bytes, which no field of the metadata has.
    Fixed,
}

/// A field as it is read: its number, what it holds, and the place behind it.
pub struct Field {
    pub number: nat,
    pub value: FieldValue,
    pub next: int,
}

/// Two to the power 64.
pub open spec fn pow2_64() -> nat {
    0x1_0000_0000_0000_0000
}

/// Two to the power 32.
pub open spec fn pow2_32() -> nat {
    0x1_0000_0000
}

/// Reads the field at `pos`: its tag, then its value as the tag says. A
/// field without a number, a value of a kind that is not in use, and a value
/// that reaches beyond the data are not read.
pub open spec fn read_field(data: Seq<u8>, pos: int) -> Option<Field> {
    match read_varint(data, pos, MAX_VARINT_LEN as nat) {
        None => None,
        Some((key, p)) => {
            let key32 = key % pow2_32();
            let number = key32 / 8;
            let wire = key32 % 8;
            if number == 0 {
                None
            } else if wire == 0 {
                match read_varint(data, p, MAX_VARINT_LEN as nat) {
                    None => None,
                    Some((v, next)) => Some(
                        Field { number, value: FieldValue::Varint((v % pow2_64()) as u64), next },
                    ),
                }
            } else if wire == 2 {
                match read_varint(data, p, MAX_VARINT_LEN as nat) {
                    None => None,
                    Some((len, q)) => if q + len % pow2_64() <= data.len() {
                        Some(
                            Field {
                                number,
                                value: FieldValue::Bytes(
                                    data.subrange(q, q + (len % pow2_64()) as int),
                                ),
                                next: q + (len % pow2_64()) as int,
                            },
                        )
                    } else {
                        None
                    },
                }
            } else if wire == 1 {
                if p + 8 <= data.len() {
                    Some(Field { number, value: FieldValue::Fixed, next: p + 8 })
                } else {
                    None
                }
            } else if wire == 5 {
                if p + 4 <= data.len() {
                    Some(Field { number, value: FieldValue::Fixed, next: p + 4 })
                } else {
                    None
                }
            } else {
                None
            }
        },
    }
}

/// A field that is read lies within the data, and is not empty.
pub proof fn lemma_read_field_advances(data: Seq<u8>, pos: int)
    ensures
        read_field(data, pos) matches Some(f) ==> pos < f.next <= data.len(),
{
    lemma_read_varint_advances(data, pos, MAX_VARINT_LEN as nat);
    match read_varint(data, pos, MAX_VARINT_LEN as nat) {
        Some((key, p)) => {
            lemma_read_varint_advances(data, p, MAX_VARINT_LEN as nat);
        },
        None => {},
    }
}

/// An entry with nothing set.
pub open spec fn empty_cf_file() -> SnapshotCfFileView {
    SnapshotCfFileView { cf: Seq::empty(), size: 0, checksum: 0 }
}

/// Metadata with nothing set.
pub open spec fn empty_meta() -> SnapshotMetaView {
    SnapshotMetaView {
        cf_files: Seq::empty(),
        for_balance: false,
        start: 0,
        generate_duration_sec: 0,
        tablet_snap_path: Seq::empty(),
    }
}

/// Takes a field into an entry. The name must be text, the size and the
/// checksum numbers; a checksum keeps its low 32 bits. Any other field is
/// passed over.
pub open spec fn merge_cf_file(e: SnapshotCfFileView, f: Field) -> Option<SnapshotCfFileView> {
    if f.number == 1 {
        match f.value {
            FieldValue::Bytes(b) => if valid_utf8(b) {
                Some(SnapshotCfFileView { cf: decode_utf8(b), ..e })
            } else {
                None
            },
            _ => None,
        }
    } else if f.number == 2 {
        match f.value {
            FieldValue::Varint(v) => Some(SnapshotCfFileView { size: v, ..e }),
            _ => None,
        }
    } else if f.number == 3 {
        match f.value {
            FieldValue::Varint(v) => Some(
                SnapshotCfFileView { checksum: (v as nat % pow2_32()) as u32, ..e },
            ),
            _ => None,
        }
    } else {
        Some(e)
    }
}

/// Reads the fields of an entry from `pos` to the end of the data.
pub open spec fn read_cf_file(data: Seq<u8>, pos: int, e: SnapshotCfFileView) -> Option<
    SnapshotCfFileView,
>
    decreases data.len() - pos,
{
    if pos >= data.len() {
        Some(e)
    } else {
        match read_field(data, pos) {
            None => None,
            Some(f) => match merge_cf_file(e, f) {
                None => None,
                Some(merged) => {
                    proof {
                        lemma_read_field_advances(data, pos);
                    }
                    read_cf_file(data, f.next, merged)
                },
            },
        }
    }
}

/// The entry that the bytes hold.
pub open spec fn decode_cf_file(data: Seq<u8>) -> Option<SnapshotCfFileView> {
    read_cf_file(data, 0, empty_cf_file())
}

/// Takes a field into the metadata. An entry is added behind those that are
/// there; each other field replaces what was read of it before. A field that
/// the metadata does not have is passed over.
pub open spec fn merge_meta(m: SnapshotMetaView, f: Field) -> Option<SnapshotMetaView> {
    if f.number == 1 {
        match f.value {
            FieldValue::Bytes(b) => match decode_cf_file(b) {
                Some(e) => Some(SnapshotMetaView { cf_files: m.cf_files.push(e), ..m }),
                None => None,
            },
            _ => None,
        }
    } else if f.number == 2 {
        match f.value {
            FieldValue::Varint(v) => Some(SnapshotMetaView { for_balance: v != 0, ..m }),
            _ => None,
        }
    } else if f.number == 4 {
        match f.value {
            FieldValue::Varint(v) => Some(SnapshotMetaView { start: v, ..m }),
            _ => None,
        }
    } else if f.number == 5 {
        match f.value {
            FieldValue::Varint(v) => Some(SnapshotMetaView { generate_duration_sec: v, ..m }),
            _ => None,
        }
    } else if f.number == 6 {
        match f.value {
            FieldValue::Bytes(b) => if valid_utf8(b) {
                Some(SnapshotMetaView { tablet_snap_path: decode_utf8(b), ..m })
            } else {
                None
            },
            _ => None,
        }
    } else {
        Some(m)
    }
}

/// Reads the fields of the metadata from `pos` to the end of the data.
pub open spec fn read_meta(data: Seq<u8>, pos: int, m: SnapshotMetaView) -> Option<
    SnapshotMetaView,
>
    decreases data.len() - pos,
{
    if pos >= data.len() {
        Some(m)
    } else {
        match read_field(data, pos) {
            None => None,
            Some(f) => match merge_meta(m, f) {
                None => None,
                Some(merged) => {
                    proof {
                        lemma_read_field_advances(data, pos);
                    }
                    read_meta(data, f.next, merged)
                },
            },
        }
    }
}

/// The metadata that the bytes of a metadata file hold.
pub open spec fn decode_meta(data: Seq<u8>) -> Option<SnapshotMetaView> {
    read_meta(data, 0, empty_meta())
}

/// A number as a field; zero is not written.
pub open spec fn varint_field(tag: u8, v: u64) -> Seq<u8> {
    if v == 0 {
        Seq::empty()
    } else {
        seq![tag] + varint(v as nat)
    }
}

/// A string of bytes as a field.
pub open spec fn bytes_field(tag: u8, b: Seq<u8>) -> Seq<u8> {
    seq![tag] + varint(b.len()) + b
}

/// Text as a field; empty text is not written.
pub open spec fn string_field(tag: u8, s: Seq<char>) -> Seq<u8> {
    if s.len() == 0 {
        Seq::empty()
    } else {
        bytes_field(tag, encode_utf8(s))
    }
}

/// The bytes of an entry.
pub open spec fn encode_cf_file(e: SnapshotCfFileView) -> Seq<u8> {
    string_field(TAG_CF, e.cf) + varint_field(TAG_SIZE, e.size) + varint_field(
        TAG_CHECKSUM,
        e.checksum as u64,
    )
}

/// The bytes of the first `n` entries, each a field of the metadata.
pub open spec fn encode_cf_files(entries: Seq<SnapshotCfFileView>, n: int) -> Seq<u8>
    decreases n,
{
    if n <= 0 {
        Seq::empty()
    } else {
        encode_cf_files(entries, n - 1) + bytes_field(TAG_CF_FILE, encode_cf_file(entries[n - 1]))
    }
}

/// What follows the entries in the bytes of the metadata.
pub open spec fn encode_meta_tail(m: SnapshotMetaView) -> Seq<u8> {
    varint_field(
        TAG_FOR_BALANCE,
        if m.for_balance {
            1
        } else {
            0
        },
    ) + varint_field(TAG_START, m.start) + varint_field(
        TAG_GENERATE_DURATION,
        m.generate_duration_sec,
    ) + string_field(TAG_TABLET_SNAP_PATH, m.tablet_snap_path)
}

/// The bytes of a metadata file.
pub open spec fn encode_meta(m: SnapshotMetaView) -> Seq<u8> {
    encode_cf_files(m.cf_files, m.cf_files.len() as int) + encode_meta_tail(m)
}

/// `String::from_utf8` of the standard library: the string whose bytes are
/// the given ones, where these are text in UTF-8, and nothing else.
#[verifier::external_body]
fn string_from_utf8(bytes: Vec<u8>) -> (r: Option<String>)
    ensures
        match r {
            Some(s) => valid_utf8(bytes@) && encode_utf8(s@) == bytes@,
            None => !valid_utf8(bytes@),
        },
{
    String::from_utf8(bytes).ok()
}

fn push_varint_field(out: &mut Vec<u8>, tag: u8, v: u64)
    ensures
        final(out)@ == old(out)@ + varint_field(tag, v),
{
    if v != 0 {
        let ghost start = out@;
        out.push(tag);
        push_varint(out, v);
        assert(out@ =~= start + varint_field(tag, v));
    } else {
        assert(out@ =~= out@ + varint_field(tag, v));
    }
}

fn push_bytes_field(out: &mut Vec<u8>, tag: u8, b: &[u8])
    ensures
        final(out)@ == old(out)@ + bytes_field(tag, b@),
{
    let ghost start = out@;
    out.push(tag);
    push_varint(out, b.len() as u64);
    let ghost head = out@;
    let mut i: usize = 0;
    while i < b.len()
        invariant
            i <= b@.len(),
            out@ == head + b@.take(i as int),
        decreases b@.len() - i,
    {
        out.push(b[i]);
        assert(b@.take(i + 1) =~= b@.take(i as int).push(b@[i as int]));
        i += 1;
    }
    assert(b@.take(i as int) =~= b@);
    assert(out@ =~= start + bytes_field(tag, b@));
}

fn push_string_field(out: &mut Vec<u8>, tag: u8, s: &str)
    ensures
        final(out)@ == old(out)@ + string_field(tag, s@),
{
    if s.is_empty() {
        assert(out@ =~= out@ + string_field(tag, s@));
    } else {
        push_bytes_field(out, tag, s.as_bytes());
    }
}

fn encode_entry(e: &SnapshotCfFile) -> (out: Vec<u8>)
    ensures
        out@ == encode_cf_file(e@),
{
    let mut out: Vec<u8> = Vec::new();
    push_string_field(&mut out, TAG_CF, e.cf.as_str());
    push_varint_field(&mut out, TAG_SIZE, e.size);
    push_varint_field(&mut out, TAG_CHECKSUM, e.checksum as u64);
    assert(out@ =~= encode_cf_file(e@));
    out
}

impl SnapshotMeta {
    /// The bytes of the metadata file.
    pub fn write_to_bytes(&self) -> (out: Vec<u8>)
        ensures
            out@ == encode_meta(self@),
    {
        let mut out: Vec<u8> = Vec::new();
        let ghost entries = self@.cf_files;
        let mut i: usize = 0;
        while i < self.cf_files.len()
            invariant
                i <= self.cf_files@.len(),
                entries == self@.cf_files,
                out@ == encode_cf_files(entries, i as int),
            decreases self.cf_files@.len() - i,
        {
            let body = encode_entry(&self.cf_files[i]);
            assert(entries[i as int] == self.cf_files@[i as int]@);
            push_bytes_field(&mut out, TAG_CF_FILE, body.as_slice());
            i += 1;
        }
        let ghost head = out@;
        push_varint_field(
            &mut out,
            TAG_FOR_BALANCE,
            if self.for_balance {
                1
            } else {
                0
            },
        );
        push_varint_field(&mut out, TAG_START, self.start);
        push_varint_field(&mut out, TAG_GENERATE_DURATION, self.generate_duration_sec);
        push_string_field(&mut out, TAG_TABLET_SNAP_PATH, self.tablet_snap_path.as_str());
        assert(out@ =~= head + encode_meta_tail(self@));
        out
    }
}


enum RawValue {
    Varint(u64),
    Bytes(usize, usize),
    Fixed,
}

struct RawField {
    number: u64,
    value: RawValue,
    next: usize,
}

/// Whether a field as the program holds it is the field that was read.
spec fn raw_is(raw: RawField, f: Field, data: Seq<u8>) -> bool {
    &&& raw.number == f.number
    &&& raw.next == f.next
    &&& match raw.value {
        RawValue::Varint(v) => f.value == FieldValue::Varint(v),
        RawValue::Bytes(a, b) => a <= b <= data.len() && f.value == FieldValue::Bytes(
            data.subrange(a as int, b as int),
        ),
        RawValue::Fixed => f.value == FieldValue::Fixed,
    }
}

fn read_raw_field(data: &[u8], pos: usize) -> (r: Option<RawField>)
    requires
        pos <= data@.len(),
    ensures
        match read_field(data@, pos as int) {
            Some(f) => r matches Some(raw) && raw_is(raw, f, data@) && pos < raw.next
                <= data@.len(),
            None => r is None,
        },
{
    proof {
        lemma_read_field_advances(data@, pos as int);
    }
    let (key, p) = match decode_varint(data, pos) {
        Some(x) => x,
        None => {
            return None;
        },
    };
    let key32: u128 = key % 0x1_0000_0000;
    let number: u64 = (key32 / 8) as u64;
    let wire: u128 = key32 % 8;
    if number == 0 {
        return None;
    }
    if wire == 0 {
        match decode_varint(data, p) {
            None => None,
            Some((v, next)) => Some(
                RawField {
                    number,
                    value: RawValue::Varint((v % 0x1_0000_0000_0000_0000) as u64),
                    next,
                },
            ),
        }
    } else if wire == 2 {
        match decode_varint(data, p) {
            None => None,
            Some((len, q)) => {
                let len: u128 = len % 0x1_0000_0000_0000_0000;
                if len > (data.len() - q) as u128 {
                    return None;
                }
                let end: usize = q + len as usize;
                Some(RawField { number, value: RawValue::Bytes(q, end), next: end })
            },
        }
    } else if wire == 1 {
        if data.len() - p < 8 {
            return None;
        }
        Some(RawField { number, value: RawValue::Fixed, next: p + 8 })
    } else if wire == 5 {
        if data.len() - p < 4 {
            return None;
        }
        Some(RawField { number, value: RawValue::Fixed, next: p + 4 })
    } else {
        None
    }
}

/// The text that bytes hold, if they hold text.
fn read_string(data: &[u8], from: usize, to: usize) -> (r: Option<String>)
    requires
        from <= to <= data@.len(),
    ensures
        match r {
            Some(s) => valid_utf8(data@.subrange(from as int, to as int)) && s@ == decode_utf8(
                data@.subrange(from as int, to as int),
            ),
            None => !valid_utf8(data@.subrange(from as int, to as int)),
        },
{
    let bytes = vstd::slice::slice_to_vec(vstd::slice::slice_subrange(data, from, to));
    match string_from_utf8(bytes) {
        Some(s) => {
            proof {
                vstd::utf8::encode_utf8_decode_utf8(s@);
            }
            Some(s)
        },
        None => None,
    }
}

fn decode_entry(data: &[u8]) -> (r: Option<SnapshotCfFile>)
    ensures
        match decode_cf_file(data@) {
            Some(e) => r matches Some(x) && x@ == e,
            None => r is None,
        },
{
    let mut entry = SnapshotCfFile { cf: String::new(), size: 0, checksum: 0 };
    let mut pos: usize = 0;
    while pos < data.len()
        invariant
            pos <= data@.len(),
            decode_cf_file(data@) == read_cf_file(data@, pos as int, entry@),
        decreases data@.len() - pos,
    {
        let raw = match read_raw_field(data, pos) {
            Some(raw) => raw,
            None => {
                return None;
            },
        };
        if raw.number == 1 {
            match raw.value {
                RawValue::Bytes(a, b) => match read_string(data, a, b) {
                    Some(s) => {
                        entry.cf = s;
                    },
                    None => {
                        return None;
                    },
                },
                _ => {
                    return None;
                },
            }
        } else if raw.number == 2 {
            match raw.value {
                RawValue::Varint(v) => {
                    entry.size = v;
                },
                _ => {
                    return None;
                },
            }
        } else if raw.number == 3 {
            match raw.value {
                RawValue::Varint(v) => {
                    entry.checksum = (v % 0x1_0000_0000) as u32;
                },
                _ => {
                    return None;
                },
            }
        }
        pos = raw.next;
    }
    Some(entry)
}

impl SnapshotMeta {
    /// The metadata that the bytes of a metadata file hold. Bytes that do not
    /// hold metadata are refused.
    pub fn from_bytes(data: &[u8]) -> (r: Result<SnapshotMeta, Error>)
        ensures
            match decode_meta(data@) {
                Some(m) => r matches Ok(x) && x@ == m,
                None => r matches Err(e) && e == Error::Other(Cause::Malformed),
            },
    {
        let mut meta = SnapshotMeta {
            cf_files: Vec::new(),
            for_balance: false,
            start: 0,
            generate_duration_sec: 0,
            tablet_snap_path: String::new(),
        };
        assert(meta@.cf_files =~= Seq::empty());
        let mut pos: usize = 0;
        while pos < data.len()
            invariant
                pos <= data@.len(),
                decode_meta(data@) == read_meta(data@, pos as int, meta@),
            decreases data@.len() - pos,
        {
            let raw = match read_raw_field(data, pos) {
                Some(raw) => raw,
                None => {
                    return Err(Error::Other(Cause::Malformed));
                },
            };
            let ghost before = meta@;
            if raw.number == 1 {
                match raw.value {
                    RawValue::Bytes(a, b) => {
                        let body = vstd::slice::slice_subrange(data, a, b);
                        match decode_entry(body) {
                            Some(e) => {
                                meta.cf_files.push(e);
                                assert(meta@.cf_files =~= before.cf_files.push(e@));
                            },
                            None => {
                                return Err(Error::Other(Cause::Malformed));
                            },
                        }
                    },
                    _ => {
                        return Err(Error::Other(Cause::Malformed));
                    },
                }
            } else if raw.number == 2 {
                match raw.value {
                    RawValue::Varint(v) => {
                        meta.for_balance = v != 0;
                    },
                    _ => {
                        return Err(Error::Other(Cause::Malformed));
                    },
                }
            } else if raw.number == 4 {
                match raw.value {
                    RawValue::Varint(v) => {
                        meta.start = v;
                    },
                    _ => {
                        return Err(Error::Other(Cause::Malformed));
                    },
                }
            } else if raw.number == 5 {
                match raw.value {
                    RawValue::Varint(v) => {
                        meta.generate_duration_sec = v;
                    },
                    _ => {
                        return Err(Error::Other(Cause::Malformed));
                    },
                }
            } else if raw.number == 6 {
                match raw.value {
                    RawValue::Bytes(a, b) => match read_string(data, a, b) {
                        Some(s) => {
                            meta.tablet_snap_path = s;
                        },
                        None => {
                            return Err(Error::Other(Cause::Malformed));
                        },
                    },
                    _ => {
                        return Err(Error::Other(Cause::Malformed));
                    },
                }
            }
            pos = raw.next;
        }
        Ok(meta)
    }
}


/// Whether a byte is the tag of a field that holds a number.
pub open spec fn is_varint_tag(tag: u8) -> bool {
    8 <= tag < 128 && tag % 8 == 0
}

/// Whether a byte is the tag of a field that holds a string of bytes.
pub open spec fn is_bytes_tag(tag: u8) -> bool {
    8 <= tag < 128 && tag % 8 == 2
}

/// Reading finds a number where it stands as a field.
pub proof fn lemma_read_varint_field(pre: Seq<u8>, tag: u8, v: u64, rest: Seq<u8>)
    requires
        is_varint_tag(tag),
    ensures
        read_field(pre + (seq![tag] + varint(v as nat)) + rest, pre.len() as int) == Some(
            Field {
                number: (tag / 8) as nat,
                value: FieldValue::Varint(v),
                next: (pre.len() + 1 + varint(v as nat).len()) as int,
            },
        ),
{
    let data = pre + (seq![tag] + varint(v as nat)) + rest;
    let p = pre.len() as int;
    let end = p + 1 + varint(v as nat).len();
    crate::snap_io::lemma_varint_len(v as nat);
    assert(varint(tag as nat) =~= seq![tag]);
    assert(read_varint(data, p, MAX_VARINT_LEN as nat) == Some((tag as nat, p + 1))) by {
        assert(data =~= pre + varint(tag as nat) + (varint(v as nat) + rest));
        crate::snap_io::lemma_read_varint_of(
            pre,
            tag as nat,
            varint(v as nat) + rest,
            MAX_VARINT_LEN as nat,
        );
    }
    assert(read_varint(data, p + 1, MAX_VARINT_LEN as nat) == Some((v as nat, end))) by {
        assert(data =~= (pre + seq![tag]) + varint(v as nat) + rest);
        crate::snap_io::lemma_read_varint_of(
            pre + seq![tag],
            v as nat,
            rest,
            MAX_VARINT_LEN as nat,
        );
    }
    assert((tag as nat) % pow2_32() == tag as nat);
    assert((tag as nat) % 8 == 0);
    assert((v as nat) % pow2_64() == v as nat);
}

/// Reading finds a string of bytes where it stands as a field.
pub proof fn lemma_read_bytes_field(pre: Seq<u8>, tag: u8, b: Seq<u8>, rest: Seq<u8>)
    requires
        is_bytes_tag(tag),
        b.len() <= u64::MAX,
    ensures
        read_field(pre + bytes_field(tag, b) + rest, pre.len() as int) == Some(
            Field {
                number: (tag / 8) as nat,
                value: FieldValue::Bytes(b),
                next: (pre.len() + bytes_field(tag, b).len()) as int,
            },
        ),
{
    let data = pre + bytes_field(tag, b) + rest;
    let p = pre.len() as int;
    let q = p + 1 + varint(b.len()).len();
    crate::snap_io::lemma_varint_len(b.len());
    assert(varint(tag as nat) =~= seq![tag]);
    assert(read_varint(data, p, MAX_VARINT_LEN as nat) == Some((tag as nat, p + 1))) by {
        assert(data =~= pre + varint(tag as nat) + (varint(b.len()) + b + rest));
        crate::snap_io::lemma_read_varint_of(
            pre,
            tag as nat,
            varint(b.len()) + b + rest,
            MAX_VARINT_LEN as nat,
        );
    }
    assert(read_varint(data, p + 1, MAX_VARINT_LEN as nat) == Some((b.len(), q))) by {
        assert(data =~= (pre + seq![tag]) + varint(b.len()) + (b + rest));
        crate::snap_io::lemma_read_varint_of(
            pre + seq![tag],
            b.len(),
            b + rest,
            MAX_VARINT_LEN as nat,
        );
    }
    assert((tag as nat) % pow2_32() == tag as nat);
    assert((tag as nat) % 8 == 2);
    assert(b.len() % pow2_64() == b.len());
    assert(data.subrange(q, q + b.len()) =~= b);
    assert(q + b.len() == p + bytes_field(tag, b).len());
    assert(q + b.len() <= data.len());
}

/// Reading an entry goes over a number that stands as its field, whatever follows.
proof fn lemma_cf_file_varint_step(
    pre: Seq<u8>,
    tag: u8,
    v: u64,
    rest: Seq<u8>,
    e: SnapshotCfFileView,
)
    requires
        tag == TAG_SIZE || tag == TAG_CHECKSUM,
        tag == TAG_CHECKSUM ==> v < pow2_32(),
    ensures
        read_cf_file(pre + varint_field(tag, v) + rest, pre.len() as int, e) == read_cf_file(
            pre + varint_field(tag, v) + rest,
            (pre.len() + varint_field(tag, v).len()) as int,
            if v == 0 {
                e
            } else if tag == TAG_SIZE {
                SnapshotCfFileView { size: v, ..e }
            } else {
                SnapshotCfFileView { checksum: v as u32, ..e }
            },
        ),
{
    if v != 0 {
        lemma_read_varint_field(pre, tag, v, rest);
    }
}

/// Reading an entry goes over text that stands as its name, whatever follows.
proof fn lemma_cf_file_string_step(pre: Seq<u8>, s: Seq<char>, rest: Seq<u8>, e: SnapshotCfFileView)
    requires
        encode_utf8(s).len() <= u64::MAX,
    ensures
        read_cf_file(pre + string_field(TAG_CF, s) + rest, pre.len() as int, e) == read_cf_file(
            pre + string_field(TAG_CF, s) + rest,
            (pre.len() + string_field(TAG_CF, s).len()) as int,
            if s.len() == 0 {
                e
            } else {
                SnapshotCfFileView { cf: s, ..e }
            },
        ),
{
    if s.len() != 0 {
        lemma_read_bytes_field(pre, TAG_CF, encode_utf8(s), rest);
        vstd::utf8::encode_utf8_valid_utf8(s);
        vstd::utf8::encode_utf8_decode_utf8(s);
        lemma_read_field_advances(pre + string_field(TAG_CF, s) + rest, pre.len() as int);
    }
}

/// Whether the text of an entry is short enough for its length to be written.
pub open spec fn cf_file_writable(e: SnapshotCfFileView) -> bool {
    encode_utf8(e.cf).len() <= u64::MAX
}

/// Whether the texts of the metadata are short enough for their lengths to be written.
pub open spec fn meta_writable(m: SnapshotMetaView) -> bool {
    &&& encode_utf8(m.tablet_snap_path).len() <= u64::MAX
    &&& forall|i: int|
        0 <= i < m.cf_files.len() ==> cf_file_writable(#[trigger] m.cf_files[i])
            && encode_cf_file(m.cf_files[i]).len() <= u64::MAX
}

/// An entry is read back from its bytes.
pub proof fn lemma_cf_file_roundtrip(e: SnapshotCfFileView)
    requires
        cf_file_writable(e),
    ensures
        decode_cf_file(encode_cf_file(e)) == Some(e),
{
    let s = string_field(TAG_CF, e.cf);
    let z = varint_field(TAG_SIZE, e.size);
    let c = varint_field(TAG_CHECKSUM, e.checksum as u64);
    let data = encode_cf_file(e);
    let e0 = empty_cf_file();
    let e1 = if e.cf.len() == 0 {
        e0
    } else {
        SnapshotCfFileView { cf: e.cf, ..e0 }
    };
    let e2 = if e.size == 0 {
        e1
    } else {
        SnapshotCfFileView { size: e.size, ..e1 }
    };
    let e3 = if e.checksum == 0 {
        e2
    } else {
        SnapshotCfFileView { checksum: e.checksum, ..e2 }
    };
    lemma_cf_file_string_step(Seq::empty(), e.cf, z + c, e0);
    assert(data =~= Seq::<u8>::empty() + s + (z + c));
    lemma_cf_file_varint_step(s, TAG_SIZE, e.size, c, e1);
    assert(data =~= s + z + c);
    lemma_cf_file_varint_step(s + z, TAG_CHECKSUM, e.checksum as u64, Seq::empty(), e2);
    assert(data =~= (s + z) + c + Seq::<u8>::empty());
    assert(e3.cf =~= e.cf);
    assert(e3 == e);
}

/// Reading the metadata goes over the first `n` entries, whatever follows:
/// each is added to those that were read before.
proof fn lemma_meta_entries_steps(
    entries: Seq<SnapshotCfFileView>,
    n: int,
    rest: Seq<u8>,
    m: SnapshotMetaView,
)
    requires
        0 <= n <= entries.len(),
        forall|i: int|
            0 <= i < n ==> cf_file_writable(#[trigger] entries[i]) && encode_cf_file(
                entries[i],
            ).len() <= u64::MAX,
    ensures
        read_meta(encode_cf_files(entries, n) + rest, 0, m) == read_meta(
            encode_cf_files(entries, n) + rest,
            encode_cf_files(entries, n).len() as int,
            SnapshotMetaView { cf_files: m.cf_files + entries.take(n), ..m },
        ),
    decreases n,
{
    let data = encode_cf_files(entries, n) + rest;
    if n == 0 {
        assert(m.cf_files + entries.take(0) =~= m.cf_files);
    } else {
        let head = encode_cf_files(entries, n - 1);
        let e = entries[n - 1];
        let field = bytes_field(TAG_CF_FILE, encode_cf_file(e));
        lemma_meta_entries_steps(entries, n - 1, field + rest, m);
        assert(data =~= head + (field + rest));
        let m1 = SnapshotMetaView { cf_files: m.cf_files + entries.take(n - 1), ..m };
        lemma_read_bytes_field(head, TAG_CF_FILE, encode_cf_file(e), rest);
        assert(data =~= head + field + rest);
        lemma_cf_file_roundtrip(e);
        lemma_read_field_advances(data, head.len() as int);
        assert((m.cf_files + entries.take(n - 1)).push(e) =~= m.cf_files + entries.take(n));
    }
}

/// Reading the metadata goes over a number that stands as its field, whatever follows.
proof fn lemma_meta_varint_step(pre: Seq<u8>, tag: u8, v: u64, rest: Seq<u8>, m: SnapshotMetaView)
    requires
        tag == TAG_FOR_BALANCE || tag == TAG_START || tag == TAG_GENERATE_DURATION,
    ensures
        read_meta(pre + varint_field(tag, v) + rest, pre.len() as int, m) == read_meta(
            pre + varint_field(tag, v) + rest,
            (pre.len() + varint_field(tag, v).len()) as int,
            if v == 0 {
                m
            } else if tag == TAG_FOR_BALANCE {
                SnapshotMetaView { for_balance: true, ..m }
            } else if tag == TAG_START {
                SnapshotMetaView { start: v, ..m }
            } else {
                SnapshotMetaView { generate_duration_sec: v, ..m }
            },
        ),
{
    if v != 0 {
        lemma_read_varint_field(pre, tag, v, rest);
    }
}

/// Reading the metadata goes over text that stands as the path of the tablet snapshot.
proof fn lemma_meta_string_step(pre: Seq<u8>, s: Seq<char>, rest: Seq<u8>, m: SnapshotMetaView)
    requires
        encode_utf8(s).len() <= u64::MAX,
    ensures
        read_meta(pre + string_field(TAG_TABLET_SNAP_PATH, s) + rest, pre.len() as int, m)
            == read_meta(
            pre + string_field(TAG_TABLET_SNAP_PATH, s) + rest,
            (pre.len() + string_field(TAG_TABLET_SNAP_PATH, s).len()) as int,
            if s.len() == 0 {
                m
            } else {
                SnapshotMetaView { tablet_snap_path: s, ..m }
            },
        ),
{
    if s.len() != 0 {
        lemma_read_bytes_field(pre, TAG_TABLET_SNAP_PATH, encode_utf8(s), rest);
        vstd::utf8::encode_utf8_valid_utf8(s);
        vstd::utf8::encode_utf8_decode_utf8(s);
        lemma_read_field_advances(
            pre + string_field(TAG_TABLET_SNAP_PATH, s) + rest,
            pre.len() as int,
        );
    }
}

/// The flag for snapshots that balance load, as a number.
pub open spec fn flag(b: bool) -> u64 {
    if b {
        1
    } else {
        0
    }
}


/// A byte with all its bits turned over.
pub open spec fn flipped(b: u8) -> u8 {
    (255 - b) as u8
}

/// The bytes with all the bits of the last byte turned over.
pub open spec fn flip_last(data: Seq<u8>) -> Seq<u8> {
    data.update(data.len() - 1, flipped(data.last()))
}

/// Turning over all bits of a byte is what `^ 0xff` does.
pub proof fn lemma_flipped_is_xor(b: u8)
    ensures
        b ^ 0xff == flipped(b),
{
    assert(b ^ 0xff == (255 - b) as u8) by (bit_vector);
}

/// In the variable-length form, the last byte has its high bit clear, and
/// each byte before it has it set.
pub proof fn lemma_varint_shape(v: nat)
    ensures
        varint(v).len() >= 1,
        varint(v).last() < 128,
        forall|i: int| 0 <= i < varint(v).len() - 1 ==> varint(v)[i] >= 128,
    decreases v,
{
    if v >= 128 {
        lemma_varint_shape(v / 128);
        let first = seq![(v % 128 + 128) as u8];
        let tail = varint(v / 128);
        assert(varint(v) =~= first + tail);
        assert(varint(v).last() == tail.last());
        assert forall|i: int| 0 <= i < varint(v).len() - 1 implies varint(v)[i] >= 128 by {
            if i > 0 {
                assert(varint(v)[i] == tail[i - 1]);
            }
        }
    }
}

/// A number whose bytes all have the high bit set up to the end of the data
/// does not end, and is not read.
pub proof fn lemma_read_varint_runs_out(data: Seq<u8>, pos: int, left: nat)
    requires
        0 <= pos,
        forall|i: int| pos <= i < data.len() ==> data[i] >= 128,
    ensures
        read_varint(data, pos, left) is None,
    decreases left,
{
    if left > 0 && pos < data.len() {
        lemma_read_varint_runs_out(data, pos + 1, (left - 1) as nat);
    }
}

/// The last byte of bytes that end in something is the last byte of that.
pub proof fn lemma_flip_last_append(a: Seq<u8>, b: Seq<u8>)
    requires
        b.len() > 0,
    ensures
        flip_last(a + b) == a + flip_last(b),
{
    assert((a + b).last() == b.last());
    assert(flip_last(a + b) =~= a + flip_last(b));
}

/// A number that stands as a field is not read once its last byte is turned over.
pub proof fn lemma_flipped_varint_field(pre: Seq<u8>, tag: u8, v: u64)
    requires
        is_varint_tag(tag),
    ensures
        read_field(pre + flip_last(seq![tag] + varint(v as nat)), pre.len() as int) is None,
{
    let number = varint(v as nat);
    let turned = flip_last(number);
    let data = pre + flip_last(seq![tag] + number);
    let p = pre.len() as int;
    lemma_varint_shape(v as nat);
    lemma_flip_last_append(seq![tag], number);
    assert(data =~= (pre + seq![tag]) + turned);
    assert(data.len() == p + 1 + number.len());
    assert(data[p] == tag);
    assert(read_varint(data, p, MAX_VARINT_LEN as nat) == Some((tag as nat, p + 1)));
    assert forall|i: int| p + 1 <= i < data.len() implies data[i] >= 128 by {
        let k = i - p - 1;
        assert(data[i] == turned[k]);
        if k < number.len() - 1 {
            assert(turned[k] == number[k]);
        } else {
            assert(turned[k] == flipped(number.last()));
        }
    }
    lemma_read_varint_runs_out(data, p + 1, MAX_VARINT_LEN as nat);
    assert(read_varint(data, p + 1, MAX_VARINT_LEN as nat) is None);
}

/// Text in UTF-8 is no text any more once its last byte is turned over.
pub proof fn lemma_flip_invalid_utf8(b: Seq<u8>)
    requires
        valid_utf8(b),
        b.len() > 0,
    ensures
        !valid_utf8(flip_last(b)),
    decreases b.len(),
{
    let n = b.len() as int;
    let b2 = flip_last(b);
    let len = vstd::utf8::length_of_first_scalar(b);
    assert(vstd::utf8::valid_first_scalar(b));
    assert(1 <= len <= n);
    if len < n {
        let rest = vstd::utf8::pop_first_scalar(b);
        assert(valid_utf8(rest));
        lemma_flip_invalid_utf8(rest);
        assert(b2[0] == b[0]);
        if vstd::utf8::valid_first_scalar(b2) {
            assert(vstd::utf8::length_of_first_scalar(b2) == len);
            assert(vstd::utf8::pop_first_scalar(b2) =~= flip_last(rest));
        }
    } else {
        assert(b2.len() == n);
        assert(b2[n - 1] == flipped(b[n - 1]));
        if n > 1 {
            assert(b2[0] == b[0]);
            assert(vstd::utf8::is_continuation_byte(b[n - 1]));
            assert(!vstd::utf8::is_continuation_byte(b2[n - 1]));
        }
        assert(!vstd::utf8::valid_leading_and_continuation_bytes_first_codepoint(b2));
    }
}

/// A string of bytes that stands as a field is read as the string with its
/// last byte turned over, once the last byte of the field is turned over;
/// and where the string is empty, the field is not read.
pub proof fn lemma_flipped_bytes_field(pre: Seq<u8>, tag: u8, b: Seq<u8>)
    requires
        is_bytes_tag(tag),
        b.len() <= u64::MAX,
    ensures
        b.len() > 0 ==> read_field(pre + flip_last(bytes_field(tag, b)), pre.len() as int) == Some(
            Field {
                number: (tag / 8) as nat,
                value: FieldValue::Bytes(flip_last(b)),
                next: (pre + flip_last(bytes_field(tag, b))).len() as int,
            },
        ),
        b.len() == 0 ==> read_field(pre + flip_last(bytes_field(tag, b)), pre.len() as int)
            is None,
{
    let field = bytes_field(tag, b);
    let data = pre + flip_last(field);
    let p = pre.len() as int;
    if b.len() > 0 {
        lemma_flip_last_append(seq![tag] + varint(b.len()), b);
        assert(flip_last(field) =~= bytes_field(tag, flip_last(b)));
        lemma_read_bytes_field(pre, tag, flip_last(b), Seq::empty());
        assert(data =~= pre + bytes_field(tag, flip_last(b)) + Seq::<u8>::empty());
    } else {
        assert(varint(0) =~= seq![0u8]);
        assert(field =~= seq![tag, 0u8]);
        assert(data[p] == tag);
        assert(data[p + 1] == 255);
        assert(read_varint(data, p, MAX_VARINT_LEN as nat) == Some((tag as nat, p + 1)));
        lemma_read_varint_runs_out(data, p + 1, MAX_VARINT_LEN as nat);
    }
}

/// An entry is not read from its bytes once the last of them is turned over.
pub proof fn lemma_flipped_cf_file(e: SnapshotCfFileView)
    requires
        cf_file_writable(e),
        encode_cf_file(e).len() > 0,
    ensures
        decode_cf_file(flip_last(encode_cf_file(e))) is None,
{
    let s = string_field(TAG_CF, e.cf);
    let z = varint_field(TAG_SIZE, e.size);
    let c = varint_field(TAG_CHECKSUM, e.checksum as u64);
    let data = flip_last(encode_cf_file(e));
    let e0 = empty_cf_file();
    let e1 = if e.cf.len() == 0 {
        e0
    } else {
        SnapshotCfFileView { cf: e.cf, ..e0 }
    };
    let e2 = if e.size == 0 {
        e1
    } else {
        SnapshotCfFileView { size: e.size, ..e1 }
    };
    if e.checksum != 0 {
        lemma_flip_last_append(s + z, c);
        assert(data =~= (s + z) + flip_last(c));
        let rest = flip_last(c);
        assert(read_cf_file(data, 0, e0) == read_cf_file(data, s.len() as int, e1)) by {
            assert(data =~= Seq::<u8>::empty() + s + (z + rest));
            lemma_cf_file_string_step(Seq::empty(), e.cf, z + rest, e0);
        }
        assert(read_cf_file(data, s.len() as int, e1) == read_cf_file(
            data,
            (s + z).len() as int,
            e2,
        )) by {
            assert(data =~= s + z + rest);
            lemma_cf_file_varint_step(s, TAG_SIZE, e.size, rest, e1);
        }
        lemma_flipped_varint_field(s + z, TAG_CHECKSUM, e.checksum as u64);
    } else if e.size != 0 {
        assert(c =~= Seq::<u8>::empty());
        lemma_flip_last_append(s, z);
        assert(encode_cf_file(e) =~= s + z);
        assert(data =~= s + flip_last(z));
        let rest = flip_last(z);
        assert(read_cf_file(data, 0, e0) == read_cf_file(data, s.len() as int, e1)) by {
            assert(data =~= Seq::<u8>::empty() + s + rest);
            lemma_cf_file_string_step(Seq::empty(), e.cf, rest, e0);
        }
        lemma_flipped_varint_field(s, TAG_SIZE, e.size);
    } else {
        assert(encode_cf_file(e) =~= s);
        let text = encode_utf8(e.cf);
        assert(e.cf.len() > 0);
        lemma_encode_utf8_not_empty(e.cf);
        lemma_flipped_bytes_field(Seq::empty(), TAG_CF, text);
        assert(data =~= Seq::<u8>::empty() + flip_last(bytes_field(TAG_CF, text)));
        vstd::utf8::encode_utf8_valid_utf8(e.cf);
        lemma_flip_invalid_utf8(text);
    }
}

/// Text that is not empty has bytes.
pub proof fn lemma_encode_utf8_not_empty(s: Seq<char>)
    requires
        s.len() > 0,
    ensures
        encode_utf8(s).len() > 0,
{
    vstd::utf8::encode_utf8_first_scalar(s);
}


/// The `k`-th of the numbers that follow the entries in the bytes of the metadata.
pub open spec fn tail_number(m: SnapshotMetaView, k: int) -> (u8, u64) {
    if k == 1 {
        (TAG_FOR_BALANCE, flag(m.for_balance))
    } else if k == 2 {
        (TAG_START, m.start)
    } else {
        (TAG_GENERATE_DURATION, m.generate_duration_sec)
    }
}

/// The bytes of the metadata up to the `k`-th of the numbers that follow the entries.
pub open spec fn head_bytes(m: SnapshotMetaView, k: int) -> Seq<u8>
    decreases k,
{
    if k <= 0 {
        encode_cf_files(m.cf_files, m.cf_files.len() as int)
    } else {
        head_bytes(m, k - 1) + varint_field(tail_number(m, k).0, tail_number(m, k).1)
    }
}

/// What is read of the metadata up to the `k`-th of the numbers that follow the entries.
pub open spec fn head_meta(m: SnapshotMetaView, k: int) -> SnapshotMetaView {
    SnapshotMetaView {
        cf_files: m.cf_files,
        for_balance: k >= 1 && m.for_balance,
        start: if k >= 2 {
            m.start
        } else {
            0
        },
        generate_duration_sec: if k >= 3 {
            m.generate_duration_sec
        } else {
            0
        },
        tablet_snap_path: Seq::empty(),
    }
}

/// Reading the metadata goes over its beginning, whatever follows.
proof fn lemma_meta_head_steps(m: SnapshotMetaView, k: int, rest: Seq<u8>)
    requires
        meta_writable(m),
        0 <= k <= 3,
    ensures
        read_meta(head_bytes(m, k) + rest, 0, empty_meta()) == read_meta(
            head_bytes(m, k) + rest,
            head_bytes(m, k).len() as int,
            head_meta(m, k),
        ),
    decreases k,
{
    let data = head_bytes(m, k) + rest;
    if k == 0 {
        let n = m.cf_files.len() as int;
        lemma_meta_entries_steps(m.cf_files, n, rest, empty_meta());
        assert(empty_meta().cf_files + m.cf_files.take(n) =~= m.cf_files);
    } else {
        let pre = head_bytes(m, k - 1);
        let (tag, v) = tail_number(m, k);
        let field = varint_field(tag, v);
        lemma_meta_head_steps(m, k - 1, field + rest);
        assert(data =~= pre + (field + rest));
        lemma_meta_varint_step(pre, tag, v, rest, head_meta(m, k - 1));
        assert(data =~= pre + field + rest);
    }
}

/// The bytes of the metadata are its beginning and the path of the tablet snapshot.
proof fn lemma_encode_meta_parts(m: SnapshotMetaView)
    ensures
        encode_meta(m) == head_bytes(m, 3) + string_field(TAG_TABLET_SNAP_PATH, m.tablet_snap_path),
{
    reveal_with_fuel(head_bytes, 4);
    assert(encode_meta(m) =~= head_bytes(m, 3) + string_field(
        TAG_TABLET_SNAP_PATH,
        m.tablet_snap_path,
    ));
}

/// The metadata does not parse once the trailing byte of its file is turned
/// over: whatever metadata was written, a file that is damaged so is refused.
pub proof fn lemma_flipped_meta(m: SnapshotMetaView)
    requires
        meta_writable(m),
        encode_meta(m).len() > 0,
    ensures
        decode_meta(flip_last(encode_meta(m))) is None,
{
    reveal_with_fuel(head_bytes, 4);
    lemma_encode_meta_parts(m);
    let t = string_field(TAG_TABLET_SNAP_PATH, m.tablet_snap_path);
    let data = flip_last(encode_meta(m));
    if t.len() > 0 {
        let text = encode_utf8(m.tablet_snap_path);
        let pre = head_bytes(m, 3);
        lemma_flip_last_append(pre, t);
        lemma_meta_head_steps(m, 3, flip_last(t));
        lemma_encode_utf8_not_empty(m.tablet_snap_path);
        lemma_flipped_bytes_field(pre, TAG_TABLET_SNAP_PATH, text);
        vstd::utf8::encode_utf8_valid_utf8(m.tablet_snap_path);
        lemma_flip_invalid_utf8(text);
    } else {
        assert(encode_meta(m) =~= head_bytes(m, 3));
        lemma_flipped_head(m, 3);
    }
}

/// The beginning of the metadata does not parse once its last byte is turned over.
proof fn lemma_flipped_head(m: SnapshotMetaView, k: int)
    requires
        meta_writable(m),
        0 <= k <= 3,
        head_bytes(m, k).len() > 0,
    ensures
        read_meta(flip_last(head_bytes(m, k)), 0, empty_meta()) is None,
    decreases k,
{
    if k > 0 {
        let pre = head_bytes(m, k - 1);
        let (tag, v) = tail_number(m, k);
        let field = varint_field(tag, v);
        if v != 0 {
            lemma_flip_last_append(pre, field);
            lemma_meta_head_steps(m, k - 1, flip_last(field));
            lemma_flipped_varint_field(pre, tag, v);
        } else {
            assert(head_bytes(m, k) =~= pre);
            lemma_flipped_head(m, k - 1);
        }
    } else {
        let n = m.cf_files.len() as int;
        let entries = m.cf_files;
        assert(n > 0);
        let pre = encode_cf_files(entries, n - 1);
        let e = entries[n - 1];
        let body = encode_cf_file(e);
        let field = bytes_field(TAG_CF_FILE, body);
        lemma_flip_last_append(pre, field);
        let data = pre + flip_last(field);
        assert(flip_last(head_bytes(m, 0)) == data);
        lemma_meta_entries_steps(entries, n - 1, flip_last(field), empty_meta());
        lemma_flipped_bytes_field(pre, TAG_CF_FILE, body);
        if body.len() > 0 {
            lemma_flipped_cf_file(e);
        }
    }
}


/// The metadata is read back from the bytes of its file.
pub proof fn lemma_meta_roundtrip(m: SnapshotMetaView)
    requires
        meta_writable(m),
    ensures
        decode_meta(encode_meta(m)) == Some(m),
{
    lemma_encode_meta_parts(m);
    let pre = head_bytes(m, 3);
    let t = string_field(TAG_TABLET_SNAP_PATH, m.tablet_snap_path);
    let data = encode_meta(m);
    let m3 = head_meta(m, 3);
    let m4 = SnapshotMetaView { tablet_snap_path: m.tablet_snap_path, ..m3 };
    assert(read_meta(data, 0, empty_meta()) == read_meta(data, pre.len() as int, m3)) by {
        lemma_meta_head_steps(m, 3, t);
    }
    assert(read_meta(data, pre.len() as int, m3) == Some(m4)) by {
        assert(data =~= pre + t + Seq::<u8>::empty());
        lemma_meta_string_step(pre, m.tablet_snap_path, Seq::empty(), m3);
        if m.tablet_snap_path.len() == 0 {
            assert(m3.tablet_snap_path =~= m.tablet_snap_path);
        }
    }
    assert(m4 == m);
}


/// Takes a field of a region into its id, which is the number in field one.
pub open spec fn merge_region_id(id: u64, f: Field) -> Option<u64> {
    if f.number == 1 {
        match f.value {
            FieldValue::Varint(v) => Some(v),
            _ => None,
        }
    } else {
        Some(id)
    }
}

/// Reads the fields of a region from `pos` to the end of the data, for its id.
pub open spec fn read_region_id(data: Seq<u8>, pos: int, id: u64) -> Option<u64>
    decreases data.len() - pos,
{
    if pos >= data.len() {
        Some(id)
    } else {
        match read_field(data, pos) {
            None => None,
            Some(f) => match merge_region_id(id, f) {
                None => None,
                Some(merged) => {
                    proof {
                        lemma_read_field_advances(data, pos);
                    }
                    read_region_id(data, f.next, merged)
                },
            },
        }
    }
}

/// Takes a field of the data of a snapshot into the id of its region, which
/// is in field one.
pub open spec fn merge_snapshot_region(id: u64, f: Field) -> Option<u64> {
    if f.number == 1 {
        match f.value {
            FieldValue::Bytes(b) => read_region_id(b, 0, id),
            _ => None,
        }
    } else {
        Some(id)
    }
}

/// Reads the fields of the data of a snapshot from `pos` to the end, for the
/// id of its region. The other fields are passed over.
pub open spec fn read_snapshot_region(data: Seq<u8>, pos: int, id: u64) -> Option<u64>
    decreases data.len() - pos,
{
    if pos >= data.len() {
        Some(id)
    } else {
        match read_field(data, pos) {
            None => None,
            Some(f) => match merge_snapshot_region(id, f) {
                None => None,
                Some(merged) => {
                    proof {
                        lemma_read_field_advances(data, pos);
                    }
                    read_snapshot_region(data, f.next, merged)
                },
            },
        }
    }
}

/// The id of the region whose snapshot the data is of; zero where the data
/// names no region.
pub open spec fn snapshot_region_id(data: Seq<u8>) -> Option<u64> {
    read_snapshot_region(data, 0, 0)
}

fn region_id_in(data: &[u8], initial: u64) -> (r: Option<u64>)
    ensures
        r == read_region_id(data@, 0, initial),
{
    let mut id: u64 = initial;
    let mut pos: usize = 0;
    while pos < data.len()
        invariant
            pos <= data@.len(),
            read_region_id(data@, 0, initial) == read_region_id(data@, pos as int, id),
        decreases data@.len() - pos,
    {
        let raw = match read_raw_field(data, pos) {
            Some(raw) => raw,
            None => {
                return None;
            },
        };
        if raw.number == 1 {
            match raw.value {
                RawValue::Varint(v) => {
                    id = v;
                },
                _ => {
                    return None;
                },
            }
        }
        pos = raw.next;
    }
    Some(id)
}

/// The id of the region whose snapshot the data is of.
pub fn region_id_of_snapshot_data(data: &[u8]) -> (r: Result<u64, Error>)
    ensures
        match snapshot_region_id(data@) {
            Some(id) => r == Ok::<u64, Error>(id),
            None => r == Err::<u64, Error>(Error::Other(Cause::Malformed)),
        },
{
    let mut id: u64 = 0;
    let mut pos: usize = 0;
    while pos < data.len()
        invariant
            pos <= data@.len(),
            snapshot_region_id(data@) == read_snapshot_region(data@, pos as int, id),
        decreases data@.len() - pos,
    {
        let raw = match read_raw_field(data, pos) {
            Some(raw) => raw,
            None => {
                return Err(Error::Other(Cause::Malformed));
            },
        };
        if raw.number == 1 {
            match raw.value {
                RawValue::Bytes(a, b) => {
                    let body = vstd::slice::slice_subrange(data, a, b);
                    match region_id_in(body, id) {
                        Some(v) => {
                            id = v;
                        },
                        None => {
                            return Err(Error::Other(Cause::Malformed));
                        },
                    }
                },
                _ => {
                    return Err(Error::Other(Cause::Malformed));
                },
            }
        }
        pos = raw.next;
    }
    Ok(id)
}

} // verus!
