//! The identifiers of snapshots, and the file names that carry them.
use vstd::prelude::*;
use crate::error::{Cause, Error};
use crate::paths::{file_name_of, path_file_name};
use crate::text::{decimal, file_stem, find_char, find_from, numeric_fields, numbers_after_prefix, numbers_after_prefix_of, push_decimal, to_chars};

verus! {

/// One snapshot generation of one region.
#[derive(Clone, Copy, Hash, PartialEq, Eq, PartialOrd, Ord, Debug, Structural)]
pub struct SnapKey {
    pub region_id: u64,
    pub term: u64,
    pub idx: u64,
}

/// The log position that a replication snapshot was taken at.
#[derive(Clone, Copy, PartialEq, Eq, Debug, Structural)]
pub struct SnapshotMetadata {
    pub index: u64,
    pub term: u64,
}

/// A snapshot as the replication hands it over: its data, and where in the
/// log it was taken.
#[derive(Clone, PartialEq, Eq, Debug)]
pub struct RaftSnapshot {
    pub data: Vec<u8>,
    pub metadata: SnapshotMetadata,
}

/// Three numbers, joined by underscores.
pub open spec fn joined3(a: u64, b: u64, c: u64) -> Seq<char> {
    decimal(a as nat) + seq!['_'] + decimal(b as nat) + seq!['_'] + decimal(c as nat)
}

impl SnapKey {
    pub fn new(region_id: u64, term: u64, idx: u64) -> (key: SnapKey)
        ensures
            key == (SnapKey { region_id, term, idx }),
    {
        SnapKey { region_id, term, idx }
    }

    /// The key of the snapshot that region `region_id` took at the given log position.
    pub fn from_region_snap(region_id: u64, snap: &SnapshotMetadata) -> (key: SnapKey)
        ensures
            key == (SnapKey { region_id, term: snap.term, idx: snap.index }),
    {
        SnapKey::new(region_id, snap.term, snap.index)
    }

    /// The key of a snapshot as the replication hands it over: the region is
    /// the one that the data of the snapshot names. Data that does not decode
    /// gives no key.
    pub fn from_snap(snap: &RaftSnapshot) -> (key: Result<SnapKey, Error>)
        ensures
            match crate::meta_codec::snapshot_region_id(snap.data@) {
                Some(region_id) => key == Ok::<SnapKey, Error>(
                    SnapKey { region_id, term: snap.metadata.term, idx: snap.metadata.index },
                ),
                None => key == Err::<SnapKey, Error>(Error::Other(Cause::Malformed)),
            },
    {
        let region_id = crate::meta_codec::region_id_of_snapshot_data(snap.data.as_slice())?;
        Ok(SnapKey::from_region_snap(region_id, &snap.metadata))
    }

    /// The canonical form of the key, as file names hold it: region, term and
    /// index in decimal, joined by underscores.
    pub open spec fn spec_to_string(&self) -> Seq<char> {
        joined3(self.region_id, self.term, self.idx)
    }

    pub fn to_string(&self) -> (s: String)
        ensures
            s@ == self.spec_to_string(),
    {
        proof {
            reveal_strlit("_");
        }
        let mut s = String::new();
        push_decimal(&mut s, self.region_id);
        s.append("_");
        push_decimal(&mut s, self.term);
        s.append("_");
        push_decimal(&mut s, self.idx);
        assert(s@ =~= self.spec_to_string());
        s
    }

    /// The key that a file name carries: of the name up to its first dot, the
    /// fields behind the first are read, and the first three that are numbers
    /// make the key. With fewer than three there is none.
    pub open spec fn of_file_name(name: Seq<char>) -> Option<SnapKey> {
        let n = numbers_after_prefix(file_stem(name));
        if n.len() >= 3 {
            Some(SnapKey { region_id: n[0], term: n[1], idx: n[2] })
        } else {
            None
        }
    }

    pub fn from_file_name(name: &str) -> (key: Option<SnapKey>)
        ensures
            key == SnapKey::of_file_name(name@),
    {
        let chars = to_chars(name);
        let dot: usize = find_char(&chars, '.', 0, chars.len());
        assert(chars@.take(chars.len() as int) =~= chars@);
        let numbers = numbers_after_prefix_of(&chars, dot);
        if numbers.len() >= 3 {
            Some(SnapKey::new(numbers[0], numbers[1], numbers[2]))
        } else {
            None
        }
    }

    /// The order of keys: by region, then term, then index.
    pub open spec fn spec_lt(&self, other: &SnapKey) -> bool {
        self.region_id < other.region_id || (self.region_id == other.region_id && (self.term
            < other.term || (self.term == other.term && self.idx < other.idx)))
    }

    pub fn precedes(&self, other: &SnapKey) -> (b: bool)
        ensures
            b == self.spec_lt(other),
    {
        self.region_id < other.region_id || (self.region_id == other.region_id && (self.term
            < other.term || (self.term == other.term && self.idx < other.idx)))
    }
}

/// One tablet snapshot: a snapshot generation of a region, made for one peer.
#[derive(Clone, Copy, Hash, PartialEq, Eq, PartialOrd, Ord, Debug, Structural)]
pub struct TabletSnapKey {
    pub region_id: u64,
    pub to_peer: u64,
    pub term: u64,
    pub idx: u64,
}

impl TabletSnapKey {
    pub fn new(region_id: u64, to_peer: u64, term: u64, idx: u64) -> (key: TabletSnapKey)
        ensures
            key == (TabletSnapKey { region_id, to_peer, term, idx }),
    {
        TabletSnapKey { region_id, to_peer, term, idx }
    }

    pub fn from_region_snap(region_id: u64, to_peer: u64, snap: &SnapshotMetadata) -> (key:
        TabletSnapKey)
        ensures
            key == (TabletSnapKey { region_id, to_peer, term: snap.term, idx: snap.index }),
    {
        TabletSnapKey::new(region_id, to_peer, snap.term, snap.index)
    }

    /// Region, peer, term and index in decimal, joined by underscores.
    pub open spec fn spec_to_string(&self) -> Seq<char> {
        decimal(self.region_id as nat) + seq!['_'] + joined3(self.to_peer, self.term, self.idx)
    }

    pub fn to_string(&self) -> (s: String)
        ensures
            s@ == self.spec_to_string(),
    {
        proof {
            reveal_strlit("_");
        }
        let mut s = String::new();
        push_decimal(&mut s, self.region_id);
        s.append("_");
        push_decimal(&mut s, self.to_peer);
        s.append("_");
        push_decimal(&mut s, self.term);
        s.append("_");
        push_decimal(&mut s, self.idx);
        assert(s@ =~= self.spec_to_string());
        s
    }

    /// The key that the name of a tablet snapshot's directory carries: the fields
    /// behind the first are read, over the whole name, and the first four that
    /// are numbers make the key.
    pub open spec fn of_file_name(name: Seq<char>) -> Option<TabletSnapKey> {
        let n = numbers_after_prefix(name);
        if n.len() >= 4 {
            Some(TabletSnapKey { region_id: n[0], to_peer: n[1], term: n[2], idx: n[3] })
        } else {
            None
        }
    }

    pub fn from_file_name(name: &str) -> (key: Result<TabletSnapKey, Error>)
        ensures
            match TabletSnapKey::of_file_name(name@) {
                Some(k) => key == Ok::<TabletSnapKey, Error>(k),
                None => key == Err::<TabletSnapKey, Error>(Error::Other(Cause::InvalidFileName)),
            },
    {
        let chars = to_chars(name);
        assert(chars@.take(chars.len() as int) =~= chars@);
        let numbers = numbers_after_prefix_of(&chars, chars.len());
        if numbers.len() >= 4 {
            Ok(TabletSnapKey::new(numbers[0], numbers[1], numbers[2], numbers[3]))
        } else {
            Err(Error::Other(Cause::InvalidFileName))
        }
    }

    /// The key that a path's last component carries. A path without a last
    /// component carries none.
    pub fn from_path(path: &str) -> (key: Result<TabletSnapKey, Error>)
        ensures
            match path_file_name(path@) {
                Some(name) => match TabletSnapKey::of_file_name(name) {
                    Some(k) => key == Ok::<TabletSnapKey, Error>(k),
                    None => key == Err::<TabletSnapKey, Error>(
                        Error::Other(Cause::InvalidFileName),
                    ),
                },
                None => key == Err::<TabletSnapKey, Error>(Error::Other(Cause::InvalidFileName)),
            },
    {
        match file_name_of(path) {
            Some(name) => TabletSnapKey::from_file_name(name.as_str()),
            None => Err(Error::Other(Cause::InvalidFileName)),
        }
    }
}


/// A name made of a prefix, an underscore and numerals joined by underscores,
/// in which the numeral that starts at `from` is for `n` and reaches to `end`,
/// where the name ends or goes on with an underscore.
spec fn numeral_at(s: Seq<char>, from: int, end: int, n: u64) -> bool {
    &&& 0 <= from <= end <= s.len()
    &&& s.subrange(from, end) == decimal(n as nat)
    &&& end < s.len() ==> s[end] == '_'
}

proof fn lemma_numeral_at(s: Seq<char>, from: int, end: int, n: u64)
    requires
        numeral_at(s, from, end, n),
    ensures
        numeric_fields(s, from).len() >= 1,
        numeric_fields(s, from)[0] == n,
        end < s.len() ==> numeric_fields(s, from) == seq![n] + numeric_fields(s, end + 1),
{
    let d = decimal(n as nat);
    crate::text::lemma_decimal_chars(n as nat);
    crate::text::lemma_parse_decimal(n);
    assert forall|i: int| from <= i < end implies s[i] != '_' by {
        assert(s[i] == s.subrange(from, end)[i - from]);
        assert(d[i - from] != '_');
    }
    crate::text::lemma_numeric_field(s, from, end, n);
}

/// Parsing undoes display. A file name that is made of a prefix without
/// underscore or dot, an underscore, and the displayed key, and that ends there or
/// goes on with an underscore or a dot, carries that key.
pub proof fn lemma_snap_key_roundtrip(prefix: Seq<char>, key: SnapKey, rest: Seq<char>)
    requires
        forall|i: int| 0 <= i < prefix.len() ==> prefix[i] != '_' && prefix[i] != '.',
        rest.len() == 0 || rest[0] == '_' || rest[0] == '.',
    ensures
        SnapKey::of_file_name(prefix + seq!['_'] + key.spec_to_string() + rest) == Some(key),
{
    let a = decimal(key.region_id as nat);
    let b = decimal(key.term as nat);
    let c = decimal(key.idx as nat);
    let name = prefix + seq!['_'] + key.spec_to_string() + rest;
    let a0: int = prefix.len() as int + 1;
    let a1: int = a0 + a.len();
    let b0: int = a1 + 1;
    let b1: int = b0 + b.len();
    let c0: int = b1 + 1;
    let c1: int = c0 + c.len();
    crate::text::lemma_decimal_chars(key.region_id as nat);
    crate::text::lemma_decimal_chars(key.term as nat);
    crate::text::lemma_decimal_chars(key.idx as nat);
    assert(name =~= prefix + seq!['_'] + a + seq!['_'] + b + seq!['_'] + c + rest);
    assert(name.len() == c1 + rest.len());
    assert(name.subrange(a0, a1) =~= a);
    assert(name.subrange(b0, b1) =~= b);
    assert(name.subrange(c0, c1) =~= c);
    assert(name[prefix.len() as int] == '_');
    assert(name[a1] == '_');
    assert(name[b1] == '_');
    assert forall|i: int| 0 <= i < c1 implies name[i] != '.' by {
        if i < prefix.len() {
            assert(name[i] == prefix[i]);
        } else if a0 <= i < a1 {
            assert(name[i] == a[i - a0]);
        } else if b0 <= i < b1 {
            assert(name[i] == b[i - b0]);
        } else if c0 <= i < c1 {
            assert(name[i] == c[i - c0]);
        }
    }
    let dot = find_from(name, '.', 0);
    crate::text::lemma_find_from(name, '.', 0);
    assert(dot >= c1) by {
        if dot < c1 {
            assert(name[dot] == '.');
        }
    }
    if rest.len() > 0 {
        assert(name[c1] == rest[0]);
        if rest[0] == '.' {
            crate::text::lemma_find_from_is(name, '.', 0, c1);
        }
    }
    let t = file_stem(name);
    assert(t.len() == dot);
    assert(dot > c1 ==> t[c1] == '_');
    assert(t.subrange(a0, a1) =~= a);
    assert(t.subrange(b0, b1) =~= b);
    assert(t.subrange(c0, c1) =~= c);
    assert forall|i: int| 0 <= i < prefix.len() implies t[i] != '_' by {
        assert(t[i] == prefix[i]);
    }
    crate::text::lemma_find_from_is(t, '_', 0, prefix.len() as int);
    lemma_numeral_at(t, a0, a1, key.region_id);
    lemma_numeral_at(t, b0, b1, key.term);
    lemma_numeral_at(t, c0, c1, key.idx);
    let n = numbers_after_prefix(t);
    assert(n == numeric_fields(t, a0));
    assert(n == seq![key.region_id] + (seq![key.term] + numeric_fields(t, c0)));
}

/// Parsing undoes display for tablet keys: a name made of a prefix without
/// underscore, an underscore and the displayed key, which ends there or goes on
/// with an underscore, carries that key.
pub proof fn lemma_tablet_key_roundtrip(prefix: Seq<char>, key: TabletSnapKey, rest: Seq<char>)
    requires
        forall|i: int| 0 <= i < prefix.len() ==> prefix[i] != '_',
        rest.len() == 0 || rest[0] == '_',
    ensures
        TabletSnapKey::of_file_name(prefix + seq!['_'] + key.spec_to_string() + rest) == Some(
            key,
        ),
{
    let a = decimal(key.region_id as nat);
    let p = decimal(key.to_peer as nat);
    let b = decimal(key.term as nat);
    let c = decimal(key.idx as nat);
    let t = prefix + seq!['_'] + key.spec_to_string() + rest;
    let a0: int = prefix.len() as int + 1;
    let a1: int = a0 + a.len();
    let q0: int = a1 + 1;
    let q1: int = q0 + p.len();
    let b0: int = q1 + 1;
    let b1: int = b0 + b.len();
    let c0: int = b1 + 1;
    let c1: int = c0 + c.len();
    assert(t =~= prefix + seq!['_'] + a + seq!['_'] + p + seq!['_'] + b + seq!['_'] + c + rest);
    assert(t.len() == c1 + rest.len());
    assert(t.subrange(a0, a1) =~= a);
    assert(t.subrange(q0, q1) =~= p);
    assert(t.subrange(b0, b1) =~= b);
    assert(t.subrange(c0, c1) =~= c);
    assert(t[prefix.len() as int] == '_');
    assert(t[a1] == '_');
    assert(t[q1] == '_');
    assert(t[b1] == '_');
    if rest.len() > 0 {
        assert(t[c1] == rest[0]);
    }
    assert forall|i: int| 0 <= i < prefix.len() implies t[i] != '_' by {
        assert(t[i] == prefix[i]);
    }
    crate::text::lemma_find_from_is(t, '_', 0, prefix.len() as int);
    lemma_numeral_at(t, a0, a1, key.region_id);
    lemma_numeral_at(t, q0, q1, key.to_peer);
    lemma_numeral_at(t, b0, b1, key.term);
    lemma_numeral_at(t, c0, c1, key.idx);
    let n = numbers_after_prefix(t);
    assert(n == numeric_fields(t, a0));
    assert(n == seq![key.region_id] + (seq![key.to_peer] + (seq![key.term] + numeric_fields(
        t,
        c0,
    ))));
}

} // verus!
