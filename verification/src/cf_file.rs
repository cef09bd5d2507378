//! The files of one column family in a snapshot: how they are named, and the
//! size and checksum recorded for each.
use vstd::prelude::*;
use crate::paths::{join_path, joined_path};
use crate::text::{decimal, lemma_decimal_len, push_decimal};

verus! {

/// What is appended to the name of a file that is still being written.
pub const TMP_FILE_SUFFIX: &'static str = ".tmp";

/// What the names of data files end in.
pub const SST_FILE_SUFFIX: &'static str = ".sst";

/// What is appended to the name of the copy that is handed to the engine.
pub const CLONE_FILE_SUFFIX: &'static str = ".clone";

/// What the name of the metadata file ends in.
pub const META_FILE_SUFFIX: &'static str = ".meta";

/// `n` in decimal, with zeros in front up to four digits.
pub open spec fn padded4(n: nat) -> Seq<char> {
    let d = decimal(n);
    if d.len() >= 4 {
        d
    } else {
        Seq::new((4 - d.len()) as nat, |i: int| '0') + d
    }
}

/// The name of chunk `id`: the first chunk has prefix and suffix alone, each
/// later one has its number between them.
pub open spec fn chunk_file_name(prefix: Seq<char>, id: nat, suffix: Seq<char>) -> Seq<char> {
    if id == 0 {
        prefix + suffix
    } else {
        prefix + seq!['_'] + padded4(id) + suffix
    }
}

/// The column family's files as a mathematical value.
pub struct CfFileView {
    pub cf: Seq<char>,
    pub path: Seq<char>,
    pub file_prefix: Seq<char>,
    pub file_suffix: Seq<char>,
    pub kv_count: u64,
    pub size: Seq<u64>,
    pub checksum: Seq<u32>,
}

impl CfFileView {
    /// Each chunk has a size and a checksum.
    pub open spec fn wf(self) -> bool {
        self.size.len() == self.checksum.len()
    }

    pub open spec fn file_name(self, id: nat) -> Seq<char> {
        chunk_file_name(self.file_prefix, id, self.file_suffix)
    }

    pub open spec fn tmp_file_name(self, id: nat) -> Seq<char> {
        self.file_name(id) + TMP_FILE_SUFFIX@
    }

    pub open spec fn clone_file_name(self, id: nat) -> Seq<char> {
        self.file_name(id) + CLONE_FILE_SUFFIX@
    }

    /// The paths of the chunks, in order.
    pub open spec fn file_paths(self) -> Seq<Seq<char>> {
        Seq::new(self.size.len(), |i: int| joined_path(self.path, self.file_name(i as nat)))
    }

    pub open spec fn tmp_file_paths(self) -> Seq<Seq<char>> {
        Seq::new(self.size.len(), |i: int| joined_path(self.path, self.tmp_file_name(i as nat)))
    }

    pub open spec fn clone_file_paths(self) -> Seq<Seq<char>> {
        Seq::new(
            self.size.len(),
            |i: int| joined_path(self.path, self.clone_file_name(i as nat)),
        )
    }

    /// The files with size and checksum of chunk `idx` set: a new last chunk
    /// where `idx` is the number of chunks, the chunk overwritten where it is less.
    pub open spec fn upsert(self, idx: int, size: u64, checksum: u32) -> CfFileView {
        if idx < self.size.len() {
            CfFileView {
                size: self.size.update(idx, size),
                checksum: self.checksum.update(idx, checksum),
                ..self
            }
        } else {
            CfFileView {
                size: self.size.push(size),
                checksum: self.checksum.push(checksum),
                ..self
            }
        }
    }

    /// The bytes of all chunks together.
    pub open spec fn total_size(self) -> nat {
        sum_u64(self.size)
    }
}

/// The sum of a sequence of sizes.
pub open spec fn sum_u64(s: Seq<u64>) -> nat
    decreases s.len(),
{
    if s.len() == 0 {
        0
    } else {
        sum_u64(s.drop_last()) + s.last() as nat
    }
}

/// The files of one column family.
#[derive(Debug)]
pub struct CfFile {
    cf: String,
    path: String,
    file_prefix: String,
    file_suffix: String,
    file_names: Vec<String>,
    kv_count: u64,
    size: Vec<u64>,
    checksum: Vec<u32>,
}

impl View for CfFile {
    type V = CfFileView;

    closed spec fn view(&self) -> CfFileView {
        CfFileView {
            cf: self.cf@,
            path: self.path@,
            file_prefix: self.file_prefix@,
            file_suffix: self.file_suffix@,
            kv_count: self.kv_count,
            size: self.size@,
            checksum: self.checksum@,
        }
    }
}

impl CfFile {
    /// The recorded name of every chunk is the one that its number gives.
    pub closed spec fn names_wf(&self) -> bool {
        &&& self.file_names@.len() == self.size@.len()
        &&& forall|i: int|
            0 <= i < self.file_names@.len() ==> (#[trigger] self.file_names@[i])@
                == self@.file_name(i as nat)
    }

    /// The three lists of chunks have one length, and the names are in step.
    pub open spec fn wf(&self) -> bool {
        self@.wf() && self.names_wf()
    }

    pub fn new(cf: &str, path: String, file_prefix: String, file_suffix: String) -> (f: CfFile)
        ensures
            f.wf(),
            f@ == (CfFileView {
                cf: cf@,
                path: path@,
                file_prefix: file_prefix@,
                file_suffix: file_suffix@,
                kv_count: 0,
                size: Seq::empty(),
                checksum: Seq::empty(),
            }),
    {
        CfFile {
            cf: String::from_str(cf),
            path,
            file_prefix,
            file_suffix,
            file_names: Vec::new(),
            kv_count: 0,
            size: Vec::new(),
            checksum: Vec::new(),
        }
    }

    pub fn cf(&self) -> (r: &str)
        ensures
            r@ == self@.cf,
    {
        self.cf.as_str()
    }

    pub fn path(&self) -> (r: &str)
        ensures
            r@ == self@.path,
    {
        self.path.as_str()
    }

    pub fn file_prefix(&self) -> (r: &str)
        ensures
            r@ == self@.file_prefix,
    {
        self.file_prefix.as_str()
    }

    pub fn file_suffix(&self) -> (r: &str)
        ensures
            r@ == self@.file_suffix,
    {
        self.file_suffix.as_str()
    }

    pub fn kv_count(&self) -> (r: u64)
        ensures
            r == self@.kv_count,
    {
        self.kv_count
    }

    pub fn set_kv_count(&mut self, kv_count: u64)
        requires
            old(self).wf(),
        ensures
            final(self).wf(),
            final(self)@ == (CfFileView { kv_count, ..old(self)@ }),
    {
        self.kv_count = kv_count;
        assert forall|i: int| 0 <= i < self.file_names@.len() implies (
        #[trigger] self.file_names@[i])@ == self@.file_name(i as nat) by {
            assert(old(self).file_names@[i]@ == old(self)@.file_name(i as nat));
        }
    }

    pub fn size(&self) -> (r: &Vec<u64>)
        ensures
            r@ == self@.size,
    {
        &self.size
    }

    pub fn checksum(&self) -> (r: &Vec<u32>)
        ensures
            r@ == self@.checksum,
    {
        &self.checksum
    }

    fn push_file_name(&self, out: &mut String, file_id: usize)
        ensures
            final(out)@ == old(out)@ + self@.file_name(file_id as nat),
    {
        out.append(self.file_prefix.as_str());
        if file_id != 0 {
            proof {
                reveal_strlit("_");
                reveal_strlit("0");
                reveal_strlit("00");
                reveal_strlit("000");
                lemma_decimal_len(file_id as nat);
            }
            out.append("_");
            let ghost before = out@;
            if file_id < 10 {
                out.append("000");
            } else if file_id < 100 {
                out.append("00");
            } else if file_id < 1000 {
                out.append("0");
            }
            assert(out@ =~= before + Seq::new(
                (4 - decimal(file_id as nat).len()) as nat,
                |i: int| '0',
            ) || (decimal(file_id as nat).len() >= 4 && out@ == before));
            push_decimal(out, file_id as u64);
            assert(out@ =~= before + padded4(file_id as nat));
        }
        out.append(self.file_suffix.as_str());
        assert(final(out)@ =~= old(out)@ + self@.file_name(file_id as nat));
    }

    /// The name of chunk `file_id`.
    pub fn gen_file_name(&self, file_id: usize) -> (name: String)
        ensures
            name@ == self@.file_name(file_id as nat),
    {
        let mut name = String::new();
        self.push_file_name(&mut name, file_id);
        assert(name@ =~= self@.file_name(file_id as nat));
        name
    }

    /// The name of the copy of chunk `file_id` that the engine is given.
    pub fn gen_clone_file_name(&self, file_id: usize) -> (name: String)
        ensures
            name@ == self@.clone_file_name(file_id as nat),
    {
        let mut name = self.gen_file_name(file_id);
        name.append(CLONE_FILE_SUFFIX);
        name
    }

    /// The name of chunk `file_id` while it is being written.
    pub fn gen_tmp_file_name(&self, file_id: usize) -> (name: String)
        ensures
            name@ == self@.tmp_file_name(file_id as nat),
    {
        let mut name = self.gen_file_name(file_id);
        name.append(TMP_FILE_SUFFIX);
        name
    }

    /// The paths of the chunks.
    pub fn file_paths(&self) -> (paths: Vec<String>)
        requires
            self.wf(),
        ensures
            paths.deep_view() == self@.file_paths(),
    {
        let mut paths: Vec<String> = Vec::new();
        let n: usize = self.file_names.len();
        let mut i: usize = 0;
        while i < n
            invariant
                self.wf(),
                n == self.file_names@.len(),
                i <= n,
                paths@.len() == i,
                forall|j: int| 0 <= j < i ==> (#[trigger] paths@[j])@ == self@.file_paths()[j],
            decreases n - i,
        {
            let p = join_path(self.path.as_str(), self.file_names[i].as_str());
            paths.push(p);
            i += 1;
        }
        assert(paths.deep_view() =~= self@.file_paths());
        paths
    }

    /// The paths of the chunks while they are being written.
    pub fn tmp_file_paths(&self) -> (paths: Vec<String>)
        requires
            self.wf(),
        ensures
            paths.deep_view() == self@.tmp_file_paths(),
    {
        let mut paths: Vec<String> = Vec::new();
        let n: usize = self.file_names.len();
        let mut i: usize = 0;
        while i < n
            invariant
                self.wf(),
                n == self.file_names@.len(),
                i <= n,
                paths@.len() == i,
                forall|j: int|
                    0 <= j < i ==> (#[trigger] paths@[j])@ == self@.tmp_file_paths()[j],
            decreases n - i,
        {
            let mut name = self.file_names[i].clone();
            name.append(TMP_FILE_SUFFIX);
            let p = join_path(self.path.as_str(), name.as_str());
            paths.push(p);
            i += 1;
        }
        assert(paths.deep_view() =~= self@.tmp_file_paths());
        paths
    }

    /// The paths of the copies that the engine is given.
    pub fn clone_file_paths(&self) -> (paths: Vec<String>)
        requires
            self.wf(),
        ensures
            paths.deep_view() == self@.clone_file_paths(),
    {
        let mut paths: Vec<String> = Vec::new();
        let n: usize = self.file_names.len();
        let mut i: usize = 0;
        while i < n
            invariant
                self.wf(),
                n == self.file_names@.len(),
                i <= n,
                paths@.len() == i,
                forall|j: int|
                    0 <= j < i ==> (#[trigger] paths@[j])@ == self@.clone_file_paths()[j],
            decreases n - i,
        {
            let mut name = self.file_names[i].clone();
            name.append(CLONE_FILE_SUFFIX);
            let p = join_path(self.path.as_str(), name.as_str());
            paths.push(p);
            i += 1;
        }
        assert(paths.deep_view() =~= self@.clone_file_paths());
        paths
    }

    /// The path of chunk `i`.
    pub fn file_path(&self, i: usize) -> (path: String)
        requires
            self.wf(),
            i < self@.size.len(),
        ensures
            path@ == self@.file_paths()[i as int],
    {
        join_path(self.path.as_str(), self.file_names[i].as_str())
    }

    /// The path of chunk `i` while it is being written.
    pub fn tmp_file_path(&self, i: usize) -> (path: String)
        requires
            self.wf(),
            i < self@.size.len(),
        ensures
            path@ == self@.tmp_file_paths()[i as int],
    {
        let mut name = self.file_names[i].clone();
        name.append(TMP_FILE_SUFFIX);
        join_path(self.path.as_str(), name.as_str())
    }

    /// The path of the copy of chunk `i` that the engine is given.
    pub fn clone_file_path(&self, i: usize) -> (path: String)
        requires
            self.wf(),
            i < self@.size.len(),
        ensures
            path@ == self@.clone_file_paths()[i as int],
    {
        let mut name = self.file_names[i].clone();
        name.append(CLONE_FILE_SUFFIX);
        join_path(self.path.as_str(), name.as_str())
    }

    /// Records chunk `idx` with no bytes yet, and gives its path.
    pub fn add_file(&mut self, idx: usize) -> (path: String)
        requires
            old(self).wf(),
            idx <= old(self)@.size.len(),
        ensures
            final(self).wf(),
            final(self)@ == old(self)@.upsert(idx as int, 0, 0),
            path@ == joined_path(old(self)@.path, old(self)@.file_name(idx as nat)),
    {
        self.add_file_with_size_checksum(idx, 0, 0)
    }

    /// Records size and checksum of chunk `idx`, which is a chunk already recorded
    /// or the next one, and gives its path.
    pub fn add_file_with_size_checksum(&mut self, idx: usize, size: u64, checksum: u32) -> (path:
        String)
        requires
            old(self).wf(),
            idx <= old(self)@.size.len(),
        ensures
            final(self).wf(),
            final(self)@ == old(self)@.upsert(idx as int, size, checksum),
            path@ == joined_path(old(self)@.path, old(self)@.file_name(idx as nat)),
    {
        let file_name = self.gen_file_name(idx);
        let path = join_path(self.path.as_str(), file_name.as_str());
        if self.size.len() > idx {
            self.size.set(idx, size);
            self.checksum.set(idx, checksum);
            self.file_names.set(idx, file_name);
        } else {
            self.size.push(size);
            self.checksum.push(checksum);
            self.file_names.push(file_name);
        }
        assert forall|i: int| 0 <= i < self.file_names@.len() implies (
        #[trigger] self.file_names@[i])@ == self@.file_name(i as nat) by {
            if i != idx {
                assert(self.file_names@[i] == old(self).file_names@[i]);
            }
        }
        path
    }
}

} // verus!
