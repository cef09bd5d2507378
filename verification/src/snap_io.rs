//! The contents of a snapshot's files: how keys and values are laid out in a
//! plain file, how the data of a column family is split into files, and how
//! what is read back is gathered into batches.
use vstd::prelude::*;
use crate::cf_file::{CfFile, CfFileView};
use crate::error::{Cause, Error};
use std::sync::atomic::{AtomicUsize, Ordering};

verus! {

/// The state of a job that waits to run.
pub const JOB_STATUS_PENDING: usize = 0;

/// The state of a job that runs.
pub const JOB_STATUS_RUNNING: usize = 1;

/// The state of a job that was told to stop.
pub const JOB_STATUS_CANCELLING: usize = 2;

/// Tells whether a procedure has become stale and is to stop.
pub trait StaleDetector {
    fn is_stale(&self) -> bool;
}

/// What a build has put into the files of one column family.
#[derive(Clone, Copy, Default, Debug, PartialEq, Eq, Structural)]
pub struct BuildStatistics {
    pub key_count: usize,
    pub total_size: usize,
}

/// Whether a job in state `status` goes on: it aborts where it was told to stop.
pub fn abort_status(status: usize) -> (r: Result<(), Error>)
    ensures
        r == if status == JOB_STATUS_CANCELLING {
            Err::<(), Error>(Error::Abort)
        } else {
            Ok::<(), Error>(())
        },
{
    if status == JOB_STATUS_CANCELLING {
        return Err(Error::Abort);
    }
    Ok(())
}

/// Reads the state of a job and aborts where the job was told to stop.
/// The state is shared with other threads, so each reading may differ.
pub fn check_abort(status: &AtomicUsize) -> (r: Result<(), Error>)
    ensures
        r is Err ==> r == Err::<(), Error>(Error::Abort),
{
    abort_status(status.load(Ordering::Relaxed))
}

/// A number in the variable-length form: seven bits to a byte, the low bits
/// first, each byte but the last marked by its high bit.
pub open spec fn varint(v: nat) -> Seq<u8>
    decreases v,
{
    if v < 128 {
        seq![v as u8]
    } else {
        seq![(v % 128 + 128) as u8] + varint(v / 128)
    }
}

/// Reads a number in the variable-length form at `pos`, of at most `left`
/// bytes: the number, and the place behind it.
pub open spec fn read_varint(data: Seq<u8>, pos: int, left: nat) -> Option<(nat, int)>
    decreases left,
{
    if left == 0 || pos < 0 || pos >= data.len() {
        None
    } else {
        let b = data[pos] as nat;
        if b < 128 {
            Some((b, pos + 1))
        } else {
            match read_varint(data, pos + 1, (left - 1) as nat) {
                Some((v, next)) => Some(((b - 128) as nat + 128 * v, next)),
                None => None,
            }
        }
    }
}

/// The longest variable-length form that is read.
pub const MAX_VARINT_LEN: usize = 10;

/// A string of bytes behind its length: the length is doubled, as the sign
/// takes the lowest bit, and written in the variable-length form.
pub open spec fn compact_bytes(data: Seq<u8>) -> Seq<u8> {
    varint(2 * data.len()) + data
}

/// Reads a string of bytes behind its length at `pos`: the string, and the
/// place behind it. A length that is negative, that does not fit 64 bits or
/// that reaches beyond the data is not read.
pub open spec fn read_compact_bytes(data: Seq<u8>, pos: int) -> Option<(Seq<u8>, int)> {
    match read_varint(data, pos, MAX_VARINT_LEN as nat) {
        Some((vx, next)) => if vx > u64::MAX || vx % 2 == 1 || next + vx / 2 > data.len() {
            None
        } else {
            Some((data.subrange(next, next + vx / 2), next + vx / 2))
        },
        None => None,
    }
}

/// A key and its value.
pub type Entry = (Vec<u8>, Vec<u8>);

/// A key and its value, as sequences.
pub open spec fn entry_view(e: Entry) -> (Seq<u8>, Seq<u8>) {
    (e.0@, e.1@)
}

/// The keys and values of a list, as sequences.
pub open spec fn entries_view(entries: Seq<Entry>) -> Seq<(Seq<u8>, Seq<u8>)> {
    entries.map_values(|e: Entry| entry_view(e))
}

/// Keys and values one after the other, each behind its length.
pub open spec fn plain_entries(entries: Seq<(Seq<u8>, Seq<u8>)>) -> Seq<u8>
    decreases entries.len(),
{
    if entries.len() == 0 {
        Seq::empty()
    } else {
        compact_bytes(entries[0].0) + compact_bytes(entries[0].1) + plain_entries(
            entries.drop_first(),
        )
    }
}

/// The body of a plain file: the keys and values, closed by an empty key.
pub open spec fn plain_file(entries: Seq<(Seq<u8>, Seq<u8>)>) -> Seq<u8> {
    plain_entries(entries) + compact_bytes(Seq::empty())
}

/// Reading moves forward.
pub proof fn lemma_read_varint_advances(data: Seq<u8>, pos: int, left: nat)
    ensures
        read_varint(data, pos, left) matches Some((v, next)) ==> pos < next <= data.len() && next
            <= pos + left,
    decreases left,
{
    if !(left == 0 || pos < 0 || pos >= data.len()) {
        if data[pos] >= 128 {
            lemma_read_varint_advances(data, pos + 1, (left - 1) as nat);
        }
    }
}

/// Reads the keys and values of a plain file from `pos` on, up to the empty
/// key that closes them. What follows that key is not looked at.
pub open spec fn read_plain_entries(data: Seq<u8>, pos: int) -> Option<Seq<(Seq<u8>, Seq<u8>)>>
    decreases data.len() - pos,
{
    match read_compact_bytes(data, pos) {
        None => None,
        Some((key, mid)) => if key.len() == 0 {
            Some(Seq::empty())
        } else {
            match read_compact_bytes(data, mid) {
                None => None,
                Some((value, end)) => {
                    proof {
                        lemma_read_varint_advances(data, pos, MAX_VARINT_LEN as nat);
                        lemma_read_varint_advances(data, mid, MAX_VARINT_LEN as nat);
                    }
                    match read_plain_entries(data, end) {
                        None => None,
                        Some(rest) => Some(seq![(key, value)] + rest),
                    }
                },
            }
        },
    }
}

/// How many bytes the variable-length form of `v` has.
pub proof fn lemma_varint_len(v: nat)
    ensures
        varint(v).len() >= 1,
        v <= u64::MAX ==> varint(v).len() <= 10,
{
    lemma_varint_len_bound(v, 10);
    assert(pow128(10) > u64::MAX) by {
        reveal_with_fuel(pow128, 11);
    }
}

proof fn lemma_varint_len_bound(v: nat, k: nat)
    requires
        k >= 1,
    ensures
        varint(v).len() >= 1,
        v < pow128(k) ==> varint(v).len() <= k,
    decreases v,
{
    reveal_with_fuel(pow128, 2);
    if v >= 128 {
        if k >= 2 {
            lemma_varint_len_bound(v / 128, (k - 1) as nat);
        } else {
            lemma_varint_len_bound(v / 128, 1);
        }
    }
}

/// 128 to the power `k`.
pub open spec fn pow128(k: nat) -> nat
    decreases k,
{
    if k == 0 {
        1
    } else {
        128 * pow128((k - 1) as nat)
    }
}


/// Appends `v` in the variable-length form.
pub fn push_varint(out: &mut Vec<u8>, v: u64)
    ensures
        final(out)@ == old(out)@ + varint(v as nat),
{
    let mut rest: u64 = v;
    let ghost start = out@;
    while rest >= 128
        invariant
            start == old(out)@,
            start + varint(v as nat) == out@ + varint(rest as nat),
        decreases rest,
    {
        let ghost before = out@;
        out.push((rest % 128 + 128) as u8);
        assert(before + varint(rest as nat) =~= out@ + varint((rest / 128) as nat));
        rest = rest / 128;
    }
    let ghost before = out@;
    out.push(rest as u8);
    assert(before + varint(rest as nat) =~= out@);
}

/// Appends `data` behind its length. A string of more than `i64::MAX` bytes
/// has no such form.
pub fn encode_compact_bytes(out: &mut Vec<u8>, data: &[u8]) -> (r: Result<(), Error>)
    ensures
        match r {
            Ok(()) => data@.len() <= i64::MAX && final(out)@ == old(out)@ + compact_bytes(data@),
            Err(e) => data@.len() > i64::MAX && e == Error::Other(Cause::Overflow) && final(out)@
                == old(out)@,
        },
{
    let len: usize = data.len();
    if len as u64 > 0x7fff_ffff_ffff_ffff {
        return Err(Error::Other(Cause::Overflow));
    }
    let ghost start = out@;
    push_varint(out, 2 * (len as u64));
    let mut i: usize = 0;
    while i < len
        invariant
            len == data@.len(),
            i <= len,
            out@ == start + varint(2 * data@.len()) + data@.take(i as int),
        decreases len - i,
    {
        out.push(data[i]);
        assert(data@.take(i + 1) =~= data@.take(i as int).push(data@[i as int]));
        i += 1;
    }
    assert(data@.take(len as int) =~= data@);
    Ok(())
}

/// Reads a number in the variable-length form at `pos`.
pub fn decode_varint(data: &[u8], pos: usize) -> (r: Option<(u128, usize)>)
    requires
        pos <= data@.len(),
    ensures
        match r {
            Some((v, next)) => read_varint(data@, pos as int, MAX_VARINT_LEN as nat) == Some(
                (v as nat, next as int),
            ) && v < 0x40_0000_0000_0000_0000 && pos < next <= data@.len(),
            None => read_varint(data@, pos as int, MAX_VARINT_LEN as nat) is None,
        },
{
    let ghost goal = read_varint(data@, pos as int, MAX_VARINT_LEN as nat);
    let mut v: u128 = 0;
    let mut mult: u128 = 1;
    let mut i: usize = 0;
    proof {
        reveal_with_fuel(pow128, 11);
        lemma_read_varint_advances(data@, pos as int, MAX_VARINT_LEN as nat);
    }
    while i < MAX_VARINT_LEN && i < data.len() - pos
        invariant
            pos <= data@.len(),
            i <= MAX_VARINT_LEN,
            i <= data@.len() - pos,
            mult == pow128(i as nat),
            v < mult,
            goal == read_varint(data@, pos as int, MAX_VARINT_LEN as nat),
            goal == match read_varint(data@, pos + i, (MAX_VARINT_LEN - i) as nat) {
                Some((w, next)) => Some((v as nat + mult as nat * w, next)),
                None => None,
            },
            goal matches Some((w, next)) ==> pos < next <= data@.len(),
        decreases MAX_VARINT_LEN - i,
    {
        let b: u8 = data[pos + i];
        proof {
            lemma_pow128_grows(i as nat, 9);
            assert(pow128(9) == 0x8000_0000_0000_0000) by {
                reveal_with_fuel(pow128, 10);
            }
            assert(pow128(10) == 0x40_0000_0000_0000_0000) by {
                reveal_with_fuel(pow128, 11);
            }
            assert(pow128(i as nat + 1) == 128 * pow128(i as nat));
        }
        if b < 128 {
            assert((b as nat) * (mult as nat) <= 127 * 0x8000_0000_0000_0000) by (nonlinear_arith)
                requires
                    b < 128,
                    mult <= 0x8000_0000_0000_0000,
            ;
            assert(v as nat + (b as nat) * (mult as nat) < 128 * (mult as nat)) by (nonlinear_arith)
                requires
                    b < 128,
                    v < mult,
            ;
            assert((mult as nat) * (b as nat) == (b as nat) * (mult as nat)) by (nonlinear_arith);
            v = v + (b as u128) * mult;
            proof {
                assert(goal == Some((v as nat, pos + i + 1)));
                lemma_pow128_grows(i as nat + 1, 10);
            }
            return Some((v, pos + i + 1));
        }
        let ghost rest = read_varint(data@, pos + i + 1, (MAX_VARINT_LEN - i - 1) as nat);
        proof {
            let low = (b - 128) as nat;
            assert(low * (mult as nat) <= 127 * 0x8000_0000_0000_0000) by (nonlinear_arith)
                requires
                    low < 128,
                    mult <= 0x8000_0000_0000_0000,
            ;
            assert(v as nat + low * (mult as nat) < 128 * (mult as nat)) by (nonlinear_arith)
                requires
                    low < 128,
                    v < mult,
            ;
            match rest {
                Some((w, next)) => {
                    assert(v as nat + mult as nat * (low + 128 * w) == (v as nat + low * mult as nat)
                        + (mult as nat * 128) * w) by (nonlinear_arith);
                },
                None => {},
            }
        }
        v = v + ((b - 128) as u128) * mult;
        mult = mult * 128;
        i += 1;
    }
    None
}

/// Powers of 128 grow.
proof fn lemma_pow128_grows(i: nat, j: nat)
    requires
        i <= j,
    ensures
        pow128(i) <= pow128(j),
        pow128(i) >= 1,
    decreases j,
{
    if i < j {
        lemma_pow128_grows(i, (j - 1) as nat);
    } else if i > 0 {
        lemma_pow128_grows((i - 1) as nat, (j - 1) as nat);
    }
}

/// Reads a string of bytes behind its length at `pos`: the string, and the
/// place behind it.
pub fn decode_compact_bytes(data: &[u8], pos: usize) -> (r: Result<(Vec<u8>, usize), Error>)
    requires
        pos <= data@.len(),
    ensures
        match read_compact_bytes(data@, pos as int) {
            Some((bytes, next)) => r matches Ok((b, n)) && b@ == bytes && n == next && pos < n
                <= data@.len(),
            None => r matches Err(e) && e == Error::Other(Cause::Malformed),
        },
{
    proof {
        assert(pow128(10) == 0x40_0000_0000_0000_0000) by {
            reveal_with_fuel(pow128, 11);
        }
    }
    match decode_varint(data, pos) {
        None => Err(Error::Other(Cause::Malformed)),
        Some((vx, next)) => {
            assert(read_varint(data@, pos as int, MAX_VARINT_LEN as nat) == Some(
                (vx as nat, next as int),
            ));
            if vx > 0xffff_ffff_ffff_ffff || vx % 2 == 1 {
                return Err(Error::Other(Cause::Malformed));
            }
            let len: u128 = vx / 2;
            if len > (data.len() - next) as u128 {
                return Err(Error::Other(Cause::Malformed));
            }
            let end: usize = next + len as usize;
            let mut bytes: Vec<u8> = Vec::new();
            let mut i: usize = next;
            while i < end
                invariant
                    next <= i <= end <= data@.len(),
                    bytes@ == data@.subrange(next as int, i as int),
                decreases end - i,
            {
                bytes.push(data[i]);
                assert(data@.subrange(next as int, i + 1) =~= data@.subrange(
                    next as int,
                    i as int,
                ).push(data@[i as int]));
                i += 1;
            }
            Ok((bytes, end))
        },
    }
}


/// Reading finds a number where its variable-length form stands.
pub proof fn lemma_read_varint_of(pre: Seq<u8>, v: nat, rest: Seq<u8>, left: nat)
    requires
        left >= varint(v).len(),
    ensures
        read_varint(pre + varint(v) + rest, pre.len() as int, left) == Some(
            (v, (pre.len() + varint(v).len()) as int),
        ),
    decreases v,
{
    let data = pre + varint(v) + rest;
    let pos = pre.len() as int;
    assert(data[pos] == varint(v)[0]);
    if v >= 128 {
        let first = seq![(v % 128 + 128) as u8];
        lemma_varint_len(v / 128);
        lemma_read_varint_of(pre + first, v / 128, rest, (left - 1) as nat);
        assert(data =~= (pre + first) + varint(v / 128) + rest);
    }
}

/// Reading finds a string of bytes where it stands behind its length.
pub proof fn lemma_read_compact_of(pre: Seq<u8>, bytes: Seq<u8>, rest: Seq<u8>)
    requires
        bytes.len() <= i64::MAX,
    ensures
        read_compact_bytes(pre + compact_bytes(bytes) + rest, pre.len() as int) == Some(
            (bytes, (pre.len() + compact_bytes(bytes).len()) as int),
        ),
{
    let v = 2 * bytes.len();
    let data = pre + compact_bytes(bytes) + rest;
    lemma_varint_len(v);
    lemma_read_varint_of(pre, v, bytes + rest, MAX_VARINT_LEN as nat);
    assert(data =~= pre + varint(v) + (bytes + rest));
    let next: int = pre.len() as int + varint(v).len();
    assert(data.subrange(next, next + bytes.len()) =~= bytes);
}

/// Whether every key is there and every key and value is short enough to be
/// written behind its length.
pub open spec fn writable(entries: Seq<(Seq<u8>, Seq<u8>)>) -> bool {
    forall|i: int|
        0 <= i < entries.len() ==> {
            let e = #[trigger] entries[i];
            0 < e.0.len() <= i64::MAX && e.1.len() <= i64::MAX
        }
}

/// Reading finds the keys and values where they stand, closed by an empty key.
pub proof fn lemma_read_plain_of(pre: Seq<u8>, entries: Seq<(Seq<u8>, Seq<u8>)>, rest: Seq<u8>)
    requires
        writable(entries),
    ensures
        read_plain_entries(pre + plain_file(entries) + rest, pre.len() as int) == Some(entries),
    decreases entries.len(),
{
    let data = pre + plain_file(entries) + rest;
    let pos = pre.len() as int;
    let stop = compact_bytes(Seq::empty());
    if entries.len() == 0 {
        lemma_read_compact_of(pre, Seq::empty(), rest);
        assert(data =~= pre + stop + rest);
    } else {
        let key = entries[0].0;
        let value = entries[0].1;
        let tail = entries.drop_first();
        let after = plain_entries(tail) + stop + rest;
        lemma_read_compact_of(pre, key, compact_bytes(value) + after);
        assert(data =~= pre + compact_bytes(key) + (compact_bytes(value) + after));
        let pre1 = pre + compact_bytes(key);
        lemma_read_compact_of(pre1, value, after);
        assert(data =~= pre1 + compact_bytes(value) + after);
        let pre2 = pre1 + compact_bytes(value);
        assert(writable(tail)) by {
            assert forall|i: int| 0 <= i < tail.len() implies {
                let e = #[trigger] tail[i];
                0 < e.0.len() <= i64::MAX && e.1.len() <= i64::MAX
            } by {
                assert(tail[i] == entries[i + 1]);
            }
        }
        lemma_read_plain_of(pre2, tail, rest);
        assert(data =~= pre2 + plain_file(tail) + rest);
        assert(seq![(key, value)] + tail =~= entries);
    }
}

/// What was written to a plain file is what is read from it.
pub proof fn lemma_plain_roundtrip(entries: Seq<(Seq<u8>, Seq<u8>)>)
    requires
        writable(entries),
    ensures
        read_plain_entries(plain_file(entries), 0) == Some(entries),
{
    lemma_read_plain_of(Seq::empty(), entries, Seq::empty());
    assert(Seq::<u8>::empty() + plain_file(entries) + Seq::<u8>::empty() =~= plain_file(entries));
}

/// One more key and value are written behind those that are there.
pub proof fn lemma_plain_entries_push(entries: Seq<(Seq<u8>, Seq<u8>)>, e: (Seq<u8>, Seq<u8>))
    ensures
        plain_entries(entries.push(e)) == plain_entries(entries) + compact_bytes(e.0)
            + compact_bytes(e.1),
    decreases entries.len(),
{
    if entries.len() == 0 {
        let one = entries.push(e);
        assert(one.drop_first() =~= Seq::<(Seq<u8>, Seq<u8>)>::empty());
        assert(one[0] == e);
        assert(plain_entries(one.drop_first()) =~= Seq::<u8>::empty());
        assert(plain_entries(one) =~= compact_bytes(e.0) + compact_bytes(e.1) + Seq::<u8>::empty());
        assert(plain_entries(one) =~= plain_entries(entries) + compact_bytes(e.0) + compact_bytes(
            e.1,
        ));
    } else {
        lemma_plain_entries_push(entries.drop_first(), e);
        assert(entries.push(e).drop_first() =~= entries.drop_first().push(e));
        assert(plain_entries(entries.push(e)) =~= plain_entries(entries) + compact_bytes(e.0)
            + compact_bytes(e.1));
    }
}

/// The bytes of the first `n` keys and values.
pub open spec fn entries_size(entries: Seq<(Seq<u8>, Seq<u8>)>, n: int) -> nat
    decreases n,
{
    if n <= 0 {
        0
    } else {
        entries_size(entries, n - 1) + entries[n - 1].0.len() + entries[n - 1].1.len()
    }
}

/// More keys and values do not have fewer bytes.
pub proof fn lemma_entries_size_grows(entries: Seq<(Seq<u8>, Seq<u8>)>, i: int, j: int)
    requires
        0 <= i <= j,
    ensures
        entries_size(entries, i) <= entries_size(entries, j),
    decreases j - i,
{
    if i < j {
        lemma_entries_size_grows(entries, i, j - 1);
    }
}

/// Whether a plain file can be made of the entries: their bytes are counted in
/// a `usize`, and each key and value is short enough to stand behind its length.
pub open spec fn plain_buildable(entries: Seq<(Seq<u8>, Seq<u8>)>) -> bool {
    &&& entries_size(entries, entries.len() as int) <= usize::MAX
    &&& forall|i: int|
        0 <= i < entries.len() ==> (#[trigger] entries[i]).0.len() <= i64::MAX
            && entries[i].1.len() <= i64::MAX
}

/// Makes the plain file of a column family from the keys and values that a scan
/// gave: where there are any, the body of the file, which is then recorded as
/// the first chunk; where there are none, no file.
pub fn build_plain_cf_file(cf_file: &mut CfFile, entries: &Vec<Entry>) -> (r: Result<
    (BuildStatistics, Vec<u8>),
    Error,
>)
    requires
        old(cf_file).wf(),
    ensures
        final(cf_file).wf(),
        plain_buildable(entries_view(entries@)) <==> r is Ok,
        match r {
            Ok((stats, body)) => {
                &&& stats.key_count == entries@.len()
                &&& stats.total_size == entries_size(
                    entries_view(entries@),
                    entries@.len() as int,
                )
                &&& if entries@.len() > 0 {
                    &&& body@ == plain_file(entries_view(entries@))
                    &&& final(cf_file)@ == old(cf_file)@.upsert(0, 0, 0)
                } else {
                    &&& body@.len() == 0
                    &&& final(cf_file)@ == old(cf_file)@
                }
            },
            Err(e) => e == Error::Other(Cause::Overflow) && final(cf_file)@ == old(cf_file)@,
        },
{
    let ghost es = entries_view(entries@);
    let mut body: Vec<u8> = Vec::new();
    let mut total_size: usize = 0;
    let mut i: usize = 0;
    while i < entries.len()
        invariant
            i <= entries@.len(),
            es == entries_view(entries@),
            total_size == entries_size(es, i as int),
            body@ == plain_entries(es.take(i as int)),
            forall|j: int|
                0 <= j < i ==> (#[trigger] es[j]).0.len() <= i64::MAX && es[j].1.len() <= i64::MAX,
            *cf_file == *old(cf_file),
            cf_file.wf(),
        decreases entries@.len() - i,
    {
        let key = &entries[i].0;
        let value = &entries[i].1;
        assert(es[i as int] == (key@, value@));
        proof {
            lemma_entries_size_grows(es, i as int + 1, es.len() as int);
        }
        if key.len() > usize::MAX - total_size {
            return Err(Error::Other(Cause::Overflow));
        }
        if value.len() > usize::MAX - total_size - key.len() {
            return Err(Error::Other(Cause::Overflow));
        }
        total_size = total_size + key.len() + value.len();
        match encode_compact_bytes(&mut body, key.as_slice()) {
            Ok(()) => {},
            Err(e) => {
                return Err(e);
            },
        }
        match encode_compact_bytes(&mut body, value.as_slice()) {
            Ok(()) => {},
            Err(e) => {
                return Err(e);
            },
        }
        proof {
            lemma_plain_entries_push(es.take(i as int), es[i as int]);
            assert(es.take(i + 1) =~= es.take(i as int).push(es[i as int]));
        }
        i += 1;
    }
    assert(es.take(i as int) =~= es);
    let stats = BuildStatistics { key_count: entries.len(), total_size };
    if entries.len() > 0 {
        let _ = cf_file.add_file(0);
        let empty: Vec<u8> = Vec::new();
        let _ = encode_compact_bytes(&mut body, empty.as_slice());
        assert(empty@ =~= Seq::<u8>::empty());
    }
    Ok((stats, body))
}

/// Reads the next key and value of a plain file at `pos`, unless the job is
/// stale: the key with its value and the place behind them, or nothing at the
/// empty key that closes the file.
pub fn next_plain_entry(data: &[u8], pos: usize, stale: bool) -> (r: Result<
    Option<(Entry, usize)>,
    Error,
>)
    requires
        pos <= data@.len(),
    ensures
        stale ==> (r matches Err(e) && e == Error::Abort),
        !stale ==> (match read_compact_bytes(data@, pos as int) {
            None => (r matches Err(e) && e == Error::Other(Cause::Malformed)),
            Some((key, mid)) => if key.len() == 0 {
                (r matches Ok(opt) && opt is None)
            } else {
                match read_compact_bytes(data@, mid) {
                    None => (r matches Err(e) && e == Error::Other(Cause::Malformed)),
                    Some((value, end)) => (r matches Ok(Some((e, next))) && e.0@ == key && e.1@
                        == value && next == end && pos < next <= data@.len()),
                }
            },
        }),
{
    if stale {
        return Err(Error::Abort);
    }
    let (key, mid) = decode_compact_bytes(data, pos)?;
    if key.len() == 0 {
        return Ok(None);
    }
    let (value, end) = decode_compact_bytes(data, mid)?;
    Ok(Some(((key, value), end)))
}


/// Keys and values on their way into the engine: those gathered for the next
/// write, and the size at which they are written out.
#[derive(Debug)]
pub struct ApplyBatch {
    batch: Vec<Entry>,
    data_size: usize,
    batch_size: usize,
}

pub struct ApplyBatchView {
    pub pending: Seq<(Seq<u8>, Seq<u8>)>,
    pub batch_size: nat,
}

impl View for ApplyBatch {
    type V = ApplyBatchView;

    closed spec fn view(&self) -> ApplyBatchView {
        ApplyBatchView { pending: entries_view(self.batch@), batch_size: self.batch_size as nat }
    }
}

/// The bytes of all keys and values of a list.
pub open spec fn all_size(entries: Seq<(Seq<u8>, Seq<u8>)>) -> nat {
    entries_size(entries, entries.len() as int)
}

impl ApplyBatch {
    /// What is gathered has not reached the size at which it is written out.
    pub closed spec fn wf(&self) -> bool {
        &&& self.data_size == all_size(self@.pending)
        &&& self@.pending.len() > 0 ==> self.data_size < self.batch_size
    }

    /// An empty batch that is written out once it holds `batch_size` bytes.
    pub fn new(batch_size: usize) -> (b: ApplyBatch)
        ensures
            b.wf(),
            b@ == (ApplyBatchView { pending: Seq::empty(), batch_size: batch_size as nat }),
    {
        let b = ApplyBatch { batch: Vec::new(), data_size: 0, batch_size };
        assert(b@.pending =~= Seq::empty());
        b
    }

    /// Adds a key and its value. Where the batch has then reached its size, it
    /// is handed out to be written, and a new one is begun.
    pub fn push(&mut self, key: Vec<u8>, value: Vec<u8>) -> (full: Option<Vec<Entry>>)
        requires
            old(self).wf(),
        ensures
            final(self).wf(),
            final(self)@.batch_size == old(self)@.batch_size,
            ({
                let grown = old(self)@.pending.push((key@, value@));
                if all_size(grown) >= old(self)@.batch_size {
                    &&& full matches Some(b)
                    &&& entries_view(b@) == grown
                    &&& final(self)@.pending.len() == 0
                } else {
                    &&& full is None
                    &&& final(self)@.pending == grown
                }
            }),
    {
        let ghost grown = self@.pending.push((key@, value@));
        let added: Option<usize> = match key.len().checked_add(value.len()) {
            Some(n) => self.data_size.checked_add(n),
            None => None,
        };
        self.batch.push((key, value));
        assert(entries_view(self.batch@) =~= grown);
        assert(grown.drop_last() =~= old(self)@.pending);
        proof {
            lemma_entries_size_same(grown, old(self)@.pending, old(self)@.pending.len() as int);
        }
        match added {
            Some(size) => {
                if size >= self.batch_size {
                    self.data_size = 0;
                    let mut full: Vec<Entry> = Vec::new();
                    core::mem::swap(&mut full, &mut self.batch);
                    assert(self@.pending =~= Seq::empty());
                    Some(full)
                } else {
                    self.data_size = size;
                    None
                }
            },
            None => {
                self.data_size = 0;
                let mut full: Vec<Entry> = Vec::new();
                core::mem::swap(&mut full, &mut self.batch);
                assert(self@.pending =~= Seq::empty());
                Some(full)
            },
        }
    }

    /// Hands out what is gathered, if anything is.
    pub fn finish(self) -> (rest: Option<Vec<Entry>>)
        requires
            self.wf(),
        ensures
            match rest {
                Some(b) => entries_view(b@) == self@.pending && self@.pending.len() > 0,
                None => self@.pending.len() == 0,
            },
    {
        if self.batch.len() > 0 {
            Some(self.batch)
        } else {
            None
        }
    }
}

/// Lists that agree on their first `n` entries have the same bytes in them.
pub proof fn lemma_entries_size_same(
    a: Seq<(Seq<u8>, Seq<u8>)>,
    b: Seq<(Seq<u8>, Seq<u8>)>,
    n: int,
)
    requires
        0 <= n <= a.len(),
        n <= b.len(),
        forall|i: int| 0 <= i < n ==> a[i] == b[i],
    ensures
        entries_size(a, n) == entries_size(b, n),
    decreases n,
{
    if n > 0 {
        lemma_entries_size_same(a, b, n - 1);
    }
}

/// Batches in the making: those that are closed, and the one that is open.
pub struct Batching {
    pub closed: Seq<Seq<(Seq<u8>, Seq<u8>)>>,
    pub open: Seq<(Seq<u8>, Seq<u8>)>,
}

/// The batches after the first `n` keys and values: each is added to the open
/// batch, which is closed as soon as it holds `batch_size` bytes.
pub open spec fn batching(entries: Seq<(Seq<u8>, Seq<u8>)>, batch_size: nat, n: int) -> Batching
    decreases n,
{
    if n <= 0 {
        Batching { closed: Seq::empty(), open: Seq::empty() }
    } else {
        let b = batching(entries, batch_size, n - 1);
        let grown = b.open.push(entries[n - 1]);
        if all_size(grown) >= batch_size {
            Batching { closed: b.closed.push(grown), open: Seq::empty() }
        } else {
            Batching { closed: b.closed, open: grown }
        }
    }
}

/// The batches in which keys and values are written to the engine.
pub open spec fn batches(entries: Seq<(Seq<u8>, Seq<u8>)>, batch_size: nat) -> Seq<
    Seq<(Seq<u8>, Seq<u8>)>,
> {
    let b = batching(entries, batch_size, entries.len() as int);
    if b.open.len() > 0 {
        b.closed.push(b.open)
    } else {
        b.closed
    }
}

/// The batches of a list, as sequences.
pub open spec fn batches_view(batches: Seq<Vec<Entry>>) -> Seq<Seq<(Seq<u8>, Seq<u8>)>> {
    batches.map_values(|b: Vec<Entry>| entries_view(b@))
}

/// Reads a plain file and gathers its keys and values into the batches in
/// which they are to be written to the engine. Before each key the detector
/// is asked; once it says that the job is stale, the reading aborts.
pub fn apply_plain_cf_file<D: StaleDetector>(data: &[u8], stale_detector: &D, batch_size: usize) -> (r:
    Result<Vec<Vec<Entry>>, Error>)
    ensures
        match r {
            Ok(bs) => read_plain_entries(data@, 0) matches Some(es) && batches_view(bs@)
                == batches(es, batch_size as nat),
            Err(e) => e == Error::Abort || (e == Error::Other(Cause::Malformed)
                && read_plain_entries(data@, 0) is None),
        },
{
    let mut out: Vec<Vec<Entry>> = Vec::new();
    let mut batch = ApplyBatch::new(batch_size);
    let mut pos: usize = 0;
    let ghost mut seen: Seq<(Seq<u8>, Seq<u8>)> = Seq::empty();
    loop
        invariant
            pos <= data@.len(),
            batch.wf(),
            batch@.batch_size == batch_size,
            read_plain_entries(data@, 0) == match read_plain_entries(data@, pos as int) {
                Some(rest) => Some(seen + rest),
                None => None,
            },
            batching(seen, batch_size as nat, seen.len() as int).closed == batches_view(out@),
            batching(seen, batch_size as nat, seen.len() as int).open == batch@.pending,
        decreases data@.len() - pos,
    {
        let stale = stale_detector.is_stale();
        match next_plain_entry(data, pos, stale) {
            Err(e) => {
                return Err(e);
            },
            Ok(None) => {
                assert(seen + Seq::<(Seq<u8>, Seq<u8>)>::empty() =~= seen);
                match batch.finish() {
                    Some(b) => {
                        let ghost before = batches_view(out@);
                        out.push(b);
                        assert(batches_view(out@) =~= before.push(entries_view(b@)));
                    },
                    None => {},
                }
                return Ok(out);
            },
            Ok(Some((entry, next))) => {
                let ghost e = (entry.0@, entry.1@);
                let ghost grown = seen.push(e);
                proof {
                    let rest = read_plain_entries(data@, next as int);
                    match rest {
                        Some(r) => {
                            assert(seen + (seq![e] + r) =~= grown + r);
                        },
                        None => {},
                    }
                    lemma_batching_same(grown, seen, batch_size as nat, seen.len() as int);
                    assert(grown[grown.len() - 1] == e);
                }
                let (key, value) = entry;
                match batch.push(key, value) {
                    Some(b) => {
                        let ghost before = batches_view(out@);
                        out.push(b);
                        assert(batches_view(out@) =~= before.push(entries_view(b@)));
                    },
                    None => {},
                }
                proof {
                    seen = grown;
                }
                pos = next;
            },
        }
    }
}

/// Lists that agree on their first `n` entries are batched alike that far.
pub proof fn lemma_batching_same(
    a: Seq<(Seq<u8>, Seq<u8>)>,
    b: Seq<(Seq<u8>, Seq<u8>)>,
    batch_size: nat,
    n: int,
)
    requires
        0 <= n <= a.len(),
        n <= b.len(),
        forall|i: int| 0 <= i < n ==> a[i] == b[i],
    ensures
        batching(a, batch_size, n) == batching(b, batch_size, n),
    decreases n,
{
    if n > 0 {
        lemma_batching_same(a, b, batch_size, n - 1);
    }
}


/// How far the data of a column family has been split into files.
pub struct SplitState {
    /// The number of the file that is being filled.
    pub file_id: nat,
    /// The bytes of keys and values in that file.
    pub file_length: nat,
    /// The bytes that the rate limiter has granted and that are not used yet.
    pub quota: nat,
    /// The keys so far.
    pub key_count: nat,
    /// The bytes of keys and values so far.
    pub total_size: nat,
}

/// The number of bytes that the rate limiter grants at a time, as a number.
pub open spec fn limiter_unit() -> nat {
    crate::stream::IO_LIMITER_CHUNK_SIZE as nat
}

/// How many units the rate limiter is asked for before an entry of `len`
/// bytes is written: as many as it takes for the quota to cover the entry.
pub open spec fn limiter_units(quota: nat, len: nat) -> nat {
    if len > quota {
        ((len - quota + limiter_unit() - 1) / (limiter_unit() as int)) as nat
    } else {
        0
    }
}

/// Whether an entry of `len` bytes goes to a new file: it does where it
/// would take the file that is being filled beyond the limit.
pub open spec fn starts_new_file(s: SplitState, len: nat, limit: nat) -> bool {
    s.file_length + len > limit
}

/// Places one entry of `len` bytes.
pub open spec fn split_step(s: SplitState, len: nat, limit: nat) -> SplitState {
    let new_file = starts_new_file(s, len, limit);
    SplitState {
        file_id: if new_file {
            s.file_id + 1
        } else {
            s.file_id
        },
        file_length: if new_file {
            len
        } else {
            s.file_length + len
        },
        quota: (s.quota + limiter_units(s.quota, len) * limiter_unit() - len) as nat,
        key_count: s.key_count + 1,
        total_size: s.total_size + len,
    }
}

/// Places the first `n` entries, whose sizes are `lens`, one after the other.
pub open spec fn split_run(lens: Seq<nat>, limit: nat, n: int) -> SplitState
    decreases n,
{
    if n <= 0 {
        SplitState { file_id: 0, file_length: 0, quota: 0, key_count: 0, total_size: 0 }
    } else {
        split_step(split_run(lens, limit, n - 1), lens[n - 1], limit)
    }
}

/// How many files hold the data: none where there is no key.
pub open spec fn file_count(s: SplitState) -> nat {
    if s.key_count > 0 {
        s.file_id + 1
    } else {
        0
    }
}

/// Where an entry goes.
#[derive(Clone, Copy, Debug, PartialEq, Eq, Structural)]
pub struct Placement {
    /// The number of the file that takes the entry.
    pub file_id: usize,
    /// Whether that file is begun with this entry, the one before it being complete.
    pub new_file: bool,
    /// How many units to ask the rate limiter for before the entry is written.
    pub limiter_units: usize,
}

/// Splits the data of one column family into files of bounded size, entry by entry.
#[derive(Debug)]
pub struct SstFileList {
    raw_size_per_file: u64,
    file_id: usize,
    file_length: usize,
    remained_quota: usize,
    stats: BuildStatistics,
}

impl View for SstFileList {
    type V = SplitState;

    closed spec fn view(&self) -> SplitState {
        SplitState {
            file_id: self.file_id as nat,
            file_length: self.file_length as nat,
            quota: self.remained_quota as nat,
            key_count: self.stats.key_count as nat,
            total_size: self.stats.total_size as nat,
        }
    }
}

impl SstFileList {
    pub closed spec fn limit(&self) -> nat {
        self.raw_size_per_file as nat
    }

    /// The quota is less than one unit, and the file that is being filled
    /// holds no more than was placed, nor has a higher number than there are keys.
    pub closed spec fn wf(&self) -> bool {
        &&& self.remained_quota < crate::stream::IO_LIMITER_CHUNK_SIZE
        &&& self.file_length <= self.stats.total_size
        &&& self.file_id <= self.stats.key_count < usize::MAX
    }

    /// Nothing placed yet; no file is to hold more than `raw_size_per_file` bytes
    /// of keys and values.
    pub fn new(raw_size_per_file: u64) -> (list: SstFileList)
        ensures
            list.wf(),
            list.limit() == raw_size_per_file,
            list@ == split_run(Seq::empty(), raw_size_per_file as nat, 0),
    {
        SstFileList {
            raw_size_per_file,
            file_id: 0,
            file_length: 0,
            remained_quota: 0,
            stats: BuildStatistics { key_count: 0, total_size: 0 },
        }
    }

    /// Places the next entry, a key of `key_len` bytes with a value of
    /// `value_len` bytes. The count of bytes must stay within `usize`, and that
    /// of keys below its largest value.
    pub fn add_entry(&mut self, key_len: usize, value_len: usize) -> (r: Result<Placement, Error>)
        requires
            old(self).wf(),
        ensures
            final(self).wf(),
            final(self).limit() == old(self).limit(),
            ({
                let len = (key_len + value_len) as nat;
                if old(self)@.total_size + len > usize::MAX || old(self)@.key_count + 1
                    >= usize::MAX {
                    &&& r == Err::<Placement, Error>(Error::Other(Cause::Overflow))
                    &&& final(self)@ == old(self)@
                } else {
                    &&& final(self)@ == split_step(old(self)@, len, old(self).limit())
                    &&& r == Ok::<Placement, Error>(
                        Placement {
                            file_id: final(self)@.file_id as usize,
                            new_file: starts_new_file(old(self)@, len, old(self).limit()),
                            limiter_units: limiter_units(old(self)@.quota, len) as usize,
                        },
                    )
                }
            }),
    {
        if value_len > usize::MAX - key_len {
            return Err(Error::Other(Cause::Overflow));
        }
        let entry_len: usize = key_len + value_len;
        if entry_len > usize::MAX - self.stats.total_size || self.stats.key_count >= usize::MAX
            - 1 {
            return Err(Error::Other(Cause::Overflow));
        }
        let new_file: bool = (self.file_length + entry_len) as u64 > self.raw_size_per_file;
        if new_file {
            self.file_length = 0;
            self.file_id += 1;
        }
        let unit: usize = crate::stream::IO_LIMITER_CHUNK_SIZE;
        let mut units: usize = 0;
        let ghost quota: int = self.remained_quota as int;
        if entry_len > self.remained_quota {
            let lack: usize = entry_len - self.remained_quota;
            units = lack / unit;
            let over: usize = lack % unit;
            if over > 0 {
                units += 1;
                self.remained_quota = unit - over;
            } else {
                self.remained_quota = 0;
            }
            assert(units == limiter_units(old(self)@.quota, entry_len as nat)) by {
                assert(lack == (lack / unit) * unit + lack % unit) by (nonlinear_arith)
                    requires
                        unit == 4096,
                ;
                if over > 0 {
                    assert((lack + unit - 1) / (unit as int) == lack / unit + 1) by (nonlinear_arith)
                        requires
                            unit == 4096,
                            over == lack % unit,
                            0 < over < unit,
                    ;
                } else {
                    assert((lack + unit - 1) / (unit as int) == lack / unit) by (nonlinear_arith)
                        requires
                            unit == 4096,
                            0 == lack % unit,
                    ;
                }
            }
            let ghost left: int = self.remained_quota as int;
            assert(left == quota + units * unit - entry_len) by (nonlinear_arith)
                requires
                    unit == 4096,
                    lack == entry_len - quota,
                    over == lack % unit,
                    units == lack / unit + if over > 0 {
                        1int
                    } else {
                        0int
                    },
                    left == if over > 0 {
                        unit - over
                    } else {
                        0int
                    },
            ;
        } else {
            self.remained_quota -= entry_len;
        }
        self.stats.key_count += 1;
        self.stats.total_size += entry_len;
        self.file_length += entry_len;
        Ok(Placement { file_id: self.file_id, new_file, limiter_units: units })
    }

    /// What was placed so far.
    pub fn stats(&self) -> (stats: BuildStatistics)
        ensures
            stats.key_count == self@.key_count,
            stats.total_size == self@.total_size,
    {
        self.stats
    }

    /// How many files hold what was placed.
    pub fn file_count(&self) -> (n: usize)
        requires
            self.wf(),
        ensures
            n == file_count(self@),
    {
        if self.stats.key_count > 0 {
            self.file_id + 1
        } else {
            0
        }
    }
}

/// The column family with its first `n` chunks recorded anew, with no bytes yet.
pub open spec fn with_blank_files(f: CfFileView, n: int) -> CfFileView
    decreases n,
{
    if n <= 0 {
        f
    } else {
        with_blank_files(f, n - 1).upsert(n - 1, 0, 0)
    }
}

/// Recording the first `n` chunks leaves at least `n` chunks.
pub proof fn lemma_with_blank_files(f: CfFileView, n: int)
    requires
        0 <= n,
        f.wf(),
    ensures
        with_blank_files(f, n).size.len() >= n,
        with_blank_files(f, n).wf(),
        with_blank_files(f, n) == (CfFileView {
            size: with_blank_files(f, n).size,
            checksum: with_blank_files(f, n).checksum,
            ..f
        }),
    decreases n,
{
    if n > 0 {
        lemma_with_blank_files(f, n - 1);
    }
}

/// Records `count` files of a column family, with no bytes yet: the sizes and
/// checksums are known only when the files are complete.
pub fn record_files(cf_file: &mut CfFile, count: usize)
    requires
        old(cf_file).wf(),
    ensures
        final(cf_file).wf(),
        final(cf_file)@ == with_blank_files(old(cf_file)@, count as int),
{
    let mut i: usize = 0;
    while i < count
        invariant
            i <= count,
            cf_file.wf(),
            cf_file@ == with_blank_files(old(cf_file)@, i as int),
            old(cf_file)@.wf(),
        decreases count - i,
    {
        proof {
            lemma_with_blank_files(old(cf_file)@, i as int);
        }
        let _ = cf_file.add_file(i);
        i += 1;
    }
}


/// The sizes of entries, each the bytes of its key and of its value.
pub open spec fn entry_lens(sizes: Seq<(usize, usize)>) -> Seq<nat> {
    sizes.map_values(|s: (usize, usize)| (s.0 + s.1) as nat)
}

/// The bytes of the first `n` entries.
pub open spec fn sum_lens(lens: Seq<nat>, n: int) -> nat
    decreases n,
{
    if n <= 0 {
        0
    } else {
        sum_lens(lens, n - 1) + lens[n - 1]
    }
}

/// The counts of a build do not depend on the limit: there are as many keys as
/// entries, and as many bytes as the entries have.
pub proof fn lemma_split_totals(lens: Seq<nat>, limit: nat, n: int)
    requires
        0 <= n <= lens.len(),
    ensures
        split_run(lens, limit, n).key_count == n,
        split_run(lens, limit, n).total_size == sum_lens(lens, n),
        split_run(lens, limit, n).file_id <= n,
        split_run(lens, limit, n).file_length <= sum_lens(lens, n),
    decreases n,
{
    if n > 0 {
        lemma_split_totals(lens, limit, n - 1);
    }
}

/// More entries do not have fewer bytes.
pub proof fn lemma_sum_lens_grows(lens: Seq<nat>, i: int, j: int)
    requires
        0 <= i <= j,
    ensures
        sum_lens(lens, i) <= sum_lens(lens, j),
    decreases j - i,
{
    if i < j {
        lemma_sum_lens_grows(lens, i, j - 1);
    }
}

/// Splits the data of a column family, given as the sizes of its entries in
/// the order of the scan, into files of at most `raw_size_per_file` bytes of
/// keys and values, and records the files. The counts must stay within `usize`.
pub fn build_sst_cf_file_list(
    cf_file: &mut CfFile,
    entry_sizes: &Vec<(usize, usize)>,
    raw_size_per_file: u64,
) -> (r: Result<BuildStatistics, Error>)
    requires
        old(cf_file).wf(),
    ensures
        final(cf_file).wf(),
        ({
            let lens = entry_lens(entry_sizes@);
            let run = split_run(lens, raw_size_per_file as nat, lens.len() as int);
            if run.total_size <= usize::MAX && lens.len() < usize::MAX {
                &&& r == Ok::<BuildStatistics, Error>(
                    BuildStatistics {
                        key_count: run.key_count as usize,
                        total_size: run.total_size as usize,
                    },
                )
                &&& final(cf_file)@ == with_blank_files(old(cf_file)@, file_count(run) as int)
            } else {
                &&& r == Err::<BuildStatistics, Error>(Error::Other(Cause::Overflow))
                &&& final(cf_file)@ == old(cf_file)@
            }
        }),
{
    let ghost lens = entry_lens(entry_sizes@);
    let ghost limit = raw_size_per_file as nat;
    let mut list = SstFileList::new(raw_size_per_file);
    let mut i: usize = 0;
    while i < entry_sizes.len()
        invariant
            i <= entry_sizes@.len(),
            lens == entry_lens(entry_sizes@),
            limit == raw_size_per_file,
            list.wf(),
            list.limit() == limit,
            list@ == split_run(lens, limit, i as int),
            *cf_file == *old(cf_file),
            cf_file.wf(),
        decreases entry_sizes@.len() - i,
    {
        let (key_len, value_len) = entry_sizes[i];
        assert(lens[i as int] == key_len + value_len);
        proof {
            lemma_split_totals(lens, limit, i as int);
            lemma_split_totals(lens, limit, i as int + 1);
            lemma_split_totals(lens, limit, lens.len() as int);
            lemma_sum_lens_grows(lens, i as int + 1, lens.len() as int);
        }
        match list.add_entry(key_len, value_len) {
            Ok(_) => {},
            Err(e) => {
                return Err(e);
            },
        }
        i += 1;
    }
    proof {
        lemma_split_totals(lens, limit, lens.len() as int);
    }
    record_files(cf_file, list.file_count());
    Ok(list.stats())
}

/// The file that entry `i` goes to.
pub open spec fn file_of(lens: Seq<nat>, limit: nat, i: int) -> nat {
    split_run(lens, limit, i + 1).file_id
}

/// The bytes of keys and values that file `c` holds of the first `n` entries.
pub open spec fn chunk_size(lens: Seq<nat>, limit: nat, n: int, c: nat) -> nat
    decreases n,
{
    if n <= 0 {
        0
    } else {
        chunk_size(lens, limit, n - 1, c) + if file_of(lens, limit, n - 1) == c {
            lens[n - 1]
        } else {
            0
        }
    }
}

/// The keys that file `c` holds of the first `n` entries.
pub open spec fn chunk_keys(lens: Seq<nat>, limit: nat, n: int, c: nat) -> nat
    decreases n,
{
    if n <= 0 {
        0
    } else {
        chunk_keys(lens, limit, n - 1, c) + if file_of(lens, limit, n - 1) == c {
            1nat
        } else {
            0nat
        }
    }
}

/// The bytes that the first `k` files hold of the first `n` entries.
pub open spec fn chunks_size(lens: Seq<nat>, limit: nat, n: int, k: nat) -> nat
    decreases k,
{
    if k == 0 {
        0
    } else {
        chunks_size(lens, limit, n, (k - 1) as nat) + chunk_size(lens, limit, n, (k - 1) as nat)
    }
}

/// The keys that the first `k` files hold of the first `n` entries.
pub open spec fn chunks_keys(lens: Seq<nat>, limit: nat, n: int, k: nat) -> nat
    decreases k,
{
    if k == 0 {
        0
    } else {
        chunks_keys(lens, limit, n, (k - 1) as nat) + chunk_keys(lens, limit, n, (k - 1) as nat)
    }
}

/// The files are filled in order: a later entry goes to no earlier file, and
/// at most to the next.
pub proof fn lemma_file_id_mono(lens: Seq<nat>, limit: nat, i: int, j: int)
    requires
        0 <= i <= j,
    ensures
        split_run(lens, limit, i).file_id <= split_run(lens, limit, j).file_id,
        split_run(lens, limit, j).file_id <= split_run(lens, limit, i).file_id + (j - i),
    decreases j - i,
{
    if i < j {
        lemma_file_id_mono(lens, limit, i, j - 1);
    }
}

/// A file that is not begun holds nothing, and the file that is being filled
/// holds what its length says.
pub proof fn lemma_chunk_current(lens: Seq<nat>, limit: nat, n: int, c: nat)
    requires
        0 <= n,
    ensures
        c > split_run(lens, limit, n).file_id ==> chunk_size(lens, limit, n, c) == 0
            && chunk_keys(lens, limit, n, c) == 0,
        c == split_run(lens, limit, n).file_id ==> chunk_size(lens, limit, n, c) == split_run(
            lens,
            limit,
            n,
        ).file_length,
    decreases n,
{
    if n > 0 {
        lemma_chunk_current(lens, limit, n - 1, c);
        lemma_file_id_mono(lens, limit, n - 1, n);
    }
}

/// Where no entry is larger than the limit, no file holds more than the limit.
pub proof fn lemma_chunk_within_limit(lens: Seq<nat>, limit: nat, n: int, c: nat)
    requires
        0 <= n <= lens.len(),
        forall|i: int| 0 <= i < n ==> lens[i] <= limit,
    ensures
        chunk_size(lens, limit, n, c) <= limit,
    decreases n,
{
    if n > 0 {
        lemma_chunk_within_limit(lens, limit, n - 1, c);
        lemma_chunk_current(lens, limit, n - 1, c);
        lemma_chunk_current(lens, limit, n, c);
        lemma_file_id_mono(lens, limit, n - 1, n);
    }
}

proof fn lemma_chunks_step(lens: Seq<nat>, limit: nat, n: int, k: nat)
    requires
        0 < n,
    ensures
        chunks_size(lens, limit, n, k) == chunks_size(lens, limit, n - 1, k) + if file_of(
            lens,
            limit,
            n - 1,
        ) < k {
            lens[n - 1]
        } else {
            0
        },
        chunks_keys(lens, limit, n, k) == chunks_keys(lens, limit, n - 1, k) + if file_of(
            lens,
            limit,
            n - 1,
        ) < k {
            1nat
        } else {
            0nat
        },
    decreases k,
{
    if k > 0 {
        lemma_chunks_step(lens, limit, n, (k - 1) as nat);
    }
}

proof fn lemma_chunks_none(lens: Seq<nat>, limit: nat, k: nat)
    ensures
        chunks_size(lens, limit, 0, k) == 0,
        chunks_keys(lens, limit, 0, k) == 0,
    decreases k,
{
    if k > 0 {
        lemma_chunks_none(lens, limit, (k - 1) as nat);
    }
}

/// The files together hold what the entries have: the bytes and the keys of
/// the files sum to the totals, whatever the limit is.
pub proof fn lemma_chunks_total(lens: Seq<nat>, limit: nat, n: int, k: nat)
    requires
        0 <= n <= lens.len(),
        k > split_run(lens, limit, n).file_id,
    ensures
        chunks_size(lens, limit, n, k) == sum_lens(lens, n),
        chunks_keys(lens, limit, n, k) == n,
    decreases n,
{
    if n == 0 {
        lemma_chunks_none(lens, limit, k);
    } else {
        lemma_file_id_mono(lens, limit, n - 1, n);
        lemma_chunks_total(lens, limit, n - 1, k);
        lemma_chunks_step(lens, limit, n, k);
    }
}


/// Tells whether the applying of a snapshot was told to stop, by the state of
/// its job.
pub struct ApplyAbortChecker(pub std::sync::Arc<AtomicUsize>);

impl StaleDetector for ApplyAbortChecker {
    /// Reads the state of the job, which other threads write: the applying is
    /// stale where `abort_status` aborts on what was read.
    fn is_stale(&self) -> bool {
        abort_status(self.0.load(Ordering::Relaxed)).is_err()
    }
}

/// How the copy of a chunk is made that the engine is given to ingest.
#[derive(Clone, Copy, PartialEq, Eq, Debug, Structural)]
pub enum CloneMethod {
    /// A link to the file: the engine cannot have the file, which has one link.
    HardLink,
    /// A copy of the file: the engine may have it.
    Copy,
    /// A copy of the file that is made writable: the file is reached through
    /// a symbolic link.
    CopyWritable,
}

/// How the copy of a chunk is made, given whether files behind symbolic
/// links are copied, whether the file is a symbolic link, and how many links
/// the file has.
pub fn clone_method(ingest_copy_symlink: bool, is_symlink: bool, nlink: u64) -> (method: CloneMethod)
    ensures
        method == if ingest_copy_symlink && is_symlink {
            CloneMethod::CopyWritable
        } else if nlink == 1 {
            CloneMethod::HardLink
        } else {
            CloneMethod::Copy
        },
{
    if ingest_copy_symlink && is_symlink {
        CloneMethod::CopyWritable
    } else if nlink == 1 {
        CloneMethod::HardLink
    } else {
        CloneMethod::Copy
    }
}


/// The byte with which the keys of data begin in the engine.
pub const DATA_PREFIX: u8 = 0x7a;

/// The key under which the engine keeps `key`.
pub open spec fn data_key(key: Seq<u8>) -> Seq<u8> {
    seq![DATA_PREFIX] + key
}

/// The key in the engine before which the data of a region ends, whose end
/// is `end_key`: an empty end stands for the end of all data.
pub open spec fn data_end_key(end_key: Seq<u8>) -> Seq<u8> {
    if end_key.len() == 0 {
        seq![(DATA_PREFIX + 1) as u8]
    } else {
        data_key(end_key)
    }
}

fn prefixed(first: u8, key: &[u8]) -> (out: Vec<u8>)
    ensures
        out@ == seq![first] + key@,
{
    let mut out: Vec<u8> = Vec::new();
    out.push(first);
    let mut i: usize = 0;
    while i < key.len()
        invariant
            i <= key@.len(),
            out@ == seq![first] + key@.take(i as int),
        decreases key@.len() - i,
    {
        out.push(key[i]);
        assert(key@.take(i + 1) =~= key@.take(i as int).push(key@[i as int]));
        i += 1;
    }
    assert(key@.take(i as int) =~= key@);
    out
}

/// The key in the engine at which the data of a region begins.
pub fn enc_start_key(start_key: &[u8]) -> (key: Vec<u8>)
    ensures
        key@ == data_key(start_key@),
{
    prefixed(DATA_PREFIX, start_key)
}

/// The key in the engine before which the data of a region ends.
pub fn enc_end_key(end_key: &[u8]) -> (key: Vec<u8>)
    ensures
        key@ == data_end_key(end_key@),
{
    if end_key.len() == 0 {
        let mut key: Vec<u8> = Vec::new();
        key.push(DATA_PREFIX + 1);
        assert(key@ =~= data_end_key(end_key@));
        key
    } else {
        prefixed(DATA_PREFIX, end_key)
    }
}


/// The bytes that file `c` holds of the first `n` entries, where entry `i`
/// goes to file `files[i]`.
pub open spec fn group_size(lens: Seq<nat>, files: Seq<nat>, n: int, c: nat) -> nat
    decreases n,
{
    if n <= 0 {
        0
    } else {
        group_size(lens, files, n - 1, c) + if files[n - 1] == c {
            lens[n - 1]
        } else {
            0
        }
    }
}

/// Whether `files` says a way to split the entries into files: each entry
/// goes to a file, a later entry to no earlier file, and no file holds more
/// than the limit.
pub open spec fn splits_within(lens: Seq<nat>, limit: nat, files: Seq<nat>) -> bool {
    &&& files.len() == lens.len()
    &&& forall|i: int, j: int| 0 <= i <= j < files.len() ==> files[i] <= files[j]
    &&& forall|c: nat| group_size(lens, files, lens.len() as int, c) <= limit
}

/// More entries do not make a file hold less.
pub proof fn lemma_group_size_grows(lens: Seq<nat>, files: Seq<nat>, i: int, j: int, c: nat)
    requires
        0 <= i <= j,
    ensures
        group_size(lens, files, i, c) <= group_size(lens, files, j, c),
    decreases j - i,
{
    if i < j {
        lemma_group_size_grows(lens, files, i, j - 1, c);
    }
}

/// A file that takes every entry that the split by the limit puts into file
/// `c` holds no less than that file.
proof fn lemma_group_covers_chunk(lens: Seq<nat>, limit: nat, files: Seq<nat>, m: int, c: nat)
    requires
        0 <= m <= lens.len(),
        files.len() == lens.len(),
        forall|j: int| 0 <= j < m && file_of(lens, limit, j) == c ==> files[j] == c,
    ensures
        chunk_size(lens, limit, m, c) <= group_size(lens, files, m, c),
    decreases m,
{
    if m > 0 {
        lemma_group_covers_chunk(lens, limit, files, m - 1, c);
    }
}

/// The split by the limit is never behind: it puts no entry into a later
/// file than any other split within the limit does.
pub proof fn lemma_split_stays_ahead(lens: Seq<nat>, limit: nat, files: Seq<nat>, i: int)
    requires
        splits_within(lens, limit, files),
        0 <= i < lens.len(),
    ensures
        file_of(lens, limit, i) <= files[i],
    decreases i,
{
    let n = lens.len() as int;
    let before = split_run(lens, limit, i);
    let c = before.file_id;
    if starts_new_file(before, lens[i], limit) {
        if files[i] <= c {
            // The other split keeps entry `i` with all that file `c` holds.
            assert forall|j: int| 0 <= j < i && file_of(lens, limit, j) == c implies files[j]
                == files[i] by {
                lemma_split_stays_ahead(lens, limit, files, j);
            }
            if i > 0 {
                lemma_split_stays_ahead(lens, limit, files, i - 1);
                lemma_file_id_mono(lens, limit, i - 1, i);
                assert(file_of(lens, limit, i - 1) == c);
            }
            assert(files[i] == c);
            // So that file holds more than the limit, which it does not.
            lemma_chunk_current(lens, limit, i, c);
            lemma_group_covers_chunk(lens, limit, files, i, c);
            lemma_group_size_grows(lens, files, i + 1, n, c);
            assert(group_size(lens, files, n, c) <= limit);
            assert(false);
        }
    } else {
        if i > 0 {
            lemma_split_stays_ahead(lens, limit, files, i - 1);
        }
    }
}

/// The split by the limit has as few files as can be: no split of the
/// entries in their order into files within the limit has fewer.
pub proof fn lemma_split_is_least(lens: Seq<nat>, limit: nat, files: Seq<nat>)
    requires
        splits_within(lens, limit, files),
        lens.len() > 0,
    ensures
        file_count(split_run(lens, limit, lens.len() as int)) <= files.last() + 1,
{
    let n = lens.len() as int;
    lemma_split_stays_ahead(lens, limit, files, n - 1);
    lemma_split_totals(lens, limit, n);
}


/// The files to which the split by the limit puts the entries.
pub open spec fn split_files(lens: Seq<nat>, limit: nat) -> Seq<nat> {
    Seq::new(lens.len(), |i: int| file_of(lens, limit, i))
}

proof fn lemma_split_files_sizes(lens: Seq<nat>, limit: nat, m: int, c: nat)
    requires
        0 <= m <= lens.len(),
    ensures
        group_size(lens, split_files(lens, limit), m, c) == chunk_size(lens, limit, m, c),
    decreases m,
{
    if m > 0 {
        lemma_split_files_sizes(lens, limit, m - 1, c);
    }
}

/// Where no entry is larger than the limit, the split by the limit is a
/// split within the limit.
pub proof fn lemma_split_is_within(lens: Seq<nat>, limit: nat)
    requires
        forall|i: int| 0 <= i < lens.len() ==> lens[i] <= limit,
    ensures
        splits_within(lens, limit, split_files(lens, limit)),
{
    let files = split_files(lens, limit);
    let n = lens.len() as int;
    assert forall|i: int, j: int| 0 <= i <= j < files.len() implies files[i] <= files[j] by {
        lemma_file_id_mono(lens, limit, i + 1, j + 1);
    }
    assert forall|c: nat| group_size(lens, files, n, c) <= limit by {
        lemma_split_files_sizes(lens, limit, n, c);
        lemma_chunk_within_limit(lens, limit, n, c);
    }
}


proof fn lemma_batching_covers(entries: Seq<(Seq<u8>, Seq<u8>)>, batch_size: nat, n: int)
    requires
        0 <= n <= entries.len(),
    ensures
        ({
            let b = batching(entries, batch_size, n);
            &&& b.closed.flatten_alt() + b.open == entries.take(n)
            &&& forall|k: int|
                0 <= k < b.closed.len() ==> (#[trigger] b.closed[k]).len() > 0 && all_size(
                    b.closed[k],
                ) >= batch_size
            &&& b.open.len() > 0 ==> all_size(b.open) < batch_size
        }),
    decreases n,
{
    let b = batching(entries, batch_size, n);
    if n == 0 {
        assert(b.closed.flatten_alt() + b.open =~= entries.take(0));
    } else {
        lemma_batching_covers(entries, batch_size, n - 1);
        let before = batching(entries, batch_size, n - 1);
        let grown = before.open.push(entries[n - 1]);
        assert(entries.take(n) =~= entries.take(n - 1).push(entries[n - 1]));
        if all_size(grown) >= batch_size {
            assert(b.closed.drop_last() =~= before.closed);
            assert(b.closed.last() == grown);
            assert(b.closed.flatten_alt() + b.open =~= entries.take(n));
            assert forall|k: int| 0 <= k < b.closed.len() implies (#[trigger] b.closed[k]).len() > 0
                && all_size(b.closed[k]) >= batch_size by {
                if k < before.closed.len() {
                    assert(b.closed[k] == before.closed[k]);
                }
            }
        } else {
            assert(b.closed.flatten_alt() + b.open =~= entries.take(n));
        }
    }
}

/// The batches hold the keys and values, all of them and in order; none is
/// empty, and each but the last has reached the size at which batches are
/// written out.
pub proof fn lemma_batches_cover(entries: Seq<(Seq<u8>, Seq<u8>)>, batch_size: nat)
    ensures
        batches(entries, batch_size).flatten() == entries,
        forall|k: int|
            0 <= k < batches(entries, batch_size).len() ==> (#[trigger] batches(
                entries,
                batch_size,
            )[k]).len() > 0,
        forall|k: int|
            0 <= k < batches(entries, batch_size).len() - 1 ==> all_size(
                #[trigger] batches(entries, batch_size)[k],
            ) >= batch_size,
{
    let n = entries.len() as int;
    let b = batching(entries, batch_size, n);
    let all = batches(entries, batch_size);
    lemma_batching_covers(entries, batch_size, n);
    assert(entries.take(n) =~= entries);
    all.lemma_flatten_and_flatten_alt_are_equivalent();
    if b.open.len() > 0 {
        assert(all.drop_last() =~= b.closed);
        assert(all.last() == b.open);
        assert(all.flatten_alt() =~= entries);
    } else {
        assert(b.closed.flatten_alt() + b.open =~= b.closed.flatten_alt());
    }
    assert forall|k: int| 0 <= k < all.len() implies (#[trigger] all[k]).len() > 0 by {
        if k < b.closed.len() {
            assert(all[k] == b.closed[k]);
        }
    }
    assert forall|k: int| 0 <= k < all.len() - 1 implies all_size(#[trigger] all[k])
        >= batch_size by {
        assert(all[k] == b.closed[k]);
    }
}

} // verus!
