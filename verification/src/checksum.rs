//! The running CRC32 checksum of the bytes of a file.
use vstd::prelude::*;

verus! {

/// The CRC32 state that `crc32fast` reaches from `state` over `data`.
pub uninterp spec fn crc32_update(state: u32, data: Seq<u8>) -> u32;

/// Feeds `data` to a `crc32fast::Hasher` that starts at `state`
/// (`Hasher::new_with_initial`, `update`, `finalize`) and gives the state it
/// ends in. Nothing is proved of the checksum: the contract names the result,
/// which in the crate's source depends on `state` and `data` alone.
#[verifier::external_body]
pub(crate) fn crc32_extend(state: u32, data: &[u8]) -> (r: u32)
    ensures
        r == crc32_update(state, data@),
{
    let mut hasher = crc32fast::Hasher::new_with_initial(state);
    hasher.update(data);
    hasher.finalize()
}

/// A checksum in progress.
#[derive(Clone, Copy, Debug, PartialEq, Eq, Structural)]
pub struct Digest {
    pub state: u32,
}

impl Digest {
    /// The checksum of no bytes.
    pub fn new() -> (d: Digest)
        ensures
            d.state == 0,
    {
        Digest { state: 0 }
    }

    /// Takes in the next bytes.
    pub fn update(&mut self, data: &[u8])
        ensures
            final(self).state == crc32_update(old(self).state, data@),
    {
        self.state = crc32_extend(self.state, data);
    }

    /// The checksum of the bytes taken in so far.
    pub fn finalize(&self) -> (sum: u32)
        ensures
            sum == self.state,
    {
        self.state
    }
}

/// The checksum of `data`.
pub open spec fn crc32(data: Seq<u8>) -> u32 {
    crc32_update(0, data)
}

/// The checksum of `data`.
pub fn checksum(data: &[u8]) -> (sum: u32)
    ensures
        sum == crc32(data@),
{
    crc32_extend(0, data)
}

} // verus!
