use siphasher::sip::SipHasher24;
use vstd::prelude::*;

verus! {

/// Number of slots in one row of a shard header.
pub const WIDTH: usize = 512;

/// Number of rows in one shard header.
pub const ROWS: usize = 64;

/// The signature stored in place of a hash whose low 32 bits are zero,
/// since a zero signature marks an empty slot.
pub const FALLBACK_SIGN: u32 = 0x12345678;

/// The 64-bit SipHash-2-4 (keys 0, 0) of a byte string.
pub uninterp spec fn sip_of(bytes: Seq<u8>) -> u64;

/// Relies on siphasher's `SipHasher24::new().hash`: a deterministic 64-bit
/// hash of the bytes.
#[verifier::external_body]
fn sip_hash24(bytes: &[u8]) -> (r: u64)
    ensures
        r == sip_of(bytes@),
{
    SipHasher24::new().hash(bytes)
}

/// Signature field of a hash: its low 32 bits, never zero.
pub open spec fn sign_of(h: u64) -> u32 {
    if h % 0x1_0000_0000 == 0 {
        FALLBACK_SIGN
    } else {
        (h % 0x1_0000_0000) as u32
    }
}

/// Row field of a hash: bits 32 to 47, reduced modulo the row count.
pub open spec fn row_of(h: u64) -> int {
    (h / 0x1_0000_0000) as int % (ROWS as int)
}

/// Shard field of a hash: its top 16 bits.
pub open spec fn shard_of(h: u64) -> u32 {
    (h / 0x1_0000_0000_0000) as u32
}

/// A key's 64-bit hash, computed once and sliced into a signature, a row
/// index and a shard index.
#[derive(Debug, Clone, Copy, PartialEq, Eq, Structural)]
pub struct PartedHash(pub u64);

impl PartedHash {
    /// The hash of `buf`.
    pub fn new(buf: &[u8]) -> (r: PartedHash)
        ensures
            r.0 == sip_of(buf@),
    {
        PartedHash(sip_hash24(buf))
    }

    pub fn sign(&self) -> (r: u32)
        ensures
            r == sign_of(self.0),
            r != 0,
    {
        let h = self.0;
        let low = #[verifier::truncate] (h as u32);
        assert(low == h % 0x1_0000_0000) by (bit_vector)
            requires low == #[verifier::truncate] (h as u32);
        if low == 0 {
            FALLBACK_SIGN
        } else {
            low
        }
    }

    pub fn row(&self) -> (r: usize)
        ensures
            r == row_of(self.0),
            r < ROWS,
    {
        let x = self.0;
        let h = x >> 32u64;
        assert(h == x / 0x1_0000_0000) by (bit_vector)
            requires h == x >> 32u64;
        (h % (ROWS as u64)) as usize
    }

    pub fn shard(&self) -> (r: u32)
        ensures
            r == shard_of(self.0),
            r < MAX_SHARD,
    {
        let x = self.0;
        let h = x >> 48u64;
        assert(h == x / 0x1_0000_0000_0000) by (bit_vector)
            requires h == x >> 48u64;
        assert(h < 0x1_0000) by (bit_vector)
            requires h == x >> 48u64;
        h as u32
    }
}

/// Every hash has a shard index below `MAX_SHARD`.
pub proof fn lemma_shard_bound(h: u64)
    ensures
        shard_of(h) < MAX_SHARD,
{
    assert(h / 0x1_0000_0000_0000 < 0x1_0000) by (nonlinear_arith)
        requires
            h < 0x1_0000_0000_0000_0000,
    ;
}

/// One past the largest shard index.
pub const MAX_SHARD: u32 = 0x1_0000;

} // verus!
