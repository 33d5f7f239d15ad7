//! Little-endian integer encoding inside byte sequences, and in-place
//! overwriting of byte ranges.
use vstd::prelude::*;
use vstd::bytes::*;
use vstd::slice::slice_subrange;

verus! {

/// The bytes of `s` with `b` written over them, starting at `off`.
pub open spec fn update_bytes(s: Seq<u8>, off: int, b: Seq<u8>) -> Seq<u8> {
    Seq::new(s.len(), |k: int| if off <= k < off + b.len() { b[k - off] } else { s[k] })
}

/// The little-endian `u64` stored at `off`.
pub open spec fn u64_at(s: Seq<u8>, off: int) -> u64 {
    spec_u64_from_le_bytes(s.subrange(off, off + 8))
}

/// The little-endian `u32` stored at `off`.
pub open spec fn u32_at(s: Seq<u8>, off: int) -> u32 {
    spec_u32_from_le_bytes(s.subrange(off, off + 4))
}

/// The little-endian `u16` stored at `off`.
pub open spec fn u16_at(s: Seq<u8>, off: int) -> u16 {
    spec_u16_from_le_bytes(s.subrange(off, off + 2))
}

/// Overwriting a range and reading the same range back gives the written bytes.
pub proof fn lemma_update_reads_back(s: Seq<u8>, off: int, b: Seq<u8>)
    requires
        0 <= off,
        off + b.len() <= s.len(),
    ensures
        update_bytes(s, off, b).subrange(off, off + b.len()) == b,
{
    assert(update_bytes(s, off, b).subrange(off, off + b.len()) =~= b);
}

/// Overwriting a range leaves every disjoint range as it was.
pub proof fn lemma_update_frame(s: Seq<u8>, off: int, b: Seq<u8>, lo: int, hi: int)
    requires
        0 <= lo <= hi <= s.len(),
        hi <= off || off + b.len() <= lo,
    ensures
        update_bytes(s, off, b).subrange(lo, hi) == s.subrange(lo, hi),
{
    assert(update_bytes(s, off, b).subrange(lo, hi) =~= s.subrange(lo, hi));
}

/// Reading back integers written with [`write_u64_at`], [`write_u32_at`] and [`write_u16_at`].
pub proof fn lemma_ints_read_back(s: Seq<u8>, off: int, x: u64, y: u32, z: u16)
    requires
        0 <= off,
    ensures
        off + 8 <= s.len() ==> u64_at(update_bytes(s, off, spec_u64_to_le_bytes(x)), off) == x,
        off + 4 <= s.len() ==> u32_at(update_bytes(s, off, spec_u32_to_le_bytes(y)), off) == y,
        off + 2 <= s.len() ==> u16_at(update_bytes(s, off, spec_u16_to_le_bytes(z)), off) == z,
        spec_u64_to_le_bytes(x).len() == 8,
        spec_u32_to_le_bytes(y).len() == 4,
        spec_u16_to_le_bytes(z).len() == 2,
{
    lemma_auto_spec_u64_to_from_le_bytes();
    lemma_auto_spec_u32_to_from_le_bytes();
    lemma_auto_spec_u16_to_from_le_bytes();
    if off + 8 <= s.len() {
        lemma_update_reads_back(s, off, spec_u64_to_le_bytes(x));
    }
    if off + 4 <= s.len() {
        lemma_update_reads_back(s, off, spec_u32_to_le_bytes(y));
    }
    if off + 2 <= s.len() {
        lemma_update_reads_back(s, off, spec_u16_to_le_bytes(z));
    }
}

/// Reads the little-endian `u64` at `off`.
pub fn read_u64_at(s: &[u8], off: usize) -> (r: u64)
    requires
        off + 8 <= s@.len(),
    ensures
        r == u64_at(s@, off as int),
{
    let _len = s.len();
    u64_from_le_bytes(slice_subrange(s, off, off + 8))
}

/// Reads the little-endian `u32` at `off`.
pub fn read_u32_at(s: &[u8], off: usize) -> (r: u32)
    requires
        off + 4 <= s@.len(),
    ensures
        r == u32_at(s@, off as int),
{
    let _len = s.len();
    u32_from_le_bytes(slice_subrange(s, off, off + 4))
}

/// Reads the little-endian `u16` at `off`.
pub fn read_u16_at(s: &[u8], off: usize) -> (r: u16)
    requires
        off + 2 <= s@.len(),
    ensures
        r == u16_at(s@, off as int),
{
    let _len = s.len();
    u16_from_le_bytes(slice_subrange(s, off, off + 2))
}

/// Overwrites the bytes of `v` starting at `off` with `b`.
pub fn write_bytes_at(v: &mut Vec<u8>, off: usize, b: &[u8])
    requires
        off + b@.len() <= old(v)@.len(),
    ensures
        final(v)@ == update_bytes(old(v)@, off as int, b@),
{
    let ghost orig = v@;
    let _len = v.len();
    let mut k: usize = 0;
    while k < b.len()
        invariant
            k <= b@.len(),
            off + b@.len() <= orig.len(),
            v@.len() == orig.len(),
            _len == orig.len(),
            forall|j: int| 0 <= j < v@.len() ==> #[trigger] v@[j] == (if off <= j < off + k {
                b@[j - off]
            } else {
                orig[j]
            }),
        decreases b@.len() - k,
    {
        v[off + k] = b[k];
        k = k + 1;
    }
    assert(v@ =~= update_bytes(orig, off as int, b@));
}

/// Writes `x` little-endian at `off`.
pub fn write_u64_at(v: &mut Vec<u8>, off: usize, x: u64)
    requires
        off + 8 <= old(v)@.len(),
    ensures
        final(v)@ == update_bytes(old(v)@, off as int, spec_u64_to_le_bytes(x)),
{
    let bytes = u64_to_le_bytes(x);
    write_bytes_at(v, off, bytes.as_slice());
}

/// Writes `x` little-endian at `off`.
pub fn write_u32_at(v: &mut Vec<u8>, off: usize, x: u32)
    requires
        off + 4 <= old(v)@.len(),
    ensures
        final(v)@ == update_bytes(old(v)@, off as int, spec_u32_to_le_bytes(x)),
{
    let bytes = u32_to_le_bytes(x);
    write_bytes_at(v, off, bytes.as_slice());
}

/// Writes `x` little-endian at `off`.
pub fn write_u16_at(v: &mut Vec<u8>, off: usize, x: u16)
    requires
        off + 2 <= old(v)@.len(),
    ensures
        final(v)@ == update_bytes(old(v)@, off as int, spec_u16_to_le_bytes(x)),
{
    let bytes = u16_to_le_bytes(x);
    write_bytes_at(v, off, bytes.as_slice());
}

} // verus!
