//! Big-endian field readers over byte slices.
use vstd::prelude::*;
use vstd::slice::slice_subrange;
use vstd::slice::slice_to_vec;

use crate::hash::Md5Hash;

verus! {

/// The big-endian 16-bit value stored at `p`.
pub open spec fn be16(b: Seq<u8>, p: int) -> int {
    b[p] * 256 + b[p + 1]
}

/// The big-endian 32-bit value stored at `p`.
pub open spec fn be32(b: Seq<u8>, p: int) -> int {
    b[p] * 16777216 + b[p + 1] * 65536 + b[p + 2] * 256 + b[p + 3]
}

/// Reads a big-endian `u16` at `p`.
pub fn read_u16_be(b: &[u8], p: usize) -> (r: u16)
    requires
        p + 2 <= b@.len(),
    ensures
        r == be16(b@, p as int),
{
    (b[p] as u16) * 256 + (b[p + 1] as u16)
}

/// Reads a big-endian `u32` at `p`.
pub fn read_u32_be(b: &[u8], p: usize) -> (r: u32)
    requires
        p + 4 <= b@.len(),
    ensures
        r == be32(b@, p as int),
{
    (b[p] as u32) * 16777216 + (b[p + 1] as u32) * 65536 + (b[p + 2] as u32) * 256 + (
    b[p + 3] as u32)
}

/// Reads the 16 bytes at `p` as a hash.
pub fn read_hash(b: &[u8], p: usize) -> (r: Md5Hash)
    requires
        p + 16 <= b@.len(),
    ensures
        r@ == b@.subrange(p as int, p + 16),
{
    let len = b.len();
    let mut a = [0u8; 16];
    let mut i: usize = 0;
    while i < 16
        invariant
            0 <= i <= 16,
            p + 16 <= b@.len(),
            len == b@.len(),
            forall|j: int| 0 <= j < i ==> #[trigger] a@[j] == b@[p + j],
        decreases 16 - i,
    {
        a[i] = b[p + i];
        i = i + 1;
    }
    assert(a@ =~= b@.subrange(p as int, p + 16));
    Md5Hash(a)
}

/// Copies the bytes from `i` up to `j`.
pub fn copy_range(b: &[u8], i: usize, j: usize) -> (r: Vec<u8>)
    requires
        i <= j <= b@.len(),
    ensures
        r@ == b@.subrange(i as int, j as int),
{
    slice_to_vec(slice_subrange(b, i, j))
}

} // verus!
