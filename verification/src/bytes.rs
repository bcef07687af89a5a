use vstd::prelude::*;

verus! {

/// The little-endian `u16` at `off` in `s`.
pub open spec fn le16(s: Seq<u8>, off: int) -> u16 {
    (s[off] + 256 * s[off + 1]) as u16
}

/// The little-endian `u32` at `off` in `s`.
pub open spec fn le32(s: Seq<u8>, off: int) -> u32 {
    (s[off] + 0x100 * s[off + 1] + 0x1_0000 * s[off + 2] + 0x100_0000 * s[off + 3]) as u32
}

/// The little-endian `u16` at `off` in `s`.
pub fn read_le16(s: &[u8], off: usize) -> (r: u16)
    requires
        off + 2 <= s@.len(),
    ensures
        r == le16(s@, off as int),
{
    s[off] as u16 + (s[off + 1] as u16) * 256
}

/// The little-endian `u32` at `off` in `s`.
pub fn read_le32(s: &[u8], off: usize) -> (r: u32)
    requires
        off + 4 <= s@.len(),
    ensures
        r == le32(s@, off as int),
{
    s[off] as u32 + (s[off + 1] as u32) * 0x100 + (s[off + 2] as u32) * 0x1_0000 + (s[off + 3]
        as u32) * 0x100_0000
}

/// The `N` bytes at `off` in `s`.
pub fn read_array<const N: usize>(s: &[u8], off: usize) -> (a: [u8; N])
    requires
        off + N <= s@.len(),
    ensures
        a@ == s@.subrange(off as int, off + N),
{
    let mut a: [u8; N] = vstd::array::array_fill_for_copy_types(0u8);
    let mut i: usize = 0;
    while i < N
        invariant
            off + N <= s.len(),
            i <= N,
            a@.len() == N,
            forall|j: int| 0 <= j < i ==> a@[j] == s@[off + j],
        decreases N - i,
    {
        a.set(i, s[off + i]);
        i = i + 1;
    }
    proof {
        assert(a@ =~= s@.subrange(off as int, off + N));
    }
    a
}

} // verus!
