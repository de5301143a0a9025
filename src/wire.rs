//! Big-endian integers and length-prefixed lists read from byte sequences.
use vstd::prelude::*;
use vstd::slice::{slice_subrange, slice_to_vec};

verus! {

/// The 16-bit big-endian integer at `i`.
pub open spec fn be16(s: Seq<u8>, i: int) -> int {
    s[i] as int * 256 + s[i + 1] as int
}

/// The 24-bit big-endian integer at `i`.
pub open spec fn be24(s: Seq<u8>, i: int) -> int {
    s[i] as int * 65536 + s[i + 1] as int * 256 + s[i + 2] as int
}

/// The 32-bit big-endian integer at `i`.
pub open spec fn be32(s: Seq<u8>, i: int) -> int {
    s[i] as int * 16777216 + s[i + 1] as int * 65536 + s[i + 2] as int * 256 + s[i + 3] as int
}

/// The 16-bit big-endian integers that make up `s`, in order (an odd last
/// byte is left out).
pub open spec fn u16_list(s: Seq<u8>) -> Seq<u16> {
    Seq::new(s.len() / 2, |i: int| be16(s, 2 * i) as u16)
}

/// Reads the 16-bit big-endian integer at `i`.
pub fn read_be16(d: &[u8], i: usize) -> (r: usize)
    requires
        i + 2 <= d@.len(),
    ensures
        r == be16(d@, i as int),
        r < 65536,
{
    (d[i] as usize) * 256 + (d[i + 1] as usize)
}

/// Reads the 24-bit big-endian integer at `i`.
pub fn read_be24(d: &[u8], i: usize) -> (r: usize)
    requires
        i + 3 <= d@.len(),
    ensures
        r == be24(d@, i as int),
        r < 16777216,
{
    (d[i] as usize) * 65536 + (d[i + 1] as usize) * 256 + (d[i + 2] as usize)
}

/// The bytes of `d` from `a` up to `b`.
pub fn copy_range(d: &[u8], a: usize, b: usize) -> (r: Vec<u8>)
    requires
        a <= b <= d@.len(),
    ensures
        r@ == d@.subrange(a as int, b as int),
{
    slice_to_vec(slice_subrange(d, a, b))
}

/// The 16-bit big-endian integers of `d` from `a` up to `b`.
pub fn read_u16_list(d: &[u8], a: usize, b: usize) -> (r: Vec<u16>)
    requires
        a <= b <= d@.len(),
    ensures
        r@ == u16_list(d@.subrange(a as int, b as int)),
{
    let ghost s = d@.subrange(a as int, b as int);
    let mut out: Vec<u16> = Vec::new();
    let mut k: usize = 0;
    let n = (b - a) / 2;
    while k < n
        invariant
            a <= b <= d@.len(),
            s == d@.subrange(a as int, b as int),
            n == s.len() / 2,
            k <= n,
            out@ =~= Seq::new(k as nat, |i: int| be16(s, 2 * i) as u16),
        decreases n - k,
    {
        let v = read_be16(d, a + 2 * k);
        assert(v == be16(s, 2 * k as int));
        out.push(v as u16);
        k += 1;
    }
    out
}

/// Appends `bytes` to `buf`.
pub fn append_bytes(buf: &mut Vec<u8>, bytes: &[u8])
    ensures
        final(buf)@ == old(buf)@ + bytes@,
{
    let mut i: usize = 0;
    while i < bytes.len()
        invariant
            i <= bytes.len(),
            buf@ == old(buf)@ + bytes@.take(i as int),
        decreases bytes.len() - i,
    {
        buf.push(bytes[i]);
        assert(old(buf)@ + bytes@.take(i + 1) =~= (old(buf)@ + bytes@.take(i as int)).push(
            bytes@[i as int],
        ));
        i += 1;
    }
    assert(bytes@.take(i as int) =~= bytes@);
}

} // verus!
