//! The framing of an HPACK block: where each field representation ends.
//! Blocks whose integers or strings run past the end are refused before
//! they reach the decoder.
use vstd::prelude::*;

verus! {

/// End of the continuation bytes of an integer that began before `j`,
/// `n` of them read so far; at most four are allowed.
pub open spec fn cont_end(b: Seq<u8>, j: int, n: int) -> Option<int>
    decreases 5 - n,
{
    if j < 0 || j >= b.len() || n < 1 || n > 4 {
        None
    } else if b[j] & 128 == 0 {
        Some(j + 1)
    } else if n == 4 {
        None
    } else {
        cont_end(b, j + 1, n + 1)
    }
}

/// Value carried by the continuation bytes from `j` on, the first of them
/// weighted by `m`.
pub open spec fn cont_val(b: Seq<u8>, j: int, n: int, m: int) -> int
    decreases 5 - n,
{
    if j < 0 || j >= b.len() || n < 1 || n > 4 {
        0
    } else if b[j] & 128 == 0 || n == 4 {
        (b[j] & 127) as int * m
    } else {
        (b[j] & 127) as int * m + cont_val(b, j + 1, n + 1, m * 128)
    }
}

/// End of the integer whose prefix is the bits `mask` of `b[i]`.
pub open spec fn int_end(b: Seq<u8>, i: int, mask: u8) -> Option<int> {
    if i < 0 || i >= b.len() {
        None
    } else if b[i] & mask < mask {
        Some(i + 1)
    } else {
        cont_end(b, i + 1, 1)
    }
}

/// Value of the integer whose prefix is the bits `mask` of `b[i]`.
pub open spec fn int_val(b: Seq<u8>, i: int, mask: u8) -> int {
    if b[i] & mask < mask {
        (b[i] & mask) as int
    } else {
        mask as int + cont_val(b, i + 1, 1, 1)
    }
}

/// End of the string literal at `s`: its length and that many bytes.
pub open spec fn str_end(b: Seq<u8>, s: int) -> Option<int> {
    match int_end(b, s, 127) {
        Some(e) => if e + int_val(b, s, 127) <= b.len() {
            Some(e + int_val(b, s, 127))
        } else {
            None
        },
        None => None,
    }
}

/// End of a literal field at `i`: an index with prefix `mask`, a name
/// string when the index is zero, and a value string.
pub open spec fn literal_end(b: Seq<u8>, i: int, mask: u8) -> Option<int> {
    match int_end(b, i, mask) {
        Some(e1) => {
            let e2 = if b[i] & mask == 0 {
                str_end(b, e1)
            } else {
                Some(e1)
            };
            match e2 {
                Some(e2) => str_end(b, e2),
                None => None,
            }
        },
        None => None,
    }
}

/// End of the field representation at `i`: indexed, literal with
/// indexing, size update or other literal, by its first bits.
pub open spec fn rep_end(b: Seq<u8>, i: int) -> Option<int> {
    if i < 0 || i >= b.len() {
        None
    } else if b[i] & 128 != 0 {
        int_end(b, i, 127)
    } else if b[i] & 64 != 0 {
        literal_end(b, i, 63)
    } else if b[i] & 32 != 0 {
        int_end(b, i, 31)
    } else {
        literal_end(b, i, 15)
    }
}

/// The representations from `i` on each end inside the block.
pub open spec fn framed_from(b: Seq<u8>, i: int) -> bool
    decreases b.len() - i,
{
    if i < 0 {
        false
    } else if i >= b.len() {
        true
    } else {
        match rep_end(b, i) {
            Some(e) => e > i && e <= b.len() && framed_from(b, e),
            None => false,
        }
    }
}

/// Every integer and string of the block ends inside it.
pub open spec fn hpack_framed_spec(b: Seq<u8>) -> bool {
    framed_from(b, 0)
}

/// Where an integer ends and what it holds.
struct IntRead {
    end: usize,
    value: usize,
}

fn read_cont(b: &[u8], j: usize, n: usize, m: usize) -> (r: Option<IntRead>)
    requires
        1 <= n <= 4,
        m == pow128(n - 1),
    ensures
        match cont_end(b@, j as int, n as int) {
            Some(e) => r is Some && r->0.end == e && r->0.value == cont_val(b@, j as int, n as int, m as int),
            None => r is None,
        },
        r is Some ==> r->0.value + m <= pow128(5 - n) * m && r->0.end > j && r->0.end <= b@.len(),
    decreases 5 - n,
{
    if j >= b.len() {
        return None;
    }
    let byte = b[j];
    assert(byte & 127u8 < 128u8) by (bit_vector);
    let low = (byte & 127) as usize;
    proof {
        lemma_pow128_step(n as int);
    }
    assert(m <= 2097152);
    if b[j] & 128 == 0 {
        assert(low * m + m <= pow128(5 - n) * m) by (nonlinear_arith)
            requires
                low < 128,
                128 <= pow128(5 - n),
                m >= 1,
        ;
        Some(IntRead { end: j + 1, value: low * m })
    } else if n == 4 {
        None
    } else {
        match read_cont(b, j + 1, n + 1, m * 128) {
            None => None,
            Some(IntRead { end: e, value: v }) => {
                assert(low * m + v + m <= pow128(5 - n) * m) by (nonlinear_arith)
                    requires
                        low < 128,
                        v + m * 128 <= pow128(5 - (n + 1)) * (m * 128),
                        pow128(5 - n) == 128 * pow128(5 - (n + 1)),
                        m >= 1,
                ;
                assert(pow128(5 - n) * m == 268435456);
                Some(IntRead { end: e, value: low * m + v })
            },
        }
    }
}

/// 128 to the power `k`.
pub open spec fn pow128(k: int) -> int
    decreases k,
{
    if k <= 0 {
        1
    } else {
        128 * pow128(k - 1)
    }
}

proof fn lemma_pow128_step(n: int)
    requires
        1 <= n <= 4,
    ensures
        pow128(5 - n) == 128 * pow128(5 - (n + 1)),
        pow128(5 - n) >= 128,
        pow128(n - 1) >= 1,
        pow128(n) == 128 * pow128(n - 1),
        pow128(4) == 268435456,
        pow128(n - 1) <= 2097152,
        pow128(5 - n) * pow128(n - 1) == 268435456,
{
    reveal_with_fuel(pow128, 5);
    assert(pow128(0) == 1 && pow128(1) == 128 && pow128(2) == 16384 && pow128(3) == 2097152);
    if n == 1 {
        assert(pow128(4) * pow128(0) == 268435456);
    } else if n == 2 {
        assert(pow128(3) * pow128(1) == 268435456);
    } else if n == 3 {
        assert(pow128(2) * pow128(2) == 268435456);
    } else {
        assert(pow128(1) * pow128(3) == 268435456);
    }
}

fn read_int(b: &[u8], i: usize, mask: u8) -> (r: Option<IntRead>)
    requires
        mask == 127 || mask == 63 || mask == 31 || mask == 15,
    ensures
        match int_end(b@, i as int, mask) {
            Some(e) => r is Some && r->0.end == e && r->0.value == int_val(b@, i as int, mask),
            None => r is None,
        },
        r is Some ==> r->0.end > i && r->0.end <= b@.len() && r->0.value < 268435456 + 128,
{
    if i >= b.len() {
        return None;
    }
    let first = b[i] & mask;
    if first < mask {
        return Some(IntRead { end: i + 1, value: first as usize });
    }
    proof {
        lemma_pow128_step(1);
        reveal_with_fuel(pow128, 5);
    }
    match read_cont(b, i + 1, 1, 1) {
        None => None,
        Some(IntRead { end: e, value: v }) => Some(IntRead { end: e, value: mask as usize + v }),
    }
}

fn read_str(b: &[u8], s: usize) -> (r: Option<usize>)
    ensures
        match str_end(b@, s as int) {
            Some(e) => r is Some && r->0 == e,
            None => r is None,
        },
        r is Some ==> r->0 > s && r->0 <= b@.len(),
{
    match read_int(b, s, 127) {
        None => None,
        Some(IntRead { end: e, value: len }) => if len <= b.len() - e {
            Some(e + len)
        } else {
            None
        },
    }
}

fn read_literal(b: &[u8], i: usize, mask: u8) -> (r: Option<usize>)
    requires
        mask == 63 || mask == 15,
        i < b@.len(),
    ensures
        match literal_end(b@, i as int, mask) {
            Some(e) => r is Some && r->0 == e,
            None => r is None,
        },
        r is Some ==> r->0 > i && r->0 <= b@.len(),
{
    let e1 = match read_int(b, i, mask) {
        None => return None,
        Some(IntRead { end: e, .. }) => e,
    };
    let e2 = if b[i] & mask == 0 {
        match read_str(b, e1) {
            None => return None,
            Some(e) => e,
        }
    } else {
        e1
    };
    read_str(b, e2)
}

/// Whether every integer and string of the block ends inside it.
pub fn hpack_framed(b: &[u8]) -> (r: bool)
    ensures
        r == hpack_framed_spec(b@),
{
    let mut i: usize = 0;
    while i < b.len()
        invariant
            i <= b@.len(),
            hpack_framed_spec(b@) == framed_from(b@, i as int),
        decreases b.len() - i,
    {
        let o = b[i];
        let end = if o & 128 != 0 {
            match read_int(b, i, 127) {
                Some(IntRead { end: e, .. }) => Some(e),
                None => None,
            }
        } else if o & 64 != 0 {
            read_literal(b, i, 63)
        } else if o & 32 != 0 {
            match read_int(b, i, 31) {
                Some(IntRead { end: e, .. }) => Some(e),
                None => None,
            }
        } else {
            read_literal(b, i, 15)
        };
        assert(match rep_end(b@, i as int) {
            Some(e) => end is Some && end->0 == e,
            None => end is None,
        });
        match end {
            None => return false,
            Some(e) => {
                i = e;
            },
        }
    }
    true
}

} // verus!
