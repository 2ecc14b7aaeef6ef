//! Little- and big-endian byte encodings of 32-bit unsigned integers.
//!
//! The comment-header payload stores its length fields little-endian, while
//! the picture block stores its fields big-endian; both sub-formats follow
//! their own upstream conventions.

use vstd::prelude::*;

verus! {

/// The four little-endian bytes of `x`, least significant first.
pub open spec fn u32_le_bytes(x: u32) -> Seq<u8> {
    seq![
        (x & 0xff) as u8,
        ((x >> 8u32) & 0xff) as u8,
        ((x >> 16u32) & 0xff) as u8,
        ((x >> 24u32) & 0xff) as u8,
    ]
}

/// The four big-endian bytes of `x`, most significant first.
pub open spec fn u32_be_bytes(x: u32) -> Seq<u8> {
    seq![
        ((x >> 24u32) & 0xff) as u8,
        ((x >> 16u32) & 0xff) as u8,
        ((x >> 8u32) & 0xff) as u8,
        (x & 0xff) as u8,
    ]
}

/// The value stored by four little-endian bytes, least significant first.
pub open spec fn u32_of_le(b0: u8, b1: u8, b2: u8, b3: u8) -> u32 {
    (b0 as u32) | ((b1 as u32) << 8u32) | ((b2 as u32) << 16u32) | ((b3 as u32) << 24u32)
}

/// The value stored by four big-endian bytes, most significant first.
pub open spec fn u32_of_be(b0: u8, b1: u8, b2: u8, b3: u8) -> u32 {
    u32_of_le(b3, b2, b1, b0)
}

/// Reading back the four little-endian bytes of `x` yields `x`.
pub proof fn lemma_u32_le_roundtrip(x: u32)
    ensures
        u32_of_le(
            (x & 0xff) as u8,
            ((x >> 8u32) & 0xff) as u8,
            ((x >> 16u32) & 0xff) as u8,
            ((x >> 24u32) & 0xff) as u8,
        ) == x,
{
    assert(((x & 0xff) as u8 as u32) | (((x >> 8u32) & 0xff) as u8 as u32) << 8u32 | (((x
        >> 16u32) & 0xff) as u8 as u32) << 16u32 | (((x >> 24u32) & 0xff) as u8 as u32) << 24u32
        == x) by (bit_vector);
}

/// Reading back the four big-endian bytes of `x` yields `x`.
pub proof fn lemma_u32_be_roundtrip(x: u32)
    ensures
        u32_of_be(
            ((x >> 24u32) & 0xff) as u8,
            ((x >> 16u32) & 0xff) as u8,
            ((x >> 8u32) & 0xff) as u8,
            (x & 0xff) as u8,
        ) == x,
{
    lemma_u32_le_roundtrip(x);
}

/// Appends the little-endian bytes of `x` to `out`.
pub fn push_u32_le(out: &mut Vec<u8>, x: u32)
    ensures
        final(out)@ == old(out)@ + u32_le_bytes(x),
{
    out.push((x & 0xff) as u8);
    out.push(((x >> 8u32) & 0xff) as u8);
    out.push(((x >> 16u32) & 0xff) as u8);
    out.push(((x >> 24u32) & 0xff) as u8);
    assert(out@ =~= old(out)@ + u32_le_bytes(x));
}

/// Appends the big-endian bytes of `x` to `out`.
pub fn push_u32_be(out: &mut Vec<u8>, x: u32)
    ensures
        final(out)@ == old(out)@ + u32_be_bytes(x),
{
    out.push(((x >> 24u32) & 0xff) as u8);
    out.push(((x >> 16u32) & 0xff) as u8);
    out.push(((x >> 8u32) & 0xff) as u8);
    out.push((x & 0xff) as u8);
    assert(out@ =~= old(out)@ + u32_be_bytes(x));
}

/// A window into a matching stretch of a longer sequence matches the same
/// window of the shorter one.
pub proof fn lemma_window(b: Seq<u8>, pos: int, s: Seq<u8>, lo: int, hi: int)
    requires
        0 <= pos,
        pos + s.len() <= b.len(),
        b.subrange(pos, pos + s.len()) == s,
        0 <= lo <= hi <= s.len(),
    ensures
        b.subrange(pos + lo, pos + hi) == s.subrange(lo, hi),
{
    assert(b.subrange(pos + lo, pos + hi) =~= s.subrange(lo, hi)) by {
        assert forall|i: int| 0 <= i < hi - lo implies b.subrange(pos + lo, pos + hi)[i]
            == s.subrange(lo, hi)[i] by {
            assert(b.subrange(pos, pos + s.len())[lo + i] == b[pos + lo + i]);
        }
    }
}

/// Appends all bytes of `src` to `out`.
pub fn push_all(out: &mut Vec<u8>, src: &[u8])
    ensures
        final(out)@ == old(out)@ + src@,
{
    let n = src.len();
    let mut k: usize = 0;
    while k < n
        invariant
            n == src@.len(),
            0 <= k <= n,
            out@ == old(out)@ + src@.subrange(0, k as int),
        decreases n - k,
    {
        out.push(src[k]);
        proof {
            assert(old(out)@ + src@.subrange(0, k + 1) =~= (old(out)@ + src@.subrange(
                0,
                k as int,
            )).push(src@[k as int]));
        }
        k += 1;
    }
    proof {
        assert(src@.subrange(0, n as int) =~= src@);
    }
}

/// Appends `n` zero bytes to `out`.
pub fn push_zeros(out: &mut Vec<u8>, n: usize)
    ensures
        final(out)@ == old(out)@ + Seq::new(n as nat, |i: int| 0u8),
{
    let mut k: usize = 0;
    while k < n
        invariant
            0 <= k <= n,
            out@ == old(out)@ + Seq::new(k as nat, |i: int| 0u8),
        decreases n - k,
    {
        out.push(0u8);
        proof {
            assert(old(out)@ + Seq::new((k + 1) as nat, |i: int| 0u8) =~= (old(out)@ + Seq::new(
                k as nat,
                |i: int| 0u8,
            )).push(0u8));
        }
        k += 1;
    }
}

/// Reads a little-endian 32-bit value from `b` at offset `off`.
pub fn read_u32_le(b: &[u8], off: usize) -> (x: u32)
    requires
        off + 4 <= b@.len(),
    ensures
        x == u32_of_le(b@[off as int], b@[off + 1], b@[off + 2], b@[off + 3]),
{
    let _n: usize = b.len();
    (b[off] as u32) | ((b[off + 1] as u32) << 8u32) | ((b[off + 2] as u32) << 16u32) | ((b[off
        + 3] as u32) << 24u32)
}

/// Reads a big-endian 32-bit value from `b` at offset `off`.
pub fn read_u32_be(b: &[u8], off: usize) -> (x: u32)
    requires
        off + 4 <= b@.len(),
    ensures
        x == u32_of_be(b@[off as int], b@[off + 1], b@[off + 2], b@[off + 3]),
{
    let _n: usize = b.len();
    (b[off + 3] as u32) | ((b[off + 2] as u32) << 8u32) | ((b[off + 1] as u32) << 16u32) | ((
    b[off] as u32) << 24u32)
}

} // verus!
