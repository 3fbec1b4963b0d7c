//! Little-endian integer encodings: the fixed-width primitives every archive
//! field is built from.

use vstd::prelude::*;

verus! {

/// The four bytes of `x` in little-endian order.
pub open spec fn u32_le(x: u32) -> Seq<u8> {
    seq![
        (x & 0xff) as u8,
        ((x >> 8) & 0xff) as u8,
        ((x >> 16) & 0xff) as u8,
        ((x >> 24) & 0xff) as u8,
    ]
}

/// The eight bytes of `x` in little-endian order.
pub open spec fn u64_le(x: u64) -> Seq<u8> {
    seq![
        (x & 0xff) as u8,
        ((x >> 8) & 0xff) as u8,
        ((x >> 16) & 0xff) as u8,
        ((x >> 24) & 0xff) as u8,
        ((x >> 32) & 0xff) as u8,
        ((x >> 40) & 0xff) as u8,
        ((x >> 48) & 0xff) as u8,
        ((x >> 56) & 0xff) as u8,
    ]
}

/// The `u32` whose little-endian bytes are `b`.
pub open spec fn u32_of_le(b: Seq<u8>) -> u32
    recommends
        b.len() == 4,
{
    (b[0] as u32) | ((b[1] as u32) << 8) | ((b[2] as u32) << 16) | ((b[3] as u32) << 24)
}

/// The `u64` whose little-endian bytes are `b`.
pub open spec fn u64_of_le(b: Seq<u8>) -> u64
    recommends
        b.len() == 8,
{
    (b[0] as u64) | ((b[1] as u64) << 8) | ((b[2] as u64) << 16) | ((b[3] as u64) << 24)
        | ((b[4] as u64) << 32) | ((b[5] as u64) << 40) | ((b[6] as u64) << 48)
        | ((b[7] as u64) << 56)
}

/// Reading back the little-endian bytes of a `u32` recovers it.
pub proof fn lemma_u32_le_round_trip(x: u32)
    ensures
        u32_of_le(u32_le(x)) == x,
{
    assert(((x & 0xff) as u8 as u32) | ((((x >> 8) & 0xff) as u8 as u32) << 8)
        | ((((x >> 16) & 0xff) as u8 as u32) << 16) | ((((x >> 24) & 0xff) as u8 as u32) << 24)
        == x) by (bit_vector);
}

/// Reading back the little-endian bytes of a `u64` recovers it.
pub proof fn lemma_u64_le_round_trip(x: u64)
    ensures
        u64_of_le(u64_le(x)) == x,
{
    assert(((x & 0xff) as u8 as u64) | ((((x >> 8) & 0xff) as u8 as u64) << 8)
        | ((((x >> 16) & 0xff) as u8 as u64) << 16) | ((((x >> 24) & 0xff) as u8 as u64) << 24)
        | ((((x >> 32) & 0xff) as u8 as u64) << 32) | ((((x >> 40) & 0xff) as u8 as u64) << 40)
        | ((((x >> 48) & 0xff) as u8 as u64) << 48) | ((((x >> 56) & 0xff) as u8 as u64) << 56)
        == x) by (bit_vector);
}

/// Reads the little-endian `u32` stored at `pos`.
pub fn read_u32_at(b: &Vec<u8>, pos: usize) -> (r: u32)
    requires
        pos + 4 <= b@.len(),
    ensures
        r == u32_of_le(b@.subrange(pos as int, pos as int + 4)),
{
    let _blen = b.len();
    let b0 = b[pos] as u32;
    let b1 = b[pos + 1] as u32;
    let b2 = b[pos + 2] as u32;
    let b3 = b[pos + 3] as u32;
    let r = b0 | (b1 << 8u32) | (b2 << 16u32) | (b3 << 24u32);
    proof {
        let s = b@.subrange(pos as int, pos as int + 4);
        assert(s[0] == b@[pos as int] && s[1] == b@[pos as int + 1] && s[2] == b@[pos as int + 2]
            && s[3] == b@[pos as int + 3]);
    }
    r
}

/// Reads the little-endian `u64` stored at `pos`.
pub fn read_u64_at(b: &Vec<u8>, pos: usize) -> (r: u64)
    requires
        pos + 8 <= b@.len(),
    ensures
        r == u64_of_le(b@.subrange(pos as int, pos as int + 8)),
{
    let _blen = b.len();
    let b0 = b[pos] as u64;
    let b1 = b[pos + 1] as u64;
    let b2 = b[pos + 2] as u64;
    let b3 = b[pos + 3] as u64;
    let b4 = b[pos + 4] as u64;
    let b5 = b[pos + 5] as u64;
    let b6 = b[pos + 6] as u64;
    let b7 = b[pos + 7] as u64;
    let r = b0 | (b1 << 8u64) | (b2 << 16u64) | (b3 << 24u64) | (b4 << 32u64) | (b5 << 40u64)
        | (b6 << 48u64) | (b7 << 56u64);
    proof {
        let s = b@.subrange(pos as int, pos as int + 8);
        assert(s[0] == b@[pos as int] && s[1] == b@[pos as int + 1] && s[2] == b@[pos as int + 2]
            && s[3] == b@[pos as int + 3] && s[4] == b@[pos as int + 4]
            && s[5] == b@[pos as int + 5] && s[6] == b@[pos as int + 6]
            && s[7] == b@[pos as int + 7]);
    }
    r
}

/// Reads the 16 raw bytes stored at `pos` into a fixed-size array.
pub fn read_16_at(b: &Vec<u8>, pos: usize) -> (r: [u8; 16])
    requires
        pos + 16 <= b@.len(),
    ensures
        r@ == b@.subrange(pos as int, pos as int + 16),
{
    let blen = b.len();
    let mut r: [u8; 16] = [0u8; 16];
    let mut i: usize = 0;
    while i < 16
        invariant
            i <= 16,
            pos + 16 <= blen == b@.len(),
            r@.len() == 16,
            forall|j: int| 0 <= j < i ==> r@[j] == b@[pos + j],
        decreases 16 - i,
    {
        r[i] = b[pos + i];
        i = i + 1;
    }
    proof {
        assert(r@ =~= b@.subrange(pos as int, pos as int + 16));
    }
    r
}

/// Copies `v[start..end]` into a fresh vector.
pub fn slice_range(v: &Vec<u8>, start: usize, end: usize) -> (r: Vec<u8>)
    requires
        start <= end <= v@.len(),
    ensures
        r@ == v@.subrange(start as int, end as int),
{
    let mut r: Vec<u8> = Vec::new();
    let mut i = start;
    while i < end
        invariant
            start <= i <= end <= v@.len(),
            r@ == v@.subrange(start as int, i as int),
        decreases end - i,
    {
        r.push(v[i]);
        i = i + 1;
        proof {
            assert(r@ =~= v@.subrange(start as int, i as int));
        }
    }
    r
}

/// Appends all of `src` to `out`.
pub fn append_bytes(out: &mut Vec<u8>, src: &Vec<u8>)
    ensures
        final(out)@ == old(out)@ + src@,
{
    let n = src.len();
    let mut i: usize = 0;
    while i < n
        invariant
            i <= n,
            n == src@.len(),
            out@ == old(out)@ + src@.subrange(0, i as int),
        decreases n - i,
    {
        out.push(src[i]);
        i = i + 1;
        proof {
            assert(out@ =~= old(out)@ + src@.subrange(0, i as int));
        }
    }
    proof {
        assert(src@.subrange(0, n as int) =~= src@);
    }
}

/// Overwrites the eight bytes at `pos` with the little-endian form of `val`.
pub fn patch_u64_at(out: &mut Vec<u8>, pos: usize, val: u64)
    requires
        pos + 8 <= old(out)@.len(),
    ensures
        final(out)@.len() == old(out)@.len(),
        final(out)@ == old(out)@.subrange(0, pos as int) + u64_le(val) + old(out)@.subrange(
            pos as int + 8,
            old(out)@.len() as int,
        ),
{
    let ghost orig = out@;
    let n = out.len();
    let bytes = u64_le_bytes(val);
    let mut i: usize = 0;
    while i < 8
        invariant
            i <= 8,
            pos + 8 <= n == orig.len(),
            bytes@ == u64_le(val),
            out@.len() == orig.len(),
            forall|j: int| 0 <= j < orig.len() && !(pos <= j < pos + i) ==> out@[j] == orig[j],
            forall|j: int| pos <= j < pos + i ==> out@[j] == u64_le(val)[j - pos],
        decreases 8 - i,
    {
        out[pos + i] = bytes[i];
        i = i + 1;
    }
    proof {
        assert(out@ =~= orig.subrange(0, pos as int) + u64_le(val) + orig.subrange(
            pos as int + 8,
            orig.len() as int,
        ));
    }
}

/// The eight little-endian bytes of `val` as a vector.
pub fn u64_le_bytes(val: u64) -> (r: Vec<u8>)
    ensures
        r@ == u64_le(val),
{
    let mut r: Vec<u8> = Vec::new();
    proof {
        assert((val & 0xff) < 256 && ((val >> 8u64) & 0xff) < 256 && ((val >> 16u64) & 0xff) < 256
            && ((val >> 24u64) & 0xff) < 256 && ((val >> 32u64) & 0xff) < 256
            && ((val >> 40u64) & 0xff) < 256 && ((val >> 48u64) & 0xff) < 256
            && ((val >> 56u64) & 0xff) < 256) by (bit_vector);
    }
    r.push((val & 0xff) as u8);
    r.push(((val >> 8u64) & 0xff) as u8);
    r.push(((val >> 16u64) & 0xff) as u8);
    r.push(((val >> 24u64) & 0xff) as u8);
    r.push(((val >> 32u64) & 0xff) as u8);
    r.push(((val >> 40u64) & 0xff) as u8);
    r.push(((val >> 48u64) & 0xff) as u8);
    r.push(((val >> 56u64) & 0xff) as u8);
    proof {
        assert(r@ =~= u64_le(val));
    }
    r
}

} // verus!
