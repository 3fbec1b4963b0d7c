//! A small serialization trait: each writeable value appends its fixed
//! little-endian encoding to a growing output buffer.

use vstd::prelude::*;
use crate::codec::{u32_le, u64_le};

verus! {

/// A value with a defined byte encoding that can be appended to an output
/// buffer.
pub trait Writeable {
    type Args;

    /// The exact bytes `write_to` appends.
    spec fn encoding(&self, args: Self::Args) -> Seq<u8>;

    /// Appends the encoding of `self` to `out`.
    fn write_to(&self, out: &mut Vec<u8>, args: Self::Args)
        ensures
            final(out)@ == old(out)@ + self.encoding(args),
    ;
}

impl Writeable for u32 {
    type Args = ();

    open spec fn encoding(&self, args: ()) -> Seq<u8> {
        u32_le(*self)
    }

    fn write_to(&self, out: &mut Vec<u8>, args: ()) {
        let x = *self;
        proof {
            assert((x & 0xff) < 256 && ((x >> 8u32) & 0xff) < 256 && ((x >> 16u32) & 0xff) < 256
                && ((x >> 24u32) & 0xff) < 256) by (bit_vector);
        }
        out.push((x & 0xff) as u8);
        out.push(((x >> 8u32) & 0xff) as u8);
        out.push(((x >> 16u32) & 0xff) as u8);
        out.push(((x >> 24u32) & 0xff) as u8);
        proof {
            assert(out@ =~= old(out)@ + u32_le(x));
        }
    }
}

impl Writeable for u64 {
    type Args = ();

    open spec fn encoding(&self, args: ()) -> Seq<u8> {
        u64_le(*self)
    }

    fn write_to(&self, out: &mut Vec<u8>, args: ()) {
        let mut bytes = crate::codec::u64_le_bytes(*self);
        out.append(&mut bytes);
        proof {
            assert(out@ =~= old(out)@ + u64_le(*self));
        }
    }
}

/// Length-prefixed raw bytes: a 32-bit little-endian length, then the bytes
/// themselves. This is how entry names are stored on disk.
impl Writeable for Vec<u8> {
    type Args = ();

    open spec fn encoding(&self, args: ()) -> Seq<u8> {
        u32_le(self@.len() as u32) + self@
    }

    fn write_to(&self, out: &mut Vec<u8>, args: ()) {
        let n: u32 = #[verifier::truncate] (self.len() as u32);
        n.write_to(out, ());
        let mut i: usize = 0;
        let len = self.len();
        let ghost mid = out@;
        while i < len
            invariant
                i <= len == self@.len(),
                out@ == mid + self@.subrange(0, i as int),
            decreases len - i,
        {
            out.push(self[i]);
            i = i + 1;
            proof {
                assert(out@ =~= mid + self@.subrange(0, i as int));
            }
        }
        proof {
            assert(self@.subrange(0, self@.len() as int) =~= self@);
            assert(out@ =~= old(out)@ + (u32_le(self@.len() as u32) + self@));
        }
    }
}

} // verus!
