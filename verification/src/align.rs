//! Alignment policy: the padding inserted after the entry table and after each
//! payload block. Alignment 0 disables padding entirely.

use vstd::prelude::*;

verus! {

/// `n` zero bytes (empty for `n <= 0`).
pub open spec fn zeros(n: int) -> Seq<u8> {
    if n >= 0 {
        Seq::new(n as nat, |i: int| 0u8)
    } else {
        Seq::empty()
    }
}

/// The smallest count of padding bytes that makes `len + count` a multiple of
/// `alignment`; 0 when alignment is disabled.
pub open spec fn pad_len(len: int, alignment: int) -> int {
    if alignment <= 0 {
        0
    } else if len % alignment == 0 {
        0
    } else {
        alignment - len % alignment
    }
}

/// `len` rounded up to the next multiple of `alignment`.
pub open spec fn align_up(len: int, alignment: int) -> int {
    len + pad_len(len, alignment)
}

/// Law: the padding is the smallest non-negative count reaching a multiple of
/// the alignment, and a disabled alignment never pads.
pub proof fn lemma_pad_len(len: int, alignment: int)
    requires
        len >= 0,
    ensures
        0 <= pad_len(len, alignment),
        alignment > 0 ==> pad_len(len, alignment) < alignment,
        alignment > 0 ==> align_up(len, alignment) % alignment == 0,
        alignment > 0 ==> forall|c: int|
            0 <= c < pad_len(len, alignment) ==> #[trigger] ((len + c) % alignment) != 0,
        alignment == 0 ==> align_up(len, alignment) == len,
{
    if alignment > 0 {
        let a = alignment;
        vstd::arithmetic::div_mod::lemma_mod_bound(len, a);
        let r = len % a;
        let q = len / a;
        vstd::arithmetic::div_mod::lemma_fundamental_div_mod(len, a);
        assert(len == a * q + r);
        if r != 0 {
            assert(len + (a - r) == (q + 1) * a + 0) by (nonlinear_arith)
                requires
                    len == a * q + r,
            ;
            vstd::arithmetic::div_mod::lemma_fundamental_div_mod_converse_mod(
                len + (a - r),
                a,
                q + 1,
                0,
            );
        }
        assert forall|c: int| 0 <= c < pad_len(len, alignment) implies #[trigger] ((len + c)
            % alignment) != 0 by {
            assert(len + c == q * a + (r + c)) by (nonlinear_arith)
                requires
                    len == a * q + r,
            ;
            vstd::arithmetic::div_mod::lemma_fundamental_div_mod_converse_mod(len + c, a, q, r + c);
        }
    }
}

/// Computes the padding the alignment policy asks for at the given length.
pub fn padding_for(current_len: usize, alignment: usize) -> (r: usize)
    ensures
        r as int == pad_len(current_len as int, alignment as int),
{
    if alignment == 0 {
        0
    } else {
        let rem = current_len % alignment;
        if rem == 0 {
            0
        } else {
            alignment - rem
        }
    }
}

/// Appends zero bytes until the buffer length is a multiple of `alignment`.
pub fn pad_to_alignment(out: &mut Vec<u8>, alignment: usize)
    ensures
        final(out)@ == old(out)@ + zeros(pad_len(old(out)@.len() as int, alignment as int)),
        final(out)@.len() == align_up(old(out)@.len() as int, alignment as int),
{
    let p = padding_for(out.len(), alignment);
    let mut i: usize = 0;
    while i < p
        invariant
            i <= p,
            out@ == old(out)@ + zeros(i as int),
        decreases p - i,
    {
        out.push(0);
        i = i + 1;
        proof {
            assert(out@ =~= old(out)@ + zeros(i as int));
        }
    }
    proof {
        lemma_pad_len(old(out)@.len() as int, alignment as int);
    }
}

} // verus!
