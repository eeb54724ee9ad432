//! The 256-bit table-lookup kernels, written as safe byte loops: each byte
//! is multiplied through the low and high nibble tables of the coefficient.
use vstd::prelude::*;
use crate::galois::{
    copy_into, fill_zero, lemma_mul_bytes_units, mul_bytes, nibble_mul_into, nibble_mul_xor_into,
    xor_bytes, xor_into,
};

verus! {

/// `out[i] = c * input[i]`
pub fn avx2_mul_slice(c: u8, input: &[u8], out: &mut [u8])
    requires
        input@.len() == old(out)@.len(),
    ensures
        final(out)@ == mul_bytes(c, input@),
{
    let len = input.len();
    if len == 0 {
        assert(out@ =~= mul_bytes(c, input@));
        return ;
    }
    if c == 0 {
        fill_zero(out);
        proof {
            lemma_mul_bytes_units(input@, out@);
        }
        return ;
    }
    if c == 1 {
        copy_into(input, out);
        proof {
            lemma_mul_bytes_units(input@, out@);
        }
        return ;
    }
    nibble_mul_into(c, input, out);
}

/// `out[i] ^= c * input[i]`
pub fn avx2_mul_slice_xor(c: u8, input: &[u8], out: &mut [u8])
    requires
        input@.len() == old(out)@.len(),
    ensures
        final(out)@ == xor_bytes(old(out)@, mul_bytes(c, input@)),
{
    let len = input.len();
    if len == 0 || c == 0 {
        proof {
            lemma_mul_bytes_units(input@, out@);
            assert(xor_bytes(out@, mul_bytes(c, input@)) =~= out@);
        }
        return ;
    }
    if c == 1 {
        let ghost before = out@;
        xor_into(input, out);
        proof {
            lemma_mul_bytes_units(input@, before);
        }
        return ;
    }
    nibble_mul_xor_into(c, input, out);
}

} // verus!
