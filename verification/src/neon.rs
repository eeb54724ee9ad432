//! The 128-bit table-lookup kernels, written as safe byte loops: each byte
//! is multiplied through the low and high nibble tables of the coefficient.
use vstd::prelude::*;
use crate::galois::{
    copy_into, fill_zero, gf_mul, lemma_mul_bytes_units, mul_bytes, nibble_mul_into,
    nibble_mul_xor_into, xor_bytes, xor_into,
};
use crate::linalg::{dot, xsum, dot_terms};
use crate::field::{lemma_gmul_units, lemma_xor};

verus! {

/// The contents of a list of byte slices.
pub open spec fn slices_view(s: Seq<&[u8]>) -> Seq<Seq<u8>> {
    Seq::new(s.len(), |i: int| s[i]@)
}

/// Byte `b` of each output is the dot product of `row` with byte `b` of the
/// shreds.
pub open spec fn combine(row: Seq<u8>, shreds: Seq<Seq<u8>>, len: nat) -> Seq<u8> {
    Seq::new(len, |b: int| dot(row, shreds, b, row.len()))
}

/// Multiplication of a byte slice by a Galois field constant `c`:
/// `out[i] = c * input[i]`
pub fn neon_mul_slice(c: u8, input: &[u8], out: &mut [u8])
    requires
        input@.len() == old(out)@.len(),
    ensures
        final(out)@ == mul_bytes(c, input@),
{
    let len = input.len();
    if len == 0 {
        assert(out@ =~= mul_bytes(c, input@));
        return ;
    }
    if c == 0 {
        fill_zero(out);
        proof {
            lemma_mul_bytes_units(input@, out@);
        }
        return ;
    }
    if c == 1 {
        copy_into(input, out);
        proof {
            lemma_mul_bytes_units(input@, out@);
        }
        return ;
    }
    nibble_mul_into(c, input, out);
}

/// Multiplication and XOR accumulation into a byte slice:
/// `out[i] ^= c * input[i]`
pub fn neon_mul_slice_xor(c: u8, input: &[u8], out: &mut [u8])
    requires
        input@.len() == old(out)@.len(),
    ensures
        final(out)@ == xor_bytes(old(out)@, mul_bytes(c, input@)),
{
    let len = input.len();
    if len == 0 || c == 0 {
        proof {
            lemma_mul_bytes_units(input@, out@);
            assert(xor_bytes(out@, mul_bytes(c, input@)) =~= out@);
        }
        return ;
    }
    if c == 1 {
        let ghost before = out@;
        neon_slice_xor(input, out);
        proof {
            lemma_mul_bytes_units(input@, before);
        }
        return ;
    }
    nibble_mul_xor_into(c, input, out);
}

/// XOR: `out[i] ^= input[i]`
pub fn neon_slice_xor(input: &[u8], out: &mut [u8])
    requires
        input@.len() == old(out)@.len(),
    ensures
        final(out)@ == xor_bytes(old(out)@, input@),
{
    xor_into(input, out);
}

/// Computes a full parity shred directly into `out_parity`:
/// byte `b` of the output is the sum over `i` of `parity_row[i] * data_shreds[i][b]`.
/// With no coefficients or an empty output, nothing is written.
pub fn neon_encode_parity_shred(parity_row: &[u8], data_shreds: &[&[u8]], out_parity: &mut [u8])
    requires
        parity_row@.len() == data_shreds@.len(),
        forall|i: int|
            0 <= i < data_shreds@.len() && parity_row@[i] != 0 ==> #[trigger] data_shreds@[i]@.len()
                >= old(out_parity)@.len(),
    ensures
        final(out_parity)@.len() == old(out_parity)@.len(),
        parity_row@.len() == 0 || old(out_parity)@.len() == 0 ==> final(out_parity)@ == old(
            out_parity,
        )@,
        parity_row@.len() > 0 ==> final(out_parity)@ == combine(
            parity_row@,
            slices_view(data_shreds@),
            old(out_parity)@.len(),
        ),
{
    let k = parity_row.len();
    let len = out_parity.len();
    if len == 0 || k == 0 {
        proof {
            if k > 0 {
                assert(out_parity@ =~= combine(parity_row@, slices_view(data_shreds@), len as nat));
            }
        }
        return ;
    }
    let ghost shreds = slices_view(data_shreds@);
    let mut offset: usize = 0;
    while offset < len
        invariant
            k == parity_row@.len(),
            k == data_shreds@.len(),
            shreds == slices_view(data_shreds@),
            len == out_parity@.len(),
            forall|i: int| 0 <= i < k && parity_row@[i] != 0 ==> #[trigger] data_shreds@[i]@.len() >= len,
            offset <= len,
            forall|b: int| 0 <= b < offset ==> out_parity@[b] == dot(parity_row@, shreds, b, k as nat),
        decreases len - offset,
    {
        let mut acc: u8 = 0;
        let mut i: usize = 0;
        while i < k
            invariant
                k == parity_row@.len(),
                k == data_shreds@.len(),
                shreds == slices_view(data_shreds@),
                forall|i: int| 0 <= i < k && parity_row@[i] != 0 ==> #[trigger] data_shreds@[i]@.len() >= len,
                offset < len,
                i <= k,
                acc == xsum(dot_terms(parity_row@, shreds, offset as int), i as nat),
            decreases k - i,
        {
            let c = parity_row[i];
            if c != 0 {
                let b = data_shreds[i][offset];
                acc = acc ^ gf_mul(c, b);
            } else {
                proof {
                    lemma_gmul_units(shreds[i as int][offset as int]);
                    lemma_xor(acc, 0, 0);
                }
            }
            i += 1;
        }
        out_parity[offset] = acc;
        offset += 1;
    }
    assert(out_parity@ =~= combine(parity_row@, shreds, len as nat));
}

} // verus!
