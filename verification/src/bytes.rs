//! Little-endian reads from byte buffers.

use vstd::prelude::*;

verus! {

/// The 32-bit value whose little-endian bytes are `b0, b1, b2, b3`.
pub open spec fn le32(b0: u8, b1: u8, b2: u8, b3: u8) -> u32 {
    (b0 as u32) | ((b1 as u32) << 8) | ((b2 as u32) << 16) | ((b3 as u32) << 24)
}

/// The little-endian 32-bit value stored in `s` at `i`.
pub open spec fn le32_at(s: Seq<u8>, i: int) -> u32 {
    le32(s[i], s[i + 1], s[i + 2], s[i + 3])
}

/// Each byte of a little-endian word can be read back from the word.
pub proof fn lemma_le32_bytes(b0: u8, b1: u8, b2: u8, b3: u8)
    ensures
        le32(b0, b1, b2, b3) & 0xff == b0,
        (le32(b0, b1, b2, b3) >> 8) & 0xff == b1,
        (le32(b0, b1, b2, b3) >> 16) & 0xff == b2,
        le32(b0, b1, b2, b3) >> 24 == b3,
{
    assert(le32(b0, b1, b2, b3) & 0xff == b0 && (le32(b0, b1, b2, b3) >> 8) & 0xff == b1 && (le32(
        b0,
        b1,
        b2,
        b3,
    ) >> 16) & 0xff == b2 && le32(b0, b1, b2, b3) >> 24 == b3) by (bit_vector);
}

/// Two little-endian words are equal only if their bytes are.
pub proof fn lemma_le32_injective(s: Seq<u8>, i: int, j: int)
    requires
        0 <= i,
        i + 4 <= s.len(),
        0 <= j,
        j + 4 <= s.len(),
        le32_at(s, i) == le32_at(s, j),
    ensures
        s[i] == s[j],
        s[i + 1] == s[j + 1],
        s[i + 2] == s[j + 2],
        s[i + 3] == s[j + 3],
{
    lemma_le32_bytes(s[i], s[i + 1], s[i + 2], s[i + 3]);
    lemma_le32_bytes(s[j], s[j + 1], s[j + 2], s[j + 3]);
}

/// Reads the little-endian 32-bit value at `at`.
pub fn read_u32_le(buf: &[u8], at: usize) -> (r: u32)
    requires
        at + 4 <= buf.len(),
    ensures
        r == le32_at(buf@, at as int),
{
    (buf[at] as u32) | ((buf[at + 1] as u32) << 8) | ((buf[at + 2] as u32) << 16) | ((buf[at
        + 3] as u32) << 24)
}

/// Copies `len` bytes of `input`, from `from`, to `output` at `d`.
pub fn copy_into(input: &[u8], from: usize, len: usize, output: &mut [u8], d: usize)
    requires
        from + len <= input.len(),
        d + len <= old(output).len(),
    ensures
        final(output).len() == old(output).len(),
        final(output)@.subrange(0, d + len) == old(output)@.subrange(0, d as int)
            + input@.subrange(from as int, from + len),
        forall|k: int| d + len <= k < old(output).len() ==> final(output)@[k] == old(output)@[k],
{
    let mut k: usize = 0;
    while k < len
        invariant
            k <= len,
            from + len <= input.len(),
            d + len <= output.len(),
            output.len() == old(output).len(),
            output@.subrange(0, d + k) == old(output)@.subrange(0, d as int) + input@.subrange(
                from as int,
                from + k,
            ),
            forall|j: int| d + k <= j < output.len() ==> output@[j] == old(output)@[j],
        decreases len - k,
    {
        let ghost before: Seq<u8> = output@.subrange(0, d + k);
        let b: u8 = input[from + k];
        output[d + k] = b;
        proof {
            assert(output@.subrange(0, d + k + 1) =~= before.push(b));
            assert(input@.subrange(from as int, from + k + 1) =~= input@.subrange(
                from as int,
                from + k,
            ).push(b));
            assert(before.push(b) =~= old(output)@.subrange(0, d as int) + input@.subrange(
                from as int,
                from + k + 1,
            ));
        }
        k += 1;
    }
}

} // verus!
