//! Compression of a byte buffer into one block: a length prefix, then
//! literals and copies found by a single greedy pass over the input.

use crate::block::{
    copy_bytes, decode_elements, extend, lemma_decode_elements_append, lemma_extend_add,
    lemma_extend_len, lemma_extend_matches, lemma_step_copy, lemma_step_literal, literal_bytes,
    literal_head,
};
use crate::bytes::{copy_into, le32_at, lemma_le32_injective, read_u32_le};
use crate::decompress::{decompress_len_spec, decompress_spec};
use crate::error::{Error, MAX_INPUT_SIZE};
use crate::varint::{encode_into, encode_spec, lemma_decode_encode, lemma_encode_len};
use vstd::prelude::*;

verus! {

/// The input is compressed in pieces of at most this many bytes; no copy
/// reaches back across the start of a piece.
pub const MAX_BLOCK_SIZE: usize = 0x1_0000;

/// Matches are not searched for in the last bytes of a piece.
pub const INPUT_MARGIN: usize = 15;

/// A piece shorter than this is stored as one literal.
pub const MIN_NON_LITERAL_BLOCK_SIZE: usize = 17;

/// The largest number of entries that the table of seen positions uses.
pub const MAX_TABLE_SIZE: usize = 0x4000;

/// The most bytes that compressing `n` bytes can take: `32 + n + n/6`,
/// with the quotient rounded up.
pub open spec fn compress_bound(n: int) -> int {
    32 + n + (n + 5) / 6
}

/// What `max_compressed_len` returns: the bound, or zero where the input is
/// longer than the format allows or the bound is not a `usize`.
pub open spec fn max_compressed_len_spec(n: usize) -> usize {
    if n > MAX_INPUT_SIZE || compress_bound(n as int) > usize::MAX {
        0
    } else {
        compress_bound(n as int) as usize
    }
}

/// The bytes `c` are elements that start at `start` and together produce
/// `data`, none of them going beyond `limit` bytes of output.
pub open spec fn encoded(c: Seq<u8>, start: int, data: Seq<u8>, limit: int) -> bool {
    decode_elements(c, start, Seq::<u8>::empty(), limit) == Some(data)
}

/// `block` is the length of `data` as a length prefix, then elements that
/// produce `data`: what `compress` writes.
pub open spec fn is_block_of(block: Seq<u8>, data: Seq<u8>) -> bool {
    let head: int = encode_spec(data.len()).len() as int;
    &&& data.len() <= MAX_INPUT_SIZE
    &&& head <= block.len()
    &&& block.subrange(0, head) == encode_spec(data.len())
    &&& encoded(block, head, data, data.len() as int)
}

/// Compression can be undone: a block written for `data` decompresses to
/// `data`, and declares the length of `data`.
pub proof fn lemma_roundtrip(data: Seq<u8>, block: Seq<u8>)
    requires
        is_block_of(block, data),
    ensures
        decompress_spec(block) == Ok::<Seq<u8>, Error>(data),
        decompress_len_spec(block) == Ok::<usize, Error>(data.len() as usize),
{
    let n: nat = data.len();
    let head: int = encode_spec(n).len() as int;
    let rest: Seq<u8> = block.subrange(head, block.len() as int);
    assert(block =~= encode_spec(n) + rest);
    lemma_encode_len(n);
    lemma_decode_encode(n as u64, rest);
}

/// The number of table entries in use for a given hash shift.
pub open spec fn table_size(shift: u32) -> usize {
    if shift >= 24 {
        0x100
    } else if shift == 23 {
        0x200
    } else if shift == 22 {
        0x400
    } else if shift == 21 {
        0x800
    } else if shift == 20 {
        0x1000
    } else if shift == 19 {
        0x2000
    } else {
        0x4000
    }
}

/// Returns the size that an output buffer must have for `compress` to
/// accept an input of `input_len` bytes: `32 + input_len + input_len / 6`,
/// the quotient rounded up. Returns 0 if `input_len` is more than
/// `MAX_INPUT_SIZE`, or if the size does not fit in a `usize`.
pub fn max_compressed_len(input_len: usize) -> (r: usize)
    ensures
        r == max_compressed_len_spec(input_len),
{
    let n: u64 = input_len as u64;
    if n > MAX_INPUT_SIZE {
        return 0;
    }
    let max: u64 = 32 + n + (n + 5) / 6;
    if max > usize::MAX as u64 {
        0
    } else {
        max as usize
    }
}

/// A literal appended to a valid run of elements keeps the run valid.
proof fn lemma_append_literal(
    before: Seq<u8>,
    after: Seq<u8>,
    start: int,
    out: Seq<u8>,
    lit: Seq<u8>,
    limit: int,
)
    requires
        0 <= start <= before.len(),
        encoded(before, start, out, limit),
        1 <= lit.len() <= 0x1_0000,
        out.len() + lit.len() <= limit,
        after.len() == before.len() + literal_bytes(lit).len(),
        after.subrange(0, before.len() as int) == before,
        after.subrange(before.len() as int, after.len() as int) == literal_bytes(lit),
    ensures
        encoded(after, start, out + lit, limit),
{
    let more: Seq<u8> = literal_bytes(lit);
    assert(after =~= before + more);
    lemma_step_literal(after, before.len() as int, lit, out, limit);
    lemma_decode_elements_append(before, more, start, Seq::<u8>::empty(), out, out + lit, limit);
}

/// A copy appended to a valid run of elements keeps the run valid.
proof fn lemma_append_copy(
    before: Seq<u8>,
    after: Seq<u8>,
    start: int,
    out: Seq<u8>,
    offset: int,
    len: int,
    limit: int,
)
    requires
        0 <= start <= before.len(),
        encoded(before, start, out, limit),
        4 <= len <= 64,
        1 <= offset < 0x1_0000,
        offset <= out.len(),
        out.len() + len <= limit,
        after.len() == before.len() + copy_bytes(offset, len).len(),
        after.subrange(0, before.len() as int) == before,
        after.subrange(before.len() as int, after.len() as int) == copy_bytes(offset, len),
    ensures
        encoded(after, start, extend(out, offset, len as nat), limit),
{
    let more: Seq<u8> = copy_bytes(offset, len);
    assert(after =~= before + more);
    lemma_step_copy(after, before.len() as int, offset, len, out, limit);
    lemma_decode_elements_append(
        before,
        more,
        start,
        Seq::<u8>::empty(),
        out,
        extend(out, offset, len as nat),
        limit,
    );
}

/// Writes the literal element for `input[from..to]` to `dst` at `d` and
/// returns where it ends.
fn emit_literal(input: &[u8], from: usize, to: usize, dst: &mut [u8], d: usize) -> (end: usize)
    requires
        from < to <= input.len(),
        to - from <= MAX_BLOCK_SIZE,
        d + (to - from) + 3 <= old(dst).len(),
    ensures
        final(dst).len() == old(dst).len(),
        end == d + literal_bytes(input@.subrange(from as int, to as int)).len(),
        end - d == (to - from) + (if to - from <= 60 {
            1int
        } else if to - from <= 256 {
            2int
        } else {
            3int
        }),
        final(dst)@.subrange(d as int, end as int) == literal_bytes(
            input@.subrange(from as int, to as int),
        ),
        forall|k: int|
            0 <= k < d || end <= k < old(dst).len() ==> final(dst)@[k] == old(dst)@[k],
{
    let len: usize = to - from;
    let m: usize = len - 1;
    let mut p: usize = d;
    if m < 60 {
        dst[p] = (m * 4) as u8;
        p += 1;
    } else if m < 0x100 {
        // 60 in the upper six bits: one byte of length follows.
        dst[p] = 240;
        dst[p + 1] = m as u8;
        p += 2;
    } else {
        // 61 in the upper six bits: two bytes of length follow.
        dst[p] = 244;
        dst[p + 1] = (m % 0x100) as u8;
        dst[p + 2] = (m / 0x100) as u8;
        p += 3;
    }
    let ghost head: Seq<u8> = literal_head(len as int);
    let ghost mid: Seq<u8> = dst@;
    assert(mid.subrange(d as int, p as int) =~= head);
    copy_into(input, from, len, dst, p);
    proof {
        let lit: Seq<u8> = input@.subrange(from as int, to as int);
        let end: int = p + len;
        assert(dst@.subrange(0, end).subrange(d as int, end) =~= dst@.subrange(d as int, end));
        assert(mid.subrange(0, p as int).subrange(d as int, p as int) =~= head);
        assert(dst@.subrange(d as int, end) =~= head + lit);
        assert forall|k: int| 0 <= k < d implies dst@[k] == old(dst)@[k] by {
            assert(dst@.subrange(0, end)[k] == mid.subrange(0, p as int)[k]);
        }
    }
    p + len
}

/// Writes the element for one copy of `len` bytes from `offset` back to
/// `dst` at `d` and returns where it ends.
fn emit_copy_element(dst: &mut [u8], d: usize, offset: usize, len: usize) -> (end: usize)
    requires
        1 <= offset < 0x1_0000,
        4 <= len <= 64,
        d + 3 <= old(dst).len(),
    ensures
        final(dst).len() == old(dst).len(),
        end == d + copy_bytes(offset as int, len as int).len(),
        d + 2 <= end <= d + 3,
        final(dst)@.subrange(d as int, end as int) == copy_bytes(offset as int, len as int),
        forall|k: int|
            0 <= k < d || end <= k < old(dst).len() ==> final(dst)@[k] == old(dst)@[k],
{
    if len < 12 && offset < 0x800 {
        dst[d] = ((offset / 0x100) * 32 + (len - 4) * 4 + 1) as u8;
        dst[d + 1] = (offset % 0x100) as u8;
        assert(dst@.subrange(d as int, d + 2) =~= copy_bytes(offset as int, len as int));
        d + 2
    } else {
        dst[d] = ((len - 1) * 4 + 2) as u8;
        dst[d + 1] = (offset % 0x100) as u8;
        dst[d + 2] = (offset / 0x100) as u8;
        assert(dst@.subrange(d as int, d + 3) =~= copy_bytes(offset as int, len as int));
        d + 3
    }
}

/// Writes one copy element and shows that the run of elements stays
/// valid.
fn emit_copy_step(
    dst: &mut [u8],
    d: usize,
    offset: usize,
    len: usize,
    Ghost(start): Ghost<int>,
    Ghost(out): Ghost<Seq<u8>>,
    Ghost(limit): Ghost<int>,
) -> (end: usize)
    requires
        1 <= offset < 0x1_0000,
        offset <= out.len(),
        4 <= len <= 64,
        0 <= start <= d,
        d + 3 <= old(dst).len(),
        out.len() + len <= limit,
        encoded(old(dst)@.subrange(0, d as int), start, out, limit),
    ensures
        final(dst).len() == old(dst).len(),
        d + 2 <= end <= d + 3,
        encoded(
            final(dst)@.subrange(0, end as int),
            start,
            extend(out, offset as int, len as nat),
            limit,
        ),
        forall|k: int|
            0 <= k < d || end <= k < old(dst).len() ==> final(dst)@[k] == old(dst)@[k],
{
    let end: usize = emit_copy_element(dst, d, offset, len);
    proof {
        let before: Seq<u8> = old(dst)@.subrange(0, d as int);
        let after: Seq<u8> = dst@.subrange(0, end as int);
        assert(after.subrange(0, d as int) =~= before);
        assert(after.subrange(d as int, end as int) =~= dst@.subrange(d as int, end as int));
        lemma_append_copy(before, after, start, out, offset as int, len as int, limit);
    }
    end
}

/// Writes the elements for a copy of `len` bytes from `offset` back, in
/// pieces of at most 64 bytes, to `dst` at `d`; returns where they end.
fn emit_copy(
    dst: &mut [u8],
    d: usize,
    offset: usize,
    len: usize,
    Ghost(start): Ghost<int>,
    Ghost(out): Ghost<Seq<u8>>,
    Ghost(limit): Ghost<int>,
) -> (end: usize)
    requires
        1 <= offset < 0x1_0000,
        offset <= out.len(),
        4 <= len <= MAX_BLOCK_SIZE,
        0 <= start <= d,
        6 * (old(dst).len() - d) >= 7 * len,
        out.len() + len <= limit,
        encoded(old(dst)@.subrange(0, d as int), start, out, limit),
    ensures
        final(dst).len() == old(dst).len(),
        d < end,
        6 * (end - d) + 10 <= 7 * len,
        encoded(
            final(dst)@.subrange(0, end as int),
            start,
            extend(out, offset as int, len as nat),
            limit,
        ),
        forall|k: int|
            0 <= k < d || end <= k < old(dst).len() ==> final(dst)@[k] == old(dst)@[k],
{
    let mut rest: usize = len;
    let mut p: usize = d;
    while rest >= 68
        invariant
            4 <= rest <= len,
            d <= p,
            dst.len() == old(dst).len(),
            1 <= offset < 0x1_0000,
            offset <= out.len(),
            0 <= start <= d,
            6 * (old(dst).len() - d) >= 7 * len,
            out.len() + len <= limit,
            6 * (p - d) <= 7 * (len - rest),
            encoded(
                dst@.subrange(0, p as int),
                start,
                extend(out, offset as int, (len - rest) as nat),
                limit,
            ),
            forall|k: int| 0 <= k < d || p <= k < dst.len() ==> dst@[k] == old(dst)@[k],
        decreases rest,
    {
        proof {
            lemma_extend_len(out, offset as int, (len - rest) as nat);
            lemma_extend_add(out, offset as int, (len - rest) as nat, 64);
        }
        p = emit_copy_step(
            dst,
            p,
            offset,
            64,
            Ghost(start),
            Ghost(extend(out, offset as int, (len - rest) as nat)),
            Ghost(limit),
        );
        rest = rest - 64;
    }
    if rest > 64 {
        proof {
            lemma_extend_len(out, offset as int, (len - rest) as nat);
            lemma_extend_add(out, offset as int, (len - rest) as nat, 60);
        }
        p = emit_copy_step(
            dst,
            p,
            offset,
            60,
            Ghost(start),
            Ghost(extend(out, offset as int, (len - rest) as nat)),
            Ghost(limit),
        );
        rest = rest - 60;
    }
    proof {
        lemma_extend_len(out, offset as int, (len - rest) as nat);
        lemma_extend_add(out, offset as int, (len - rest) as nat, rest as nat);
    }
    emit_copy_step(
        dst,
        p,
        offset,
        rest,
        Ghost(start),
        Ghost(extend(out, offset as int, (len - rest) as nat)),
        Ghost(limit),
    )
}

/// The table slot for the four bytes `x`: the upper `32 - shift` bits of
/// their product with a fixed odd number, modulo 2^32.
pub open spec fn hash_spec(x: u32, shift: u32) -> usize {
    (x.wrapping_mul(0x1E35_A7BD) >> shift) as usize
}

/// What a search for a match finds, and the table as the search leaves
/// it.
///
/// The search is at `cur`, having started at `s`, and `slot` is the table
/// slot for the four bytes at `cur`. It first settles how far ahead it
/// would look next: one position for each 32 that it has come from `s`,
/// and one more. If that is beyond `limit`, nothing is found. Else the
/// position that the table holds in `slot` is the candidate, `cur` takes
/// its place in the table, and the search ends here if the four bytes at
/// the candidate are those at `cur`; if not, it goes on from the next
/// position.
pub open spec fn search(
    input: Seq<u8>,
    lo: int,
    limit: int,
    s: int,
    cur: int,
    slot: int,
    table: Seq<u16>,
    shift: u32,
) -> (Option<(usize, usize)>, Seq<u16>)
    decreases limit - cur,
{
    let stride: int = (32 + (cur - s)) / 32;
    if cur < s || stride > limit - cur {
        (None, table)
    } else {
        let candidate: int = lo + table[slot];
        let seen: Seq<u16> = table.update(slot, (cur - lo) as u16);
        if le32_at(input, cur) == le32_at(input, candidate) {
            (Some((cur as usize, candidate as usize)), seen)
        } else {
            search(
                input,
                lo,
                limit,
                s,
                cur + stride,
                hash_spec(le32_at(input, cur + stride), shift) as int,
                seen,
                shift,
            )
        }
    }
}

/// The table slot for the four bytes `x`.
fn hash(x: u32, shift: u32) -> (h: usize)
    requires
        18 <= shift <= 24,
    ensures
        h == hash_spec(x, shift),
        h < table_size(shift),
{
    let y: u32 = x.wrapping_mul(0x1E35_A7BD);
    assert((shift == 24 ==> y >> shift < 0x100) && (shift == 23 ==> y >> shift < 0x200) && (shift
        == 22 ==> y >> shift < 0x400) && (shift == 21 ==> y >> shift < 0x800) && (shift == 20
        ==> y >> shift < 0x1000) && (shift == 19 ==> y >> shift < 0x2000) && (shift == 18 ==> y
        >> shift < 0x4000)) by (bit_vector);
    (y >> shift) as usize
}

/// Returns how far the bytes from `s` on repeat the bytes from `candidate`
/// on, without going beyond `hi`.
fn extend_match(input: &[u8], candidate: usize, s: usize, hi: usize) -> (end: usize)
    requires
        candidate < s <= hi <= input.len(),
    ensures
        s <= end <= hi,
        forall|k: int| 0 <= k < end - s ==> input@[candidate + k] == #[trigger] input@[s + k],
{
    let mut i: usize = candidate;
    let mut j: usize = s;
    while j < hi && input[i] == input[j]
        invariant
            s <= j <= hi <= input.len(),
            i + (s - candidate) == j,
            candidate < s,
            forall|k: int| 0 <= k < j - s ==> input@[candidate + k] == #[trigger] input@[s + k],
        decreases hi - j,
    {
        i += 1;
        j += 1;
    }
    j
}


/// Writes the literal element for `input[from..to]` and shows that the
/// run of elements stays valid.
fn emit_literal_step(
    input: &[u8],
    from: usize,
    to: usize,
    dst: &mut [u8],
    d: usize,
    Ghost(start): Ghost<int>,
) -> (end: usize)
    requires
        from < to <= input.len(),
        to - from <= MAX_BLOCK_SIZE,
        d + (to - from) + 3 <= old(dst).len(),
        0 <= start <= d,
        encoded(
            old(dst)@.subrange(0, d as int),
            start,
            input@.subrange(0, from as int),
            input@.len() as int,
        ),
    ensures
        final(dst).len() == old(dst).len(),
        end - d == (to - from) + (if to - from <= 60 {
            1int
        } else if to - from <= 256 {
            2int
        } else {
            3int
        }),
        encoded(
            final(dst)@.subrange(0, end as int),
            start,
            input@.subrange(0, to as int),
            input@.len() as int,
        ),
        forall|k: int|
            0 <= k < d || end <= k < old(dst).len() ==> final(dst)@[k] == old(dst)@[k],
{
    let end: usize = emit_literal(input, from, to, dst, d);
    proof {
        let before: Seq<u8> = old(dst)@.subrange(0, d as int);
        let after: Seq<u8> = dst@.subrange(0, end as int);
        let out: Seq<u8> = input@.subrange(0, from as int);
        let lit: Seq<u8> = input@.subrange(from as int, to as int);
        assert(after.subrange(0, d as int) =~= before);
        assert(after.subrange(d as int, end as int) =~= dst@.subrange(d as int, end as int));
        lemma_append_literal(before, after, start, out, lit, input@.len() as int);
        assert(out + lit =~= input@.subrange(0, to as int));
    }
    end
}

/// Looks, from `s` on, for a position whose next four bytes also stand at
/// an earlier position of the piece, looking at ever fewer positions the
/// longer nothing is found. Returns the first such position that it looks
/// at and the earlier one, or `None` when the search comes too close to
/// the end of the piece. Every position looked at is entered in `table`.
fn find_match(
    input: &[u8],
    lo: usize,
    hi: usize,
    s: usize,
    next_hash: usize,
    table: &mut [u16],
    shift: u32,
) -> (r: Option<(usize, usize)>)
    requires
        lo < s,
        s + INPUT_MARGIN <= hi <= input.len(),
        hi - lo <= MAX_BLOCK_SIZE,
        18 <= shift <= 24,
        old(table).len() >= table_size(shift),
        next_hash < table_size(shift),
        forall|h: int| 0 <= h < table_size(shift) ==> lo + #[trigger] old(table)@[h] < s,
    ensures
        final(table).len() == old(table).len(),
        (r, final(table)@) == search(
            input@,
            lo as int,
            hi - INPUT_MARGIN,
            s as int,
            s as int,
            next_hash as int,
            old(table)@,
            shift,
        ),
        r matches Some((m, cand)) ==> {
            &&& s <= m
            &&& m + INPUT_MARGIN < hi
            &&& lo <= cand < m
            &&& le32_at(input@, m as int) == le32_at(input@, cand as int)
            &&& forall|h: int| 0 <= h < table_size(shift) ==> lo + #[trigger] final(table)@[h] <= m
        },
{
    let s_limit: usize = hi - INPUT_MARGIN;
    let mut skip: usize = 32;
    let mut cur: usize = s;
    let mut slot: usize = next_hash;
    loop
        invariant
            lo < s <= cur <= s_limit,
            s_limit + INPUT_MARGIN == hi,
            hi <= input.len(),
            hi - lo <= MAX_BLOCK_SIZE,
            18 <= shift <= 24,
            skip == 32 + (cur - s),
            search(
                input@,
                lo as int,
                s_limit as int,
                s as int,
                s as int,
                next_hash as int,
                old(table)@,
                shift,
            ) == search(
                input@,
                lo as int,
                s_limit as int,
                s as int,
                cur as int,
                slot as int,
                table@,
                shift,
            ),
            table.len() == old(table).len(),
            table.len() >= table_size(shift),
            slot < table_size(shift),
            forall|h: int| 0 <= h < table_size(shift) ==> lo + #[trigger] table@[h] < cur,
        decreases hi - cur,
    {
        let stride: usize = skip / 32;
        if stride > s_limit - cur {
            return None;
        }
        let next: usize = cur + stride;
        skip = skip + stride;
        let candidate: usize = lo + table[slot] as usize;
        table[slot] = (cur - lo) as u16;
        slot = hash(read_u32_le(input, next), shift);
        if read_u32_le(input, cur) == read_u32_le(input, candidate) {
            return Some((cur, candidate));
        }
        cur = next;
    }
}

/// Compresses the piece `input[lo..hi]` to `dst` at `d0`, after the
/// elements for `input[..lo]`, and returns where its elements end.
fn compress_block(
    input: &[u8],
    lo: usize,
    hi: usize,
    dst: &mut [u8],
    d0: usize,
    table: &mut [u16],
    Ghost(start): Ghost<int>,
) -> (end: usize)
    requires
        lo + MIN_NON_LITERAL_BLOCK_SIZE <= hi <= input.len(),
        hi - lo <= MAX_BLOCK_SIZE,
        old(table).len() == MAX_TABLE_SIZE,
        0 <= start <= d0,
        6 * (old(dst).len() - d0) >= 7 * (hi - lo) + 18,
        encoded(
            old(dst)@.subrange(0, d0 as int),
            start,
            input@.subrange(0, lo as int),
            input@.len() as int,
        ),
    ensures
        final(dst).len() == old(dst).len(),
        final(table).len() == old(table).len(),
        d0 < end,
        6 * (end - d0) <= 7 * (hi - lo),
        encoded(
            final(dst)@.subrange(0, end as int),
            start,
            input@.subrange(0, hi as int),
            input@.len() as int,
        ),
        forall|k: int|
            0 <= k < d0 || end <= k < old(dst).len() ==> final(dst)@[k] == old(dst)@[k],
{
    let ghost limit: int = input@.len() as int;
    let block_len: usize = hi - lo;
    let mut shift: u32 = 24;
    let mut size: usize = 0x100;
    while size < MAX_TABLE_SIZE && size < block_len
        invariant
            18 <= shift <= 24,
            size == table_size(shift),
        decreases shift,
    {
        shift -= 1;
        size *= 2;
    }
    let mut i: usize = 0;
    while i < size
        invariant
            i <= size <= MAX_TABLE_SIZE,
            table.len() == MAX_TABLE_SIZE,
            forall|h: int| 0 <= h < i ==> #[trigger] table@[h] == 0,
        decreases size - i,
    {
        table[i] = 0;
        i += 1;
    }
    let s_limit: usize = hi - INPUT_MARGIN;
    let mut next_emit: usize = lo;
    let mut d: usize = d0;
    let mut s: usize = lo + 1;
    let mut next_hash: usize = hash(read_u32_le(input, s), shift);
    let mut searching: bool = true;
    while searching
        invariant
            lo + MIN_NON_LITERAL_BLOCK_SIZE <= hi <= input.len(),
            hi - lo <= MAX_BLOCK_SIZE,
            s_limit + INPUT_MARGIN == hi,
            limit == input@.len(),
            18 <= shift <= 24,
            table.len() == MAX_TABLE_SIZE,
            0 <= start <= d0 <= d,
            dst.len() == old(dst).len(),
            6 * (old(dst).len() - d0) >= 7 * (hi - lo) + 18,
            lo <= next_emit <= hi,
            6 * (d - d0) <= 7 * (next_emit - lo) - (if next_emit > lo {
                5int
            } else {
                0int
            }),
            encoded(dst@.subrange(0, d as int), start, input@.subrange(0, next_emit as int), limit),
            forall|k: int| 0 <= k < d0 || d <= k < dst.len() ==> dst@[k] == old(dst)@[k],
            next_emit > lo ==> d > d0,
            searching ==> next_emit < s <= s_limit,
            searching ==> next_hash < table_size(shift),
            searching ==> forall|h: int|
                0 <= h < table_size(shift) ==> lo + #[trigger] table@[h] < s,
        decreases
                if searching {
                    hi - next_emit + 1
                } else {
                    0
                },
    {
        let ghost emitted: usize = next_emit;
        match find_match(input, lo, hi, s, next_hash, table, shift) {
            None => {
                searching = false;
            },
            Some((m, cand)) => {
                d = emit_literal_step(input, next_emit, m, dst, d, Ghost(start));
                s = m;
                let mut candidate: usize = cand;
                let mut copying: bool = true;
                while copying
                    invariant
                        lo + MIN_NON_LITERAL_BLOCK_SIZE <= hi <= input.len(),
                        hi - lo <= MAX_BLOCK_SIZE,
                        s_limit + INPUT_MARGIN == hi,
                        limit == input@.len(),
                        18 <= shift <= 24,
                        table.len() == MAX_TABLE_SIZE,
                        0 <= start <= d0 <= d,
                        dst.len() == old(dst).len(),
                        6 * (old(dst).len() - d0) >= 7 * (hi - lo) + 18,
                        lo <= emitted <= hi,
                        lo <= next_emit <= hi,
                        lo < s <= hi,
                        forall|k: int|
                            0 <= k < d0 || d <= k < dst.len() ==> dst@[k] == old(dst)@[k],
                        copying ==> searching,
                        copying ==> emitted < s,
                        copying ==> lo <= candidate < s && s + 4 <= hi,
                        copying ==> le32_at(input@, s as int) == le32_at(input@, candidate as int),
                        copying ==> 6 * (d - d0) <= 7 * (s - lo) + 5,
                        copying ==> encoded(
                            dst@.subrange(0, d as int),
                            start,
                            input@.subrange(0, s as int),
                            limit,
                        ),
                        copying ==> forall|h: int|
                            0 <= h < table_size(shift) ==> lo + #[trigger] table@[h] <= s,
                        !copying ==> emitted < next_emit,
                        !copying ==> d > d0,
                        !copying ==> 6 * (d - d0) <= 7 * (next_emit - lo) - 5,
                        !copying ==> encoded(
                            dst@.subrange(0, d as int),
                            start,
                            input@.subrange(0, next_emit as int),
                            limit,
                        ),
                        !copying && searching ==> next_emit < s <= s_limit,
                        !copying && searching ==> next_hash < table_size(shift),
                        !copying && searching ==> forall|h: int|
                            0 <= h < table_size(shift) ==> lo + #[trigger] table@[h] < s,
                    decreases
                            hi - s + (if copying {
                                1int
                            } else {
                                0int
                            }),
                {
                    let base: usize = s;
                    s = extend_match(input, candidate + 4, base + 4, hi);
                    proof {
                        let offset: int = base - candidate;
                        lemma_le32_injective(input@, base as int, candidate as int);
                        assert forall|k: int| base <= k < s implies #[trigger] input@[k] == input@[k
                            - offset] by {
                            if k >= base + 4 {
                                let j: int = k - (base + 4);
                                assert(input@[candidate + 4 + j] == input@[base + 4 + j]);
                            }
                        }
                        lemma_extend_matches(input@, base as int, offset, (s - base) as nat);
                    }
                    d =
                    emit_copy(
                        dst,
                        d,
                        base - candidate,
                        s - base,
                        Ghost(start),
                        Ghost(input@.subrange(0, base as int)),
                        Ghost(limit),
                    );
                    next_emit = s;
                    if s >= s_limit {
                        copying = false;
                        searching = false;
                    } else {
                        let before: usize = hash(read_u32_le(input, s - 1), shift);
                        table[before] = (s - 1 - lo) as u16;
                        let here: usize = hash(read_u32_le(input, s), shift);
                        candidate = lo + table[here] as usize;
                        table[here] = (s - lo) as u16;
                        if read_u32_le(input, s) != read_u32_le(input, candidate) {
                            next_hash = hash(read_u32_le(input, s + 1), shift);
                            s += 1;
                            copying = false;
                        }
                    }
                }
            },
        }
    }
    if next_emit < hi {
        d = emit_literal_step(input, next_emit, hi, dst, d, Ghost(start));
    }
    d
}

/// Compresses `input` into the start of `output` and returns the number
/// of bytes written. `output` must have at least
/// `max_compressed_len(input.len())` bytes; the bytes of `output` after
/// those written stay as they were.
///
/// What is written is a block that decompresses to `input`. Fails with
/// `TooBig`, and writes nothing, exactly when `input` is longer than
/// `MAX_INPUT_SIZE`.
pub fn compress(input: &[u8], output: &mut [u8]) -> (r: Result<usize, Error>)
    requires
        input@.len() <= MAX_INPUT_SIZE ==> old(output).len() >= compress_bound(
            input@.len() as int,
        ),
    ensures
        final(output).len() == old(output).len(),
        match r {
            Ok(n) => {
                &&& input@.len() <= MAX_INPUT_SIZE
                &&& 1 <= n <= max_compressed_len_spec(input.len())
                &&& is_block_of(final(output)@.subrange(0, n as int), input@)
                &&& decompress_spec(final(output)@.subrange(0, n as int)) == Ok::<Seq<u8>, Error>(
                    input@,
                )
                &&& decompress_len_spec(final(output)@.subrange(0, n as int)) == Ok::<
                    usize,
                    Error,
                >(input.len())
                &&& forall|k: int|
                    n <= k < old(output).len() ==> final(output)@[k] == old(output)@[k]
            },
            Err(e) => {
                &&& input@.len() > MAX_INPUT_SIZE
                &&& e == (Error::TooBig { given: input@.len() as u64, max: MAX_INPUT_SIZE })
                &&& final(output)@ == old(output)@
            },
        },
{
    let n: usize = input.len();
    if n as u64 > MAX_INPUT_SIZE {
        return Err(Error::TooBig { given: n as u64, max: MAX_INPUT_SIZE });
    }
    proof {
        lemma_encode_len(n as nat);
    }
    let head: usize = encode_into(n as u64, output, 0);
    let mut table: Vec<u16> = vec![0u16; MAX_TABLE_SIZE];
    let mut lo: usize = 0;
    let mut d: usize = head;
    proof {
        assert(input@.subrange(0, 0) =~= Seq::<u8>::empty());
    }
    while lo < n
        invariant
            n == input@.len(),
            n <= MAX_INPUT_SIZE,
            output.len() == old(output).len(),
            output.len() >= compress_bound(n as int),
            table.len() == MAX_TABLE_SIZE,
            1 <= head <= 5,
            head <= d,
            lo <= n,
            output@.subrange(0, head as int) == encode_spec(n as nat),
            encoded(
                output@.subrange(0, d as int),
                head as int,
                input@.subrange(0, lo as int),
                n as int,
            ),
            6 * (d - head) <= 7 * lo + 5,
            lo < n ==> 6 * (d - head) <= 7 * lo,
            forall|k: int| d <= k < output.len() ==> output@[k] == old(output)@[k],
        decreases n - lo,
    {
        let hi: usize = if n - lo > MAX_BLOCK_SIZE {
            lo + MAX_BLOCK_SIZE
        } else {
            n
        };
        let ghost prefix: Seq<u8> = output@.subrange(0, head as int);
        if hi - lo < MIN_NON_LITERAL_BLOCK_SIZE {
            d = emit_literal_step(input, lo, hi, output, d, Ghost(head as int));
        } else {
            d = compress_block(input, lo, hi, output, d, table.as_mut_slice(), Ghost(head as int));
        }
        proof {
            assert(output@.subrange(0, head as int) =~= prefix);
        }
        lo = hi;
    }
    proof {
        let c: Seq<u8> = output@.subrange(0, d as int);
        assert(c.subrange(0, head as int) =~= output@.subrange(0, head as int));
        assert(input@.subrange(0, n as int) =~= input@);
        lemma_roundtrip(input@, c);
    }
    Ok(d)
}

} // verus!
