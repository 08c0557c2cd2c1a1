//! The variable-length integer that opens every block: base-128 groups,
//! least significant first, with the high bit of a byte set when another
//! group follows.

use crate::error::{Error, MAX_INPUT_SIZE};
use vstd::prelude::*;

verus! {

/// The largest number of groups that a length prefix may have.
pub const MAX_GROUPS: usize = 5;

/// The largest number of groups that any 64-bit value needs.
pub const MAX_ENCODED_LEN: usize = 10;

/// The encoding of `n`.
pub open spec fn encode_spec(n: nat) -> Seq<u8>
    decreases n,
{
    if n < 128 {
        seq![n as u8]
    } else {
        seq![(n % 128 + 128) as u8] + encode_spec(n / 128)
    }
}

/// The value and the end of the groups that start at `i`, where the group
/// at `i` counts for its face value. `None` if no group terminates within
/// the buffer and within the first five groups.
pub open spec fn decode_groups(c: Seq<u8>, i: nat) -> Option<(nat, nat)>
    decreases 5 - i,
{
    if i >= 5 || i >= c.len() {
        None
    } else if c[i as int] < 128 {
        Some((c[i as int] as nat, i + 1))
    } else {
        match decode_groups(c, i + 1) {
            None => None,
            Some((v, end)) => Some(((c[i as int] - 128 + 128 * v) as nat, end)),
        }
    }
}

/// The length that `c` declares and the number of bytes that declare it.
pub open spec fn decode_spec(c: Seq<u8>) -> Result<(u64, usize), Error> {
    match decode_groups(c, 0) {
        None => Err(Error::Corrupt),
        Some((v, end)) => if v > MAX_INPUT_SIZE {
            Err(Error::TooBig { given: v as u64, max: MAX_INPUT_SIZE })
        } else {
            Ok((v as u64, end as usize))
        },
    }
}

/// 128 to the power `i`, for the positions a group can have.
pub open spec fn weight(i: nat) -> nat {
    if i == 0 {
        1
    } else if i == 1 {
        0x80
    } else if i == 2 {
        0x4000
    } else if i == 3 {
        0x20_0000
    } else if i == 4 {
        0x1000_0000
    } else {
        0x8_0000_0000
    }
}

/// An encoding is never empty, and is as short as the value allows.
pub proof fn lemma_encode_len(n: nat)
    ensures
        1 <= encode_spec(n).len() <= 10 || n > u64::MAX,
        n < 0x80 ==> encode_spec(n).len() == 1,
        n < 0x4000 ==> encode_spec(n).len() <= 2,
        n < 0x20_0000 ==> encode_spec(n).len() <= 3,
        n < 0x1000_0000 ==> encode_spec(n).len() <= 4,
        n < 0x8_0000_0000 ==> encode_spec(n).len() <= 5,
{
    reveal_with_fuel(encode_spec, 11);
}

/// Groups that spell out `encode_spec(n)` decode to `n`, whatever follows
/// them.
pub proof fn lemma_decode_groups_of_encoding(c: Seq<u8>, i: nat, n: nat)
    requires
        i + encode_spec(n).len() <= 5,
        i + encode_spec(n).len() <= c.len(),
        c.subrange(i as int, (i + encode_spec(n).len()) as int) == encode_spec(n),
    ensures
        decode_groups(c, i) == Some((n, i + encode_spec(n).len())),
    decreases n,
{
    let e: Seq<u8> = encode_spec(n);
    assert(c[i as int] == e[0]);
    if n >= 128 {
        let rest: Seq<u8> = encode_spec(n / 128);
        assert(e.subrange(1, e.len() as int) =~= rest);
        assert(c.subrange((i + 1) as int, (i + 1 + rest.len()) as int) =~= e.subrange(
            1,
            e.len() as int,
        ));
        lemma_decode_groups_of_encoding(c, i + 1, n / 128);
    }
}

/// Decoding the encoding of a length that the format allows gives the
/// length back, whatever follows the encoding.
pub proof fn lemma_decode_encode(n: u64, rest: Seq<u8>)
    requires
        n <= MAX_INPUT_SIZE,
    ensures
        decode_spec(encode_spec(n as nat) + rest) == Ok::<(u64, usize), Error>(
            (n, encode_spec(n as nat).len() as usize),
        ),
{
    let e: Seq<u8> = encode_spec(n as nat);
    lemma_encode_len(n as nat);
    assert((e + rest).subrange(0, e.len() as int) =~= e);
    lemma_decode_groups_of_encoding(e + rest, 0, n as nat);
}

/// A prefix that decodes ends within the buffer, after at least one byte.
pub proof fn lemma_decode_bounds(c: Seq<u8>)
    ensures
        decode_spec(c) matches Ok((n, end)) ==> 1 <= end <= 5 && end <= c.len() && n
            <= MAX_INPUT_SIZE,
{
    reveal_with_fuel(decode_groups, 6);
}

/// Reads the length prefix at the start of `src`: the length and the
/// number of bytes that the prefix takes.
///
/// Fails with `Corrupt` if `src` ends before a group without a
/// continuation bit, or if the first five groups all have one; fails with
/// `TooBig` if the groups are well formed and their value exceeds
/// `MAX_INPUT_SIZE`.
pub fn decode(src: &[u8]) -> (r: Result<(u64, usize), Error>)
    ensures
        r == decode_spec(src@),
{
    let mut value: u64 = 0;
    let mut scale: u64 = 1;
    let mut i: usize = 0;
    while i < MAX_GROUPS && i < src.len()
        invariant
            i <= 5,
            i <= src.len(),
            scale == weight(i as nat),
            value < scale,
            decode_groups(src@, 0) == match decode_groups(src@, i as nat) {
                None => None::<(nat, nat)>,
                Some((v, end)) => Some(((value + scale * v) as nat, end)),
            },
        decreases 5 - i,
    {
        let b: u8 = src[i];
        if b < 0x80 {
            let total: u64 = value + (b as u64) * scale;
            proof {
                assert(scale * (b as nat) == (b as u64) * scale) by (nonlinear_arith);
            }
            if total > MAX_INPUT_SIZE {
                return Err(Error::TooBig { given: total, max: MAX_INPUT_SIZE });
            }
            return Ok((total, i + 1));
        }
        proof {
            let low: nat = (b - 0x80) as nat;
            match decode_groups(src@, (i + 1) as nat) {
                None => {},
                Some((v, end)) => {
                    assert(value + low * scale + (scale * 128) * v == value + scale * ((low + 128
                        * v) as nat)) by (nonlinear_arith);
                },
            }
        }
        value = value + ((b - 0x80) as u64) * scale;
        scale = scale * 128;
        i += 1;
    }
    Err(Error::Corrupt)
}

/// Writes the encoding of `n` into `dst` at `at` and returns its length.
pub fn encode_into(n: u64, dst: &mut [u8], at: usize) -> (len: usize)
    requires
        at + encode_spec(n as nat).len() <= old(dst).len(),
    ensures
        len == encode_spec(n as nat).len(),
        final(dst).len() == old(dst).len(),
        final(dst)@.subrange(at as int, at + len) == encode_spec(n as nat),
        forall|k: int|
            0 <= k < at || at + len <= k < old(dst).len() ==> final(dst)@[k] == old(dst)@[k],
{
    let mut v: u64 = n;
    let mut i: usize = at;
    while v >= 0x80
        invariant
            at <= i,
            dst.len() == old(dst).len(),
            i + encode_spec(v as nat).len() <= dst.len(),
            dst@.subrange(at as int, i as int) + encode_spec(v as nat) == encode_spec(n as nat),
            forall|k: int| 0 <= k < at || i <= k < dst.len() ==> dst@[k] == old(dst)@[k],
        decreases v,
    {
        let ghost before: Seq<u8> = dst@.subrange(at as int, i as int);
        let group: u8 = (v % 128) as u8 + 0x80;
        dst[i] = group;
        proof {
            assert(dst@.subrange(at as int, i + 1) =~= before + seq![group]);
            assert((before + seq![group]) + encode_spec((v / 128) as nat) =~= before
                + encode_spec(v as nat));
        }
        v = v / 128;
        i += 1;
    }
    let ghost before: Seq<u8> = dst@.subrange(at as int, i as int);
    dst[i] = v as u8;
    proof {
        assert(dst@.subrange(at as int, i + 1) =~= before + encode_spec(v as nat));
    }
    i + 1 - at
}

/// Returns the encoding of `n`.
pub fn encode(n: u64) -> (r: Vec<u8>)
    ensures
        r@ == encode_spec(n as nat),
{
    proof {
        lemma_encode_len(n as nat);
    }
    let mut buf: Vec<u8> = vec![0u8; MAX_ENCODED_LEN];
    let len: usize = encode_into(n, buf.as_mut_slice(), 0);
    buf.truncate(len);
    buf
}

} // verus!
