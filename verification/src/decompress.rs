//! Decompression of a block, with every offset and length checked before
//! the bytes it names are touched.

use crate::block::{
    decode_elements, extend, lemma_bad_copy_is_invalid, lemma_output_bound, parse_tag, step, Tag,
};
use crate::bytes::copy_into;
use crate::error::Error;
use crate::varint::{decode, decode_spec, lemma_decode_bounds};
use vstd::prelude::*;

verus! {

/// The uncompressed length that the block `c` declares.
pub open spec fn decompress_len_spec(c: Seq<u8>) -> Result<usize, Error> {
    match decode_spec(c) {
        Ok((n, _)) => Ok(n as usize),
        Err(e) => Err(e),
    }
}

/// The bytes that the block `c` stands for: its length prefix must be
/// valid, every element after it must be valid, and together they must
/// produce exactly as many bytes as the prefix declares.
pub open spec fn decompress_spec(c: Seq<u8>) -> Result<Seq<u8>, Error> {
    match decode_spec(c) {
        Err(e) => Err(e),
        Ok((n, head)) => match decode_elements(c, head as int, Seq::<u8>::empty(), n as int) {
            Some(data) => if data.len() == n {
                Ok(data)
            } else {
                Err(Error::Corrupt)
            },
            None => Err(Error::Corrupt),
        },
    }
}

/// A block is corrupt if, after elements that are valid, it holds a copy
/// whose offset is zero or larger than the number of bytes produced so far.
pub proof fn lemma_bad_copy_is_corrupt(c: Seq<u8>, pos: int, out: Seq<u8>)
    requires
        decode_spec(c) matches Ok((n, head)) && head <= pos < c.len() && decode_elements(
            c.subrange(0, pos),
            head as int,
            Seq::<u8>::empty(),
            n as int,
        ) == Some(out),
        parse_tag(c, pos) matches Some(t) && !t.literal && (t.offset == 0 || t.offset > out.len()),
    ensures
        decompress_spec(c) == Err::<Seq<u8>, Error>(Error::Corrupt),
{
    let (n, head): (u64, usize) = decode_spec(c).unwrap();
    lemma_bad_copy_is_invalid(c, head as int, pos, out, n as int);
}

/// Returns the uncompressed length that `input` declares. Only the length
/// prefix is read; the rest of the block may still be invalid.
///
/// Fails with `Corrupt` if the prefix is malformed, and with `TooBig` if
/// it declares more than `MAX_INPUT_SIZE` bytes.
pub fn decompress_len(input: &[u8]) -> (r: Result<usize, Error>)
    ensures
        r == decompress_len_spec(input@),
{
    match decode(input) {
        Ok((n, _)) => Ok(n as usize),
        Err(e) => Err(e),
    }
}

/// Reads the tag at `pos` and its operands.
fn read_tag(input: &[u8], pos: usize) -> (r: Option<Tag>)
    requires
        pos < input.len(),
    ensures
        r == parse_tag(input@, pos as int),
        r matches Some(t) ==> pos + t.head <= input.len() && 1 <= t.len <= 0x1_0000_0000,
{
    let b: u8 = input[pos];
    let kind: u8 = b % 4;
    let upper: u8 = b / 4;
    let rest: usize = input.len() - pos - 1;
    if kind == 0 {
        if upper < 60 {
            Some(Tag { literal: true, head: 1, len: upper as u64 + 1, offset: 0 })
        } else {
            let extra: usize = (upper - 59) as usize;
            if extra > rest {
                None
            } else {
                let mut v: u64 = input[pos + 1] as u64;
                if extra >= 2 {
                    v = v + 0x100 * (input[pos + 2] as u64);
                }
                if extra >= 3 {
                    v = v + 0x1_0000 * (input[pos + 3] as u64);
                }
                if extra >= 4 {
                    v = v + 0x100_0000 * (input[pos + 4] as u64);
                }
                Some(Tag { literal: true, head: 1 + extra, len: v + 1, offset: 0 })
            }
        }
    } else if kind == 1 {
        if rest < 1 {
            None
        } else {
            Some(
                Tag {
                    literal: false,
                    head: 2,
                    len: 4 + (upper % 8) as u64,
                    offset: (b / 32) as u64 * 0x100 + input[pos + 1] as u64,
                },
            )
        }
    } else if kind == 2 {
        if rest < 2 {
            None
        } else {
            Some(
                Tag {
                    literal: false,
                    head: 3,
                    len: upper as u64 + 1,
                    offset: input[pos + 1] as u64 + 0x100 * (input[pos + 2] as u64),
                },
            )
        }
    } else {
        if rest < 4 {
            None
        } else {
            Some(
                Tag {
                    literal: false,
                    head: 5,
                    len: upper as u64 + 1,
                    offset: input[pos + 1] as u64 + 0x100 * (input[pos + 2] as u64) + 0x1_0000 * (
                    input[pos + 3] as u64) + 0x100_0000 * (input[pos + 4] as u64),
                },
            )
        }
    }
}

/// Appends `len` bytes to the `d` bytes at the start of `output`, each a
/// repeat of the byte `offset` places before it, front to back.
fn copy_within(output: &mut [u8], d: usize, offset: usize, len: usize)
    requires
        1 <= offset <= d,
        d + len <= old(output).len(),
    ensures
        final(output).len() == old(output).len(),
        final(output)@.subrange(0, d + len) == extend(
            old(output)@.subrange(0, d as int),
            offset as int,
            len as nat,
        ),
        forall|k: int| d + len <= k < old(output).len() ==> final(output)@[k] == old(output)@[k],
{
    let ghost start: Seq<u8> = output@.subrange(0, d as int);
    let mut k: usize = 0;
    while k < len
        invariant
            k <= len,
            1 <= offset <= d,
            d + len <= output.len(),
            output.len() == old(output).len(),
            start == old(output)@.subrange(0, d as int),
            output@.subrange(0, d + k) == extend(start, offset as int, k as nat),
            forall|j: int| d + k <= j < output.len() ==> output@[j] == old(output)@[j],
        decreases len - k,
    {
        let ghost before: Seq<u8> = output@.subrange(0, d + k);
        let b: u8 = output[d + k - offset];
        output[d + k] = b;
        proof {
            assert(b == before[before.len() - offset]);
            assert(output@.subrange(0, d + k + 1) =~= before.push(b));
        }
        k += 1;
    }
}

/// Decodes the elements of `input` from `start` into the first `n` bytes
/// of `output`. Returns whether the elements are valid and produce exactly
/// `n` bytes.
fn decode_block(input: &[u8], start: usize, n: usize, output: &mut [u8]) -> (ok: bool)
    requires
        start <= input.len(),
        n <= old(output).len(),
    ensures
        final(output).len() == old(output).len(),
        forall|k: int| n <= k < old(output).len() ==> final(output)@[k] == old(output)@[k],
        ok <==> (decode_elements(input@, start as int, Seq::<u8>::empty(), n as int) matches Some(
            data,
        ) && data.len() == n),
        ok ==> decode_elements(input@, start as int, Seq::<u8>::empty(), n as int) == Some(
            final(output)@.subrange(0, n as int),
        ),
{
    let mut s: usize = start;
    let mut d: usize = 0;
    assert(output@.subrange(0, 0) =~= Seq::<u8>::empty());
    while s < input.len()
        invariant
            start <= s <= input.len(),
            d <= n <= output.len(),
            output.len() == old(output).len(),
            decode_elements(input@, start as int, Seq::<u8>::empty(), n as int) == decode_elements(
                input@,
                s as int,
                output@.subrange(0, d as int),
                n as int,
            ),
            forall|k: int| n <= k < output.len() ==> output@[k] == old(output)@[k],
        decreases input.len() - s,
    {
        let ghost out: Seq<u8> = output@.subrange(0, d as int);
        let ghost pos: int = s as int;
        let t: Tag = match read_tag(input, s) {
            None => {
                return false;
            },
            Some(t) => t,
        };
        if t.len > (n - d) as u64 {
            return false;
        }
        let len: usize = t.len as usize;
        if t.literal {
            if len > input.len() - s - t.head {
                return false;
            }
            copy_into(input, s + t.head, len, output, d);
            s = s + t.head + len;
        } else {
            if t.offset == 0 || t.offset > d as u64 {
                return false;
            }
            copy_within(output, d, t.offset as usize, len);
            s = s + t.head;
        }
        d = d + len;
        proof {
            assert(step(input@, pos, out, n as int) == Some(
                (s as int, output@.subrange(0, d as int)),
            ));
        }
    }
    d == n
}

/// Decompresses blocks. A decoder holds no state of its own between
/// calls; one value can decompress any number of blocks.
#[derive(Clone, Copy, Debug)]
pub struct Decoder {}

impl Decoder {
    /// Returns a new decoder.
    pub fn new() -> (r: Decoder) {
        Decoder {  }
    }

    /// Decompresses all of `input` into the start of `output` and returns
    /// the number of bytes written, which is the length that `input`
    /// declares. `output` must be at least that long; the bytes of
    /// `output` after them stay as they were.
    ///
    /// Fails with `TooBig` if the declared length exceeds
    /// `MAX_INPUT_SIZE`, and with `Corrupt` if the length prefix or any
    /// element is invalid, or if the elements do not produce exactly the
    /// declared number of bytes. Where the length prefix is at fault,
    /// `output` is not touched; after any other failure only its first
    /// bytes, as many as were declared, may have changed.
    pub fn decompress(&mut self, input: &[u8], output: &mut [u8]) -> (r: Result<usize, Error>)
        requires
            decompress_len_spec(input@) matches Ok(n) ==> n <= old(output).len(),
        ensures
            final(output).len() == old(output).len(),
            match decompress_spec(input@) {
                Ok(data) => {
                    &&& r == Ok::<usize, Error>(data.len() as usize)
                    &&& final(output)@.subrange(0, data.len() as int) == data
                    &&& forall|k: int|
                        data.len() <= k < old(output).len() ==> final(output)@[k] == old(
                            output,
                        )@[k]
                },
                Err(e) => r == Err::<usize, Error>(e),
            },
            decode_spec(input@) is Err ==> final(output)@ == old(output)@,
            decode_spec(input@) matches Ok((n, _)) ==> forall|k: int|
                n <= k < old(output).len() ==> final(output)@[k] == old(output)@[k],
    {
        let (n, head): (u64, usize) = match decode(input) {
            Ok(pair) => pair,
            Err(e) => {
                return Err(e);
            },
        };
        proof {
            lemma_decode_bounds(input@);
        }
        if decode_block(input, head, n as usize, output) {
            Ok(n as usize)
        } else {
            Err(Error::Corrupt)
        }
    }

    /// Decompresses all of `input` into a new vector, whose length is the
    /// length that `input` declares. No vector is allocated for a length
    /// that the elements of `input` are too few to produce.
    ///
    /// Fails as `decompress` does.
    pub fn decompress_vec(&mut self, input: &[u8]) -> (r: Result<Vec<u8>, Error>)
        ensures
            match decompress_spec(input@) {
                Ok(data) => r matches Ok(v) && v@ == data,
                Err(e) => r == Err::<Vec<u8>, Error>(e),
            },
    {
        let (n, head): (u64, usize) = match decode(input) {
            Ok(pair) => pair,
            Err(e) => {
                return Err(e);
            },
        };
        proof {
            lemma_decode_bounds(input@);
        }
        if n / 32 > (input.len() - head) as u64 {
            proof {
                if decode_elements(input@, head as int, Seq::<u8>::empty(), n as int) is Some {
                    lemma_output_bound(input@, head as int, Seq::<u8>::empty(), n as int);
                }
            }
            return Err(Error::Corrupt);
        }
        let mut buf: Vec<u8> = vec![0u8; n as usize];
        if decode_block(input, head, n as usize, buf.as_mut_slice()) {
            assert(buf@.subrange(0, n as int) =~= buf@);
            Ok(buf)
        } else {
            Err(Error::Corrupt)
        }
    }
}

} // verus!
