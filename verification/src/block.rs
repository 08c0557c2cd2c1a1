//! The format of a block's body: a run of tagged elements, each either a
//! literal (bytes to take over as they are) or a copy (bytes to repeat from
//! what has already been produced).

use vstd::prelude::*;

verus! {

/// The largest length of a single copy element.
pub const MAX_COPY_LEN: usize = 64;

/// What the tag byte at the start of an element, and the operand bytes
/// after it, say.
pub struct Tag {
    /// Whether the element is a literal.
    pub literal: bool,
    /// The number of bytes that the tag and its operands take.
    pub head: usize,
    /// The number of bytes that the element produces.
    pub len: u64,
    /// For a copy, how far back its source starts.
    pub offset: u64,
}

/// The value of the `n <= 4` bytes at `at`, least significant first.
pub open spec fn le_value(c: Seq<u8>, at: int, n: int) -> int {
    if n <= 0 {
        0
    } else if n == 1 {
        c[at] as int
    } else if n == 2 {
        c[at] + 0x100 * c[at + 1]
    } else if n == 3 {
        c[at] + 0x100 * c[at + 1] + 0x1_0000 * c[at + 2]
    } else {
        c[at] + 0x100 * c[at + 1] + 0x1_0000 * c[at + 2] + 0x100_0000 * c[at + 3]
    }
}

/// Reads the tag at `pos`. `None` if the operands of the tag would run past
/// the end of `c`.
///
/// The low two bits of the tag byte give the kind of element, the upper six
/// bits `u` the rest:
/// - kind 0, a literal: of `u + 1` bytes for `u < 60`; for `u` from 60 to 63
///   the length less one follows in 1 to 4 bytes, least significant first;
/// - kind 1, a copy of `4 + u % 8` bytes: the offset has 11 bits, the upper
///   three in the tag byte, the lower eight in the byte after it;
/// - kind 2, a copy of `u + 1` bytes: the offset follows in 2 bytes;
/// - kind 3, a copy of `u + 1` bytes: the offset follows in 4 bytes.
pub open spec fn parse_tag(c: Seq<u8>, pos: int) -> Option<Tag> {
    let b: int = c[pos] as int;
    let kind: int = b % 4;
    let upper: int = b / 4;
    if kind == 0 {
        if upper < 60 {
            Some(Tag { literal: true, head: 1, len: (upper + 1) as u64, offset: 0 })
        } else {
            let extra: int = upper - 59;
            if pos + 1 + extra > c.len() {
                None
            } else {
                Some(
                    Tag {
                        literal: true,
                        head: (1 + extra) as usize,
                        len: (le_value(c, pos + 1, extra) + 1) as u64,
                        offset: 0,
                    },
                )
            }
        }
    } else if kind == 1 {
        if pos + 2 > c.len() {
            None
        } else {
            Some(
                Tag {
                    literal: false,
                    head: 2,
                    len: (4 + upper % 8) as u64,
                    offset: ((b / 32) * 0x100 + c[pos + 1]) as u64,
                },
            )
        }
    } else if kind == 2 {
        if pos + 3 > c.len() {
            None
        } else {
            Some(
                Tag {
                    literal: false,
                    head: 3,
                    len: (upper + 1) as u64,
                    offset: le_value(c, pos + 1, 2) as u64,
                },
            )
        }
    } else {
        if pos + 5 > c.len() {
            None
        } else {
            Some(
                Tag {
                    literal: false,
                    head: 5,
                    len: (upper + 1) as u64,
                    offset: le_value(c, pos + 1, 4) as u64,
                },
            )
        }
    }
}

/// `out` with `len` more bytes, each a repeat of the byte `offset` places
/// before it. The bytes are taken one by one, front to back, so a copy may
/// run into the bytes that it has itself produced.
pub open spec fn extend(out: Seq<u8>, offset: int, len: nat) -> Seq<u8>
    decreases len,
{
    if len == 0 {
        out
    } else {
        let before: Seq<u8> = extend(out, offset, (len - 1) as nat);
        before.push(before[before.len() - offset])
    }
}

/// Applies the element at `pos` to the output `out`, of which at most
/// `limit` bytes may exist in the end. Gives where the next element starts
/// and the output after this one; `None` where the element is invalid: it
/// runs past the end of `c`, it would produce more than `limit` bytes, or
/// it is a copy whose offset is zero or reaches back before the output.
pub open spec fn step(c: Seq<u8>, pos: int, out: Seq<u8>, limit: int) -> Option<(int, Seq<u8>)> {
    match parse_tag(c, pos) {
        None => None,
        Some(t) => if t.literal {
            if pos + t.head + t.len > c.len() || out.len() + t.len > limit {
                None
            } else {
                Some(
                    (
                        pos + t.head + t.len,
                        out + c.subrange(pos + t.head, pos + t.head + t.len),
                    ),
                )
            }
        } else {
            if t.offset == 0 || t.offset > out.len() || out.len() + t.len > limit {
                None
            } else {
                Some((pos + t.head, extend(out, t.offset as int, t.len as nat)))
            }
        },
    }
}

/// Applies the elements of `c` from `pos` to its end. `None` if one of
/// them is invalid.
pub open spec fn decode_elements(c: Seq<u8>, pos: int, out: Seq<u8>, limit: int) -> Option<
    Seq<u8>,
>
    decreases c.len() - pos,
{
    if pos < 0 || pos >= c.len() {
        Some(out)
    } else {
        match step(c, pos, out, limit) {
            None => None,
            Some((next, grown)) => if next > pos {
                decode_elements(c, next, grown, limit)
            } else {
                None
            },
        }
    }
}

/// The body of a block, from `start`, is valid for the declared length
/// `n` and produces `data`.
pub open spec fn decodes_to(c: Seq<u8>, start: int, n: int, data: Seq<u8>) -> bool {
    decode_elements(c, start, Seq::<u8>::empty(), n) == Some(data) && data.len() == n
}

/// A copy adds exactly its length and leaves what was there.
pub proof fn lemma_extend_len(out: Seq<u8>, offset: int, len: nat)
    requires
        1 <= offset <= out.len(),
    ensures
        extend(out, offset, len).len() == out.len() + len,
        forall|i: int| 0 <= i < out.len() ==> extend(out, offset, len)[i] == out[i],
    decreases len,
{
    if len > 0 {
        lemma_extend_len(out, offset, (len - 1) as nat);
    }
}

/// Two copies from the same offset, one after the other, are one copy.
pub proof fn lemma_extend_add(out: Seq<u8>, offset: int, a: nat, b: nat)
    requires
        1 <= offset <= out.len(),
    ensures
        extend(extend(out, offset, a), offset, b) == extend(out, offset, a + b),
    decreases b,
{
    if b > 0 {
        lemma_extend_add(out, offset, a, (b - 1) as nat);
    }
}

/// Where the bytes of `data` from `base` on repeat the bytes `offset`
/// places before them, a copy rebuilds them from the bytes before `base`.
pub proof fn lemma_extend_matches(data: Seq<u8>, base: int, offset: int, len: nat)
    requires
        1 <= offset <= base,
        base + len <= data.len(),
        forall|k: int| base <= k < base + len ==> #[trigger] data[k] == data[k - offset],
    ensures
        extend(data.subrange(0, base), offset, len) == data.subrange(0, base + len),
    decreases len,
{
    if len == 0 {
    } else {
        lemma_extend_matches(data, base, offset, (len - 1) as nat);
        let before: Seq<u8> = data.subrange(0, base + len - 1);
        assert(before.push(before[before.len() - offset]) =~= data.subrange(0, base + len));
    }
}

/// An element that is valid in `c` stays the same element when more bytes
/// follow `c`.
pub proof fn lemma_step_stable(c: Seq<u8>, more: Seq<u8>, pos: int, out: Seq<u8>, limit: int)
    requires
        0 <= pos < c.len(),
        step(c, pos, out, limit) is Some,
    ensures
        step(c + more, pos, out, limit) == step(c, pos, out, limit),
{
    let t: Tag = parse_tag(c, pos).unwrap();
    assert(parse_tag(c + more, pos) == Some(t));
    if t.literal {
        assert((c + more).subrange(pos + t.head, pos + t.head + t.len) =~= c.subrange(
            pos + t.head,
            pos + t.head + t.len,
        ));
    }
}

/// A valid element never ends before it starts, nor past the end.
pub proof fn lemma_step_bounds(c: Seq<u8>, pos: int, out: Seq<u8>, limit: int)
    requires
        0 <= pos < c.len(),
        step(c, pos, out, limit) is Some,
    ensures
        pos < step(c, pos, out, limit).unwrap().0 <= c.len(),
        step(c, pos, out, limit).unwrap().1.len() <= limit,
        out.len() < step(c, pos, out, limit).unwrap().1.len(),
{
    let t: Tag = parse_tag(c, pos).unwrap();
    if !t.literal {
        lemma_extend_len(out, t.offset as int, t.len as nat);
    }
}

/// Decoding goes through a valid run of elements to its end, whatever
/// follows the run.
pub proof fn lemma_decode_elements_resume(
    c: Seq<u8>,
    more: Seq<u8>,
    from: int,
    out0: Seq<u8>,
    out1: Seq<u8>,
    limit: int,
)
    requires
        0 <= from <= c.len(),
        decode_elements(c, from, out0, limit) == Some(out1),
    ensures
        decode_elements(c + more, from, out0, limit) == decode_elements(
            c + more,
            c.len() as int,
            out1,
            limit,
        ),
    decreases c.len() - from,
{
    if from < c.len() {
        let (next, grown): (int, Seq<u8>) = step(c, from, out0, limit).unwrap();
        lemma_step_stable(c, more, from, out0, limit);
        lemma_step_bounds(c, from, out0, limit);
        lemma_decode_elements_resume(c, more, next, grown, out1, limit);
    }
}

/// One more valid element at the end of a valid run makes a valid run.
pub proof fn lemma_decode_elements_append(
    c: Seq<u8>,
    more: Seq<u8>,
    from: int,
    out0: Seq<u8>,
    out1: Seq<u8>,
    out2: Seq<u8>,
    limit: int,
)
    requires
        0 <= from <= c.len(),
        decode_elements(c, from, out0, limit) == Some(out1),
        step(c + more, c.len() as int, out1, limit) == Some(((c.len() + more.len()) as int, out2)),
        more.len() > 0,
    ensures
        decode_elements(c + more, from, out0, limit) == Some(out2),
{
    let whole: Seq<u8> = c + more;
    lemma_decode_elements_resume(c, more, from, out0, out1, limit);
    assert(decode_elements(whole, whole.len() as int, out2, limit) == Some(out2));
}

/// No element produces more than 32 bytes for each byte that it takes.
pub proof fn lemma_output_bound(c: Seq<u8>, pos: int, out: Seq<u8>, limit: int)
    requires
        0 <= pos <= c.len(),
        decode_elements(c, pos, out, limit) is Some,
    ensures
        decode_elements(c, pos, out, limit).unwrap().len() <= out.len() + 32 * (c.len() - pos),
    decreases c.len() - pos,
{
    if pos < c.len() {
        let (next, grown): (int, Seq<u8>) = step(c, pos, out, limit).unwrap();
        let t: Tag = parse_tag(c, pos).unwrap();
        lemma_step_bounds(c, pos, out, limit);
        if !t.literal {
            lemma_extend_len(out, t.offset as int, t.len as nat);
        }
        lemma_output_bound(c, next, grown, limit);
    }
}

/// A copy that reaches back before the start of the output, or not back at
/// all, makes the whole run invalid, wherever the copy stands: the valid
/// elements before it do not save the run.
pub proof fn lemma_bad_copy_is_invalid(
    c: Seq<u8>,
    start: int,
    pos: int,
    out: Seq<u8>,
    limit: int,
)
    requires
        0 <= start <= pos < c.len(),
        decode_elements(c.subrange(0, pos), start, Seq::<u8>::empty(), limit) == Some(out),
        parse_tag(c, pos) matches Some(t) && !t.literal && (t.offset == 0 || t.offset > out.len()),
    ensures
        decode_elements(c, start, Seq::<u8>::empty(), limit) is None,
{
    let before: Seq<u8> = c.subrange(0, pos);
    let more: Seq<u8> = c.subrange(pos, c.len() as int);
    assert(before + more =~= c);
    lemma_decode_elements_resume(before, more, start, Seq::<u8>::empty(), out, limit);
}

/// The tag and operand bytes of a literal of `len` bytes, for
/// `1 <= len <= 65536`.
pub open spec fn literal_head(len: int) -> Seq<u8> {
    let m: int = len - 1;
    if m < 60 {
        seq![(4 * m) as u8]
    } else if m < 0x100 {
        seq![240u8, m as u8]
    } else {
        seq![244u8, (m % 0x100) as u8, (m / 0x100) as u8]
    }
}

/// The element that produces the bytes `lit`.
pub open spec fn literal_bytes(lit: Seq<u8>) -> Seq<u8> {
    literal_head(lit.len() as int) + lit
}

/// The element that copies `len` bytes from `offset` back, for
/// `4 <= len <= 64` and `1 <= offset < 65536`.
pub open spec fn copy_bytes(offset: int, len: int) -> Seq<u8> {
    if len < 12 && offset < 0x800 {
        seq![((offset / 0x100) * 32 + (len - 4) * 4 + 1) as u8, (offset % 0x100) as u8]
    } else {
        seq![((len - 1) * 4 + 2) as u8, (offset % 0x100) as u8, (offset / 0x100) as u8]
    }
}

/// Where `c` ends in the element for `lit`, that element appends `lit`.
pub proof fn lemma_step_literal(c: Seq<u8>, pos: int, lit: Seq<u8>, out: Seq<u8>, limit: int)
    requires
        0 <= pos,
        1 <= lit.len() <= 0x1_0000,
        c.len() == pos + literal_bytes(lit).len(),
        c.subrange(pos, c.len() as int) == literal_bytes(lit),
        out.len() + lit.len() <= limit,
    ensures
        step(c, pos, out, limit) == Some((c.len() as int, out + lit)),
{
    let e: Seq<u8> = literal_bytes(lit);
    let h: Seq<u8> = literal_head(lit.len() as int);
    assert forall|k: int| 0 <= k < e.len() implies c[pos + k] == e[k] by {
        assert(c.subrange(pos, c.len() as int)[k] == e[k]);
    }
    assert(c[pos] == e[0]);
    if h.len() >= 2 {
        assert(c[pos + 1] == e[1]);
    }
    if h.len() >= 3 {
        assert(c[pos + 2] == e[2]);
    }
    let t: Tag = parse_tag(c, pos).unwrap();
    assert(t.literal && t.head == h.len() && t.len == lit.len());
    let body: Seq<u8> = c.subrange(pos + t.head, pos + t.head + t.len);
    assert forall|k: int| 0 <= k < lit.len() implies body[k] == lit[k] by {
        assert(c.subrange(pos, c.len() as int)[h.len() + k] == e[h.len() + k]);
    }
    assert(body =~= lit);
}

/// Where `c` ends in the element for a copy, that element extends the
/// output by the copy.
pub proof fn lemma_step_copy(
    c: Seq<u8>,
    pos: int,
    offset: int,
    len: int,
    out: Seq<u8>,
    limit: int,
)
    requires
        0 <= pos,
        4 <= len <= 64,
        1 <= offset < 0x1_0000,
        offset <= out.len(),
        c.len() == pos + copy_bytes(offset, len).len(),
        c.subrange(pos, c.len() as int) == copy_bytes(offset, len),
        out.len() + len <= limit,
    ensures
        step(c, pos, out, limit) == Some((c.len() as int, extend(out, offset, len as nat))),
{
    let e: Seq<u8> = copy_bytes(offset, len);
    assert forall|k: int| 0 <= k < e.len() implies c[pos + k] == e[k] by {
        assert(c.subrange(pos, c.len() as int)[k] == e[k]);
    }
    assert(c[pos] == e[0]);
    assert(c[pos + 1] == e[1]);
    if e.len() == 3 {
        assert(c[pos + 2] == e[2]);
    }
}

} // verus!
