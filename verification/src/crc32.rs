//! Masked CRC32C checksums, computed by slicing the input sixteen bytes at a
//! time through lookup tables.

use crate::bytes::{le32, le32_at, lemma_le32_bytes, read_u32_le};
use vstd::prelude::*;

verus! {

/// The Castagnoli polynomial, bit-reflected.
pub const CASTAGNOLI: u32 = 0x82F6_3B78;

/// The constant added to the rotated checksum when it is masked.
pub const MASK_DELTA: u32 = 0xA282_EAD8;

/// The number of entries in one lookup table.
pub const TABLE_LEN: usize = 256;

/// The number of lookup tables.
pub const TABLE_COUNT: usize = 16;

/// Advances the reflected shift register by one zero bit.
pub open spec fn shift_bit(c: u32) -> u32 {
    if c & 1 == 1 {
        (c >> 1) ^ CASTAGNOLI
    } else {
        c >> 1
    }
}

/// Advances the register by one zero byte.
pub open spec fn shift_byte(c: u32) -> u32 {
    shift_bit(shift_bit(shift_bit(shift_bit(shift_bit(shift_bit(shift_bit(shift_bit(c))))))))
}

/// Advances the register by `k` zero bytes.
pub open spec fn shift_bytes(c: u32, k: nat) -> u32
    decreases k,
{
    if k == 0 {
        c
    } else {
        shift_byte(shift_bytes(c, (k - 1) as nat))
    }
}

/// The register after one more byte of input.
pub open spec fn update(crc: u32, b: u8) -> u32 {
    shift_byte(crc ^ (b as u32))
}

/// The register after all of `s`, starting from `crc`.
pub open spec fn fold(crc: u32, s: Seq<u8>) -> u32
    decreases s.len(),
{
    if s.len() == 0 {
        crc
    } else {
        update(fold(crc, s.drop_last()), s.last())
    }
}

/// CRC32C of `s`: the register starts as all ones and is complemented at
/// the end.
pub open spec fn crc32c_spec(s: Seq<u8>) -> u32 {
    !fold(0xFFFF_FFFFu32, s)
}

/// The masking transform: rotate right by 15 bits, then add a constant
/// modulo 2^32.
pub open spec fn mask(crc: u32) -> u32 {
    ((crc >> 15) | (crc << 17)).wrapping_add(MASK_DELTA)
}

/// The masked CRC32C of `s`.
pub open spec fn crc32c_masked_spec(s: Seq<u8>) -> u32 {
    mask(crc32c_spec(s))
}

/// What the flattened lookup tables hold: entry `i` of table `k` is the
/// register that results from byte `i` followed by `k` zero bytes.
pub open spec fn tables_wf(t: Seq<u32>) -> bool {
    &&& t.len() == TABLE_LEN * TABLE_COUNT
    &&& forall|m: int|
        0 <= m < t.len() ==> #[trigger] t[m] == shift_bytes((m % 256) as u32, (m / 256 + 1) as nat)
}

proof fn lemma_shift_bit_linear(x: u32, y: u32)
    by (bit_vector)
    ensures
        shift_bit(x ^ y) == shift_bit(x) ^ shift_bit(y),
{
}

proof fn lemma_shift_byte_linear(x: u32, y: u32)
    ensures
        shift_byte(x ^ y) == shift_byte(x) ^ shift_byte(y),
{
    let x1: u32 = shift_bit(x);
    let y1: u32 = shift_bit(y);
    lemma_shift_bit_linear(x, y);
    let x2: u32 = shift_bit(x1);
    let y2: u32 = shift_bit(y1);
    lemma_shift_bit_linear(x1, y1);
    let x3: u32 = shift_bit(x2);
    let y3: u32 = shift_bit(y2);
    lemma_shift_bit_linear(x2, y2);
    let x4: u32 = shift_bit(x3);
    let y4: u32 = shift_bit(y3);
    lemma_shift_bit_linear(x3, y3);
    let x5: u32 = shift_bit(x4);
    let y5: u32 = shift_bit(y4);
    lemma_shift_bit_linear(x4, y4);
    let x6: u32 = shift_bit(x5);
    let y6: u32 = shift_bit(y5);
    lemma_shift_bit_linear(x5, y5);
    let x7: u32 = shift_bit(x6);
    let y7: u32 = shift_bit(y6);
    lemma_shift_bit_linear(x6, y6);
    lemma_shift_bit_linear(x7, y7);
}

/// A register whose low byte is zero only moves down when a zero byte is
/// shifted in.
proof fn lemma_shift_byte_high(x: u32)
    ensures
        shift_byte((x >> 8) << 8) == x >> 8,
{
    let h: u32 = x >> 8;
    assert(shift_bit(h << 8) == h << 7 && shift_bit(h << 7) == h << 6 && shift_bit(h << 6) == h
        << 5 && shift_bit(h << 5) == h << 4 && shift_bit(h << 4) == h << 3 && shift_bit(h << 3)
        == h << 2 && shift_bit(h << 2) == h << 1 && shift_bit(h << 1) == h) by (bit_vector)
        requires
            h == x >> 8,
    ;
}

proof fn lemma_shift_byte_split(x: u32)
    ensures
        shift_byte(x) == shift_byte(x & 0xff) ^ (x >> 8),
{
    assert(x == (x & 0xff) ^ ((x >> 8) << 8)) by (bit_vector);
    lemma_shift_byte_linear(x & 0xff, (x >> 8) << 8);
    lemma_shift_byte_high(x);
}

/// Shifting by zero bytes is XOR-linear.
pub proof fn lemma_shift_bytes_linear(x: u32, y: u32, k: nat)
    ensures
        shift_bytes(x ^ y, k) == shift_bytes(x, k) ^ shift_bytes(y, k),
    decreases k,
{
    if k > 0 {
        lemma_shift_bytes_linear(x, y, (k - 1) as nat);
        lemma_shift_byte_linear(shift_bytes(x, (k - 1) as nat), shift_bytes(y, (k - 1) as nat));
    }
}

proof fn lemma_shift_bytes_one(x: u32)
    ensures
        shift_bytes(x, 1) == shift_byte(x),
{
    reveal_with_fuel(shift_bytes, 2);
}


proof fn lemma_shift_bytes_front(x: u32, k: nat)
    ensures
        shift_bytes(shift_byte(x), k) == shift_bytes(x, k + 1),
    decreases k,
{
    if k > 0 {
        lemma_shift_bytes_front(x, (k - 1) as nat);
    } else {
        reveal_with_fuel(shift_bytes, 2);
    }
}

/// The register after `k >= 4` zero bytes is the XOR of what each byte of
/// its starting value contributes on its own.
proof fn lemma_split_word(y: u32, k: nat)
    requires
        k >= 4,
    ensures
        shift_bytes(y, k) == shift_bytes(y & 0xff, k) ^ (shift_bytes(
            (y >> 8) & 0xff,
            (k - 1) as nat,
        ) ^ (shift_bytes((y >> 16) & 0xff, (k - 2) as nat) ^ shift_bytes(
            y >> 24,
            (k - 3) as nat,
        ))),
    decreases k,
{
    let y0: u32 = y & 0xff;
    let y1: u32 = (y >> 8) & 0xff;
    let y2: u32 = (y >> 16) & 0xff;
    let y3: u32 = y >> 24;
    if k == 4 {
        reveal_with_fuel(shift_bytes, 5);
        assert((y >> 8) >> 8 == y >> 16 && (y >> 16) >> 8 == y >> 24) by (bit_vector);
        lemma_shift_byte_split(y);
        lemma_shift_byte_split(y >> 8);
        lemma_shift_byte_split(y >> 16);
        let a: u32 = shift_byte(y0);
        let b: u32 = shift_byte(y1);
        let c: u32 = shift_byte(y2);
        lemma_shift_byte_linear(a, y >> 8);
        assert(shift_bytes(y, 2) == shift_byte(a) ^ (b ^ (y >> 16)));
        lemma_shift_byte_linear(shift_byte(a), b ^ (y >> 16));
        lemma_shift_byte_linear(b, y >> 16);
        assert(shift_bytes(y, 3) == shift_byte(shift_byte(a)) ^ (shift_byte(b) ^ (c ^ y3)));
        lemma_shift_byte_linear(shift_byte(shift_byte(a)), shift_byte(b) ^ (c ^ y3));
        lemma_shift_byte_linear(shift_byte(b), c ^ y3);
        lemma_shift_byte_linear(c, y3);
    } else {
        let j: nat = (k - 1) as nat;
        lemma_split_word(y, j);
        let a: u32 = shift_bytes(y0, j);
        let b: u32 = shift_bytes(y1, (j - 1) as nat);
        let c: u32 = shift_bytes(y2, (j - 2) as nat);
        let d: u32 = shift_bytes(y3, (j - 3) as nat);
        lemma_shift_byte_linear(a, b ^ (c ^ d));
        lemma_shift_byte_linear(b, c ^ d);
        lemma_shift_byte_linear(c, d);
    }
}

/// The register after `s` grows by one byte.
pub proof fn lemma_fold_push(crc: u32, s: Seq<u8>, j: int)
    requires
        0 <= j < s.len(),
    ensures
        fold(crc, s.subrange(0, j + 1)) == update(fold(crc, s.subrange(0, j)), s[j]),
{
    assert(s.subrange(0, j + 1).drop_last() =~= s.subrange(0, j));
}

/// The register after `a` followed by `b`.
pub proof fn lemma_fold_concat(crc: u32, a: Seq<u8>, b: Seq<u8>)
    ensures
        fold(crc, a + b) == fold(fold(crc, a), b),
    decreases b.len(),
{
    if b.len() == 0 {
        assert(a + b =~= a);
    } else {
        lemma_fold_concat(crc, a, b.drop_last());
        assert((a + b).drop_last() =~= a + b.drop_last());
    }
}

/// The XOR of what the starting register and the first `j` bytes of `s`
/// each contribute to the register at the end of `s`.
pub open spec fn contributions(crc: u32, s: Seq<u8>, j: nat) -> u32
    decreases j,
{
    if j == 0 {
        shift_bytes(crc, s.len())
    } else {
        contributions(crc, s, (j - 1) as nat) ^ shift_bytes(
            s[j - 1] as u32,
            (s.len() - (j - 1)) as nat,
        )
    }
}

/// A checksum register is XOR-linear in its input: once the rest of `s`
/// has been shifted in as zeros, the register after any prefix is the XOR
/// of the contributions of that prefix.
pub proof fn lemma_fold_contributions(crc: u32, s: Seq<u8>, j: nat)
    requires
        j <= s.len(),
    ensures
        shift_bytes(fold(crc, s.subrange(0, j as int)), (s.len() - j) as nat) == contributions(
            crc,
            s,
            j,
        ),
    decreases j,
{
    if j > 0 {
        let i: nat = (j - 1) as nat;
        let rest: nat = (s.len() - j) as nat;
        lemma_fold_contributions(crc, s, i);
        lemma_fold_push(crc, s, i as int);
        let before: u32 = fold(crc, s.subrange(0, i as int));
        lemma_shift_bytes_front(before ^ (s[i as int] as u32), rest);
        lemma_shift_bytes_linear(before, s[i as int] as u32, rest + 1);
    }
}

proof fn lemma_shift_bit_injective(x: u32, y: u32)
    by (bit_vector)
    requires
        shift_bit(x) == shift_bit(y),
    ensures
        x == y,
{
}

/// No two registers are the same after a zero byte.
proof fn lemma_shift_byte_injective(x: u32, y: u32)
    requires
        shift_byte(x) == shift_byte(y),
    ensures
        x == y,
{
    let x1: u32 = shift_bit(x);
    let y1: u32 = shift_bit(y);
    let x2: u32 = shift_bit(x1);
    let y2: u32 = shift_bit(y1);
    let x3: u32 = shift_bit(x2);
    let y3: u32 = shift_bit(y2);
    let x4: u32 = shift_bit(x3);
    let y4: u32 = shift_bit(y3);
    let x5: u32 = shift_bit(x4);
    let y5: u32 = shift_bit(y4);
    let x6: u32 = shift_bit(x5);
    let y6: u32 = shift_bit(y5);
    let x7: u32 = shift_bit(x6);
    let y7: u32 = shift_bit(y6);
    lemma_shift_bit_injective(x7, y7);
    lemma_shift_bit_injective(x6, y6);
    lemma_shift_bit_injective(x5, y5);
    lemma_shift_bit_injective(x4, y4);
    lemma_shift_bit_injective(x3, y3);
    lemma_shift_bit_injective(x2, y2);
    lemma_shift_bit_injective(x1, y1);
    lemma_shift_bit_injective(x, y);
}

/// Two registers that become equal after one byte each were either equal
/// and took the same byte, or differed and took different bytes.
pub proof fn lemma_update_injective(c1: u32, b1: u8, c2: u32, b2: u8)
    requires
        update(c1, b1) == update(c2, b2),
    ensures
        c1 == c2 <==> b1 == b2,
{
    let v1: u32 = b1 as u32;
    let v2: u32 = b2 as u32;
    lemma_shift_byte_injective(c1 ^ v1, c2 ^ v2);
    assert((c1 == c2) == (v1 == v2)) by (bit_vector)
        requires
            c1 ^ v1 == c2 ^ v2,
    ;
}

/// Two inputs of one length that differ in exactly one byte leave
/// different registers.
pub proof fn lemma_fold_detects_change(crc: u32, a: Seq<u8>, b: Seq<u8>, i: int)
    requires
        a.len() == b.len(),
        0 <= i < a.len(),
        a[i] != b[i],
        forall|j: int| 0 <= j < a.len() && j != i ==> a[j] == b[j],
    ensures
        fold(crc, a) != fold(crc, b),
    decreases a.len(),
{
    let last: int = a.len() - 1;
    if i == last {
        assert(a.drop_last() =~= b.drop_last());
    } else {
        lemma_fold_detects_change(crc, a.drop_last(), b.drop_last(), i);
    }
    if fold(crc, a) == fold(crc, b) {
        lemma_update_injective(
            fold(crc, a.drop_last()),
            a[last],
            fold(crc, b.drop_last()),
            b[last],
        );
    }
}

/// Masking loses nothing: different checksums stay different.
pub proof fn lemma_mask_injective(x: u32, y: u32)
    requires
        mask(x) == mask(y),
    ensures
        x == y,
{
    let rx: u32 = (x >> 15) | (x << 17);
    let ry: u32 = (y >> 15) | (y << 17);
    assert(rx == ry);
    assert(x == y) by (bit_vector)
        requires
            (x >> 15) | (x << 17) == (y >> 15) | (y << 17),
    ;
}

/// The checksum is a function of the bytes alone, and it tells apart any
/// two inputs of one length that differ in exactly one byte: a change of a
/// single bit, or of any bits within one byte, always changes the masked
/// checksum.
pub proof fn lemma_checksum_detects_change(a: Seq<u8>, b: Seq<u8>, i: int)
    requires
        a.len() == b.len(),
        0 <= i < a.len(),
        a[i] != b[i],
        forall|j: int| 0 <= j < a.len() && j != i ==> a[j] == b[j],
    ensures
        crc32c_spec(a) != crc32c_spec(b),
        crc32c_masked_spec(a) != crc32c_masked_spec(b),
{
    lemma_fold_detects_change(0xFFFF_FFFFu32, a, b, i);
    let x: u32 = fold(0xFFFF_FFFFu32, a);
    let y: u32 = fold(0xFFFF_FFFFu32, b);
    assert(!x != !y) by (bit_vector)
        requires
            x != y,
    ;
    if crc32c_masked_spec(a) == crc32c_masked_spec(b) {
        lemma_mask_injective(crc32c_spec(a), crc32c_spec(b));
    }
}

/// One round of slicing by sixteen: the XOR of sixteen table entries is
/// the register after sixteen more bytes.
proof fn lemma_slice16_round(crc: u32, s: Seq<u8>, t: Seq<u32>, x: u32, r: u32)
    requires
        s.len() == 16,
        tables_wf(t),
        x == crc ^ le32(s[0], s[1], s[2], s[3]),
        r == t[s[15] as int] ^ t[256 + s[14]] ^ t[512 + s[13]] ^ t[768 + s[12]] ^ t[1024 + s[11]]
            ^ t[1280 + s[10]] ^ t[1536 + s[9]] ^ t[1792 + s[8]] ^ t[2048 + s[7]] ^ t[2304 + s[6]]
            ^ t[2560 + s[5]] ^ t[2816 + s[4]] ^ t[3072 + (x >> 24)] ^ t[3328 + ((x >> 16) & 0xff)]
            ^ t[3584 + ((x >> 8) & 0xff)] ^ t[3840 + (x & 0xff)],
    ensures
        r == fold(crc, s),
{
    let w: u32 = le32(s[0], s[1], s[2], s[3]);
    lemma_le32_bytes(s[0], s[1], s[2], s[3]);
    assert((x >> 24) < 256 && ((x >> 16) & 0xff) < 256 && ((x >> 8) & 0xff) < 256 && (x & 0xff)
        < 256) by (bit_vector);
    lemma_fold_contributions(crc, s, 16);
    assert(s.subrange(0, 16) =~= s);
    reveal_with_fuel(contributions, 17);
    lemma_split_word(x, 16);
    lemma_split_word(w, 16);
    lemma_shift_bytes_linear(crc, w, 16);
    let zc: u32 = shift_bytes(crc, 16);
    let zx: u32 = shift_bytes(x, 16);
    let zw: u32 = shift_bytes(w, 16);
    let m0: u32 = shift_bytes(s[0] as u32, 16);
    let m1: u32 = shift_bytes(s[1] as u32, 15);
    let m2: u32 = shift_bytes(s[2] as u32, 14);
    let m3: u32 = shift_bytes(s[3] as u32, 13);
    let m4: u32 = shift_bytes(s[4] as u32, 12);
    let m5: u32 = shift_bytes(s[5] as u32, 11);
    let m6: u32 = shift_bytes(s[6] as u32, 10);
    let m7: u32 = shift_bytes(s[7] as u32, 9);
    let m8: u32 = shift_bytes(s[8] as u32, 8);
    let m9: u32 = shift_bytes(s[9] as u32, 7);
    let m10: u32 = shift_bytes(s[10] as u32, 6);
    let m11: u32 = shift_bytes(s[11] as u32, 5);
    let m12: u32 = shift_bytes(s[12] as u32, 4);
    let m13: u32 = shift_bytes(s[13] as u32, 3);
    let m14: u32 = shift_bytes(s[14] as u32, 2);
    let m15: u32 = shift_bytes(s[15] as u32, 1);
    let k0: u32 = shift_bytes(x & 0xff, 16);
    let k1: u32 = shift_bytes((x >> 8) & 0xff, 15);
    let k2: u32 = shift_bytes((x >> 16) & 0xff, 14);
    let k3: u32 = shift_bytes(x >> 24, 13);
    let f: u32 = fold(crc, s);
    assert(f == zc ^ m0 ^ m1 ^ m2 ^ m3 ^ m4 ^ m5 ^ m6 ^ m7 ^ m8 ^ m9 ^ m10 ^ m11 ^ m12 ^ m13 ^ m14
        ^ m15);
    assert(r == m15 ^ m14 ^ m13 ^ m12 ^ m11 ^ m10 ^ m9 ^ m8 ^ m7 ^ m6 ^ m5 ^ m4 ^ k3 ^ k2 ^ k1
        ^ k0);
    assert(zx == k0 ^ (k1 ^ (k2 ^ k3)));
    assert(zw == m0 ^ (m1 ^ (m2 ^ m3)));
    assert(zx == zc ^ zw);
    assert(r == f) by (bit_vector)
        requires
            f == zc ^ m0 ^ m1 ^ m2 ^ m3 ^ m4 ^ m5 ^ m6 ^ m7 ^ m8 ^ m9 ^ m10 ^ m11 ^ m12 ^ m13 ^ m14
                ^ m15,
            r == m15 ^ m14 ^ m13 ^ m12 ^ m11 ^ m10 ^ m9 ^ m8 ^ m7 ^ m6 ^ m5 ^ m4 ^ k3 ^ k2 ^ k1
                ^ k0,
            zx == k0 ^ (k1 ^ (k2 ^ k3)),
            zw == m0 ^ (m1 ^ (m2 ^ m3)),
            zx == zc ^ zw,
    ;
}

/// One round of the byte-at-a-time loop.
proof fn lemma_table_round(crc: u32, b: u8, t: Seq<u32>, r: u32)
    requires
        tables_wf(t),
        r == t[((crc & 0xff) ^ (b as u32)) as int] ^ (crc >> 8),
    ensures
        r == update(crc, b),
{
    let x: u32 = crc ^ (b as u32);
    let v: u32 = b as u32;
    assert(((crc & 0xff) ^ v) == (crc ^ v) & 0xff && (crc ^ v) >> 8 == crc >> 8 && ((crc & 0xff)
        ^ v) < 256) by (bit_vector)
        requires
            v < 256,
    ;
    lemma_shift_byte_split(x);
    lemma_shift_bytes_one(x & 0xff);
}

fn step_bit(c: u32) -> (r: u32)
    ensures
        r == shift_bit(c),
{
    if c & 1 == 1 {
        (c >> 1) ^ CASTAGNOLI
    } else {
        c >> 1
    }
}

fn step_byte(c: u32) -> (r: u32)
    ensures
        r == shift_byte(c),
{
    let c1: u32 = step_bit(c);
    let c2: u32 = step_bit(c1);
    let c3: u32 = step_bit(c2);
    let c4: u32 = step_bit(c3);
    let c5: u32 = step_bit(c4);
    let c6: u32 = step_bit(c5);
    let c7: u32 = step_bit(c6);
    step_bit(c7)
}

/// Computes the sixteen lookup tables, one after the other in one vector.
fn build_tables() -> (t: Vec<u32>)
    ensures
        tables_wf(t@),
{
    let mut t: Vec<u32> = Vec::with_capacity(TABLE_LEN * TABLE_COUNT);
    let mut i: u32 = 0;
    while i < 256
        invariant
            i <= 256,
            t.len() == i,
            forall|m: int| 0 <= m < i ==> #[trigger] t@[m] == shift_byte(m as u32),
        decreases 256 - i,
    {
        t.push(step_byte(i));
        i += 1;
    }
    assert forall|m: int| 0 <= m < 256 implies #[trigger] t@[m] == shift_bytes(
        (m % 256) as u32,
        (m / 256 + 1) as nat,
    ) by {
        lemma_shift_bytes_one(m as u32);
    }
    let mut j: usize = 256;
    while j < 4096
        invariant
            256 <= j <= 4096,
            t.len() == j,
            forall|m: int|
                0 <= m < j ==> #[trigger] t@[m] == shift_bytes(
                    (m % 256) as u32,
                    (m / 256 + 1) as nat,
                ),
        decreases 4096 - j,
    {
        let prev: u32 = t[j - 256];
        assert(prev & 0xff < 256) by (bit_vector);
        let next: u32 = t[(prev & 0xff) as usize] ^ (prev >> 8);
        proof {
            lemma_shift_byte_split(prev);
            lemma_shift_bytes_one(prev & 0xff);
            assert(next == shift_byte(prev));
        }
        t.push(next);
        j += 1;
    }
    t
}

/// Returns the CRC32C checksum of `buf`, sixteen bytes at a time.
fn crc32c_slice16(tables: &Vec<u32>, buf: &[u8]) -> (r: u32)
    requires
        tables_wf(tables@),
    ensures
        r == crc32c_spec(buf@),
{
    let n: usize = buf.len();
    let mut crc: u32 = !0u32;
    let mut p: usize = 0;
    assert(!0u32 == 0xFFFF_FFFFu32) by (bit_vector);
    while n - p >= 16
        invariant
            p <= n,
            n == buf.len(),
            tables_wf(tables@),
            crc == fold(0xFFFF_FFFFu32, buf@.subrange(0, p as int)),
        decreases n - p,
    {
        let x: u32 = crc ^ read_u32_le(buf, p);
        assert((x >> 24) < 256 && ((x >> 16) & 0xff) < 256 && ((x >> 8) & 0xff) < 256 && (x
            & 0xff) < 256) by (bit_vector);
        let next: u32 = tables[buf[p + 15] as usize] ^ tables[256 + buf[p + 14] as usize]
            ^ tables[512 + buf[p + 13] as usize] ^ tables[768 + buf[p + 12] as usize]
            ^ tables[1024 + buf[p + 11] as usize] ^ tables[1280 + buf[p + 10] as usize]
            ^ tables[1536 + buf[p + 9] as usize] ^ tables[1792 + buf[p + 8] as usize]
            ^ tables[2048 + buf[p + 7] as usize] ^ tables[2304 + buf[p + 6] as usize]
            ^ tables[2560 + buf[p + 5] as usize] ^ tables[2816 + buf[p + 4] as usize]
            ^ tables[3072 + (x >> 24) as usize] ^ tables[3328 + ((x >> 16) & 0xff) as usize]
            ^ tables[3584 + ((x >> 8) & 0xff) as usize] ^ tables[3840 + (x & 0xff) as usize];
        proof {
            let head: Seq<u8> = buf@.subrange(0, p as int);
            let s: Seq<u8> = buf@.subrange(p as int, p + 16);
            lemma_slice16_round(crc, s, tables@, x, next);
            lemma_fold_concat(0xFFFF_FFFFu32, head, s);
            assert(head + s =~= buf@.subrange(0, p + 16));
        }
        crc = next;
        p += 16;
    }
    while p < n
        invariant
            p <= n,
            n == buf.len(),
            tables_wf(tables@),
            crc == fold(0xFFFF_FFFFu32, buf@.subrange(0, p as int)),
        decreases n - p,
    {
        let b: u8 = buf[p];
        let v: u32 = b as u32;
        assert(((crc & 0xff) ^ v) < 256) by (bit_vector)
            requires
                v < 256,
        ;
        let next: u32 = tables[((crc & 0xff) ^ v) as usize] ^ (crc >> 8);
        proof {
            lemma_table_round(crc, b, tables@, next);
            lemma_fold_push(0xFFFF_FFFFu32, buf@, p as int);
        }
        crc = next;
        p += 1;
    }
    assert(buf@.subrange(0, n as int) =~= buf@);
    !crc
}

/// Computes masked CRC32C checksums, as the Snappy frame format defines
/// them. The lookup tables are computed once, when the value is made.
#[derive(Debug)]
pub struct CheckSummer {
    tables: Vec<u32>,
}

impl Clone for CheckSummer {
    fn clone(&self) -> (r: CheckSummer) {
        proof {
            use_type_invariant(self);
        }
        let tables: Vec<u32> = self.tables.clone();
        assert(tables@ =~= self.tables@);
        CheckSummer { tables }
    }
}

impl CheckSummer {
    #[verifier::type_invariant]
    spec fn wf(self) -> bool {
        tables_wf(self.tables@)
    }

    /// The sixteen lookup tables that the value holds, one after the
    /// other.
    pub closed spec fn tables(&self) -> Seq<u32> {
        self.tables@
    }

    /// Creates a checksummer that can compute CRC32C checksums of
    /// arbitrary bytes: it computes the lookup tables that the checksums
    /// are then read from.
    pub fn new() -> (r: CheckSummer)
        ensures
            tables_wf(r.tables()),
    {
        CheckSummer { tables: build_tables() }
    }

    /// Returns the masked CRC32C checksum of `buf`, using the Castagnoli
    /// polynomial. Masking makes the checksum robust with respect to data
    /// that contains the checksum itself.
    pub fn crc32c_masked(&self, buf: &[u8]) -> (r: u32)
        ensures
            r == crc32c_masked_spec(buf@),
    {
        let sum: u32 = self.crc32c(buf);
        ((sum >> 15) | (sum << 17)).wrapping_add(MASK_DELTA)
    }

    /// Returns the CRC32C checksum of `buf`, using the Castagnoli
    /// polynomial.
    pub fn crc32c(&self, buf: &[u8]) -> (r: u32)
        ensures
            r == crc32c_spec(buf@),
    {
        proof {
            use_type_invariant(self);
        }
        crc32c_slice16(&self.tables, buf)
    }
}

} // verus!
