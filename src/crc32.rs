//! Table-driven CRC-32 (reflected, polynomial 0xEDB88320, initial value and
//! final mask 0xFFFFFFFF).

use vstd::prelude::*;

verus! {

/// The reflected CRC-32 polynomial.
pub const CRC32_POLYNOMIAL: u32 = 0xEDB8_8320;

/// One bit step of the CRC register: shift right, and fold in the polynomial
/// when the bit that falls out is set.
pub open spec fn crc_shift(c: u32) -> u32 {
    if c & 1 == 1 {
        (c >> 1u32) ^ 0xEDB8_8320u32
    } else {
        c >> 1u32
    }
}

/// `n` bit steps of the CRC register.
pub open spec fn crc_shifts(c: u32, n: nat) -> u32
    decreases n,
{
    if n == 0 {
        c
    } else {
        crc_shift(crc_shifts(c, (n - 1) as nat))
    }
}

/// The register after one more byte.
pub open spec fn crc_update(c: u32, b: u8) -> u32 {
    crc_shifts(c ^ (b as u32), 8)
}

/// The CRC register after all bytes of `s`, starting from all ones.
pub open spec fn crc_register(s: Seq<u8>) -> u32
    decreases s.len(),
{
    if s.len() == 0 {
        0xFFFF_FFFFu32
    } else {
        crc_update(crc_register(s.drop_last()), s.last())
    }
}

/// The CRC-32 of a byte sequence.
pub open spec fn crc32(s: Seq<u8>) -> u32 {
    crc_register(s) ^ 0xFFFF_FFFFu32
}

/// Entry `i` of the lookup table: the register after eight steps from `i`.
pub open spec fn crc_table_entry(i: int) -> u32 {
    crc_shifts(i as u32, 8)
}

/// The 256-entry lookup table of the byte-wise CRC-32.
pub struct Crc32Table(Vec<u32>);

impl View for Crc32Table {
    type V = Seq<u32>;

    closed spec fn view(&self) -> Seq<u32> {
        self.0@
    }
}

impl Crc32Table {
    /// Builds the lookup table.
    pub fn new() -> (t: Self)
        ensures
            t@.len() == 256,
            forall|i: int| 0 <= i < 256 ==> t@[i] == crc_table_entry(i),
    {
        let mut table: Vec<u32> = Vec::new();
        let mut i: u32 = 0;
        while i < 256
            invariant
                i <= 256,
                table@.len() == i,
                forall|k: int| 0 <= k < i ==> table@[k] == crc_table_entry(k),
            decreases 256 - i,
        {
            let mut crc: u32 = i;
            let mut j: u32 = 0;
            while j < 8
                invariant
                    j <= 8,
                    crc == crc_shifts(i, j as nat),
                decreases 8 - j,
            {
                if (crc & 1) == 1 {
                    crc = (crc >> 1) ^ CRC32_POLYNOMIAL;
                } else {
                    crc = crc >> 1;
                }
                j = j + 1;
            }
            table.push(crc);
            i = i + 1;
        }
        Crc32Table(table)
    }
}

proof fn lemma_shift_xor(a: u32, b: u32)
    ensures
        crc_shift(a ^ b) == crc_shift(a) ^ crc_shift(b),
{
    assert((if (a ^ b) & 1 == 1 { ((a ^ b) >> 1u32) ^ 0xEDB8_8320u32 } else { (a ^ b) >> 1u32 })
        == (if a & 1 == 1 { (a >> 1u32) ^ 0xEDB8_8320u32 } else { a >> 1u32 })
            ^ (if b & 1 == 1 { (b >> 1u32) ^ 0xEDB8_8320u32 } else { b >> 1u32 })) by (bit_vector);
}

proof fn lemma_shifts_xor(a: u32, b: u32, n: nat)
    ensures
        crc_shifts(a ^ b, n) == crc_shifts(a, n) ^ crc_shifts(b, n),
    decreases n,
{
    if n > 0 {
        lemma_shifts_xor(a, b, (n - 1) as nat);
        lemma_shift_xor(crc_shifts(a, (n - 1) as nat), crc_shifts(b, (n - 1) as nat));
    }
}

proof fn lemma_shifts_high(x: u32, k: nat)
    requires
        k <= 8,
    ensures
        crc_shifts(x & 0xFFFF_FF00u32, k) == (x & 0xFFFF_FF00u32) >> (k as u32),
    decreases k,
{
    if k > 0 {
        lemma_shifts_high(x, (k - 1) as nat);
        let j = (k - 1) as u32;
        let y = (x & 0xFFFF_FF00u32) >> j;
        assert(j < 8 ==> ((x & 0xFFFF_FF00u32) >> j) & 1 == 0) by (bit_vector);
        let j1 = k as u32;
        assert(((x & 0xFFFF_FF00u32) >> j) >> 1u32 == (x & 0xFFFF_FF00u32) >> j1) by (bit_vector)
            requires
                j < 8,
                j1 == j + 1,
        ;
    } else {
        assert((x & 0xFFFF_FF00u32) >> 0u32 == (x & 0xFFFF_FF00u32)) by (bit_vector);
    }
}

/// Eight steps split into the shifted high part and the table entry of the
/// low byte.
proof fn lemma_shifts8_split(x: u32)
    ensures
        crc_shifts(x, 8) == (x >> 8u32) ^ crc_shifts(x & 0xFF, 8),
{
    assert(x == (x & 0xFFFF_FF00u32) ^ (x & 0xFFu32)) by (bit_vector);
    lemma_shifts_xor(x & 0xFFFF_FF00u32, x & 0xFFu32, 8);
    lemma_shifts_high(x, 8);
    assert((x & 0xFFFF_FF00u32) >> 8u32 == x >> 8u32) by (bit_vector);
}

/// Computes the CRC-32 of the first `len` bytes of `buffer`.
pub fn crc32_prefix(buffer: &Vec<u8>, len: usize) -> (r: u32)
    requires
        len <= buffer.len(),
    ensures
        r == crc32(buffer@.subrange(0, len as int)),
{
    let mut crc: u32 = 0xFFFF_FFFF;
    let table = Crc32Table::new();
    let mut i: usize = 0;
    while i < len
        invariant
            i <= len <= buffer.len(),
            table@.len() == 256,
            forall|k: int| 0 <= k < 256 ==> table@[k] == crc_table_entry(k),
            crc == crc_register(buffer@.subrange(0, i as int)),
        decreases len - i,
    {
        let b = buffer[i];
        let idx = (crc & 0xFF) ^ (b as u32);
        proof {
            assert((crc & 0xFFu32) ^ (b as u32) == (crc ^ (b as u32)) & 0xFFu32) by (bit_vector)
                requires
                    (b as u32) < 256,
            ;
            assert(idx < 256) by (bit_vector)
                requires
                    idx == (crc & 0xFFu32) ^ (b as u32),
                    (b as u32) < 256,
            ;
            assert(crc >> 8u32 == (crc ^ (b as u32)) >> 8u32) by (bit_vector)
                requires
                    (b as u32) < 256,
            ;
            lemma_shifts8_split(crc ^ (b as u32));
            let s = buffer@.subrange(0, i + 1);
            assert(s.drop_last() =~= buffer@.subrange(0, i as int));
            assert(s.last() == b);
            assert(crc_register(s) == crc_update(crc, b));
            assert(idx < 256);
            assert(table@[idx as int] == crc_table_entry(idx as int));
            assert(table@[idx as int] == crc_shifts(idx, 8));
        }
        crc = (crc >> 8) ^ table.0[idx as usize];
        i = i + 1;
    }
    crc ^ 0xFFFF_FFFF
}

/// Computes the CRC-32 of the first `len` bytes of `buffer` (of none when
/// `len` is negative).
pub fn calculate_crc32(buffer: &Vec<u8>, len: i32) -> (r: u32)
    requires
        len <= buffer.len(),
    ensures
        r == crc32(buffer@.subrange(0, if len < 0 { 0 } else { len as int })),
{
    if len < 0 {
        crc32_prefix(buffer, 0)
    } else {
        crc32_prefix(buffer, len as usize)
    }
}

proof fn lemma_shift_nonzero(c: u32)
    requires
        c != 0,
    ensures
        crc_shift(c) != 0,
{
    assert(c != 0 ==> (if c & 1 == 1 { (c >> 1u32) ^ 0xEDB8_8320u32 } else { c >> 1u32 }) != 0)
        by (bit_vector);
}

proof fn lemma_shifts_nonzero(c: u32, n: nat)
    requires
        c != 0,
    ensures
        crc_shifts(c, n) != 0,
    decreases n,
{
    if n > 0 {
        lemma_shifts_nonzero(c, (n - 1) as nat);
        lemma_shift_nonzero(crc_shifts(c, (n - 1) as nat));
    }
}

/// Distinct registers stay distinct after the same byte.
proof fn lemma_update_injective(c1: u32, c2: u32, b: u8)
    requires
        c1 != c2,
    ensures
        crc_update(c1, b) != crc_update(c2, b),
{
    let x = b as u32;
    assert((c1 ^ x) ^ (c2 ^ x) == c1 ^ c2) by (bit_vector);
    assert(c1 != c2 ==> c1 ^ c2 != 0) by (bit_vector);
    lemma_shifts_xor(c1 ^ x, c2 ^ x, 8);
    lemma_shifts_nonzero(c1 ^ c2, 8);
    let u1 = crc_update(c1, b);
    let u2 = crc_update(c2, b);
    assert(u1 ^ u2 != 0 ==> u1 != u2) by (bit_vector);
}

/// Two bytes that differ in one bit move the same register to distinct
/// registers.
proof fn lemma_update_bit_flip(c: u32, b: u8, k: u8)
    requires
        k < 8,
    ensures
        crc_update(c, b) != crc_update(c, b ^ (1u8 << k)),
{
    let b2 = b ^ (1u8 << k);
    let x1 = c ^ (b as u32);
    let x2 = c ^ (b2 as u32);
    let d = (1u8 << k) as u32;
    assert(b2 as u32 == (b as u32) ^ d) by (bit_vector)
        requires
            b2 == b ^ (1u8 << k),
            d == (1u8 << k) as u32,
    ;
    assert(x1 ^ x2 == d) by (bit_vector)
        requires
            x1 == c ^ (b as u32),
            x2 == c ^ ((b as u32) ^ d),
    ;
    assert(d != 0) by (bit_vector)
        requires
            k < 8,
            d == (1u8 << k) as u32,
    ;
    lemma_shifts_xor(x1, x2, 8);
    lemma_shifts_nonzero(d, 8);
    let u1 = crc_update(c, b);
    let u2 = crc_update(c, b2);
    assert(u1 ^ u2 != 0 ==> u1 != u2) by (bit_vector);
}

proof fn lemma_prefix_registers_differ(s: Seq<u8>, t: Seq<u8>, i: int, k: u8, j: int)
    requires
        0 <= i < j <= s.len(),
        k < 8,
        t == s.update(i, s[i] ^ (1u8 << k)),
    ensures
        crc_register(s.subrange(0, j)) != crc_register(t.subrange(0, j)),
    decreases j,
{
    let sj = s.subrange(0, j);
    let tj = t.subrange(0, j);
    assert(sj.drop_last() =~= s.subrange(0, j - 1));
    assert(tj.drop_last() =~= t.subrange(0, j - 1));
    if j == i + 1 {
        assert(s.subrange(0, i) =~= t.subrange(0, i));
        lemma_update_bit_flip(crc_register(s.subrange(0, i)), s[i], k);
    } else {
        lemma_prefix_registers_differ(s, t, i, k, j - 1);
        lemma_update_injective(
            crc_register(s.subrange(0, j - 1)),
            crc_register(t.subrange(0, j - 1)),
            s[j - 1],
        );
    }
}

/// Flipping any one bit of the input changes the CRC-32: no single-bit
/// corruption goes unnoticed.
pub proof fn lemma_crc32_detects_single_bit_flip(s: Seq<u8>, i: int, k: u8)
    requires
        0 <= i < s.len(),
        k < 8,
    ensures
        crc32(s) != crc32(s.update(i, s[i] ^ (1u8 << k))),
{
    let t = s.update(i, s[i] ^ (1u8 << k));
    lemma_prefix_registers_differ(s, t, i, k, s.len() as int);
    assert(s.subrange(0, s.len() as int) =~= s);
    assert(t.subrange(0, t.len() as int) =~= t);
    let r1 = crc_register(s);
    let r2 = crc_register(t);
    assert(r1 != r2 ==> r1 ^ 0xFFFF_FFFFu32 != r2 ^ 0xFFFF_FFFFu32) by (bit_vector);
}

} // verus!
