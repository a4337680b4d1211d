use vstd::prelude::*;

verus! {

/// The CRC16 generator polynomial (x^16 + x^12 + x^5 + 1).
pub const CRC16_POLY: u16 = 0x1021;

/// The CRC16 register's starting value.
pub const CRC16_INIT: u16 = 0xFFFF;

/// One shift of the CRC register, folding in the polynomial when the top bit
/// falls out.
pub open spec fn crc_shift(c: u16) -> u16 {
    if c & 0x8000u16 != 0 {
        (c << 1u16) ^ 0x1021u16
    } else {
        c << 1u16
    }
}

pub open spec fn crc_shifts(c: u16, n: nat) -> u16
    decreases n,
{
    if n == 0 {
        c
    } else {
        crc_shift(crc_shifts(c, (n - 1) as nat))
    }
}

/// The register after one more byte.
pub open spec fn crc_add_byte(c: u16, b: u8) -> u16 {
    crc_shifts(c ^ ((b as u16) << 8u16), 8)
}

/// The register after `bytes`, starting from `c`.
pub open spec fn crc_of(c: u16, bytes: Seq<u8>) -> u16
    decreases bytes.len(),
{
    if bytes.len() == 0 {
        c
    } else {
        crc_add_byte(crc_of(c, bytes.drop_last()), bytes.last())
    }
}

/// The CRC16 of a byte stream.
pub open spec fn crc16(bytes: Seq<u8>) -> u16 {
    crc_of(0xFFFFu16, bytes)
}

/// Folds one byte into a running CRC16.
pub fn crc16_add_byte(crc: u16, byte: u8) -> (r: u16)
    ensures
        r == crc_add_byte(crc, byte),
{
    let start = crc ^ ((byte as u16) << 8u16);
    let mut c = start;
    let mut i: u32 = 0;
    while i < 8
        invariant
            i <= 8,
            c == crc_shifts(start, i as nat),
        decreases 8 - i,
    {
        if c & 0x8000u16 != 0 {
            c = (c << 1u16) ^ CRC16_POLY;
        } else {
            c = c << 1u16;
        }
        i = i + 1;
    }
    c
}

/// The CRC16 of `bytes`.
pub fn crc16_of(bytes: &Vec<u8>) -> (r: u16)
    ensures
        r == crc16(bytes@),
{
    let mut c = CRC16_INIT;
    let mut i: usize = 0;
    while i < bytes.len()
        invariant
            i <= bytes@.len(),
            c == crc_of(0xFFFFu16, bytes@.take(i as int)),
        decreases bytes@.len() - i,
    {
        proof {
            assert(bytes@.take(i + 1).drop_last() =~= bytes@.take(i as int));
        }
        c = crc16_add_byte(c, bytes[i]);
        i = i + 1;
    }
    proof {
        assert(bytes@.take(i as int) =~= bytes@);
    }
    c
}

proof fn lemma_shift_xor(a: u16, b: u16)
    ensures
        crc_shift(a ^ b) == crc_shift(a) ^ crc_shift(b),
{
    let x = a ^ b;
    assert((if x & 0x8000u16 != 0 { (x << 1u16) ^ 0x1021u16 } else { x << 1u16 }) == (if a
        & 0x8000u16 != 0 {
        (a << 1u16) ^ 0x1021u16
    } else {
        a << 1u16
    }) ^ (if b & 0x8000u16 != 0 {
        (b << 1u16) ^ 0x1021u16
    } else {
        b << 1u16
    })) by (bit_vector)
        requires
            x == a ^ b,
    ;
}

proof fn lemma_shift_nonzero(a: u16)
    requires
        a != 0,
    ensures
        crc_shift(a) != 0,
{
    assert((if a & 0x8000u16 != 0 { (a << 1u16) ^ 0x1021u16 } else { a << 1u16 }) != 0u16)
        by (bit_vector)
        requires
            a != 0u16,
    ;
}

proof fn lemma_shifts_xor(a: u16, b: u16, n: nat)
    ensures
        crc_shifts(a ^ b, n) == crc_shifts(a, n) ^ crc_shifts(b, n),
    decreases n,
{
    if n > 0 {
        lemma_shifts_xor(a, b, (n - 1) as nat);
        lemma_shift_xor(crc_shifts(a, (n - 1) as nat), crc_shifts(b, (n - 1) as nat));
    }
}

proof fn lemma_shifts_nonzero(a: u16, n: nat)
    requires
        a != 0,
    ensures
        crc_shifts(a, n) != 0,
    decreases n,
{
    if n > 0 {
        lemma_shifts_nonzero(a, (n - 1) as nat);
        lemma_shift_nonzero(crc_shifts(a, (n - 1) as nat));
    }
}

/// Registers that differ stay different after the same byte.
proof fn lemma_add_byte_keeps_difference(c1: u16, c2: u16, b: u8)
    requires
        c1 != c2,
    ensures
        crc_add_byte(c1, b) != crc_add_byte(c2, b),
{
    let m = (b as u16) << 8u16;
    let (x1, x2) = (c1 ^ m, c2 ^ m);
    lemma_shifts_xor(x1, x2, 8);
    assert(x1 ^ x2 != 0u16) by (bit_vector)
        requires
            c1 != c2,
            x1 == c1 ^ m,
            x2 == c2 ^ m,
    ;
    lemma_shifts_nonzero(x1 ^ x2, 8);
    assert(crc_shifts(x1, 8) ^ crc_shifts(x2, 8) != 0u16);
    let (y1, y2) = (crc_shifts(x1, 8), crc_shifts(x2, 8));
    assert(y1 != y2) by (bit_vector)
        requires
            y1 ^ y2 != 0u16,
    ;
}

/// Different bytes leave the same register different.
proof fn lemma_add_byte_detects(c: u16, b1: u8, b2: u8)
    requires
        b1 != b2,
    ensures
        crc_add_byte(c, b1) != crc_add_byte(c, b2),
{
    let (x1, x2) = (c ^ ((b1 as u16) << 8u16), c ^ ((b2 as u16) << 8u16));
    lemma_shifts_xor(x1, x2, 8);
    let w1 = b1 as u16;
    let w2 = b2 as u16;
    assert(x1 ^ x2 != 0u16) by (bit_vector)
        requires
            w1 != w2,
            w1 < 256,
            w2 < 256,
            x1 == c ^ (w1 << 8u16),
            x2 == c ^ (w2 << 8u16),
    ;
    lemma_shifts_nonzero(x1 ^ x2, 8);
    let (y1, y2) = (crc_shifts(x1, 8), crc_shifts(x2, 8));
    assert(y1 != y2) by (bit_vector)
        requires
            y1 ^ y2 != 0u16,
    ;
}

proof fn lemma_crc_keeps_difference(c1: u16, c2: u16, m: Seq<u8>)
    requires
        c1 != c2,
    ensures
        crc_of(c1, m) != crc_of(c2, m),
    decreases m.len(),
{
    if m.len() > 0 {
        lemma_crc_keeps_difference(c1, c2, m.drop_last());
        lemma_add_byte_keeps_difference(
            crc_of(c1, m.drop_last()),
            crc_of(c2, m.drop_last()),
            m.last(),
        );
    }
}

proof fn lemma_crc_split(c: u16, m: Seq<u8>, j: int)
    requires
        0 <= j <= m.len(),
    ensures
        crc_of(c, m) == crc_of(crc_of(c, m.take(j)), m.skip(j)),
    decreases m.len() - j,
{
    if j == m.len() {
        assert(m.take(j) =~= m);
        assert(m.skip(j) =~= Seq::<u8>::empty());
    } else {
        lemma_crc_split(c, m.drop_last(), j);
        assert(m.drop_last().take(j) =~= m.take(j));
        assert(m.skip(j).drop_last() =~= m.drop_last().skip(j));
        assert(m.skip(j).last() == m.last());
    }
}

/// Changing any one byte of a message changes its CRC16.
pub proof fn lemma_crc_detects_byte_change(m: Seq<u8>, j: int, x: u8)
    requires
        0 <= j < m.len(),
        x != m[j],
    ensures
        crc16(m.update(j, x)) != crc16(m),
{
    let m2 = m.update(j, x);
    lemma_crc_split(0xFFFFu16, m, j + 1);
    lemma_crc_split(0xFFFFu16, m2, j + 1);
    assert(m2.take(j + 1).drop_last() =~= m.take(j + 1).drop_last());
    assert(m2.skip(j + 1) =~= m.skip(j + 1));
    let r = crc_of(0xFFFFu16, m.take(j));
    assert(m.take(j + 1).drop_last() =~= m.take(j));
    lemma_add_byte_detects(r, x, m[j]);
    lemma_crc_keeps_difference(
        crc_of(0xFFFFu16, m2.take(j + 1)),
        crc_of(0xFFFFu16, m.take(j + 1)),
        m.skip(j + 1),
    );
}

} // verus!
