use vstd::prelude::*;
use vstd::arithmetic::power2::*;
use vstd::arithmetic::div_mod::lemma_div_denominator;

verus! {

/// Bit `k` of byte `b`, counting from the most significant bit (`k == 0`).
pub open spec fn byte_bit(b: u8, k: u8) -> bool {
    (b >> (7 - k) as u8) & 1u8 == 1u8
}

/// All bits of a byte sequence, most significant bit of each byte first.
pub open spec fn bytes_bits(data: Seq<u8>) -> Seq<bool> {
    Seq::new(8 * data.len(), |i: int| byte_bit(data[i / 8], (i % 8) as u8))
}

/// The `w` low bits of `v`, most significant first.
pub open spec fn value_bits(v: nat, w: nat) -> Seq<bool> {
    Seq::new(w, |j: int| (v / pow2((w - 1 - j) as nat)) % 2 == 1)
}

/// The number that a bit sequence spells out, most significant bit first.
pub open spec fn bits_value(s: Seq<bool>) -> nat
    decreases s.len(),
{
    if s.len() == 0 {
        0
    } else {
        2 * bits_value(s.drop_last()) + if s.last() { 1nat } else { 0nat }
    }
}

pub proof fn lemma_byte_bit_or(b: u8, k: u8, j: u8)
    requires
        k < 8,
        j < 8,
    ensures
        byte_bit(b | (0x80u8 >> k), j) == (j == k || byte_bit(b, j)),
{
    assert(((b | (0x80u8 >> k)) >> (7 - j) as u8) & 1u8 == 1u8 <==> (j == k || (b >> (7
        - j) as u8) & 1u8 == 1u8)) by (bit_vector)
        requires
            k < 8,
            j < 8,
    ;
}

pub proof fn lemma_byte_bit_zero(k: u8)
    requires
        k < 8,
    ensures
        !byte_bit(0u8, k),
{
    assert((0u8 >> (7 - k) as u8) & 1u8 != 1u8) by (bit_vector)
        requires
            k < 8,
    ;
}

/// Appending one bit to `value_bits` doubles the value and adds the bit.
pub proof fn lemma_value_bits_push(v: nat, k: nat, b: bool)
    ensures
        value_bits(2 * v + if b { 1nat } else { 0nat }, k + 1) == value_bits(v, k).push(b),
{
    let x: nat = 2 * v + if b { 1nat } else { 0nat };
    lemma2_to64();
    assert forall|j: int| 0 <= j < k implies #[trigger] value_bits(x, k + 1)[j] == value_bits(
        v,
        k,
    )[j] by {
        let e = (k - 1 - j) as nat;
        lemma_pow2_unfold(e + 1);
        lemma_pow2_pos(e);
        lemma_div_denominator(x as int, 2, pow2(e) as int);
        assert((k + 1 - 1 - j) as nat == e + 1);
    }
    assert(value_bits(x, k + 1)[k as int] == b) by {
        assert((k + 1 - 1 - k) as nat == 0);
    }
    assert(value_bits(x, k + 1) =~= value_bits(v, k).push(b));
}

/// `bits_value` reads back what `value_bits` wrote.
pub proof fn lemma_bits_value_of_value_bits(v: nat, w: nat)
    requires
        v < pow2(w),
    ensures
        bits_value(value_bits(v, w)) == v,
    decreases w,
{
    if w == 0 {
        lemma2_to64();
    } else {
        let h: nat = v / 2;
        let b = v % 2 == 1;
        lemma_pow2_unfold(w);
        assert(v == 2 * h + if b { 1nat } else { 0nat });
        assert(h < pow2((w - 1) as nat));
        lemma_bits_value_of_value_bits(h, (w - 1) as nat);
        lemma_value_bits_push(h, (w - 1) as nat, b);
        assert(value_bits(v, w).drop_last() =~= value_bits(h, (w - 1) as nat));
    }
}

/// Equal bit patterns of one width come from equal values.
pub proof fn lemma_value_bits_injective(v1: nat, v2: nat, w: nat)
    requires
        v1 < pow2(w),
        v2 < pow2(w),
        value_bits(v1, w) == value_bits(v2, w),
    ensures
        v1 == v2,
{
    lemma_bits_value_of_value_bits(v1, w);
    lemma_bits_value_of_value_bits(v2, w);
}

} // verus!
