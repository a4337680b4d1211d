use vstd::prelude::*;
use bit_field::BitField;

verus! {

/// The mask of bits `lo..hi` of a `u32`.
pub open spec fn field_mask(lo: u32, hi: u32) -> u32 {
    (0xFFFF_FFFFu32 >> (32 - (hi - lo)) as u32) << lo
}

/// Relies on `BitField::set_bits` for `u32`: bits `lo..hi` of `x` are replaced
/// by `v`, which fits in them, and the other bits are kept.
#[verifier::external_body]
fn set_bits_u32(x: u32, lo: u32, hi: u32, v: u32) -> (r: u32)
    requires
        lo < hi <= 32,
        hi - lo < 32,
        v >> (hi - lo) as u32 == 0,
    ensures
        r == (x & !field_mask(lo, hi)) | (v << lo),
{
    let mut y = x;
    y.set_bits((lo as usize)..(hi as usize), v);
    y
}

/// Relies on `BitField::set_bit` for `u32`: bit `bit` of `x` becomes `value`,
/// the other bits are kept.
#[verifier::external_body]
fn set_bit_u32(x: u32, bit: u32, value: bool) -> (r: u32)
    requires
        bit < 32,
    ensures
        r == if value {
            x | (1u32 << bit)
        } else {
            x & !(1u32 << bit)
        },
{
    let mut y = x;
    y.set_bit(bit as usize, value);
    y
}

/// Relies on `BitField::get_bits` for `u32`: bits `lo..hi` of `x`, shifted down.
#[verifier::external_body]
fn get_bits_u32(x: u32, lo: u32, hi: u32) -> (r: u32)
    requires
        lo < hi <= 32,
    ensures
        r == (x >> lo) & (0xFFFF_FFFFu32 >> (32 - (hi - lo)) as u32),
{
    x.get_bits((lo as usize)..(hi as usize))
}

/// A node identifier, 0 to 127.
#[derive(Debug, PartialEq, Eq, Clone, Copy, Structural)]
pub struct NodeID {
    pub value: u8,
}

impl NodeID {
    pub open spec fn wf(&self) -> bool {
        self.value < 128
    }

    /// The node identifier `value`, if it is in range.
    pub fn new(value: u8) -> (r: Option<NodeID>)
        ensures
            r == (if value < 128 {
                Some(NodeID { value })
            } else {
                None
            }),
    {
        if value < 128 {
            Some(NodeID { value })
        } else {
            None
        }
    }
}

/// The 29-bit identifier of a transport frame.
#[derive(Debug, PartialEq, Eq, Clone, Copy, Structural)]
pub struct TransferFrameID {
    pub id: u32,
}

/// The identifier of a message: source node in bits 0..7, bit 7 clear, type
/// identifier in bits 8..24, priority in bits 24..29.
pub open spec fn message_id(priority: u8, source: u8, type_id: u16) -> u32 {
    ((priority as u32) << 24u32) | ((type_id as u32) << 8u32) | (source as u32)
}

pub open spec fn id_priority(id: u32) -> u8 {
    ((id >> 24u32) & 0x1Fu32) as u8
}

pub open spec fn id_source(id: u32) -> u8 {
    (id & 0x7Fu32) as u8
}

pub open spec fn id_is_service(id: u32) -> bool {
    (id >> 7u32) & 1u32 == 1u32
}

pub open spec fn id_type(id: u32) -> u16 {
    ((id >> 8u32) & 0xFFFFu32) as u16
}

impl TransferFrameID {
    pub open spec fn wf(&self) -> bool {
        self.id < 0x2000_0000
    }

    pub fn new(id: u32) -> (r: Self)
        ensures
            r.id == id,
    {
        TransferFrameID { id }
    }

    /// Packs the identifier of a message of type `type_id` sent by `source`.
    pub fn from_message_parts(priority: u8, source: NodeID, type_id: u16) -> (r: Self)
        requires
            priority < 32,
            source.wf(),
        ensures
            r.id == message_id(priority, source.value, type_id),
            r.wf(),
    {
        let s = source.value as u32;
        let t = type_id as u32;
        let p = priority as u32;
        let mut id: u32 = 0;
        assert(s >> 7u32 == 0) by (bit_vector)
            requires
                s < 128,
        ;
        id = set_bits_u32(id, 0, 7, s);
        id = set_bit_u32(id, 7, false);
        assert(t >> 16u32 == 0) by (bit_vector)
            requires
                t < 0x10000,
        ;
        id = set_bits_u32(id, 8, 24, t);
        assert(p >> 5u32 == 0) by (bit_vector)
            requires
                p < 32,
        ;
        id = set_bits_u32(id, 24, 29, p);
        assert(id == (p << 24u32) | (t << 8u32) | s && id < 0x2000_0000) by (bit_vector)
            requires
                s < 128,
                t < 0x10000,
                p < 32,
                id == ((((((0u32 & !((0xFFFF_FFFFu32 >> 25u32) << 0u32)) | (s << 0u32)) & !(
                1u32 << 7u32)) & !((0xFFFF_FFFFu32 >> 16u32) << 8u32)) | (t << 8u32)) & !((
                0xFFFF_FFFFu32 >> 27u32) << 24u32)) | (p << 24u32),
        ;
        TransferFrameID { id }
    }

    pub fn priority(&self) -> (r: u8)
        ensures
            r == id_priority(self.id),
    {
        let x = self.id;
        let v = get_bits_u32(x, 24, 29);
        assert(v == (x >> 24u32) & 0x1Fu32) by (bit_vector)
            requires
                v == (x >> 24u32) & (0xFFFF_FFFFu32 >> 27u32),
        ;
        v as u8
    }

    pub fn source_node(&self) -> (r: u8)
        ensures
            r == id_source(self.id),
    {
        let x = self.id;
        let v = get_bits_u32(x, 0, 7);
        assert(v == x & 0x7Fu32) by (bit_vector)
            requires
                v == (x >> 0u32) & (0xFFFF_FFFFu32 >> 25u32),
        ;
        v as u8
    }

    pub fn is_service(&self) -> (r: bool)
        ensures
            r == id_is_service(self.id),
    {
        let x = self.id;
        let v = get_bits_u32(x, 7, 8);
        assert(v == (x >> 7u32) & 1u32) by (bit_vector)
            requires
                v == (x >> 7u32) & (0xFFFF_FFFFu32 >> 31u32),
        ;
        v == 1
    }

    /// The type identifier of a message frame.
    pub fn type_id(&self) -> (r: u16)
        ensures
            r == id_type(self.id),
    {
        let x = self.id;
        let v = get_bits_u32(x, 8, 24);
        assert(v == (x >> 8u32) & 0xFFFFu32) by (bit_vector)
            requires
                v == (x >> 8u32) & (0xFFFF_FFFFu32 >> 16u32),
        ;
        v as u16
    }
}

/// Unpacking a message identifier gives back the priority, source node and
/// type identifier that were packed, and marks it as a message.
pub proof fn lemma_message_id_round_trip(priority: u8, source: u8, type_id: u16)
    requires
        priority < 32,
        source < 128,
    ensures
        id_priority(message_id(priority, source, type_id)) == priority,
        id_source(message_id(priority, source, type_id)) == source,
        id_type(message_id(priority, source, type_id)) == type_id,
        !id_is_service(message_id(priority, source, type_id)),
        message_id(priority, source, type_id) < 0x2000_0000,
{
    let p = priority as u32;
    let s = source as u32;
    let t = type_id as u32;
    assert(((((p << 24u32) | (t << 8u32) | s) >> 24u32) & 0x1Fu32) == p && (((p << 24u32) | (t
        << 8u32) | s) & 0x7Fu32) == s && ((((p << 24u32) | (t << 8u32) | s) >> 8u32) & 0xFFFFu32)
        == t && (((p << 24u32) | (t << 8u32) | s) >> 7u32) & 1u32 != 1u32 && ((p << 24u32) | (t
        << 8u32) | s) < 0x2000_0000) by (bit_vector)
        requires
            p < 32,
            s < 128,
            t < 0x10000,
    ;
}

} // verus!
