use uavcan::buffer::{
    DeserializationBuffer, DeserializationResult, SerializationBuffer, SerializationResult,
};
use uavcan::crc::crc16_of;
use uavcan::flatten::{array_flattened_count, locate_field, struct_flattened_count};
use uavcan::frame::{assemble, assemble_value, CanFrame, Disassembler, Reassembler, TransferCounter};
use uavcan::serialize::{deserialize_fields, partial_deserialize, partial_serialize, serialize_fields};
use uavcan::{
    Cursor, Frame, Message, NodeID, Primitive, Serializable, Struct, TransferFrameID,
};

fn prim(width: usize, value: u64) -> Primitive {
    Primitive { width, value, void: false }
}

fn sample_fields() -> Vec<Primitive> {
    vec![
        prim(3, 0b101),
        prim(5, 0b10011),
        prim(12, 0xABC),
        prim(1, 1),
        prim(64, 0x0123_4567_89AB_CDEF),
        prim(7, 0x55),
    ]
}

#[test]
fn cursor_new_is_origin() {
    let c = Cursor::new();
    assert_eq!(c, Cursor { field: 0, bit: 0 });
}

#[test]
fn fields_are_written_most_significant_bit_first() {
    let fields = vec![prim(3, 0b101), prim(5, 0b10011)];
    let bytes = serialize_fields(&fields).unwrap();
    assert_eq!(bytes, vec![0b1011_0011]);
}

#[test]
fn partial_bits_are_padded_with_zeros() {
    let fields = vec![prim(4, 0xF), prim(6, 0b100001)];
    let bytes = serialize_fields(&fields).unwrap();
    assert_eq!(bytes, vec![0xF8, 0x40]);
}

#[test]
fn round_trip_restores_value() {
    let fields = sample_fields();
    let bytes = serialize_fields(&fields).unwrap();
    let mut target: Vec<Primitive> = fields.iter().map(|p| prim(p.width, 0)).collect();
    let r = deserialize_fields(&mut target, bytes);
    assert_eq!(r, DeserializationResult::Finished);
    assert_eq!(target, fields);
}

#[test]
fn one_byte_buffers_give_the_same_stream() {
    let fields = sample_fields();
    let whole = serialize_fields(&fields).unwrap();
    let mut cursor = Cursor::new();
    let mut out: Vec<u8> = Vec::new();
    let mut calls = 0;
    loop {
        let mut buffer = SerializationBuffer::with_capacity(1);
        let r = partial_serialize(&fields, &mut cursor, &mut buffer);
        calls += 1;
        out.extend_from_slice(&buffer.data);
        if r == SerializationResult::Finished {
            break;
        }
        assert_eq!(buffer.bit_index, 8);
    }
    assert_eq!(out, whole);
    assert_eq!(calls, whole.len());
}

#[test]
fn buffer_full_leaves_cursor_mid_field() {
    let fields = vec![prim(12, 0xABC)];
    let mut cursor = Cursor::new();
    let mut buffer = SerializationBuffer::with_capacity(1);
    let r = partial_serialize(&fields, &mut cursor, &mut buffer);
    assert_eq!(r, SerializationResult::BufferFull);
    assert_eq!(cursor, Cursor { field: 0, bit: 8 });
    assert_eq!(buffer.data, vec![0xAB]);
}

#[test]
fn deserialization_resumes_across_buffers() {
    let fields = sample_fields();
    let bytes = serialize_fields(&fields).unwrap();
    let mut target: Vec<Primitive> = fields.iter().map(|p| prim(p.width, 0)).collect();
    let mut cursor = Cursor::new();
    let mut calls = 0;
    for b in bytes.iter() {
        let mut buffer = DeserializationBuffer::new(vec![*b]);
        let r = partial_deserialize(&mut target, &mut cursor, &mut buffer);
        calls += 1;
        if r == DeserializationResult::Finished {
            break;
        }
    }
    assert_eq!(calls, bytes.len());
    assert_eq!(target, fields);
}

#[test]
fn short_input_is_insufficient() {
    let mut target = vec![prim(12, 0), prim(8, 0)];
    let r = deserialize_fields(&mut target, vec![0xFF, 0x00]);
    assert_eq!(r, DeserializationResult::BufferInsufficient);
    let mut exact = vec![prim(12, 0), prim(4, 0)];
    let r2 = deserialize_fields(&mut exact, vec![0xFF, 0x0A]);
    assert_eq!(r2, DeserializationResult::Finished);
    assert_eq!(exact, vec![prim(12, 0xFF0), prim(4, 0xA)]);
}

#[test]
fn crc16_check_value() {
    assert_eq!(crc16_of(&b"123456789".to_vec()), 0x29B1);
    assert_eq!(crc16_of(&Vec::new()), 0xFFFF);
}

#[test]
fn frame_id_packing_round_trip() {
    let node = NodeID::new(10).unwrap();
    let id = TransferFrameID::from_message_parts(16, node, 341);
    assert_eq!(id.id, 0x1001_550A);
    assert_eq!(id.priority(), 16);
    assert_eq!(id.source_node(), 10);
    assert_eq!(id.type_id(), 341);
    assert!(!id.is_service());
}

#[test]
fn node_id_range() {
    assert_eq!(NodeID::new(127), Some(NodeID { value: 127 }));
    assert_eq!(NodeID::new(128), None);
}

#[test]
fn service_flag_is_read_from_bit_seven() {
    let id = TransferFrameID::new(0x1F00_8080);
    assert!(id.is_service());
    assert_eq!(id.priority(), 31);
    assert_eq!(id.source_node(), 0);
}

struct NodeStatus {
    uptime: u32,
}

impl Serializable for NodeStatus {
    fn partial_serialize(
        &self,
        cursor: &mut Cursor,
        buffer: &mut SerializationBuffer,
    ) -> SerializationResult {
        let fields = vec![prim(32, self.uptime as u64)];
        partial_serialize(&fields, cursor, buffer)
    }

    fn partial_deserialize(
        &mut self,
        cursor: &mut Cursor,
        buffer: &mut DeserializationBuffer,
    ) -> DeserializationResult {
        let mut fields = vec![prim(32, self.uptime as u64)];
        let r = partial_deserialize(&mut fields, cursor, buffer);
        self.uptime = fields[0].value as u32;
        r
    }
}

impl Struct for NodeStatus {
    const DSDL_SIGNATURE: u64 = 0;
    const DATA_TYPE_SIGNATURE: u64 = 0;
}

impl Message for NodeStatus {
    const TYPE_ID: Option<u16> = Some(341);
}

#[test]
fn frame_from_message_packs_identifier() {
    let node = NodeID::new(10).unwrap();
    let frame = Frame::from_message(NodeStatus { uptime: 7 }, 16, node);
    let (id, body) = frame.into_parts();
    assert_eq!(id.id, 0x1001_550A);
    assert_eq!(body.uptime, 7);
}

fn message_id() -> TransferFrameID {
    TransferFrameID::from_message_parts(16, NodeID::new(10).unwrap(), 341)
}

#[test]
fn single_frame_transfer_has_no_crc() {
    let payload = vec![1u8, 2, 3, 4, 5, 6];
    let frames = assemble(message_id(), &payload, 3);
    assert_eq!(frames.len(), 1);
    assert_eq!(frames[0].data, vec![1, 2, 3, 4, 5, 6, 0xC3]);
    assert_eq!(frames[0].id, message_id());
}

#[test]
fn seven_byte_payload_fills_one_frame() {
    let payload = vec![9u8; 7];
    let frames = assemble(message_id(), &payload, 0);
    assert_eq!(frames.len(), 1);
    assert_eq!(frames[0].data.len(), 8);
    assert_eq!(frames[0].data[7], 0xC0);
}

#[test]
fn empty_payload_is_one_tail_byte() {
    let frames = assemble(message_id(), &Vec::new(), 1);
    assert_eq!(frames.len(), 1);
    assert_eq!(frames[0].data, vec![0xC1]);
    let mut rx = Reassembler::new();
    assert_eq!(rx.receive(&frames[0].data), Some(Vec::new()));
}

fn fifteen_bytes() -> Vec<u8> {
    (0u8..15).map(|i| i * 3 + 1).collect()
}

#[test]
fn multi_frame_layout() {
    let payload = fifteen_bytes();
    let crc = crc16_of(&payload);
    let frames = assemble(message_id(), &payload, 5);
    assert_eq!(frames.len(), 3);
    assert_eq!(frames[0].data.len(), 8);
    assert_eq!(frames[0].data[0], (crc >> 8) as u8);
    assert_eq!(frames[0].data[1], (crc & 0xFF) as u8);
    assert_eq!(&frames[0].data[2..7], &payload[0..5]);
    assert_eq!(frames[0].data[7], 0x80 | 5);
    assert_eq!(frames[1].data[7], 0x20 | 5);
    assert_eq!(frames[2].data.len(), 4);
    assert_eq!(frames[2].data[3], 0x40 | 5);
}

fn reassemble(frames: &[CanFrame]) -> Option<Vec<u8>> {
    let mut rx = Reassembler::new();
    let mut out = None;
    for f in frames {
        out = rx.receive(&f.data);
    }
    out
}

#[test]
fn three_frame_transfer_reassembles() {
    let payload = fifteen_bytes();
    let frames = assemble(message_id(), &payload, 5);
    let mut rx = Reassembler::new();
    assert_eq!(rx.receive(&frames[0].data), None);
    assert_eq!(rx.receive(&frames[1].data), None);
    assert_eq!(rx.receive(&frames[2].data), Some(payload));
}

#[test]
fn flipped_toggle_abandons_transfer() {
    let payload = fifteen_bytes();
    let mut frames = assemble(message_id(), &payload, 5);
    frames[1].data[7] ^= 0x20;
    let mut rx = Reassembler::new();
    assert_eq!(rx.receive(&frames[0].data), None);
    assert_eq!(rx.receive(&frames[1].data), None);
    assert!(!rx.active);
    assert_eq!(rx.receive(&frames[2].data), None);
}

#[test]
fn corrupted_payload_fails_crc() {
    let payload = fifteen_bytes();
    let frames = assemble(message_id(), &payload, 5);
    for f in 0..3 {
        for b in 0..frames[f].data.len() - 1 {
            let mut copy: Vec<CanFrame> = frames
                .iter()
                .map(|x| CanFrame { id: x.id, data: x.data.clone() })
                .collect();
            copy[f].data[b] ^= 0x01;
            assert_eq!(reassemble(&copy), None, "frame {} byte {}", f, b);
        }
    }
    assert_eq!(reassemble(&frames), Some(payload));
}

#[test]
fn stale_transfer_id_is_ignored() {
    let payload = fifteen_bytes();
    let frames = assemble(message_id(), &payload, 5);
    let other = assemble(message_id(), &payload, 6);
    let mut rx = Reassembler::new();
    assert_eq!(rx.receive(&frames[0].data), None);
    assert_eq!(rx.receive(&other[1].data), None);
    assert!(rx.active);
    assert_eq!(rx.receive(&frames[1].data), None);
    assert_eq!(rx.receive(&frames[2].data), Some(payload));
}

#[test]
fn new_start_replaces_transfer_in_progress() {
    let first = fifteen_bytes();
    let second: Vec<u8> = (0u8..10).collect();
    let a = assemble(message_id(), &first, 1);
    let b = assemble(message_id(), &second, 2);
    let mut rx = Reassembler::new();
    assert_eq!(rx.receive(&a[0].data), None);
    assert_eq!(rx.receive(&b[0].data), None);
    assert_eq!(rx.receive(&b[1].data), Some(second));
}

#[test]
fn disassembler_keeps_identifiers_apart() {
    let id_a = message_id();
    let id_b = TransferFrameID::from_message_parts(3, NodeID::new(20).unwrap(), 1000);
    let pa = fifteen_bytes();
    let pb: Vec<u8> = (100u8..112).collect();
    let fa = assemble(id_a, &pa, 0);
    let fb = assemble(id_b, &pb, 0);
    let mut d = Disassembler::new(4);
    assert_eq!(d.receive(&fa[0]), None);
    assert_eq!(d.receive(&fb[0]), None);
    assert_eq!(d.receive(&fa[1]), None);
    assert_eq!(d.receive(&fb[1]), Some(pb));
    assert_eq!(d.receive(&fa[2]), Some(pa));
    assert_eq!(d.entries.len(), 2);
}

#[test]
fn full_value_through_frames() {
    let fields = sample_fields();
    let bytes = serialize_fields(&fields).unwrap();
    assert_eq!(bytes.len(), 12);
    let frames = assemble(message_id(), &bytes, 9);
    assert_eq!(frames.len(), 2);
    let got = reassemble(&frames).unwrap();
    let mut target: Vec<Primitive> = fields.iter().map(|p| prim(p.width, 0)).collect();
    assert_eq!(deserialize_fields(&mut target, got), DeserializationResult::Finished);
    assert_eq!(target, fields);
}

#[test]
fn flattened_counts_add_up() {
    assert_eq!(struct_flattened_count(&vec![1, 2, 4]), Some(7));
    assert_eq!(struct_flattened_count(&vec![]), Some(0));
    assert_eq!(struct_flattened_count(&vec![usize::MAX, 1]), None);
    assert_eq!(array_flattened_count(5, 3), Some(15));
    assert_eq!(array_flattened_count(usize::MAX, 2), None);
    let inner = struct_flattened_count(&vec![1, 1]).unwrap();
    let outer = struct_flattened_count(&vec![inner, inner]).unwrap();
    assert_eq!(outer, 4);
}

#[test]
fn fields_route_to_their_owner() {
    let counts = vec![1, 0, 3, 2];
    assert_eq!(locate_field(&counts, 0), Some((0, 0)));
    assert_eq!(locate_field(&counts, 1), Some((2, 1)));
    assert_eq!(locate_field(&counts, 3), Some((2, 1)));
    assert_eq!(locate_field(&counts, 4), Some((3, 4)));
    assert_eq!(locate_field(&counts, 5), Some((3, 4)));
    assert_eq!(locate_field(&counts, 6), None);
}

#[test]
fn typed_primitives() {
    assert_eq!(Primitive::unsigned(4, 15), Some(prim(4, 15)));
    assert_eq!(Primitive::unsigned(4, 16), None);
    assert_eq!(Primitive::unsigned(0, 0), None);
    assert_eq!(Primitive::unsigned(64, u64::MAX), Some(prim(64, u64::MAX)));
    assert_eq!(Primitive::unsigned(65, 1), None);
    assert_eq!(Primitive::boolean(true), prim(1, 1));
    assert_eq!(Primitive::boolean(false), prim(1, 0));
    assert_eq!(Primitive::void(5), Some(Primitive { width: 5, value: 0, void: true }));
    assert_eq!(Primitive::void(0), None);
}

#[test]
fn signed_fields_use_twos_complement() {
    assert_eq!(Primitive::signed(4, -1), Some(prim(4, 0xF)));
    assert_eq!(Primitive::signed(4, -8), Some(prim(4, 0x8)));
    assert_eq!(Primitive::signed(4, 7), Some(prim(4, 7)));
    assert_eq!(Primitive::signed(4, 8), None);
    assert_eq!(Primitive::signed(4, -9), None);
    assert_eq!(Primitive::signed(64, i64::MIN), Some(prim(64, 1u64 << 63)));
    assert_eq!(prim(4, 0xF).as_signed(), -1);
    assert_eq!(prim(4, 0x7).as_signed(), 7);
    assert_eq!(prim(64, u64::MAX).as_signed(), -1);
    let p = Primitive::signed(13, -1234).unwrap();
    assert_eq!(p.as_signed(), -1234);
}

#[test]
fn signed_value_survives_serialization() {
    let fields = vec![Primitive::signed(11, -300).unwrap(), Primitive::boolean(true)];
    let bytes = serialize_fields(&fields).unwrap();
    let mut target = vec![prim(11, 0), prim(1, 0)];
    assert_eq!(deserialize_fields(&mut target, bytes), DeserializationResult::Finished);
    assert_eq!(target[0].as_signed(), -300);
    assert_eq!(target[1].value, 1);
}

#[test]
fn small_value_goes_out_in_one_frame() {
    let fields = vec![prim(16, 0xBEEF), prim(8, 0x12), prim(24, 0x345678)];
    let frames = assemble_value(message_id(), &fields, 4).unwrap();
    assert_eq!(frames.len(), 1);
    assert_eq!(frames[0].data, vec![0xBE, 0xEF, 0x12, 0x34, 0x56, 0x78, 0xC4]);
}

#[test]
fn larger_value_goes_out_with_crc() {
    let fields = sample_fields();
    let bytes = serialize_fields(&fields).unwrap();
    let frames = assemble_value(message_id(), &fields, 2).unwrap();
    let direct = assemble(message_id(), &bytes, 2);
    assert_eq!(frames.len(), direct.len());
    for (a, b) in frames.iter().zip(direct.iter()) {
        assert_eq!(a.data, b.data);
    }
    let crc = crc16_of(&bytes);
    assert_eq!(frames[0].data[0], (crc >> 8) as u8);
}

#[test]
fn disassembler_decodes_value() {
    let fields = sample_fields();
    let frames = assemble_value(message_id(), &fields, 7).unwrap();
    let mut target: Vec<Primitive> = fields.iter().map(|p| prim(p.width, 0)).collect();
    let mut d = Disassembler::new(4);
    assert_eq!(d.receive_value(&frames[0], &mut target), None);
    assert_eq!(d.receive_value(&frames[1], &mut target), Some(DeserializationResult::Finished));
    assert_eq!(target, fields);
}

#[test]
fn disassembler_reports_short_payload() {
    let frames = assemble(message_id(), &vec![0xAA, 0xBB], 0);
    let mut target = vec![prim(32, 0)];
    let mut d = Disassembler::new(4);
    assert_eq!(
        d.receive_value(&frames[0], &mut target),
        Some(DeserializationResult::BufferInsufficient)
    );
}

#[test]
fn padding_is_skipped_on_read() {
    let pad = Primitive::void(4).unwrap();
    let mut a = vec![pad, prim(4, 0)];
    let mut b = vec![pad, prim(4, 0)];
    assert_eq!(deserialize_fields(&mut a, vec![0x05]), DeserializationResult::Finished);
    assert_eq!(deserialize_fields(&mut b, vec![0xF5]), DeserializationResult::Finished);
    assert_eq!(a, b);
    assert_eq!(a[0].value, 0);
    assert_eq!(a[1].value, 5);
}

#[test]
fn padding_is_written_as_zeros() {
    let fields = vec![prim(4, 0xA), Primitive::void(4).unwrap(), prim(8, 0xFF)];
    assert_eq!(serialize_fields(&fields).unwrap(), vec![0xA0, 0xFF]);
}

#[test]
fn unit_field_takes_one_cursor_step() {
    let fields = vec![Primitive::unit()];
    let mut cursor = Cursor::new();
    let mut buffer = SerializationBuffer::with_capacity(1);
    let r = partial_serialize(&fields, &mut cursor, &mut buffer);
    assert_eq!(r, SerializationResult::Finished);
    assert_eq!(cursor, Cursor { field: 1, bit: 0 });
    assert_eq!(buffer.bit_index, 0);
    let mut target = vec![Primitive::unit()];
    let mut rc = Cursor::new();
    let mut rb = DeserializationBuffer::new(Vec::new());
    assert_eq!(partial_deserialize(&mut target, &mut rc, &mut rb), DeserializationResult::Finished);
    assert_eq!(rc, Cursor { field: 1, bit: 0 });
}

#[test]
fn unit_field_even_with_a_full_buffer() {
    let fields = vec![prim(8, 0x3C), Primitive::unit()];
    let mut cursor = Cursor::new();
    let mut buffer = SerializationBuffer::with_capacity(1);
    assert_eq!(partial_serialize(&fields, &mut cursor, &mut buffer), SerializationResult::Finished);
    assert_eq!(cursor, Cursor { field: 2, bit: 0 });
    assert_eq!(buffer.data, vec![0x3C]);
}

#[test]
fn unread_fields_are_left_alone() {
    let mut target = vec![prim(8, 0), prim(8, 0x77), prim(8, 0x99)];
    let mut cursor = Cursor::new();
    let mut buffer = DeserializationBuffer::new(vec![0x12]);
    let r = partial_deserialize(&mut target, &mut cursor, &mut buffer);
    assert_eq!(r, DeserializationResult::BufferInsufficient);
    assert_eq!(cursor, Cursor { field: 1, bit: 0 });
    assert_eq!(target, vec![prim(8, 0x12), prim(8, 0x77), prim(8, 0x99)]);
}

#[test]
fn transfer_ids_count_per_identifier() {
    let id_a = message_id();
    let id_b = TransferFrameID::from_message_parts(3, NodeID::new(20).unwrap(), 1000);
    let mut tx = TransferCounter::new();
    let payload = vec![1u8, 2];
    let f1 = tx.send(id_a, &payload);
    let f2 = tx.send(id_a, &payload);
    let g1 = tx.send(id_b, &payload);
    assert_eq!(f1[0].data[2] & 0x1F, 0);
    assert_eq!(f2[0].data[2] & 0x1F, 1);
    assert_eq!(g1[0].data[2] & 0x1F, 0);
    for _ in 0..30 {
        tx.take(id_a.id);
    }
    assert_eq!(tx.take(id_a.id), 0);
    assert_eq!(tx.take(id_a.id), 1);
}

#[test]
fn frames_of_one_transfer_share_its_id() {
    let mut tx = TransferCounter::new();
    tx.take(message_id().id);
    let frames = tx.send(message_id(), &fifteen_bytes());
    assert_eq!(frames.len(), 3);
    for f in frames.iter() {
        assert_eq!(f.data[f.data.len() - 1] & 0x1F, 1);
    }
}

#[test]
fn full_table_drops_new_identifiers() {
    let id_a = message_id();
    let id_b = TransferFrameID::from_message_parts(3, NodeID::new(20).unwrap(), 1000);
    let fa = assemble(id_a, &fifteen_bytes(), 0);
    let fb = assemble(id_b, &vec![5u8], 0);
    let mut d = Disassembler::new(1);
    assert_eq!(d.receive(&fa[0]), None);
    assert_eq!(d.receive(&fb[0]), None);
    assert_eq!(d.entries.len(), 1);
    assert_eq!(d.receive(&fa[1]), None);
    assert_eq!(d.receive(&fa[2]), Some(fifteen_bytes()));
}
