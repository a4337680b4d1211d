use vstd::prelude::*;
use crate::crc::{crc16, crc16_of};
use crate::transfer::TransferFrameID;
use crate::bits::bytes_bits;
use crate::buffer::DeserializationResult;
use crate::serialize::{
    Primitive, all_wf, all_width_ok, same_shape, fields_bits, serialize_fields, deserialize_fields,
    void_mask, zero_masked,
};

verus! {

/// Payload bytes of one classic CAN frame.
pub const MAX_DATA_LENGTH: usize = 8;

/// Payload bytes of a frame left after its tail byte.
pub const CHUNK: usize = MAX_DATA_LENGTH - 1;

/// One transport frame: its identifier and its payload, tail byte last.
pub struct CanFrame {
    pub id: TransferFrameID,
    pub data: Vec<u8>,
}

/// The tail byte: start of transfer (bit 7), end of transfer (bit 6), toggle
/// (bit 5) and the transfer identifier (bits 0..5).
pub open spec fn tail_byte(sot: bool, eot: bool, toggle: bool, tid: u8) -> u8 {
    (if sot { 0x80u8 } else { 0u8 }) | (if eot { 0x40u8 } else { 0u8 }) | (if toggle {
        0x20u8
    } else {
        0u8
    }) | tid
}

pub open spec fn tail_sot(b: u8) -> bool {
    b & 0x80u8 != 0
}

pub open spec fn tail_eot(b: u8) -> bool {
    b & 0x40u8 != 0
}

pub open spec fn tail_toggle(b: u8) -> bool {
    b & 0x20u8 != 0
}

pub open spec fn tail_tid(b: u8) -> u8 {
    b & 0x1Fu8
}

/// The bytes that are split into frames: the payload, behind its CRC16 (most
/// significant byte first) when it does not fit in one frame.
pub open spec fn transfer_stream(payload: Seq<u8>) -> Seq<u8> {
    if payload.len() <= 7 {
        payload
    } else {
        seq![(crc16(payload) / 256) as u8, (crc16(payload) % 256) as u8] + payload
    }
}

/// How many frames carry a stream of `n` bytes.
pub open spec fn frame_count(n: nat) -> nat {
    if n == 0 {
        1
    } else {
        (n + 6) / 7
    }
}

pub open spec fn chunk_end(len: nat, i: nat) -> nat {
    if 7 * i + 7 <= len {
        7 * i + 7
    } else {
        len
    }
}

/// The payload of frame `i` of a transfer.
pub open spec fn frame_data(payload: Seq<u8>, tid: u8, i: nat) -> Seq<u8> {
    let s = transfer_stream(payload);
    let n = frame_count(s.len());
    s.subrange(7 * i as int, chunk_end(s.len(), i) as int).push(
        tail_byte(i == 0, i == n - 1, i % 2 == 1, tid),
    )
}

pub open spec fn transfer_frames(payload: Seq<u8>, tid: u8) -> Seq<Seq<u8>> {
    Seq::new(
        frame_count(transfer_stream(payload).len()),
        |i: int| frame_data(payload, tid, i as nat),
    )
}

fn make_tail(sot: bool, eot: bool, toggle: bool, tid: u8) -> (r: u8)
    ensures
        r == tail_byte(sot, eot, toggle, tid),
{
    (if sot { 0x80u8 } else { 0u8 }) | (if eot { 0x40u8 } else { 0u8 }) | (if toggle {
        0x20u8
    } else {
        0u8
    }) | tid
}

proof fn lemma_tail_decode(sot: bool, eot: bool, toggle: bool, tid: u8)
    requires
        tid < 32,
    ensures
        tail_sot(tail_byte(sot, eot, toggle, tid)) == sot,
        tail_eot(tail_byte(sot, eot, toggle, tid)) == eot,
        tail_toggle(tail_byte(sot, eot, toggle, tid)) == toggle,
        tail_tid(tail_byte(sot, eot, toggle, tid)) == tid,
{
    let a: u8 = if sot { 0x80u8 } else { 0u8 };
    let b: u8 = if eot { 0x40u8 } else { 0u8 };
    let c: u8 = if toggle { 0x20u8 } else { 0u8 };
    assert((((a | b | c | tid) & 0x80u8 != 0) == (a == 0x80u8)) && (((a | b | c | tid) & 0x40u8
        != 0) == (b == 0x40u8)) && (((a | b | c | tid) & 0x20u8 != 0) == (c == 0x20u8)) && ((a | b
        | c | tid) & 0x1Fu8 == tid)) by (bit_vector)
        requires
            a == 0x80u8 || a == 0u8,
            b == 0x40u8 || b == 0u8,
            c == 0x20u8 || c == 0u8,
            tid < 32,
    ;
}

/// Splits the serialized bytes of one value into frames with identifier `id`.
/// A payload of up to seven bytes travels in one frame; a longer one is
/// preceded by its CRC16 and spread over frames of seven bytes each, with a
/// tail byte behind every chunk.
pub fn assemble(id: TransferFrameID, payload: &Vec<u8>, transfer_id: u8) -> (r: Vec<CanFrame>)
    requires
        transfer_id < 32,
        payload@.len() + 16 <= usize::MAX,
    ensures
        r@.len() == frame_count(transfer_stream(payload@).len()),
        forall|i: int| 0 <= i < r@.len() ==> (#[trigger] r@[i]).id == id,
        forall|i: int| 0 <= i < r@.len() ==> (#[trigger] r@[i]).data@ == frame_data(
            payload@,
            transfer_id,
            i as nat,
        ),
{
    let mut stream: Vec<u8> = Vec::new();
    if payload.len() > CHUNK {
        let crc = crc16_of(payload);
        stream.push((crc / 256) as u8);
        stream.push((crc % 256) as u8);
    }
    let mut j: usize = 0;
    while j < payload.len()
        invariant
            j <= payload@.len(),
            stream@ == transfer_stream(payload@).take(stream@.len() as int),
            stream@.len() == j + if payload@.len() <= 7 { 0nat } else { 2nat },
        decreases payload@.len() - j,
    {
        stream.push(payload[j]);
        j = j + 1;
        proof {
            assert(stream@ =~= transfer_stream(payload@).take(stream@.len() as int));
        }
    }
    proof {
        assert(stream@ =~= transfer_stream(payload@));
    }
    let len = stream.len();
    let n: usize = if len == 0 {
        1
    } else {
        (len + 6) / CHUNK
    };
    let mut frames: Vec<CanFrame> = Vec::new();
    let mut i: usize = 0;
    while i < n
        invariant
            stream@ == transfer_stream(payload@),
            len == stream@.len(),
            len <= payload@.len() + 2,
            payload@.len() + 16 <= usize::MAX,
            n == frame_count(len as nat),
            i <= n,
            frames@.len() == i,
            forall|k: int| 0 <= k < i ==> (#[trigger] frames@[k]).id == id,
            forall|k: int| 0 <= k < i ==> (#[trigger] frames@[k]).data@ == frame_data(
                payload@,
                transfer_id,
                k as nat,
            ),
        decreases n - i,
    {
        let start = CHUNK * i;
        let end = if start + CHUNK <= len {
            start + CHUNK
        } else {
            len
        };
        assert(start <= end) by {
            assert(7 * i < len || (len == 0 && i == 0)) by (nonlinear_arith)
                requires
                    i < n,
                    n == frame_count(len as nat),
            ;
        }
        let mut data: Vec<u8> = Vec::new();
        let mut k = start;
        while k < end
            invariant
                start <= k <= end <= len,
                len == stream@.len(),
                data@ == stream@.subrange(start as int, k as int),
            decreases end - k,
        {
            data.push(stream[k]);
            k = k + 1;
            proof {
                assert(data@ =~= stream@.subrange(start as int, k as int));
            }
        }
        let tail = make_tail(i == 0, i == n - 1, i % 2 == 1, transfer_id);
        data.push(tail);
        frames.push(CanFrame { id, data });
        i = i + 1;
    }
    frames
}

/// The bytes of a serialized value: its stream, then zero bits up to the
/// next byte boundary.
pub open spec fn value_bytes(fs: Seq<Primitive>, bytes: Seq<u8>) -> bool {
    &&& bytes.len() == (fields_bits(fs).len() + 7) / 8
    &&& bytes_bits(bytes) == fields_bits(fs) + Seq::new(
        (8 * bytes.len() - fields_bits(fs).len()) as nat,
        |i: int| false,
    )
}

/// Serializes a flattened value and splits its bytes into frames.
pub fn assemble_value(id: TransferFrameID, fields: &Vec<Primitive>, transfer_id: u8) -> (r: Option<
    Vec<CanFrame>,
>)
    requires
        all_wf(fields@),
        transfer_id < 32,
    ensures
        r is None <==> fields_bits(fields@).len() > usize::MAX - 7,
        match r {
            Some(frames) => exists|bytes: Seq<u8>|
                {
                    &&& value_bytes(fields@, bytes)
                    &&& frames@.len() == frame_count(transfer_stream(bytes).len())
                    &&& forall|i: int|
                        0 <= i < frames@.len() ==> (#[trigger] frames@[i]).id == id
                            && frames@[i].data@ == frame_data(bytes, transfer_id, i as nat)
                },
            None => true,
        },
{
    match serialize_fields(fields) {
        Some(bytes) => {
            assert(bytes@.len() + 16 <= usize::MAX) by (nonlinear_arith)
                requires
                    bytes@.len() == (fields_bits(fields@).len() + 7) / 8,
                    fields_bits(fields@).len() <= usize::MAX - 7,
            ;
            let frames = assemble(id, &bytes, transfer_id);
            assert(value_bytes(fields@, bytes@));
            Some(frames)
        },
        None => None,
    }
}

/// The transfer identifier that the next transfer of frame identifier `id` uses.
#[derive(Debug, PartialEq, Eq, Clone, Copy, Structural)]
pub struct TxEntry {
    pub id: u32,
    pub next: u8,
}

/// The sending side's transfer identifiers, one counter per frame identifier.
pub struct TransferCounter {
    pub entries: Vec<TxEntry>,
}

/// The counter that `entries` hold for `id`; an identifier without an entry is at 0.
pub open spec fn next_of(entries: Seq<TxEntry>, id: u32) -> u8 {
    if exists|i: int| 0 <= i < entries.len() && entries[i].id == id {
        entries[choose|i: int| 0 <= i < entries.len() && entries[i].id == id].next
    } else {
        0
    }
}

proof fn lemma_next_at(entries: Seq<TxEntry>, i: int)
    requires
        forall|a: int, b: int|
            0 <= a < entries.len() && 0 <= b < entries.len() && a != b ==> entries[a].id
                != entries[b].id,
        0 <= i < entries.len(),
    ensures
        next_of(entries, entries[i].id) == entries[i].next,
{
    let id = entries[i].id;
    assert(0 <= i < entries.len() && entries[i].id == id);
    let c = choose|j: int| 0 <= j < entries.len() && entries[j].id == id;
    assert(c == i);
}

impl TransferCounter {
    pub open spec fn wf(&self) -> bool {
        &&& forall|a: int, b: int|
            0 <= a < self.entries@.len() && 0 <= b < self.entries@.len() && a != b
                ==> self.entries@[a].id != self.entries@[b].id
        &&& forall|i: int| 0 <= i < self.entries@.len() ==> (#[trigger] self.entries@[i]).next < 32
    }

    pub fn new() -> (r: Self)
        ensures
            r.wf(),
            forall|id: u32| next_of(r.entries@, id) == 0,
    {
        TransferCounter { entries: Vec::new() }
    }

    /// Hands out the transfer identifier for a new transfer of `id` and
    /// advances that identifier's counter modulo 32; other counters stay.
    pub fn take(&mut self, id: u32) -> (r: u8)
        requires
            old(self).wf(),
        ensures
            final(self).wf(),
            r == next_of(old(self).entries@, id),
            r < 32,
            next_of(final(self).entries@, id) == (r + 1) % 32,
            forall|x: u32|
                x != id ==> next_of(final(self).entries@, x) == next_of(old(self).entries@, x),
    {
        let ghost old_entries = self.entries@;
        let mut i: usize = 0;
        while i < self.entries.len() && self.entries[i].id != id
            invariant
                i <= self.entries@.len(),
                self.entries@ == old_entries,
                forall|j: int| 0 <= j < i ==> (#[trigger] self.entries@[j]).id != id,
            decreases self.entries@.len() - i,
        {
            i = i + 1;
        }
        if i < self.entries.len() {
            let r = self.entries[i].next;
            proof {
                lemma_next_at(old_entries, i as int);
            }
            self.entries.set(i, TxEntry { id, next: (r + 1) % 32 });
            proof {
                let es = self.entries@;
                lemma_next_at(es, i as int);
                assert forall|x: u32| x != id implies next_of(es, x) == next_of(old_entries, x) by {
                    if exists|j: int| 0 <= j < old_entries.len() && old_entries[j].id == x {
                        let j = choose|j: int| 0 <= j < old_entries.len() && old_entries[j].id == x;
                        lemma_next_at(old_entries, j);
                        lemma_next_at(es, j);
                    } else {
                        assert(!exists|j: int| 0 <= j < es.len() && es[j].id == x) by {
                            assert forall|j: int| 0 <= j < es.len() implies es[j].id != x by {
                                if j != i {
                                    assert(es[j] == old_entries[j]);
                                }
                            }
                        }
                    }
                }
            }
            r
        } else {
            proof {
                assert(!exists|j: int| 0 <= j < old_entries.len() && old_entries[j].id == id);
            }
            self.entries.push(TxEntry { id, next: 1 });
            proof {
                let es = self.entries@;
                lemma_next_at(es, es.len() - 1);
                assert forall|x: u32| x != id implies next_of(es, x) == next_of(old_entries, x) by {
                    if exists|j: int| 0 <= j < old_entries.len() && old_entries[j].id == x {
                        let j = choose|j: int| 0 <= j < old_entries.len() && old_entries[j].id == x;
                        lemma_next_at(old_entries, j);
                        assert(es[j] == old_entries[j]);
                        lemma_next_at(es, j);
                    } else {
                        assert(!exists|j: int| 0 <= j < es.len() && es[j].id == x) by {
                            assert forall|j: int| 0 <= j < es.len() implies es[j].id != x by {
                                if j < old_entries.len() {
                                    assert(es[j] == old_entries[j]);
                                }
                            }
                        }
                    }
                }
            }
            0
        }
    }

    /// Starts a new transfer of `payload` on frame identifier `id`: takes the
    /// identifier's next transfer identifier and splits the payload into frames.
    pub fn send(&mut self, id: TransferFrameID, payload: &Vec<u8>) -> (r: Vec<CanFrame>)
        requires
            old(self).wf(),
            payload@.len() + 16 <= usize::MAX,
        ensures
            final(self).wf(),
            next_of(final(self).entries@, id.id) == (next_of(old(self).entries@, id.id) + 1) % 32,
            forall|x: u32|
                x != id.id ==> next_of(final(self).entries@, x) == next_of(old(self).entries@, x),
            r@.len() == frame_count(transfer_stream(payload@).len()),
            forall|i: int| 0 <= i < r@.len() ==> (#[trigger] r@[i]).id == id,
            forall|i: int| 0 <= i < r@.len() ==> (#[trigger] r@[i]).data@ == frame_data(
                payload@,
                next_of(old(self).entries@, id.id),
                i as nat,
            ),
    {
        let t = self.take(id.id);
        assemble(id, payload, t)
    }
}

/// The reconstruction state of one frame identifier.
pub struct RxState {
    pub active: bool,
    pub transfer_id: u8,
    pub toggle: bool,
    pub buf: Seq<u8>,
}

pub open spec fn rx_idle() -> RxState {
    RxState { active: false, transfer_id: 0, toggle: false, buf: Seq::empty() }
}

/// Whether a reassembled multi-frame stream starts with the CRC16 of the rest.
pub open spec fn crc_ok(buf: Seq<u8>) -> bool {
    buf.len() >= 2 && crc16(buf.skip(2)) as int == buf[0] as int * 256 + buf[1] as int
}

/// What one received frame does to the reconstruction state, and the payload
/// it completes, if any.
pub open spec fn rx_step(s: RxState, data: Seq<u8>) -> (RxState, Option<Seq<u8>>) {
    if data.len() == 0 {
        (s, None)
    } else {
        let t = data.last();
        let body = data.drop_last();
        if tail_sot(t) {
            if tail_toggle(t) {
                (rx_idle(), None)
            } else if tail_eot(t) {
                (rx_idle(), Some(body))
            } else {
                (RxState { active: true, transfer_id: tail_tid(t), toggle: true, buf: body }, None)
            }
        } else if !s.active || tail_tid(t) != s.transfer_id {
            (s, None)
        } else if tail_toggle(t) != s.toggle {
            (rx_idle(), None)
        } else if tail_eot(t) {
            let all = s.buf + body;
            (rx_idle(), if crc_ok(all) { Some(all.skip(2)) } else { None })
        } else {
            (
                RxState {
                    active: true,
                    transfer_id: s.transfer_id,
                    toggle: !s.toggle,
                    buf: s.buf + body,
                },
                None,
            )
        }
    }
}

/// The state after a run of frames, and what the last of them completed.
pub open spec fn rx_run(s: RxState, frames: Seq<Seq<u8>>) -> (RxState, Option<Seq<u8>>)
    decreases frames.len(),
{
    if frames.len() == 0 {
        (s, None)
    } else {
        rx_step(rx_run(s, frames.drop_last()).0, frames.last())
    }
}

pub open spec fn opt_view(o: Option<Vec<u8>>) -> Option<Seq<u8>> {
    match o {
        Some(v) => Some(v@),
        None => None,
    }
}

/// Reassembles the transfers of one frame identifier.
pub struct Reassembler {
    pub active: bool,
    pub transfer_id: u8,
    pub toggle: bool,
    pub buf: Vec<u8>,
}

impl Reassembler {
    pub open spec fn view(&self) -> RxState {
        RxState {
            active: self.active,
            transfer_id: self.transfer_id,
            toggle: self.toggle,
            buf: self.buf@,
        }
    }

    pub fn new() -> (r: Self)
        ensures
            r.view() == rx_idle(),
    {
        let r = Reassembler { active: false, transfer_id: 0, toggle: false, buf: Vec::new() };
        assert(r.view().buf =~= Seq::<u8>::empty());
        r
    }

    fn reset(&mut self)
        ensures
            final(self).view() == rx_idle(),
    {
        self.active = false;
        self.transfer_id = 0;
        self.toggle = false;
        self.buf = Vec::new();
        assert(self.view().buf =~= Seq::<u8>::empty());
    }

    /// Takes in one frame's payload; returns the transfer's payload when this
    /// frame completes a valid transfer.
    pub fn receive(&mut self, data: &Vec<u8>) -> (r: Option<Vec<u8>>)
        ensures
            final(self).view() == rx_step(old(self).view(), data@).0,
            opt_view(r) == rx_step(old(self).view(), data@).1,
    {
        if data.len() == 0 {
            None
        } else {
            self.receive_frame(data)
        }
    }

    fn receive_frame(&mut self, data: &Vec<u8>) -> (r: Option<Vec<u8>>)
        requires
            data@.len() > 0,
        ensures
            final(self).view() == rx_step(old(self).view(), data@).0,
            opt_view(r) == rx_step(old(self).view(), data@).1,
    {
        let last = data.len() - 1;
        let t = data[last];
        let mut body: Vec<u8> = Vec::new();
        let mut k: usize = 0;
        while k < last
            invariant
                last == data@.len() - 1,
                k <= last,
                self.view() == old(self).view(),
                body@ == data@.subrange(0, k as int),
            decreases last - k,
        {
            body.push(data[k]);
            k = k + 1;
            proof {
                assert(body@ =~= data@.subrange(0, k as int));
            }
        }
        assert(body@ =~= data@.drop_last());
        let sot = t & 0x80u8 != 0;
        let eot = t & 0x40u8 != 0;
        let toggle = t & 0x20u8 != 0;
        let tid = t & 0x1Fu8;
        if sot {
            if toggle {
                self.reset();
                None
            } else if eot {
                self.reset();
                Some(body)
            } else {
                self.active = true;
                self.transfer_id = tid;
                self.toggle = true;
                self.buf = body;
                None
            }
        } else if !self.active || tid != self.transfer_id {
            None
        } else if toggle != self.toggle {
            self.reset();
            None
        } else {
            let ghost before = self.buf@;
            let mut j: usize = 0;
            while j < body.len()
                invariant
                    j <= body@.len(),
                    self.buf@ == before + body@.take(j as int),
                    self.active == old(self).active,
                    self.toggle == old(self).toggle,
                    self.transfer_id == old(self).transfer_id,
                decreases body@.len() - j,
            {
                self.buf.push(body[j]);
                j = j + 1;
                proof {
                    assert(self.buf@ =~= before + body@.take(j as int));
                }
            }
            assert(body@.take(j as int) =~= body@);
            if eot {
                let all_len = self.buf.len();
                let mut out: Option<Vec<u8>> = None;
                if all_len >= 2 {
                    let mut rest: Vec<u8> = Vec::new();
                    let mut m: usize = 2;
                    while m < all_len
                        invariant
                            2 <= m <= all_len,
                            all_len == self.buf@.len(),
                            rest@ == self.buf@.subrange(2, m as int),
                        decreases all_len - m,
                    {
                        rest.push(self.buf[m]);
                        m = m + 1;
                        proof {
                            assert(rest@ =~= self.buf@.subrange(2, m as int));
                        }
                    }
                    assert(rest@ =~= self.buf@.skip(2));
                    let crc = crc16_of(&rest);
                    if crc as u32 == self.buf[0] as u32 * 256 + self.buf[1] as u32 {
                        out = Some(rest);
                    }
                }
                self.reset();
                out
            } else {
                self.toggle = !self.toggle;
                None
            }
        }
    }
}


/// One slot of the reassembly table: a frame identifier and its state.
pub struct RxEntry {
    pub id: u32,
    pub rx: Reassembler,
}

/// Reassembles transfers for up to `capacity` frame identifiers, each with its
/// own state, so that interleaved transfers do not disturb each other.
pub struct Disassembler {
    pub entries: Vec<RxEntry>,
    pub capacity: usize,
}

/// Whether a full table turns away a frame of an identifier it does not track.
pub open spec fn table_refuses(entries: Seq<RxEntry>, capacity: usize, id: u32) -> bool {
    &&& !exists|i: int| 0 <= i < entries.len() && entries[i].id == id
    &&& entries.len() >= capacity
}

/// The state that `entries` hold for `id`; an identifier without an entry is idle.
pub open spec fn state_of(entries: Seq<RxEntry>, id: u32) -> RxState {
    if exists|i: int| 0 <= i < entries.len() && entries[i].id == id {
        entries[choose|i: int| 0 <= i < entries.len() && entries[i].id == id].rx.view()
    } else {
        rx_idle()
    }
}

pub open spec fn ids_unique(entries: Seq<RxEntry>) -> bool {
    forall|i: int, j: int|
        0 <= i < entries.len() && 0 <= j < entries.len() && i != j ==> entries[i].id
            != entries[j].id
}

proof fn lemma_state_at(entries: Seq<RxEntry>, i: int)
    requires
        ids_unique(entries),
        0 <= i < entries.len(),
    ensures
        state_of(entries, entries[i].id) == entries[i].rx.view(),
{
    let id = entries[i].id;
    assert(0 <= i < entries.len() && entries[i].id == id);
    let c = choose|j: int| 0 <= j < entries.len() && entries[j].id == id;
    assert(c == i);
}

impl Disassembler {
    pub open spec fn wf(&self) -> bool {
        &&& ids_unique(self.entries@)
        &&& self.entries@.len() <= self.capacity
    }

    /// An empty table with room for `capacity` frame identifiers.
    pub fn new(capacity: usize) -> (r: Self)
        ensures
            r.wf(),
            r.capacity == capacity,
            forall|id: u32| state_of(r.entries@, id) == rx_idle(),
    {
        Disassembler { entries: Vec::new(), capacity }
    }

    /// Takes in one frame; returns a payload when the frame completes a valid
    /// transfer of its identifier. Only that identifier's state changes. A
    /// frame of an identifier that a full table does not track is dropped.
    pub fn receive(&mut self, frame: &CanFrame) -> (r: Option<Vec<u8>>)
        requires
            old(self).wf(),
        ensures
            final(self).wf(),
            final(self).capacity == old(self).capacity,
            table_refuses(old(self).entries@, old(self).capacity, frame.id.id) ==> r is None
                && final(self).entries@ == old(self).entries@,
            !table_refuses(old(self).entries@, old(self).capacity, frame.id.id) ==> state_of(
                final(self).entries@,
                frame.id.id,
            ) == rx_step(state_of(old(self).entries@, frame.id.id), frame.data@).0,
            !table_refuses(old(self).entries@, old(self).capacity, frame.id.id) ==> opt_view(r)
                == rx_step(state_of(old(self).entries@, frame.id.id), frame.data@).1,
            forall|x: u32|
                x != frame.id.id ==> state_of(final(self).entries@, x) == state_of(
                    old(self).entries@,
                    x,
                ),
    {
        let id = frame.id.id;
        let mut i: usize = 0;
        while i < self.entries.len() && self.entries[i].id != id
            invariant
                i <= self.entries@.len(),
                self.entries@ == old(self).entries@,
                forall|j: int| 0 <= j < i ==> (#[trigger] self.entries@[j]).id != id,
            decreases self.entries@.len() - i,
        {
            i = i + 1;
        }
        if i >= self.entries.len() && self.entries.len() >= self.capacity {
            proof {
                assert(!exists|j: int| 0 <= j < self.entries@.len() && self.entries@[j].id == id);
            }
            None
        } else {
            let ghost old_entries = self.entries@;
            let mut entry = if i < self.entries.len() {
                proof {
                    lemma_state_at(old_entries, i as int);
                }
                self.entries.remove(i)
            } else {
                proof {
                    assert(!exists|j: int| 0 <= j < old_entries.len() && old_entries[j].id == id);
                }
                RxEntry { id, rx: Reassembler::new() }
            };
            assert(entry.id == id);
            assert(entry.rx.view() == state_of(old_entries, id));
            let ghost rest = self.entries@;
            let out = entry.rx.receive(&frame.data);
            self.entries.push(entry);
            proof {
                let es = self.entries@;
                assert(es =~= rest.push(entry));
                assert forall|a: int, b: int|
                    0 <= a < es.len() && 0 <= b < es.len() && a != b implies es[a].id != es[b].id by {
                    if a < rest.len() && b < rest.len() {
                        if i < old_entries.len() {
                            let a0 = if a < i { a } else { a + 1 };
                            let b0 = if b < i { b } else { b + 1 };
                            assert(rest[a] == old_entries[a0]);
                            assert(rest[b] == old_entries[b0]);
                        }
                    } else if a < rest.len() {
                        let a0 = if i < old_entries.len() && a >= i { a + 1 } else { a };
                        assert(rest[a] == old_entries[a0]);
                    } else if b < rest.len() {
                        let b0 = if i < old_entries.len() && b >= i { b + 1 } else { b };
                        assert(rest[b] == old_entries[b0]);
                    }
                }
                lemma_state_at(es, es.len() - 1);
                assert forall|x: u32| x != id implies state_of(es, x) == state_of(old_entries, x) by {
                    if exists|j: int| 0 <= j < old_entries.len() && old_entries[j].id == x {
                        let j = choose|j: int| 0 <= j < old_entries.len() && old_entries[j].id == x;
                        lemma_state_at(old_entries, j);
                        let j2 = if i < old_entries.len() && j > i { j - 1 } else { j };
                        assert(es[j2] == old_entries[j]);
                        lemma_state_at(es, j2);
                    } else {
                        if exists|j: int| 0 <= j < es.len() && es[j].id == x {
                            let j = choose|j: int| 0 <= j < es.len() && es[j].id == x;
                            let j0 = if i < old_entries.len() && j >= i { j + 1 } else { j };
                            assert(es[j] == old_entries[j0]);
                        }
                    }
                }
            }
            out
        }
    }
}

impl Disassembler {
    /// Takes in one frame; when it completes a valid transfer, reads the
    /// transfer's payload into `fields` (whose widths give the type) and says
    /// whether the payload held the whole value.
    pub fn receive_value(&mut self, frame: &CanFrame, fields: &mut Vec<Primitive>) -> (r: Option<
        DeserializationResult,
    >)
        requires
            old(self).wf(),
            all_width_ok(old(fields)@),
        ensures
            final(self).wf(),
            final(self).capacity == old(self).capacity,
            table_refuses(old(self).entries@, old(self).capacity, frame.id.id) ==> r is None
                && final(self).entries@ == old(self).entries@ && final(fields)@ == old(fields)@,
            !table_refuses(old(self).entries@, old(self).capacity, frame.id.id) ==> state_of(
                final(self).entries@,
                frame.id.id,
            ) == rx_step(state_of(old(self).entries@, frame.id.id), frame.data@).0,
            forall|x: u32|
                x != frame.id.id ==> state_of(final(self).entries@, x) == state_of(
                    old(self).entries@,
                    x,
                ),
            same_shape(old(fields)@, final(fields)@),
            !table_refuses(old(self).entries@, old(self).capacity, frame.id.id) ==> match rx_step(state_of(old(self).entries@, frame.id.id), frame.data@).1 {
                None => r is None && final(fields)@ == old(fields)@,
                Some(payload) => if payload.len() > usize::MAX / 8 {
                    r is None && final(fields)@ == old(fields)@
                } else {
                    &&& r is Some
                    &&& (r->0 == DeserializationResult::Finished) == (fields_bits(old(fields)@).len()
                        <= 8 * payload.len())
                    &&& r->0 == DeserializationResult::Finished ==> all_wf(final(fields)@)
                        && fields_bits(final(fields)@) == zero_masked(
                        bytes_bits(payload).take(fields_bits(old(fields)@).len() as int),
                        void_mask(old(fields)@),
                    )
                },
            },
    {
        match self.receive(frame) {
            None => None,
            Some(payload) => {
                if payload.len() > usize::MAX / 8 {
                    None
                } else {
                    Some(deserialize_fields(fields, payload))
                }
            },
        }
    }
}

proof fn lemma_frame_count(len: nat)
    requires
        len > 0,
    ensures
        7 * (frame_count(len) - 1) < len <= 7 * frame_count(len),
        frame_count(len) >= 1,
        len > 7 ==> frame_count(len) >= 2,
        len <= 7 ==> frame_count(len) == 1,
{
    let n = (len + 6) / 7;
    assert(7 * n <= len + 6 < 7 * n + 7) by (nonlinear_arith)
        requires
            n == (len + 6) / 7,
    ;
}

proof fn lemma_run_step(s: RxState, fs: Seq<Seq<u8>>, k: int)
    requires
        0 <= k < fs.len(),
    ensures
        rx_run(s, fs.take(k + 1)) == rx_step(rx_run(s, fs.take(k)).0, fs[k]),
{
    assert(fs.take(k + 1).drop_last() =~= fs.take(k));
}

/// The frames that carry stream `st`: seven-byte chunks, each with its tail byte.
pub open spec fn chunked_frames(st: Seq<u8>, tid: u8) -> Seq<Seq<u8>> {
    Seq::new(
        frame_count(st.len()),
        |i: int|
            st.subrange(7 * i, chunk_end(st.len(), i as nat) as int).push(
                tail_byte(i == 0, i == frame_count(st.len()) - 1, i % 2 == 1, tid),
            ),
    )
}

proof fn lemma_frames_are_chunks(payload: Seq<u8>, tid: u8)
    ensures
        transfer_frames(payload, tid) == chunked_frames(transfer_stream(payload), tid),
{
    assert(transfer_frames(payload, tid) =~= chunked_frames(transfer_stream(payload), tid));
}

/// The state after the first `k` frames of a multi-frame stream.
proof fn lemma_run_prefix(st: Seq<u8>, tid: u8, k: nat)
    requires
        tid < 32,
        st.len() > 7,
        1 <= k < frame_count(st.len()),
    ensures
        rx_run(rx_idle(), chunked_frames(st, tid).take(k as int)).0 == (RxState {
            active: true,
            transfer_id: tid,
            toggle: k % 2 == 1,
            buf: st.take(7 * k as int),
        }),
    decreases k,
{
    let n = frame_count(st.len());
    let fs = chunked_frames(st, tid);
    lemma_frame_count(st.len());
    lemma_run_step(rx_idle(), fs, k - 1);
    lemma_tail_decode(k - 1 == 0, k - 1 == n - 1, (k - 1) % 2 == 1, tid);
    assert(fs[k - 1].drop_last() =~= st.subrange(7 * (k - 1), 7 * k as int));
    if k == 1 {
        assert(fs.take(0) =~= Seq::<Seq<u8>>::empty());
        assert(st.subrange(0, 7) =~= st.take(7));
    } else {
        lemma_run_prefix(st, tid, (k - 1) as nat);
        assert(st.take(7 * (k - 1)) + st.subrange(7 * (k - 1), 7 * k as int) =~= st.take(
            7 * k as int,
        ));
    }
}

/// A multi-frame stream received in order yields what follows its CRC bytes
/// when they match, and nothing otherwise.
proof fn lemma_run_chunks(st: Seq<u8>, tid: u8)
    requires
        tid < 32,
        st.len() > 7,
    ensures
        rx_run(rx_idle(), chunked_frames(st, tid)).1 == (if crc_ok(st) {
            Some(st.skip(2))
        } else {
            None
        }),
{
    let n = frame_count(st.len());
    let fs = chunked_frames(st, tid);
    assert(fs.take(n as int) =~= fs);
    lemma_frame_count(st.len());
    lemma_run_prefix(st, tid, (n - 1) as nat);
    lemma_run_step(rx_idle(), fs, n - 1);
    lemma_tail_decode(false, true, (n - 1) % 2 == 1, tid);
    assert(st.take(7 * (n - 1)) + fs[n - 1].drop_last() =~= st);
}

/// Feeding the frames of a transfer, in order, to a fresh reassembler gives
/// back the payload when the last frame arrives.
pub proof fn lemma_transfer_round_trip(payload: Seq<u8>, tid: u8)
    requires
        tid < 32,
    ensures
        rx_run(rx_idle(), transfer_frames(payload, tid)).1 == Some(payload),
{
    let st = transfer_stream(payload);
    let n = frame_count(st.len());
    let fs = transfer_frames(payload, tid);
    assert(fs.take(n as int) =~= fs);
    if payload.len() <= 7 {
        if st.len() > 0 {
            lemma_frame_count(st.len());
        }
        assert(n == 1);
        lemma_run_step(rx_idle(), fs, 0);
        assert(fs.take(0) =~= Seq::<Seq<u8>>::empty());
        lemma_tail_decode(true, true, false, tid);
        assert(fs[0].drop_last() =~= payload);
    } else {
        lemma_frames_are_chunks(payload, tid);
        lemma_run_chunks(st, tid);
        assert(st.skip(2) =~= payload);
        let c = crc16(payload);
        assert((c / 256) as u8 as int * 256 + (c % 256) as u8 as int == c as int);
    }
}

/// A frame whose toggle bit is inverted.
pub open spec fn flip_toggle(data: Seq<u8>) -> Seq<u8> {
    data.drop_last().push(data.last() ^ 0x20u8)
}

/// With the second frame's toggle bit inverted, a multi-frame transfer is
/// abandoned: no frame of it yields a payload.
pub proof fn lemma_toggle_flip_abandons(payload: Seq<u8>, tid: u8, k: nat)
    requires
        tid < 32,
        payload.len() > 7,
        1 <= k <= frame_count(transfer_stream(payload).len()),
    ensures
        rx_run(
            rx_idle(),
            transfer_frames(payload, tid).update(1, flip_toggle(transfer_frames(payload, tid)[1])).take(
                k as int,
            ),
        ).1 == None::<Seq<u8>>,
        k >= 2 ==> rx_run(
            rx_idle(),
            transfer_frames(payload, tid).update(1, flip_toggle(transfer_frames(payload, tid)[1])).take(
                k as int,
            ),
        ).0 == rx_idle(),
    decreases k,
{
    let st = transfer_stream(payload);
    let n = frame_count(st.len());
    let fs = transfer_frames(payload, tid);
    let gs = fs.update(1, flip_toggle(fs[1]));
    lemma_frame_count(st.len());
    lemma_run_step(rx_idle(), gs, k - 1);
    if k == 1 {
        assert(gs.take(0) =~= Seq::<Seq<u8>>::empty());
        lemma_tail_decode(true, false, false, tid);
    } else if k == 2 {
        lemma_frames_are_chunks(payload, tid);
        lemma_run_prefix(st, tid, 1);
        assert(gs.take(1) =~= fs.take(1));
        let t = fs[1].last();
        lemma_tail_decode(false, 1 == n - 1, true, tid);
        assert(tail_sot(t ^ 0x20u8) == tail_sot(t) && tail_tid(t ^ 0x20u8) == tail_tid(t)
            && tail_toggle(t ^ 0x20u8) == !tail_toggle(t)) by (bit_vector);
    } else {
        lemma_toggle_flip_abandons(payload, tid, (k - 1) as nat);
        lemma_tail_decode(false, k - 1 == n - 1, (k - 1) % 2 == 1, tid);
    }
}

/// A payload of at most seven bytes travels in one frame that both starts and
/// ends the transfer and carries the payload alone, with no CRC.
pub proof fn lemma_single_frame(payload: Seq<u8>, tid: u8)
    requires
        tid < 32,
        payload.len() <= 7,
    ensures
        transfer_frames(payload, tid).len() == 1,
        transfer_frames(payload, tid)[0] == payload.push(tail_byte(true, true, false, tid)),
        tail_sot(transfer_frames(payload, tid)[0].last()),
        tail_eot(transfer_frames(payload, tid)[0].last()),
{
    let st = transfer_stream(payload);
    if st.len() > 0 {
        lemma_frame_count(st.len());
    }
    assert(st.subrange(0, st.len() as int) =~= payload);
    lemma_tail_decode(true, true, false, tid);
}

/// Changing any byte of a multi-frame transfer other than a tail byte makes the
/// transfer fail its CRC check: the frames, received in order, yield nothing.
pub proof fn lemma_corruption_rejected(payload: Seq<u8>, tid: u8, f: int, b: int, x: u8)
    requires
        tid < 32,
        payload.len() > 7,
        0 <= f < transfer_frames(payload, tid).len(),
        0 <= b < transfer_frames(payload, tid)[f].len() - 1,
        x != transfer_frames(payload, tid)[f][b],
    ensures
        rx_run(
            rx_idle(),
            transfer_frames(payload, tid).update(f, transfer_frames(payload, tid)[f].update(b, x)),
        ).1 == None::<Seq<u8>>,
{
    let st = transfer_stream(payload);
    let n = frame_count(st.len());
    let fs = transfer_frames(payload, tid);
    lemma_frames_are_chunks(payload, tid);
    lemma_frame_count(st.len());
    let p = 7 * f + b;
    assert(7 * f + 7 <= st.len() || chunk_end(st.len(), f as nat) == st.len());
    assert(fs[f][b] == st[p]);
    let st2 = st.update(p, x);
    let gs = fs.update(f, fs[f].update(b, x));
    let hs = chunked_frames(st2, tid);
    assert forall|i: int| 0 <= i < n implies #[trigger] gs[i] =~= hs[i] by {
        if i == f {
            assert(gs[i] =~= hs[i]);
        } else {
            assert(gs[i] =~= hs[i]);
        }
    }
    assert(gs =~= hs);
    lemma_run_chunks(st2, tid);
    let c = crc16(payload);
    assert((c / 256) as u8 as int * 256 + (c % 256) as u8 as int == c as int);
    if p >= 2 {
        assert(st2.skip(2) =~= payload.update(p - 2, x));
        crate::crc::lemma_crc_detects_byte_change(payload, p - 2, x);
        assert(st2[0] == st[0] && st2[1] == st[1]);
    } else {
        assert(st2.skip(2) =~= payload);
    }
}

} // verus!
