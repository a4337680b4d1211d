use vstd::prelude::*;
use crate::bits::{byte_bit, bytes_bits, lemma_byte_bit_or, lemma_byte_bit_zero};

verus! {

/// Whether a serialization call wrote the whole value or stopped on a full buffer.
#[derive(Debug, PartialEq, Eq, Clone, Copy, Structural)]
pub enum SerializationResult {
    Finished,
    BufferFull,
}

/// Whether a deserialization call read the whole value or ran out of input.
#[derive(Debug, PartialEq, Eq, Clone, Copy, Structural)]
pub enum DeserializationResult {
    Finished,
    BufferInsufficient,
}

/// A fixed-capacity byte region that bits are written into, most significant
/// bit of each byte first. `bit_index` bits are written; the rest are zero.
pub struct SerializationBuffer {
    pub data: Vec<u8>,
    pub bit_index: usize,
}

impl SerializationBuffer {
    pub open spec fn capacity_bits(&self) -> nat {
        8 * self.data@.len()
    }

    pub open spec fn wf(&self) -> bool {
        &&& self.capacity_bits() <= usize::MAX
        &&& self.bit_index <= self.capacity_bits()
        &&& forall|i: int|
            self.bit_index <= i < self.capacity_bits() ==> !(#[trigger] bytes_bits(self.data@)[i])
    }

    /// The bits written so far.
    pub open spec fn bits(&self) -> Seq<bool> {
        bytes_bits(self.data@).take(self.bit_index as int)
    }

    /// An empty buffer of `capacity` bytes.
    pub fn with_capacity(capacity: usize) -> (r: Self)
        requires
            capacity <= usize::MAX / 8,
        ensures
            r.wf(),
            r.data@.len() == capacity,
            r.bits() == Seq::<bool>::empty(),
            forall|i: int| 0 <= i < capacity ==> r.data@[i] == 0,
    {
        let mut data: Vec<u8> = Vec::new();
        while data.len() < capacity
            invariant
                data@.len() <= capacity,
                forall|i: int| 0 <= i < data@.len() ==> data@[i] == 0,
            decreases capacity - data@.len(),
        {
            data.push(0u8);
        }
        let r = SerializationBuffer { data, bit_index: 0 };
        assert forall|i: int| 0 <= i < r.capacity_bits() implies !(#[trigger] bytes_bits(
            r.data@,
        )[i]) by {
            lemma_byte_bit_zero((i % 8) as u8);
        }
        assert(r.bits() =~= Seq::<bool>::empty());
        r
    }

    pub fn is_full(&self) -> (r: bool)
        requires
            self.wf(),
        ensures
            r == (self.bit_index == self.capacity_bits()),
    {
        self.bit_index == self.data.len() * 8
    }

    /// Appends one bit.
    pub fn push_bit(&mut self, bit: bool)
        requires
            old(self).wf(),
            old(self).bit_index < old(self).capacity_bits(),
        ensures
            final(self).wf(),
            final(self).data@.len() == old(self).data@.len(),
            final(self).bit_index == old(self).bit_index + 1,
            final(self).bits() == old(self).bits().push(bit),
    {
        let ghost old_data = self.data@;
        let idx = self.bit_index / 8;
        let k = (self.bit_index % 8) as u8;
        if bit {
            let b = self.data[idx] | (0x80u8 >> k);
            self.data.set(idx, b);
        }
        let ghost n = self.bit_index as int;
        self.bit_index = self.bit_index + 1;
        assert forall|i: int| 0 <= i < self.capacity_bits() implies #[trigger] bytes_bits(
            self.data@,
        )[i] == if i == n { bit } else { bytes_bits(old_data)[i] } by {
            if bit && i / 8 == idx {
                lemma_byte_bit_or(old_data[idx as int], k, (i % 8) as u8);
            }
        }
        assert(self.bits() =~= old(self).bits().push(bit));
    }
}

/// A byte region that bits are read from, most significant bit of each byte
/// first; `bit_index` bits are already consumed.
pub struct DeserializationBuffer {
    pub data: Vec<u8>,
    pub bit_index: usize,
}

impl DeserializationBuffer {
    pub open spec fn wf(&self) -> bool {
        &&& 8 * self.data@.len() <= usize::MAX
        &&& self.bit_index <= 8 * self.data@.len()
    }

    /// The bits not yet consumed.
    pub open spec fn remaining(&self) -> Seq<bool> {
        bytes_bits(self.data@).skip(self.bit_index as int)
    }

    /// A buffer that reads `data` from its first bit.
    pub fn new(data: Vec<u8>) -> (r: Self)
        requires
            data@.len() <= usize::MAX / 8,
        ensures
            r.wf(),
            r.data@ == data@,
            r.remaining() == bytes_bits(data@),
    {
        let r = DeserializationBuffer { data, bit_index: 0 };
        assert(r.remaining() =~= bytes_bits(r.data@));
        r
    }

    pub fn is_empty(&self) -> (r: bool)
        requires
            self.wf(),
        ensures
            r == (self.remaining().len() == 0),
    {
        self.bit_index == self.data.len() * 8
    }

    /// Takes the next bit.
    pub fn pop_bit(&mut self) -> (r: bool)
        requires
            old(self).wf(),
            old(self).remaining().len() > 0,
        ensures
            final(self).wf(),
            final(self).data@ == old(self).data@,
            r == old(self).remaining()[0],
            final(self).remaining() == old(self).remaining().skip(1),
    {
        let idx = self.bit_index / 8;
        let k = (self.bit_index % 8) as u8;
        let r = (self.data[idx] >> (7 - k)) & 1u8 == 1u8;
        self.bit_index = self.bit_index + 1;
        assert(self.remaining() =~= old(self).remaining().skip(1));
        r
    }
}

} // verus!
