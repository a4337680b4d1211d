use vstd::prelude::*;

pub mod bits;
pub mod buffer;
pub mod crc;
pub mod flatten;
pub mod frame;
pub mod serialize;
pub mod transfer;

pub use buffer::{
    DeserializationBuffer, DeserializationResult, SerializationBuffer, SerializationResult,
};
pub use serialize::{Cursor, Primitive};
pub use transfer::{NodeID, TransferFrameID};

verus! {

/// A type that can be written to and read from a bit stream, one flattened
/// primitive field after another, pausing wherever a buffer ends.
pub trait Serializable {
    fn partial_serialize(
        &self,
        cursor: &mut Cursor,
        buffer: &mut SerializationBuffer,
    ) -> SerializationResult;

    fn partial_deserialize(
        &mut self,
        cursor: &mut Cursor,
        buffer: &mut DeserializationBuffer,
    ) -> DeserializationResult;
}

/// A serializable type whose number of flattened fields is fixed by its definition.
pub trait SerializableStatic: Serializable {
    const FLATTENED_FIELDS_NUMBER: usize;
}

/// A data structure with its two signatures.
pub trait Struct: Sized + Serializable {
    const DSDL_SIGNATURE: u64;
    const DATA_TYPE_SIGNATURE: u64;
}

/// A broadcast message type, with its type identifier if it has been resolved.
pub trait Message: Struct {
    const TYPE_ID: Option<u16>;
}

/// A service request type, with the type of the response it is answered by.
pub trait Request: Struct {
    type RESPONSE: Struct;
    const TYPE_ID: Option<u8>;
}

/// A service response type, with the type of the request it answers.
pub trait Response: Struct {
    type REQUEST: Struct;
    const TYPE_ID: Option<u8>;
}

/// A value with the identifier of the frame that carries it.
pub struct Frame<T: Struct> {
    pub id: TransferFrameID,
    pub body: T,
}

impl<T: Struct> Frame<T> {
    /// Wraps a message sent by `source_node` at `priority`; the message type's
    /// identifier must be resolved.
    pub fn from_message(message: T, priority: u8, source_node: NodeID) -> (r: Self) where
        T: Message,
        requires
            T::TYPE_ID.is_some(),
            priority < 32,
            source_node.wf(),
        ensures
            r.id.id == transfer::message_id(priority, source_node.value, T::TYPE_ID.unwrap()),
            r.body == message,
    {
        let type_id = match T::TYPE_ID {
            Some(t) => t,
            None => 0,
        };
        Frame::from_parts(TransferFrameID::from_message_parts(priority, source_node, type_id), message)
    }

    pub fn from_parts(id: TransferFrameID, body: T) -> (r: Self)
        ensures
            r.id == id,
            r.body == body,
    {
        Frame { id, body }
    }

    pub fn into_parts(self) -> (r: (TransferFrameID, T))
        ensures
            r.0 == self.id,
            r.1 == self.body,
    {
        (self.id, self.body)
    }
}

} // verus!
