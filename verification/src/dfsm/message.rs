//! Application messages carried inside normal protocol messages.

use vstd::prelude::*;
use crate::wire::{WireError, view_result};

verus! {

/// Messages that can be sent through the state machine: each has a type
/// identifier and an application payload, and decodes back from both.
pub trait Message: Sized + View {
    /// Type identifier of a message.
    spec fn spec_message_type(v: Self::V) -> u16;

    /// Payload encoding of a message.
    spec fn spec_serialize(v: Self::V) -> Seq<u8>;

    /// Decoding of a payload given its type identifier.
    spec fn spec_deserialize(message_type: u16, data: Seq<u8>) -> Result<Self::V, WireError>;

    /// Messages that decode back from their own encoding.
    spec fn spec_roundtrips(v: Self::V) -> bool;

    /// Get the message type identifier.
    fn message_type(&self) -> (r: u16)
        ensures
            r == Self::spec_message_type(self@),
    ;

    /// Serialize the application payload.
    fn serialize(&self) -> (r: Vec<u8>)
        ensures
            r@ == Self::spec_serialize(self@),
    ;

    /// Deserialize a payload of the given type.
    fn deserialize(message_type: u16, data: &[u8]) -> (r: Result<Self, WireError>)
        ensures
            view_result(r) == Self::spec_deserialize(message_type, data@),
    ;

    /// Decoding the encoding of a message gives it back.
    proof fn lemma_roundtrip(v: Self::V)
        requires
            Self::spec_roundtrips(v),
        ensures
            Self::spec_deserialize(Self::spec_message_type(v), Self::spec_serialize(v)) == Ok::<
                Self::V,
                WireError,
            >(v),
    ;
}

} // verus!
