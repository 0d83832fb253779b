//! The schema indirection: which wire form a codec uses, and how envelopes
//! and user payloads move between values and bytes. The JSON schema is the
//! one this crate provides; its envelope codec is the verified one.

use vstd::prelude::*;

use crate::codec::{decode_input_view, decode_output_view, encode_input_view, encode_output_view};
use crate::error::ThundersError;
use crate::message::{InputMessage, OutputMessage};

verus! {

/// Whether a schema's wire form is text or binary frames.
pub enum SchemaType {
    Text,
    Binary,
}

pub trait Schema {
    fn schema_type() -> SchemaType;
}

pub trait Deserialize<S: Schema>: Sized {
    fn deserialize(buf: &[u8]) -> Result<Self, ThundersError>;
}

pub trait Serialize<S: Schema>: Sized {
    fn serialize(self) -> Vec<u8>;
}

pub trait BorrowedSerialize<S: Schema> {
    fn serialize(&self) -> Vec<u8>;
}

/// The JSON schema: text frames, flat envelope objects.
pub struct Json {}

impl Schema for Json {
    fn schema_type() -> SchemaType {
        SchemaType::Text
    }
}

impl Serialize<Json> for InputMessage {
    fn serialize(self) -> (r: Vec<u8>)
        ensures
            r@ == encode_input_view(self@),
    {
        self.encode()
    }
}

impl Serialize<Json> for OutputMessage {
    fn serialize(self) -> (r: Vec<u8>)
        ensures
            r@ == encode_output_view(self@),
    {
        self.encode()
    }
}

impl BorrowedSerialize<Json> for InputMessage {
    fn serialize(&self) -> (r: Vec<u8>)
        ensures
            r@ == encode_input_view(self@),
    {
        self.encode()
    }
}

impl BorrowedSerialize<Json> for OutputMessage {
    fn serialize(&self) -> (r: Vec<u8>)
        ensures
            r@ == encode_output_view(self@),
    {
        self.encode()
    }
}

impl Deserialize<Json> for InputMessage {
    fn deserialize(buf: &[u8]) -> (r: Result<Self, ThundersError>)
        ensures
            match r {
                Ok(m) => decode_input_view(buf@) == Some(m@),
                Err(e) => decode_input_view(buf@) is None && e == ThundersError::DeserializationFailure,
            },
    {
        match InputMessage::decode(buf) {
            Some(m) => Ok(m),
            None => Err(ThundersError::DeserializationFailure),
        }
    }
}

impl Deserialize<Json> for OutputMessage {
    fn deserialize(buf: &[u8]) -> (r: Result<Self, ThundersError>)
        ensures
            match r {
                Ok(m) => decode_output_view(buf@) == Some(m@),
                Err(e) => decode_output_view(buf@) is None && e == ThundersError::DeserializationFailure,
            },
    {
        match OutputMessage::decode(buf) {
            Some(m) => Ok(m),
            None => Err(ThundersError::DeserializationFailure),
        }
    }
}

} // verus!
