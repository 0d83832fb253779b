//! Error kinds of the framework, and how each one crosses the wire.
//!
//! Every error a session must hear about is sent as a `GenericError`
//! envelope with one fixed description.

use vstd::prelude::*;

use crate::json::no_ctrl;
use crate::message::{OutputMessage, OutputMessageView};

verus! {

/// The description text carried by every error envelope.
pub open spec fn generic_description() -> Seq<u8> {
    seq![
        'G' as u8, 'e' as u8, 'n' as u8, 'e' as u8, 'r' as u8, 'i' as u8, 'c' as u8, ' ' as u8,
        'e' as u8, 'r' as u8, 'r' as u8, 'o' as u8, 'r' as u8, ',' as u8, ' ' as u8, 'p' as u8,
        'l' as u8, 'e' as u8, 'a' as u8, 's' as u8, 'e' as u8, ' ' as u8, 'p' as u8, 'r' as u8,
        'o' as u8, 'v' as u8, 'i' as u8, 'd' as u8, 'e' as u8, ' ' as u8, 'm' as u8, 'o' as u8,
        'r' as u8, 'e' as u8, ' ' as u8, 'd' as u8, 'e' as u8, 't' as u8, 'a' as u8, 'i' as u8,
        'l' as u8, 's' as u8,
    ]
}

pub proof fn lemma_generic_description_plain()
    ensures
        no_ctrl(generic_description()),
{
}

/// The description as bytes, for building an error envelope.
pub fn generic_description_bytes() -> (r: Vec<u8>)
    ensures
        r@ == generic_description(),
{
    let r = vec![
        'G' as u8, 'e' as u8, 'n' as u8, 'e' as u8, 'r' as u8, 'i' as u8, 'c' as u8, ' ' as u8,
        'e' as u8, 'r' as u8, 'r' as u8, 'o' as u8, 'r' as u8, ',' as u8, ' ' as u8, 'p' as u8,
        'l' as u8, 'e' as u8, 'a' as u8, 's' as u8, 'e' as u8, ' ' as u8, 'p' as u8, 'r' as u8,
        'o' as u8, 'v' as u8, 'i' as u8, 'd' as u8, 'e' as u8, ' ' as u8, 'm' as u8, 'o' as u8,
        'r' as u8, 'e' as u8, ' ' as u8, 'd' as u8, 'e' as u8, 't' as u8, 'a' as u8, 'i' as u8,
        'l' as u8, 's' as u8,
    ];
    proof {
        assert(r@ =~= generic_description());
    }
    r
}

/// A failure at the envelope boundary.
#[derive(Debug, Clone, Copy, PartialEq, Eq, Structural)]
pub enum ThundersError {
    DeserializationFailure,
}

/// Failures on the server side of the fabric.
#[derive(Debug, Clone, Copy, PartialEq, Eq, Structural)]
pub enum ThundersServerError {
    StartFailure,
    MessageNotConnected,
    RoomNotFound,
    RoomAlreadyCreated,
    RoomTypeNotFound,
    ConnectionFailure,
    InvalidInput,
    DeserializationFailure,
}

/// Failures on the client side of the fabric.
#[derive(Debug, Clone, Copy, PartialEq, Eq, Structural)]
pub enum ThundersClientError {
    ConnectionFailure,
    RoomNotFound,
    RoomTypeNotFound,
    UnknownMessage,
    NoResponse,
    IncompatibleAction,
    GameJoinFailure,
    GameCreationFailure,
    EventListenerNotConfigured,
}

impl ThundersError {
    /// The envelope that reports this error to a session.
    pub fn to_output(&self) -> (m: OutputMessage)
        ensures
            m@ == (OutputMessageView::GenericError { description: generic_description() }),
    {
        OutputMessage::GenericError { description: generic_description_bytes() }
    }
}

impl ThundersServerError {
    /// The envelope that reports this error to a session.
    pub fn to_output(&self) -> (m: OutputMessage)
        ensures
            m@ == (OutputMessageView::GenericError { description: generic_description() }),
    {
        OutputMessage::GenericError { description: generic_description_bytes() }
    }
}

} // verus!
