//! The wire envelope: the two closed sums of messages that cross the link.
//!
//! Field text and payloads are byte strings; `options` and `data` carry an
//! opaque, already-encoded payload that the envelope passes through verbatim.

use vstd::prelude::*;

use crate::json::{no_ctrl, scan_value};

verus! {

/// Messages a client sends to the server.
pub enum InputMessage {
    Connect { correlation_id: Vec<u8>, id: u64 },
    Create { correlation_id: Vec<u8>, type_: Vec<u8>, id: Vec<u8>, options: Option<Vec<u8>> },
    Join { correlation_id: Vec<u8>, type_: Vec<u8>, id: Vec<u8> },
    Action { type_: Vec<u8>, id: Vec<u8>, data: Vec<u8> },
}

/// Messages the server sends to a client.
pub enum OutputMessage {
    Connect { correlation_id: Vec<u8>, success: bool },
    Create { correlation_id: Vec<u8>, success: bool },
    Join { correlation_id: Vec<u8>, success: bool },
    Diff { type_: Vec<u8>, id: Vec<u8>, finished: bool, data: Vec<u8> },
    GenericError { description: Vec<u8> },
}

pub enum InputMessageView {
    Connect { correlation_id: Seq<u8>, id: u64 },
    Create { correlation_id: Seq<u8>, type_: Seq<u8>, id: Seq<u8>, options: Option<Seq<u8>> },
    Join { correlation_id: Seq<u8>, type_: Seq<u8>, id: Seq<u8> },
    Action { type_: Seq<u8>, id: Seq<u8>, data: Seq<u8> },
}

pub enum OutputMessageView {
    Connect { correlation_id: Seq<u8>, success: bool },
    Create { correlation_id: Seq<u8>, success: bool },
    Join { correlation_id: Seq<u8>, success: bool },
    Diff { type_: Seq<u8>, id: Seq<u8>, finished: bool, data: Seq<u8> },
    GenericError { description: Seq<u8> },
}

impl View for InputMessage {
    type V = InputMessageView;

    open spec fn view(&self) -> InputMessageView {
        match self {
            InputMessage::Connect { correlation_id, id } => InputMessageView::Connect {
                correlation_id: correlation_id@,
                id: *id,
            },
            InputMessage::Create { correlation_id, type_, id, options } => {
                InputMessageView::Create {
                    correlation_id: correlation_id@,
                    type_: type_@,
                    id: id@,
                    options: match options {
                        Some(o) => Some(o@),
                        None => None,
                    },
                }
            },
            InputMessage::Join { correlation_id, type_, id } => InputMessageView::Join {
                correlation_id: correlation_id@,
                type_: type_@,
                id: id@,
            },
            InputMessage::Action { type_, id, data } => InputMessageView::Action {
                type_: type_@,
                id: id@,
                data: data@,
            },
        }
    }
}

impl View for OutputMessage {
    type V = OutputMessageView;

    open spec fn view(&self) -> OutputMessageView {
        match self {
            OutputMessage::Connect { correlation_id, success } => OutputMessageView::Connect {
                correlation_id: correlation_id@,
                success: *success,
            },
            OutputMessage::Create { correlation_id, success } => OutputMessageView::Create {
                correlation_id: correlation_id@,
                success: *success,
            },
            OutputMessage::Join { correlation_id, success } => OutputMessageView::Join {
                correlation_id: correlation_id@,
                success: *success,
            },
            OutputMessage::Diff { type_, id, finished, data } => OutputMessageView::Diff {
                type_: type_@,
                id: id@,
                finished: *finished,
                data: data@,
            },
            OutputMessage::GenericError { description } => OutputMessageView::GenericError {
                description: description@,
            },
        }
    }
}

/// An opaque payload is acceptable when it is one complete JSON value with
/// no surrounding whitespace: exactly what the codec splices into and reads
/// back out of an envelope.
pub open spec fn raw_ok(v: Seq<u8>) -> bool {
    scan_value(v, 0) == Some(v.len() as int)
}

/// Envelopes the codec round-trips: text fields carry no control bytes and
/// payloads are complete JSON values (`data` may also be absent, as empty).
pub open spec fn input_wf(m: InputMessageView) -> bool {
    match m {
        InputMessageView::Connect { correlation_id, .. } => no_ctrl(correlation_id),
        InputMessageView::Create { correlation_id, type_, id, options } => no_ctrl(correlation_id)
            && no_ctrl(type_) && no_ctrl(id) && match options {
            Some(o) => raw_ok(o),
            None => true,
        },
        InputMessageView::Join { correlation_id, type_, id } => no_ctrl(correlation_id) && no_ctrl(
            type_,
        ) && no_ctrl(id),
        InputMessageView::Action { type_, id, data } => no_ctrl(type_) && no_ctrl(id) && (data.len()
            == 0 || raw_ok(data)),
    }
}

pub open spec fn output_wf(m: OutputMessageView) -> bool {
    match m {
        OutputMessageView::Connect { correlation_id, .. } => no_ctrl(correlation_id),
        OutputMessageView::Create { correlation_id, .. } => no_ctrl(correlation_id),
        OutputMessageView::Join { correlation_id, .. } => no_ctrl(correlation_id),
        OutputMessageView::Diff { type_, id, data, .. } => no_ctrl(type_) && no_ctrl(id) && (
        data.len() == 0 || raw_ok(data)),
        OutputMessageView::GenericError { description } => no_ctrl(description),
    }
}

} // verus!
