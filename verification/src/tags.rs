//! The tag bytes of the op-stream: one per [`Op`](crate::protocol::Op) variant, one per
//! [`EventPayload`](crate::protocol::EventPayload) variant.
use vstd::prelude::*;

verus! {

pub const BEGIN_BATCH: u8 = 0x01;

pub const END_BATCH: u8 = 0x02;

pub const CREATE_ELEMENT: u8 = 0x10;

pub const CREATE_TEXT: u8 = 0x11;

pub const REMOVE_NODE: u8 = 0x12;

pub const INSERT_BEFORE: u8 = 0x13;

pub const SET_TEXT: u8 = 0x14;

pub const SET_ATTRIBUTE: u8 = 0x15;

pub const SET_INLINE_STYLE: u8 = 0x16;

pub const SET_CLASS: u8 = 0x17;

pub const REMOVE_CLASS: u8 = 0x18;

pub const ADD_LISTENER: u8 = 0x19;

pub const REMOVE_LISTENER: u8 = 0x1A;

pub const INTERN_STRING: u8 = 0x1B;

pub const SET_TAG_NAME: u8 = 0x1C;

pub const DISPATCH_EVENT: u8 = 0x80;

pub const PAYLOAD_NONE: u8 = 0;

pub const PAYLOAD_POINTER: u8 = 1;

pub const PAYLOAD_KEY: u8 = 2;

pub const PAYLOAD_TEXT: u8 = 3;

} // verus!
