//! The op-stream: a flat sequence of typed mutations and its byte encoding.
//!
//! The guest encodes its mutations with [`OpEncoder`]; the host decodes the same bytes with
//! [`OpReader`] or [`decode_all`]. What the bytes of an op are is [`op_bytes`], what stands at
//! an offset of a buffer is [`parse_op`], and the laws at the end of this file say that the two
//! undo each other.
use crate::handles::{AttrId, ElementTag, EventKind, HandlerId, NodeId, PropId, StrId};
use crate::tags;
use crate::text::{hex_char, push_hex_byte};
use crate::wire::{
    copy_range, get_u16, get_u32, get_u64, group_le_len, law_integers_are_little_endian,
    lemma_stands_at_concat, lemma_tag_fields1, lemma_tag_fields2, lemma_tag_fields3, lemma_u16_at,
    lemma_u32_at, lemma_u64_at, lemma_u8_at, push_bytes, push_u16, push_u32, push_u64, stands_at,
    u16_at, u16_le, u32_at, u32_le, u64_at, u64_le, worth,
};
use vstd::prelude::*;

verus! {

/// Version carried by every [`Op::BeginBatch`].
pub const PROTOCOL_VERSION: u16 = 1;

/// A 32-bit IEEE-754 number, held as its bit pattern: the codecs move it and never compute
/// with it.
#[derive(Clone, Copy, PartialEq, Eq, Debug, Structural)]
pub struct F32(pub u32);

impl F32 {
    /// The number with the given bit pattern.
    pub fn from_bits(bits: u32) -> (r: F32)
        ensures
            r == F32(bits),
    {
        F32(bits)
    }

    /// The bit pattern.
    pub fn to_bits(self) -> (r: u32)
        ensures
            r == self.0,
    {
        self.0
    }
}

/// Event data delivered to a guest handler.
#[derive(Clone, Copy, PartialEq, Eq, Debug, Structural)]
pub enum EventPayload {
    /// No payload.
    Empty,
    /// Pointer event: position in logical pixels, and button index.
    Pointer { x: F32, y: F32, button: u8 },
    /// Keyboard event: key code, and modifier flags.
    Key { code: u32, mods: u8 },
    /// Text event referencing an interned string.
    Text { text: StrId },
}

/// A single mutation in the op-stream. `DispatchEvent` is the only op that flows from host to
/// guest.
#[derive(Clone, PartialEq, Eq, Debug)]
pub enum Op {
    /// Open a transaction.
    BeginBatch {
        /// Protocol version of this batch.
        version: u16,
        /// Monotonic frame number.
        seq: u32,
    },
    /// Close the current transaction.
    EndBatch,
    /// Create a detached element node.
    CreateElement {
        /// Node handle chosen by the guest.
        node: NodeId,
        /// Element kind.
        tag: ElementTag,
    },
    /// Create a detached text node.
    CreateText {
        /// Node handle chosen by the guest.
        node: NodeId,
        /// Interned text.
        text: StrId,
    },
    /// Remove a node and its subtree.
    RemoveNode {
        /// Node to remove.
        node: NodeId,
    },
    /// Insert `child` under `parent` before `anchor`.
    InsertBefore {
        /// Parent node.
        parent: NodeId,
        /// Child node to insert.
        child: NodeId,
        /// Sibling to insert before, or the null handle to append.
        anchor: NodeId,
    },
    /// Replace a text node's content.
    SetText {
        /// Text node.
        node: NodeId,
        /// New interned text.
        text: StrId,
    },
    /// Set an attribute.
    SetAttribute {
        /// Target node.
        node: NodeId,
        /// Attribute name id.
        attr: AttrId,
        /// Interned value.
        value: StrId,
    },
    /// Set one inline style property.
    SetInlineStyle {
        /// Target node.
        node: NodeId,
        /// Property id.
        prop: PropId,
        /// Interned value.
        value: StrId,
    },
    /// Add a class.
    SetClass {
        /// Target node.
        node: NodeId,
        /// Interned class name.
        class: StrId,
    },
    /// Remove a class.
    RemoveClass {
        /// Target node.
        node: NodeId,
        /// Interned class name.
        class: StrId,
    },
    /// Set an element's CSS local name (such as `div`).
    SetTagName {
        /// Target node.
        node: NodeId,
        /// Interned CSS local name.
        name: StrId,
    },
    /// Subscribe `node` to an event kind.
    AddListener {
        /// Target node.
        node: NodeId,
        /// Event kind.
        event: EventKind,
        /// Handler to dispatch to.
        handler: HandlerId,
    },
    /// Remove a listener.
    RemoveListener {
        /// Target node.
        node: NodeId,
        /// Event kind.
        event: EventKind,
    },
    /// Define an entry of the string table.
    InternString {
        /// Id being defined.
        id: StrId,
        /// UTF-8 bytes.
        bytes: Vec<u8>,
    },
    /// Host to guest: deliver an event to a handler.
    DispatchEvent {
        /// Handler that was registered.
        handler: HandlerId,
        /// Node the event targeted.
        node: NodeId,
        /// Event data.
        payload: EventPayload,
    },
}

/// What an [`Op`] says, with the bytes of an interned string as a sequence.
pub ghost enum OpView {
    BeginBatch { version: u16, seq: u32 },
    EndBatch,
    CreateElement { node: NodeId, tag: ElementTag },
    CreateText { node: NodeId, text: StrId },
    RemoveNode { node: NodeId },
    InsertBefore { parent: NodeId, child: NodeId, anchor: NodeId },
    SetText { node: NodeId, text: StrId },
    SetAttribute { node: NodeId, attr: AttrId, value: StrId },
    SetInlineStyle { node: NodeId, prop: PropId, value: StrId },
    SetClass { node: NodeId, class: StrId },
    RemoveClass { node: NodeId, class: StrId },
    SetTagName { node: NodeId, name: StrId },
    AddListener { node: NodeId, event: EventKind, handler: HandlerId },
    RemoveListener { node: NodeId, event: EventKind },
    InternString { id: StrId, bytes: Seq<u8> },
    DispatchEvent { handler: HandlerId, node: NodeId, payload: EventPayload },
}

impl View for Op {
    type V = OpView;

    open spec fn view(&self) -> OpView {
        match *self {
            Op::BeginBatch { version, seq } => OpView::BeginBatch { version, seq },
            Op::EndBatch => OpView::EndBatch,
            Op::CreateElement { node, tag } => OpView::CreateElement { node, tag },
            Op::CreateText { node, text } => OpView::CreateText { node, text },
            Op::RemoveNode { node } => OpView::RemoveNode { node },
            Op::InsertBefore { parent, child, anchor } => OpView::InsertBefore { parent, child, anchor },
            Op::SetText { node, text } => OpView::SetText { node, text },
            Op::SetAttribute { node, attr, value } => OpView::SetAttribute { node, attr, value },
            Op::SetInlineStyle { node, prop, value } => OpView::SetInlineStyle { node, prop, value },
            Op::SetClass { node, class } => OpView::SetClass { node, class },
            Op::RemoveClass { node, class } => OpView::RemoveClass { node, class },
            Op::SetTagName { node, name } => OpView::SetTagName { node, name },
            Op::AddListener { node, event, handler } => OpView::AddListener { node, event, handler },
            Op::RemoveListener { node, event } => OpView::RemoveListener { node, event },
            Op::InternString { id, bytes } => OpView::InternString { id, bytes: bytes@ },
            Op::DispatchEvent { handler, node, payload } => OpView::DispatchEvent { handler, node, payload },
        }
    }
}

/// The bytes of an event payload.
pub open spec fn payload_bytes(p: EventPayload) -> Seq<u8> {
    match p {
        EventPayload::Empty => seq![tags::PAYLOAD_NONE],
        EventPayload::Pointer { x, y, button } => seq![tags::PAYLOAD_POINTER] + u32_le(x.0)
            + u32_le(y.0) + seq![button],
        EventPayload::Key { code, mods } => seq![tags::PAYLOAD_KEY] + u32_le(code) + seq![mods],
        EventPayload::Text { text } => seq![tags::PAYLOAD_TEXT] + u32_le(text.0),
    }
}

/// The bytes of an op: its tag, then its fields in order. A string is preceded by its length,
/// of which the low 32 bits are kept.
pub open spec fn op_bytes(op: OpView) -> Seq<u8> {
    match op {
        OpView::BeginBatch { version, seq } => seq![tags::BEGIN_BATCH] + u16_le(version) + u32_le(seq),
        OpView::EndBatch => seq![tags::END_BATCH],
        OpView::CreateElement { node, tag } => seq![tags::CREATE_ELEMENT] + u64_le(node.0) + u16_le(tag.0),
        OpView::CreateText { node, text } => seq![tags::CREATE_TEXT] + u64_le(node.0) + u32_le(text.0),
        OpView::RemoveNode { node } => seq![tags::REMOVE_NODE] + u64_le(node.0),
        OpView::InsertBefore { parent, child, anchor } => seq![tags::INSERT_BEFORE] + u64_le(parent.0) + u64_le(child.0) + u64_le(anchor.0),
        OpView::SetText { node, text } => seq![tags::SET_TEXT] + u64_le(node.0) + u32_le(text.0),
        OpView::SetAttribute { node, attr, value } => seq![tags::SET_ATTRIBUTE] + u64_le(node.0) + u16_le(attr.0) + u32_le(value.0),
        OpView::SetInlineStyle { node, prop, value } => seq![tags::SET_INLINE_STYLE] + u64_le(node.0) + u16_le(prop.0) + u32_le(value.0),
        OpView::SetClass { node, class } => seq![tags::SET_CLASS] + u64_le(node.0) + u32_le(class.0),
        OpView::RemoveClass { node, class } => seq![tags::REMOVE_CLASS] + u64_le(node.0) + u32_le(class.0),
        OpView::SetTagName { node, name } => seq![tags::SET_TAG_NAME] + u64_le(node.0) + u32_le(name.0),
        OpView::AddListener { node, event, handler } => seq![tags::ADD_LISTENER] + u64_le(node.0) + u16_le(event.0) + u32_le(handler.0),
        OpView::RemoveListener { node, event } => seq![tags::REMOVE_LISTENER] + u64_le(node.0) + u16_le(event.0),
        OpView::InternString { id, bytes } => seq![tags::INTERN_STRING] + u32_le(id.0) + u32_le(
            (bytes.len() % 0x1_0000_0000) as u32,
        ) + bytes,
        OpView::DispatchEvent { handler, node, payload } => seq![tags::DISPATCH_EVENT] + u32_le(handler.0)
            + u64_le(node.0) + payload_bytes(payload),
    }
}

/// The bytes of a sequence of ops, one after the other.
pub open spec fn ops_bytes(ops: Seq<OpView>) -> Seq<u8>
    decreases ops.len(),
{
    if ops.len() == 0 {
        seq![]
    } else {
        op_bytes(ops[0]) + ops_bytes(ops.drop_first())
    }
}

/// Anything that can go wrong decoding an op-stream.
#[derive(Clone, Copy, PartialEq, Eq, Debug, Structural)]
pub enum DecodeError {
    /// The buffer ends in the middle of an op.
    Truncated,
    /// An opcode or payload tag that means nothing.
    UnknownTag(u8),
}

/// The payload that stands at `p`, and where it ends.
pub open spec fn parse_payload(b: Seq<u8>, p: int) -> Result<(EventPayload, int), DecodeError> {
    if p >= b.len() {
        Err(DecodeError::Truncated)
    } else if b[p] == tags::PAYLOAD_NONE {
        Ok((EventPayload::Empty, p + 1))
    } else if b[p] == tags::PAYLOAD_POINTER {
        if p + 10 <= b.len() {
            Ok(
                (
                    EventPayload::Pointer {
                        x: F32(u32_at(b, p + 1)),
                        y: F32(u32_at(b, p + 5)),
                        button: b[p + 9],
                    },
                    p + 10,
                ),
            )
        } else {
            Err(DecodeError::Truncated)
        }
    } else if b[p] == tags::PAYLOAD_KEY {
        if p + 6 <= b.len() {
            Ok((EventPayload::Key { code: u32_at(b, p + 1), mods: b[p + 5] }, p + 6))
        } else {
            Err(DecodeError::Truncated)
        }
    } else if b[p] == tags::PAYLOAD_TEXT {
        if p + 5 <= b.len() {
            Ok((EventPayload::Text { text: StrId(u32_at(b, p + 1)) }, p + 5))
        } else {
            Err(DecodeError::Truncated)
        }
    } else {
        Err(DecodeError::UnknownTag(b[p]))
    }
}

/// The op that stands at `p`, and where it ends.
pub open spec fn parse_op(b: Seq<u8>, p: int) -> Result<(OpView, int), DecodeError> {
    if p >= b.len() {
        Err(DecodeError::Truncated)
    } else if b[p] == tags::BEGIN_BATCH {
        if p + 7 <= b.len() {
            Ok((OpView::BeginBatch { version: u16_at(b, p + 1), seq: u32_at(b, p + 3) }, p + 7))
        } else {
            Err(DecodeError::Truncated)
        }
    } else if b[p] == tags::END_BATCH {
        Ok((OpView::EndBatch, p + 1))
    } else if b[p] == tags::CREATE_ELEMENT {
        if p + 11 <= b.len() {
            Ok((OpView::CreateElement { node: NodeId(u64_at(b, p + 1)), tag: ElementTag(u16_at(b, p + 9)) }, p + 11))
        } else {
            Err(DecodeError::Truncated)
        }
    } else if b[p] == tags::CREATE_TEXT {
        if p + 13 <= b.len() {
            Ok((OpView::CreateText { node: NodeId(u64_at(b, p + 1)), text: StrId(u32_at(b, p + 9)) }, p + 13))
        } else {
            Err(DecodeError::Truncated)
        }
    } else if b[p] == tags::REMOVE_NODE {
        if p + 9 <= b.len() {
            Ok((OpView::RemoveNode { node: NodeId(u64_at(b, p + 1)) }, p + 9))
        } else {
            Err(DecodeError::Truncated)
        }
    } else if b[p] == tags::INSERT_BEFORE {
        if p + 25 <= b.len() {
            Ok((OpView::InsertBefore { parent: NodeId(u64_at(b, p + 1)), child: NodeId(u64_at(b, p + 9)), anchor: NodeId(u64_at(b, p + 17)) }, p + 25))
        } else {
            Err(DecodeError::Truncated)
        }
    } else if b[p] == tags::SET_TEXT {
        if p + 13 <= b.len() {
            Ok((OpView::SetText { node: NodeId(u64_at(b, p + 1)), text: StrId(u32_at(b, p + 9)) }, p + 13))
        } else {
            Err(DecodeError::Truncated)
        }
    } else if b[p] == tags::SET_ATTRIBUTE {
        if p + 15 <= b.len() {
            Ok((OpView::SetAttribute { node: NodeId(u64_at(b, p + 1)), attr: AttrId(u16_at(b, p + 9)), value: StrId(u32_at(b, p + 11)) }, p + 15))
        } else {
            Err(DecodeError::Truncated)
        }
    } else if b[p] == tags::SET_INLINE_STYLE {
        if p + 15 <= b.len() {
            Ok((OpView::SetInlineStyle { node: NodeId(u64_at(b, p + 1)), prop: PropId(u16_at(b, p + 9)), value: StrId(u32_at(b, p + 11)) }, p + 15))
        } else {
            Err(DecodeError::Truncated)
        }
    } else if b[p] == tags::SET_CLASS {
        if p + 13 <= b.len() {
            Ok((OpView::SetClass { node: NodeId(u64_at(b, p + 1)), class: StrId(u32_at(b, p + 9)) }, p + 13))
        } else {
            Err(DecodeError::Truncated)
        }
    } else if b[p] == tags::REMOVE_CLASS {
        if p + 13 <= b.len() {
            Ok((OpView::RemoveClass { node: NodeId(u64_at(b, p + 1)), class: StrId(u32_at(b, p + 9)) }, p + 13))
        } else {
            Err(DecodeError::Truncated)
        }
    } else if b[p] == tags::SET_TAG_NAME {
        if p + 13 <= b.len() {
            Ok((OpView::SetTagName { node: NodeId(u64_at(b, p + 1)), name: StrId(u32_at(b, p + 9)) }, p + 13))
        } else {
            Err(DecodeError::Truncated)
        }
    } else if b[p] == tags::ADD_LISTENER {
        if p + 15 <= b.len() {
            Ok((OpView::AddListener { node: NodeId(u64_at(b, p + 1)), event: EventKind(u16_at(b, p + 9)), handler: HandlerId(u32_at(b, p + 11)) }, p + 15))
        } else {
            Err(DecodeError::Truncated)
        }
    } else if b[p] == tags::REMOVE_LISTENER {
        if p + 11 <= b.len() {
            Ok((OpView::RemoveListener { node: NodeId(u64_at(b, p + 1)), event: EventKind(u16_at(b, p + 9)) }, p + 11))
        } else {
            Err(DecodeError::Truncated)
        }
    } else if b[p] == tags::INTERN_STRING {
        if p + 9 <= b.len() && p + 9 + u32_at(b, p + 5) <= b.len() {
            Ok(
                (
                    OpView::InternString {
                        id: StrId(u32_at(b, p + 1)),
                        bytes: b.subrange(p + 9, p + 9 + u32_at(b, p + 5)),
                    },
                    p + 9 + u32_at(b, p + 5),
                ),
            )
        } else {
            Err(DecodeError::Truncated)
        }
    } else if b[p] == tags::DISPATCH_EVENT {
        if p + 13 <= b.len() {
            match parse_payload(b, p + 13) {
                Ok((payload, q)) => Ok(
                    (
                        OpView::DispatchEvent {
                            handler: HandlerId(u32_at(b, p + 1)),
                            node: NodeId(u64_at(b, p + 5)),
                            payload,
                        },
                        q,
                    ),
                ),
                Err(e) => Err(e),
            }
        } else {
            Err(DecodeError::Truncated)
        }
    } else {
        Err(DecodeError::UnknownTag(b[p]))
    }
}

/// The ops that stand in `b` from `p` to its end, or the first error.
pub open spec fn parse_ops(b: Seq<u8>, p: int) -> Result<Seq<OpView>, DecodeError>
    decreases b.len() - p,
{
    if p >= b.len() {
        Ok(seq![])
    } else {
        match parse_op(b, p) {
            Ok((op, q)) => match parse_ops(b, q) {
                Ok(rest) => Ok(seq![op] + rest),
                Err(e) => Err(e),
            },
            Err(e) => Err(e),
        }
    }
}

impl DecodeError {
    /// What the error is called in messages.
    pub open spec fn text(self) -> Seq<char> {
        match self {
            DecodeError::Truncated => "op-stream truncated"@,
            DecodeError::UnknownTag(t) => "unknown op-stream tag 0x"@ + seq![
                hex_char((t / 16) as int),
                hex_char((t % 16) as int),
            ],
        }
    }

    /// The message for this error.
    pub fn message(&self) -> (r: String)
        ensures
            r@ == self.text(),
    {
        match *self {
            DecodeError::Truncated => "op-stream truncated".to_owned(),
            DecodeError::UnknownTag(t) => {
                let mut out = "unknown op-stream tag 0x".to_owned();
                push_hex_byte(&mut out, t);
                out
            },
        }
    }
}

/// Appends [`Op`]s to a byte buffer.
pub struct OpEncoder {
    buf: Vec<u8>,
}

impl View for OpEncoder {
    type V = Seq<u8>;

    closed spec fn view(&self) -> Seq<u8> {
        self.buf@
    }
}

impl Default for OpEncoder {
    fn default() -> (r: OpEncoder)
        ensures
            r@ == Seq::<u8>::empty(),
    {
        OpEncoder { buf: Vec::new() }
    }
}

impl OpEncoder {
    /// New empty encoder.
    pub fn new() -> (r: OpEncoder)
        ensures
            r@ == Seq::<u8>::empty(),
    {
        OpEncoder { buf: Vec::new() }
    }

    /// Encode an [`Op::BeginBatch`] at the current [`PROTOCOL_VERSION`].
    pub fn begin_batch(&mut self, seq: u32)
        ensures
            final(self)@ == old(self)@ + op_bytes(
                (OpView::BeginBatch { version: PROTOCOL_VERSION, seq }),
            ),
    {
        self.push(&Op::BeginBatch { version: PROTOCOL_VERSION, seq });
    }

    /// Encode an [`Op::EndBatch`].
    pub fn end_batch(&mut self)
        ensures
            final(self)@ == old(self)@ + op_bytes(OpView::EndBatch),
    {
        self.push(&Op::EndBatch);
    }

    /// Encode one op.
    pub fn push(&mut self, op: &Op)
        ensures
            final(self)@ == old(self)@ + op_bytes(op@),
    {
        match op {
            Op::BeginBatch { version, seq } => {
                self.w_u8(tags::BEGIN_BATCH);
                push_u16(&mut self.buf, *version);
                push_u32(&mut self.buf, *seq);
            },
            Op::EndBatch => self.w_u8(tags::END_BATCH),
            Op::CreateElement { node, tag } => {
                self.w_u8(tags::CREATE_ELEMENT);
                push_u64(&mut self.buf, node.raw());
                push_u16(&mut self.buf, tag.raw());
            },
            Op::CreateText { node, text } => {
                self.w_u8(tags::CREATE_TEXT);
                push_u64(&mut self.buf, node.raw());
                push_u32(&mut self.buf, text.raw());
            },
            Op::RemoveNode { node } => {
                self.w_u8(tags::REMOVE_NODE);
                push_u64(&mut self.buf, node.raw());
            },
            Op::InsertBefore { parent, child, anchor } => {
                self.w_u8(tags::INSERT_BEFORE);
                push_u64(&mut self.buf, parent.raw());
                push_u64(&mut self.buf, child.raw());
                push_u64(&mut self.buf, anchor.raw());
            },
            Op::SetText { node, text } => {
                self.w_u8(tags::SET_TEXT);
                push_u64(&mut self.buf, node.raw());
                push_u32(&mut self.buf, text.raw());
            },
            Op::SetAttribute { node, attr, value } => {
                self.w_u8(tags::SET_ATTRIBUTE);
                push_u64(&mut self.buf, node.raw());
                push_u16(&mut self.buf, attr.raw());
                push_u32(&mut self.buf, value.raw());
            },
            Op::SetInlineStyle { node, prop, value } => {
                self.w_u8(tags::SET_INLINE_STYLE);
                push_u64(&mut self.buf, node.raw());
                push_u16(&mut self.buf, prop.raw());
                push_u32(&mut self.buf, value.raw());
            },
            Op::SetClass { node, class } => {
                self.w_u8(tags::SET_CLASS);
                push_u64(&mut self.buf, node.raw());
                push_u32(&mut self.buf, class.raw());
            },
            Op::RemoveClass { node, class } => {
                self.w_u8(tags::REMOVE_CLASS);
                push_u64(&mut self.buf, node.raw());
                push_u32(&mut self.buf, class.raw());
            },
            Op::SetTagName { node, name } => {
                self.w_u8(tags::SET_TAG_NAME);
                push_u64(&mut self.buf, node.raw());
                push_u32(&mut self.buf, name.raw());
            },
            Op::AddListener { node, event, handler } => {
                self.w_u8(tags::ADD_LISTENER);
                push_u64(&mut self.buf, node.raw());
                push_u16(&mut self.buf, event.raw());
                push_u32(&mut self.buf, handler.raw());
            },
            Op::RemoveListener { node, event } => {
                self.w_u8(tags::REMOVE_LISTENER);
                push_u64(&mut self.buf, node.raw());
                push_u16(&mut self.buf, event.raw());
            },
            Op::InternString { id, bytes } => {
                self.w_u8(tags::INTERN_STRING);
                push_u32(&mut self.buf, id.raw());
                let n: u64 = bytes.len() as u64;
                assert(n as u32 == n % 0x1_0000_0000) by (bit_vector);
                push_u32(&mut self.buf, n as u32);
                push_bytes(&mut self.buf, bytes);
            },
            Op::DispatchEvent { handler, node, payload } => {
                self.w_u8(tags::DISPATCH_EVENT);
                push_u32(&mut self.buf, handler.raw());
                push_u64(&mut self.buf, node.raw());
                self.w_payload(payload);
            },
        }
        assert(self@ =~= old(self)@ + op_bytes(op@));
    }

    /// The encoded bytes.
    pub fn as_bytes(&self) -> (r: &[u8])
        ensures
            r@ == self@,
    {
        self.buf.as_slice()
    }

    /// Take the encoded bytes.
    pub fn into_bytes(self) -> (r: Vec<u8>)
        ensures
            r@ == self@,
    {
        self.buf
    }

    /// Start over.
    pub fn clear(&mut self)
        ensures
            final(self)@ == Seq::<u8>::empty(),
    {
        self.buf.clear();
    }

    /// Number of bytes encoded so far.
    pub fn len(&self) -> (r: usize)
        ensures
            r == self@.len(),
    {
        self.buf.len()
    }

    /// Whether nothing has been encoded yet.
    pub fn is_empty(&self) -> (r: bool)
        ensures
            r == (self@.len() == 0),
    {
        self.buf.len() == 0
    }

    fn w_u8(&mut self, v: u8)
        ensures
            final(self)@ == old(self)@ + seq![v],
    {
        self.buf.push(v);
        assert(self@ =~= old(self)@ + seq![v]);
    }

    fn w_payload(&mut self, p: &EventPayload)
        ensures
            final(self)@ == old(self)@ + payload_bytes(*p),
    {
        match p {
            EventPayload::Empty => self.w_u8(tags::PAYLOAD_NONE),
            EventPayload::Pointer { x, y, button } => {
                self.w_u8(tags::PAYLOAD_POINTER);
                push_u32(&mut self.buf, x.to_bits());
                push_u32(&mut self.buf, y.to_bits());
                self.w_u8(*button);
            },
            EventPayload::Key { code, mods } => {
                self.w_u8(tags::PAYLOAD_KEY);
                push_u32(&mut self.buf, *code);
                self.w_u8(*mods);
            },
            EventPayload::Text { text } => {
                self.w_u8(tags::PAYLOAD_TEXT);
                push_u32(&mut self.buf, text.raw());
            },
        }
        assert(self@ =~= old(self)@ + payload_bytes(*p));
    }
}

/// Decodes an op-stream one op at a time.
pub struct OpReader<'a> {
    buf: &'a [u8],
    pos: usize,
}

impl<'a> OpReader<'a> {
    /// The whole buffer.
    pub closed spec fn bytes(&self) -> Seq<u8> {
        self.buf@
    }

    /// Offset of the next op.
    pub closed spec fn position(&self) -> int {
        self.pos as int
    }

    /// New reader at the start of a buffer.
    pub fn new(buf: &'a [u8]) -> (r: OpReader<'a>)
        ensures
            r.bytes() == buf@,
            r.position() == 0,
    {
        OpReader { buf, pos: 0 }
    }

    fn r_u8(&mut self) -> (r: Result<u8, DecodeError>)
        ensures
            final(self).buf == old(self).buf,
            match r {
                Ok(v) => old(self).pos + 1 <= old(self).buf@.len() && v == old(self).buf@[old(
                    self,
                ).pos as int] && final(self).pos == old(self).pos + 1,
                Err(e) => e == DecodeError::Truncated && old(self).pos + 1 > old(self).buf@.len(),
            },
    {
        if self.pos < self.buf.len() {
            let v: u8 = self.buf[self.pos];
            self.pos += 1;
            Ok(v)
        } else {
            Err(DecodeError::Truncated)
        }
    }

    fn r_u16(&mut self) -> (r: Result<u16, DecodeError>)
        ensures
            final(self).buf == old(self).buf,
            match r {
                Ok(v) => old(self).pos + 2 <= old(self).buf@.len() && v == u16_at(
                    old(self).buf@,
                    old(self).pos as int,
                ) && final(self).pos == old(self).pos + 2,
                Err(e) => e == DecodeError::Truncated && old(self).pos + 2 > old(self).buf@.len(),
            },
    {
        let n: usize = self.buf.len();
        if self.pos <= n && n - self.pos >= 2 {
            let v: u16 = get_u16(self.buf, self.pos);
            self.pos += 2;
            Ok(v)
        } else {
            Err(DecodeError::Truncated)
        }
    }

    fn r_u32(&mut self) -> (r: Result<u32, DecodeError>)
        ensures
            final(self).buf == old(self).buf,
            match r {
                Ok(v) => old(self).pos + 4 <= old(self).buf@.len() && v == u32_at(
                    old(self).buf@,
                    old(self).pos as int,
                ) && final(self).pos == old(self).pos + 4,
                Err(e) => e == DecodeError::Truncated && old(self).pos + 4 > old(self).buf@.len(),
            },
    {
        let n: usize = self.buf.len();
        if self.pos <= n && n - self.pos >= 4 {
            let v: u32 = get_u32(self.buf, self.pos);
            self.pos += 4;
            Ok(v)
        } else {
            Err(DecodeError::Truncated)
        }
    }

    fn r_u64(&mut self) -> (r: Result<u64, DecodeError>)
        ensures
            final(self).buf == old(self).buf,
            match r {
                Ok(v) => old(self).pos + 8 <= old(self).buf@.len() && v == u64_at(
                    old(self).buf@,
                    old(self).pos as int,
                ) && final(self).pos == old(self).pos + 8,
                Err(e) => e == DecodeError::Truncated && old(self).pos + 8 > old(self).buf@.len(),
            },
    {
        let n: usize = self.buf.len();
        if self.pos <= n && n - self.pos >= 8 {
            let v: u64 = get_u64(self.buf, self.pos);
            self.pos += 8;
            Ok(v)
        } else {
            Err(DecodeError::Truncated)
        }
    }

    fn r_bytes(&mut self, len: usize) -> (r: Result<Vec<u8>, DecodeError>)
        ensures
            final(self).buf == old(self).buf,
            match r {
                Ok(v) => old(self).pos + len <= old(self).buf@.len() && v@ == old(
                    self,
                ).buf@.subrange(old(self).pos as int, old(self).pos + len) && final(self).pos
                    == old(self).pos + len,
                Err(e) => e == DecodeError::Truncated && old(self).pos + len > old(self).buf@.len(),
            },
    {
        let n: usize = self.buf.len();
        if self.pos <= n && n - self.pos >= len {
            let v = copy_range(self.buf, self.pos, self.pos + len);
            self.pos += len;
            Ok(v)
        } else {
            Err(DecodeError::Truncated)
        }
    }

    fn r_payload(&mut self) -> (r: Result<EventPayload, DecodeError>)
        ensures
            final(self).buf == old(self).buf,
            match r {
                Ok(v) => parse_payload(old(self).buf@, old(self).pos as int) == Ok::<
                    (EventPayload, int),
                    DecodeError,
                >((v, final(self).pos as int)),
                Err(e) => parse_payload(old(self).buf@, old(self).pos as int) == Err::<
                    (EventPayload, int),
                    DecodeError,
                >(e),
            },
    {
        let tag: u8 = self.r_u8()?;
        if tag == tags::PAYLOAD_NONE {
            Ok(EventPayload::Empty)
        } else if tag == tags::PAYLOAD_POINTER {
            Ok(
                EventPayload::Pointer {
                    x: F32::from_bits(self.r_u32()?),
                    y: F32::from_bits(self.r_u32()?),
                    button: self.r_u8()?,
                },
            )
        } else if tag == tags::PAYLOAD_KEY {
            Ok(EventPayload::Key { code: self.r_u32()?, mods: self.r_u8()? })
        } else if tag == tags::PAYLOAD_TEXT {
            Ok(EventPayload::Text { text: StrId::new(self.r_u32()?) })
        } else {
            Err(DecodeError::UnknownTag(tag))
        }
    }

    fn read_op(&mut self) -> (r: Result<Op, DecodeError>)
        ensures
            final(self).buf == old(self).buf,
            match r {
                Ok(v) => parse_op(old(self).buf@, old(self).pos as int) == Ok::<
                    (OpView, int),
                    DecodeError,
                >((v@, final(self).pos as int)),
                Err(e) => parse_op(old(self).buf@, old(self).pos as int) == Err::<
                    (OpView, int),
                    DecodeError,
                >(e),
            },
    {
        let tag: u8 = self.r_u8()?;
        if tag == tags::BEGIN_BATCH {
            Ok(
                Op::BeginBatch {
                    version: self.r_u16()?,
                    seq: self.r_u32()?,
                },
            )
        } else if tag == tags::END_BATCH {
            Ok(Op::EndBatch)
        } else if tag == tags::CREATE_ELEMENT {
            Ok(
                Op::CreateElement {
                    node: NodeId::new(self.r_u64()?),
                    tag: ElementTag::new(self.r_u16()?),
                },
            )
        } else if tag == tags::CREATE_TEXT {
            Ok(
                Op::CreateText {
                    node: NodeId::new(self.r_u64()?),
                    text: StrId::new(self.r_u32()?),
                },
            )
        } else if tag == tags::REMOVE_NODE {
            Ok(
                Op::RemoveNode {
                    node: NodeId::new(self.r_u64()?),
                },
            )
        } else if tag == tags::INSERT_BEFORE {
            Ok(
                Op::InsertBefore {
                    parent: NodeId::new(self.r_u64()?),
                    child: NodeId::new(self.r_u64()?),
                    anchor: NodeId::new(self.r_u64()?),
                },
            )
        } else if tag == tags::SET_TEXT {
            Ok(
                Op::SetText {
                    node: NodeId::new(self.r_u64()?),
                    text: StrId::new(self.r_u32()?),
                },
            )
        } else if tag == tags::SET_ATTRIBUTE {
            Ok(
                Op::SetAttribute {
                    node: NodeId::new(self.r_u64()?),
                    attr: AttrId::new(self.r_u16()?),
                    value: StrId::new(self.r_u32()?),
                },
            )
        } else if tag == tags::SET_INLINE_STYLE {
            Ok(
                Op::SetInlineStyle {
                    node: NodeId::new(self.r_u64()?),
                    prop: PropId::new(self.r_u16()?),
                    value: StrId::new(self.r_u32()?),
                },
            )
        } else if tag == tags::SET_CLASS {
            Ok(
                Op::SetClass {
                    node: NodeId::new(self.r_u64()?),
                    class: StrId::new(self.r_u32()?),
                },
            )
        } else if tag == tags::REMOVE_CLASS {
            Ok(
                Op::RemoveClass {
                    node: NodeId::new(self.r_u64()?),
                    class: StrId::new(self.r_u32()?),
                },
            )
        } else if tag == tags::SET_TAG_NAME {
            Ok(
                Op::SetTagName {
                    node: NodeId::new(self.r_u64()?),
                    name: StrId::new(self.r_u32()?),
                },
            )
        } else if tag == tags::ADD_LISTENER {
            Ok(
                Op::AddListener {
                    node: NodeId::new(self.r_u64()?),
                    event: EventKind::new(self.r_u16()?),
                    handler: HandlerId::new(self.r_u32()?),
                },
            )
        } else if tag == tags::REMOVE_LISTENER {
            Ok(
                Op::RemoveListener {
                    node: NodeId::new(self.r_u64()?),
                    event: EventKind::new(self.r_u16()?),
                },
            )
        } else if tag == tags::INTERN_STRING {
            let id = StrId::new(self.r_u32()?);
            let len: usize = self.r_u32()? as usize;
            let bytes = self.r_bytes(len)?;
            Ok(Op::InternString { id, bytes })
        } else if tag == tags::DISPATCH_EVENT {
            Ok(
                Op::DispatchEvent {
                    handler: HandlerId::new(self.r_u32()?),
                    node: NodeId::new(self.r_u64()?),
                    payload: self.r_payload()?,
                },
            )
        } else {
            Err(DecodeError::UnknownTag(tag))
        }
    }

    /// Decode the next op: `None` at the end of the buffer. After an error the reader is at the
    /// end.
    pub fn next(&mut self) -> (r: Option<Result<Op, DecodeError>>)
        ensures
            final(self).bytes() == old(self).bytes(),
            old(self).position() >= old(self).bytes().len() ==> r is None && final(self).position()
                == old(self).position(),
            old(self).position() < old(self).bytes().len() ==> match parse_op(
                old(self).bytes(),
                old(self).position(),
            ) {
                Ok((op, end)) => r matches Some(Ok(v)) && v@ == op && final(self).position() == end,
                Err(e) => r == Some(Err::<Op, DecodeError>(e)) && final(self).position() == old(
                    self,
                ).bytes().len(),
            },
    {
        if self.pos >= self.buf.len() {
            return None;
        }
        match self.read_op() {
            Ok(op) => Some(Ok(op)),
            Err(e) => {
                self.pos = self.buf.len();
                Some(Err(e))
            },
        }
    }
}

/// What a sequence of ops says.
pub open spec fn ops_view(ops: Seq<Op>) -> Seq<OpView> {
    ops.map_values(|o: Op| o@)
}

/// Decode an entire op-stream, or fail on the first bad op.
pub fn decode_all(buf: &[u8]) -> (r: Result<Vec<Op>, DecodeError>)
    ensures
        match r {
            Ok(ops) => parse_ops(buf@, 0) == Ok::<Seq<OpView>, DecodeError>(ops_view(ops@)),
            Err(e) => parse_ops(buf@, 0) == Err::<Seq<OpView>, DecodeError>(e),
        },
{
    let mut reader = OpReader::new(buf);
    let mut ops: Vec<Op> = Vec::new();
    while reader.pos < reader.buf.len()
        invariant
            reader.buf@ == buf@,
            reader.pos <= buf@.len(),
            match parse_ops(buf@, reader.pos as int) {
                Ok(rest) => parse_ops(buf@, 0) == Ok::<Seq<OpView>, DecodeError>(
                    ops_view(ops@) + rest,
                ),
                Err(e) => parse_ops(buf@, 0) == Err::<Seq<OpView>, DecodeError>(e),
            },
        decreases buf@.len() - reader.pos,
    {
        let ghost before = reader.pos as int;
        let ghost seen = ops@;
        match reader.next() {
            Some(Ok(op)) => {
                ops.push(op);
                proof {
                    assert(ops_view(ops@) =~= ops_view(seen) + seq![op@]);
                    match parse_ops(buf@, reader.pos as int) {
                        Ok(rest) => {
                            assert(ops_view(ops@) + rest =~= ops_view(seen) + (seq![op@] + rest));
                        },
                        Err(_) => {},
                    }
                }
            },
            Some(Err(e)) => {
                return Err(e);
            },
            None => {},
        }
    }
    assert(ops_view(ops@) + Seq::<OpView>::empty() =~= ops_view(ops@));
    Ok(ops)
}

/// Whether the length of an interned string fits in its 32-bit length field.
pub open spec fn op_fits(op: OpView) -> bool {
    op matches OpView::InternString { bytes, .. } ==> bytes.len() <= 0xffff_ffff
}

/// Whether `op` is read at `p` exactly when its bytes stand there.
pub open spec fn reads_back(b: Seq<u8>, p: int, op: OpView) -> bool {
    stands_at(b, p, op_bytes(op)) <==> parse_op(b, p) == Ok::<(OpView, int), DecodeError>(
        (op, p + op_bytes(op).len()),
    )
}

/// The bytes of an op are read back as that op, wherever in a buffer they stand, and nothing
/// else is read back as it.
pub proof fn law_op_round_trip(b: Seq<u8>, p: int, op: OpView)
    requires
        op_fits(op),
        0 <= p,
    ensures
        reads_back(b, p, op),
{
    match op {
        OpView::BeginBatch { version, seq } => {
            lemma_tag_fields2(b, p, tags::BEGIN_BATCH, u16_le(version), u32_le(seq));
            lemma_u16_at(b, p + 1, version);
            lemma_u32_at(b, p + 3, seq);
            assert(reads_back(b, p, op));
        },
        OpView::EndBatch => {
            lemma_u8_at(b, p, tags::END_BATCH);
            assert(reads_back(b, p, op));
        },
        OpView::CreateElement { node, tag } => {
            lemma_tag_fields2(b, p, tags::CREATE_ELEMENT, u64_le(node.0), u16_le(tag.0));
            lemma_u64_at(b, p + 1, node.0);
            lemma_u16_at(b, p + 9, tag.0);
            assert(reads_back(b, p, op));
        },
        OpView::CreateText { node, text } => {
            lemma_tag_fields2(b, p, tags::CREATE_TEXT, u64_le(node.0), u32_le(text.0));
            lemma_u64_at(b, p + 1, node.0);
            lemma_u32_at(b, p + 9, text.0);
            assert(reads_back(b, p, op));
        },
        OpView::RemoveNode { node } => {
            lemma_tag_fields1(b, p, tags::REMOVE_NODE, u64_le(node.0));
            lemma_u64_at(b, p + 1, node.0);
            assert(reads_back(b, p, op));
        },
        OpView::InsertBefore { parent, child, anchor } => {
            lemma_tag_fields3(b, p, tags::INSERT_BEFORE, u64_le(parent.0), u64_le(child.0), u64_le(anchor.0));
            lemma_u64_at(b, p + 1, parent.0);
            lemma_u64_at(b, p + 9, child.0);
            lemma_u64_at(b, p + 17, anchor.0);
            assert(reads_back(b, p, op));
        },
        OpView::SetText { node, text } => {
            lemma_tag_fields2(b, p, tags::SET_TEXT, u64_le(node.0), u32_le(text.0));
            lemma_u64_at(b, p + 1, node.0);
            lemma_u32_at(b, p + 9, text.0);
            assert(reads_back(b, p, op));
        },
        OpView::SetAttribute { node, attr, value } => {
            lemma_tag_fields3(b, p, tags::SET_ATTRIBUTE, u64_le(node.0), u16_le(attr.0), u32_le(value.0));
            lemma_u64_at(b, p + 1, node.0);
            lemma_u16_at(b, p + 9, attr.0);
            lemma_u32_at(b, p + 11, value.0);
            assert(reads_back(b, p, op));
        },
        OpView::SetInlineStyle { node, prop, value } => {
            lemma_tag_fields3(b, p, tags::SET_INLINE_STYLE, u64_le(node.0), u16_le(prop.0), u32_le(value.0));
            lemma_u64_at(b, p + 1, node.0);
            lemma_u16_at(b, p + 9, prop.0);
            lemma_u32_at(b, p + 11, value.0);
            assert(reads_back(b, p, op));
        },
        OpView::SetClass { node, class } => {
            lemma_tag_fields2(b, p, tags::SET_CLASS, u64_le(node.0), u32_le(class.0));
            lemma_u64_at(b, p + 1, node.0);
            lemma_u32_at(b, p + 9, class.0);
            assert(reads_back(b, p, op));
        },
        OpView::RemoveClass { node, class } => {
            lemma_tag_fields2(b, p, tags::REMOVE_CLASS, u64_le(node.0), u32_le(class.0));
            lemma_u64_at(b, p + 1, node.0);
            lemma_u32_at(b, p + 9, class.0);
            assert(reads_back(b, p, op));
        },
        OpView::SetTagName { node, name } => {
            lemma_tag_fields2(b, p, tags::SET_TAG_NAME, u64_le(node.0), u32_le(name.0));
            lemma_u64_at(b, p + 1, node.0);
            lemma_u32_at(b, p + 9, name.0);
            assert(reads_back(b, p, op));
        },
        OpView::AddListener { node, event, handler } => {
            lemma_tag_fields3(b, p, tags::ADD_LISTENER, u64_le(node.0), u16_le(event.0), u32_le(handler.0));
            lemma_u64_at(b, p + 1, node.0);
            lemma_u16_at(b, p + 9, event.0);
            lemma_u32_at(b, p + 11, handler.0);
            assert(reads_back(b, p, op));
        },
        OpView::RemoveListener { node, event } => {
            lemma_tag_fields2(b, p, tags::REMOVE_LISTENER, u64_le(node.0), u16_le(event.0));
            lemma_u64_at(b, p + 1, node.0);
            lemma_u16_at(b, p + 9, event.0);
            assert(reads_back(b, p, op));
        },
        OpView::InternString { id, bytes } => {
            let n = (bytes.len() % 0x1_0000_0000) as u32;
            lemma_tag_fields3(b, p, tags::INTERN_STRING, u32_le(id.0), u32_le(n), bytes);
            lemma_u32_at(b, p + 1, id.0);
            lemma_u32_at(b, p + 5, n);
            assert(reads_back(b, p, op));
        },
        OpView::DispatchEvent { handler, node, payload } => {
            lemma_tag_fields3(
                b,
                p,
                tags::DISPATCH_EVENT,
                u32_le(handler.0),
                u64_le(node.0),
                payload_bytes(payload),
            );
            lemma_u32_at(b, p + 1, handler.0);
            lemma_u64_at(b, p + 5, node.0);
            law_payload_round_trip(b, p + 13, payload);
            assert(reads_back(b, p, op));
        },
    }
}

/// The bytes of a payload are read back as that payload, wherever in a buffer they stand, and
/// nothing else is read back as it.
pub proof fn law_payload_round_trip(b: Seq<u8>, p: int, payload: EventPayload)
    requires
        0 <= p,
    ensures
        stands_at(b, p, payload_bytes(payload)) <==> parse_payload(b, p) == Ok::<
            (EventPayload, int),
            DecodeError,
        >((payload, p + payload_bytes(payload).len())),
{
    match payload {
        EventPayload::Empty => {
            lemma_u8_at(b, p, tags::PAYLOAD_NONE);
        },
        EventPayload::Pointer { x, y, button } => {
            lemma_tag_fields3(b, p, tags::PAYLOAD_POINTER, u32_le(x.0), u32_le(y.0), seq![button]);
            lemma_u32_at(b, p + 1, x.0);
            lemma_u32_at(b, p + 5, y.0);
            lemma_u8_at(b, p + 9, button);
        },
        EventPayload::Key { code, mods } => {
            lemma_tag_fields2(b, p, tags::PAYLOAD_KEY, u32_le(code), seq![mods]);
            lemma_u32_at(b, p + 1, code);
            lemma_u8_at(b, p + 5, mods);
        },
        EventPayload::Text { text } => {
            lemma_tag_fields1(b, p, tags::PAYLOAD_TEXT, u32_le(text.0));
            lemma_u32_at(b, p + 1, text.0);
        },
    }
}

/// Whatever op is read, its own bytes stand where it was read.
pub proof fn law_parse_op_inverts(b: Seq<u8>, p: int)
    requires
        0 <= p,
        parse_op(b, p) is Ok,
    ensures
        ({
            let (op, end) = parse_op(b, p)->Ok_0;
            &&& op_fits(op)
            &&& end == p + op_bytes(op).len()
            &&& stands_at(b, p, op_bytes(op))
        }),
{
    broadcast use group_le_len;

    let (op, end) = parse_op(b, p)->Ok_0;
    law_op_round_trip(b, p, op);
}

/// An op that is read ends after where it starts, within the buffer.
pub proof fn lemma_parse_op_end(b: Seq<u8>, p: int)
    requires
        0 <= p,
    ensures
        parse_op(b, p) matches Ok((op, end)) ==> p < end <= b.len(),
{
}

/// Encoding a further op appends its bytes.
pub proof fn lemma_ops_bytes_push(ops: Seq<OpView>, op: OpView)
    ensures
        ops_bytes(ops.push(op)) == ops_bytes(ops) + op_bytes(op),
    decreases ops.len(),
{
    let all = ops.push(op);
    if ops.len() == 0 {
        assert(all.drop_first() =~= Seq::<OpView>::empty());
        assert(ops_bytes(all.drop_first()) =~= Seq::<u8>::empty());
        assert(ops_bytes(all) =~= ops_bytes(ops) + op_bytes(op));
    } else {
        lemma_ops_bytes_push(ops.drop_first(), op);
        assert(all.drop_first() =~= ops.drop_first().push(op));
        assert(ops_bytes(all) =~= ops_bytes(ops) + op_bytes(op));
    }
}

proof fn lemma_parse_ops_at(b: Seq<u8>, p: int, ops: Seq<OpView>)
    requires
        forall|i: int| 0 <= i < ops.len() ==> op_fits(#[trigger] ops[i]),
        stands_at(b, p, ops_bytes(ops)),
        p + ops_bytes(ops).len() == b.len(),
    ensures
        parse_ops(b, p) == Ok::<Seq<OpView>, DecodeError>(ops),
    decreases ops.len(),
{
    if ops.len() == 0 {
        assert(ops =~= Seq::<OpView>::empty());
    } else {
        let rest = ops.drop_first();
        lemma_stands_at_concat(b, p, op_bytes(ops[0]), ops_bytes(rest));
        assert(op_fits(ops[0]));
        law_op_round_trip(b, p, ops[0]);
        assert forall|i: int| 0 <= i < rest.len() implies op_fits(#[trigger] rest[i]) by {
            assert(rest[i] == ops[i + 1]);
        }
        lemma_parse_ops_at(b, p + op_bytes(ops[0]).len(), rest);
        assert(seq![ops[0]] + rest =~= ops);
        lemma_op_bytes_nonempty(ops[0]);
    }
}

proof fn lemma_op_bytes_nonempty(op: OpView)
    ensures
        op_bytes(op).len() > 0,
{
}

/// Decoding what was encoded yields the ops that were encoded.
pub proof fn law_ops_round_trip(ops: Seq<OpView>)
    requires
        forall|i: int| 0 <= i < ops.len() ==> op_fits(#[trigger] ops[i]),
    ensures
        parse_ops(ops_bytes(ops), 0) == Ok::<Seq<OpView>, DecodeError>(ops),
{
    let b = ops_bytes(ops);
    assert(b.subrange(0, b.len() as int) =~= b);
    lemma_parse_ops_at(b, 0, ops);
}

/// Encoding what was decoded yields the bytes that were decoded: there is one encoding of each
/// sequence of ops.
pub proof fn law_decoded_bytes_are_canonical(b: Seq<u8>, p: int)
    requires
        0 <= p <= b.len(),
        parse_ops(b, p) is Ok,
    ensures
        ops_bytes(parse_ops(b, p)->Ok_0) == b.skip(p),
    decreases b.len() - p,
{
    if p < b.len() {
        law_parse_op_inverts(b, p);
        let (op, end) = parse_op(b, p)->Ok_0;
        law_decoded_bytes_are_canonical(b, end);
        let rest = parse_ops(b, end)->Ok_0;
        assert((seq![op] + rest).drop_first() =~= rest);
        assert(b.skip(p) =~= b.subrange(p, end) + b.skip(end));
    } else {
        assert(b.skip(p) =~= Seq::<u8>::empty());
    }
}

proof fn lemma_cut_op(b: Seq<u8>, p: int, k: int)
    requires
        0 <= p < k <= b.len(),
        parse_op(b, p) is Ok,
        k < parse_op(b, p)->Ok_0.1,
    ensures
        parse_op(b.take(k), p) == Err::<(OpView, int), DecodeError>(DecodeError::Truncated),
{
    let c = b.take(k);
    assert forall|q: int| 0 <= q && q + 4 <= k implies #[trigger] u32_at(c, q) == u32_at(b, q) by {
        reveal(u32_at);
        reveal(u16_at);
    }
    assert forall|q: int| 0 <= q < k implies c[q] == b[q] by {}
}

proof fn lemma_cut_ops(b: Seq<u8>, p: int, ops: Seq<OpView>, last: OpView, k: int)
    requires
        forall|i: int| 0 <= i < ops.len() ==> op_fits(#[trigger] ops[i]),
        op_fits(last),
        stands_at(b, p, ops_bytes(ops) + op_bytes(last)),
        p + ops_bytes(ops).len() < k < p + ops_bytes(ops).len() + op_bytes(last).len(),
    ensures
        parse_ops(b.take(k), p) == Err::<Seq<OpView>, DecodeError>(DecodeError::Truncated),
    decreases ops.len(),
{
    lemma_stands_at_concat(b, p, ops_bytes(ops), op_bytes(last));
    if ops.len() == 0 {
        law_op_round_trip(b, p, last);
        lemma_cut_op(b, p, k);
    } else {
        let rest = ops.drop_first();
        let first = op_bytes(ops[0]);
        lemma_stands_at_concat(b, p, first, ops_bytes(rest));
        assert(b.take(k).subrange(p, p + first.len()) =~= b.subrange(p, p + first.len()));
        assert(op_fits(ops[0]));
        law_op_round_trip(b.take(k), p, ops[0]);
        assert forall|i: int| 0 <= i < rest.len() implies op_fits(#[trigger] rest[i]) by {
            assert(rest[i] == ops[i + 1]);
        }
        lemma_stands_at_concat(b, p + first.len(), ops_bytes(rest), op_bytes(last));
        lemma_cut_ops(b, p + first.len(), rest, last, k);
    }
}

/// A stream that is cut off in the middle of an op is truncated, whatever came before.
pub proof fn law_cut_stream_is_truncated(ops: Seq<OpView>, last: OpView, k: int)
    requires
        forall|i: int| 0 <= i < ops.len() ==> op_fits(#[trigger] ops[i]),
        op_fits(last),
        ops_bytes(ops).len() < k < ops_bytes(ops.push(last)).len(),
    ensures
        parse_ops(ops_bytes(ops.push(last)).take(k), 0) == Err::<Seq<OpView>, DecodeError>(
            DecodeError::Truncated,
        ),
{
    lemma_ops_bytes_push(ops, last);
    let b = ops_bytes(ops.push(last));
    assert(b.subrange(0, b.len() as int) =~= b);
    lemma_cut_ops(b, 0, ops, last, k);
}

/// The layout of every op: a tag, then its fields in order, each least significant byte first.
pub proof fn law_ops_are_laid_out_in_order(op: OpView)
    requires
        op_fits(op),
    ensures
        ({
            let b = op_bytes(op);
            match op {
                OpView::BeginBatch { version, seq } => {
                    &&& b.len() == 7 && b[0] == 0x01
                    &&& worth(b, 1, 2) == version && worth(b, 3, 4) == seq
                },
                OpView::EndBatch => b.len() == 1 && b[0] == 0x02,
                OpView::CreateElement { node, tag } => {
                    &&& b.len() == 11 && b[0] == 0x10
                    &&& worth(b, 1, 8) == node.0 && worth(b, 9, 2) == tag.0
                },
                OpView::CreateText { node, text } => {
                    &&& b.len() == 13 && b[0] == 0x11
                    &&& worth(b, 1, 8) == node.0 && worth(b, 9, 4) == text.0
                },
                OpView::RemoveNode { node } => {
                    &&& b.len() == 9 && b[0] == 0x12
                    &&& worth(b, 1, 8) == node.0
                },
                OpView::InsertBefore { parent, child, anchor } => {
                    &&& b.len() == 25 && b[0] == 0x13
                    &&& worth(b, 1, 8) == parent.0 && worth(b, 9, 8) == child.0
                    &&& worth(b, 17, 8) == anchor.0
                },
                OpView::SetText { node, text } => {
                    &&& b.len() == 13 && b[0] == 0x14
                    &&& worth(b, 1, 8) == node.0 && worth(b, 9, 4) == text.0
                },
                OpView::SetAttribute { node, attr, value } => {
                    &&& b.len() == 15 && b[0] == 0x15
                    &&& worth(b, 1, 8) == node.0 && worth(b, 9, 2) == attr.0
                    &&& worth(b, 11, 4) == value.0
                },
                OpView::SetInlineStyle { node, prop, value } => {
                    &&& b.len() == 15 && b[0] == 0x16
                    &&& worth(b, 1, 8) == node.0 && worth(b, 9, 2) == prop.0
                    &&& worth(b, 11, 4) == value.0
                },
                OpView::SetClass { node, class } => {
                    &&& b.len() == 13 && b[0] == 0x17
                    &&& worth(b, 1, 8) == node.0 && worth(b, 9, 4) == class.0
                },
                OpView::RemoveClass { node, class } => {
                    &&& b.len() == 13 && b[0] == 0x18
                    &&& worth(b, 1, 8) == node.0 && worth(b, 9, 4) == class.0
                },
                OpView::AddListener { node, event, handler } => {
                    &&& b.len() == 15 && b[0] == 0x19
                    &&& worth(b, 1, 8) == node.0 && worth(b, 9, 2) == event.0
                    &&& worth(b, 11, 4) == handler.0
                },
                OpView::RemoveListener { node, event } => {
                    &&& b.len() == 11 && b[0] == 0x1a
                    &&& worth(b, 1, 8) == node.0 && worth(b, 9, 2) == event.0
                },
                OpView::InternString { id, bytes } => {
                    &&& b.len() == 9 + bytes.len() && b[0] == 0x1b
                    &&& worth(b, 1, 4) == id.0 && worth(b, 5, 4) == bytes.len()
                    &&& b.subrange(9, b.len() as int) == bytes
                },
                OpView::SetTagName { node, name } => {
                    &&& b.len() == 13 && b[0] == 0x1c
                    &&& worth(b, 1, 8) == node.0 && worth(b, 9, 4) == name.0
                },
                OpView::DispatchEvent { handler, node, payload } => {
                    &&& b[0] == 0x80
                    &&& worth(b, 1, 4) == handler.0 && worth(b, 5, 8) == node.0
                    &&& match payload {
                        EventPayload::Empty => b.len() == 14 && b[13] == 0,
                        EventPayload::Pointer { x, y, button } => b.len() == 23 && b[13] == 1
                            && worth(b, 14, 4) == x.0 && worth(b, 18, 4) == y.0 && b[22] == button,
                        EventPayload::Key { code, mods } => b.len() == 19 && b[13] == 2 && worth(
                            b,
                            14,
                            4,
                        ) == code && b[18] == mods,
                        EventPayload::Text { text } => b.len() == 18 && b[13] == 3 && worth(b, 14, 4)
                            == text.0,
                    }
                },
            }
        }),
{
    let b = op_bytes(op);
    assert(b.subrange(0, b.len() as int) =~= b);
    law_op_round_trip(b, 0, op);
    law_integers_are_little_endian(b, 1);
    law_integers_are_little_endian(b, 3);
    law_integers_are_little_endian(b, 5);
    law_integers_are_little_endian(b, 9);
    law_integers_are_little_endian(b, 11);
    law_integers_are_little_endian(b, 14);
    law_integers_are_little_endian(b, 17);
    law_integers_are_little_endian(b, 18);
}

/// A tag that means nothing is named in the error; every other error is that the bytes end too early.
pub proof fn law_unknown_tags_are_named(b: Seq<u8>, p: int)
    requires
        0 <= p,
    ensures
        ({
            let known = b[p] == 0x01 || b[p] == 0x02 || 0x10 <= b[p] <= 0x1c || b[p] == 0x80;
            &&& p >= b.len() ==> parse_op(b, p) == Err::<(OpView, int), DecodeError>(
                DecodeError::Truncated,
            )
            &&& p < b.len() && !known ==> parse_op(b, p) == Err::<(OpView, int), DecodeError>(
                DecodeError::UnknownTag(b[p]),
            )
            &&& p < b.len() && known && b[p] != 0x80 && parse_op(b, p) is Err ==> parse_op(b, p)
                == Err::<(OpView, int), DecodeError>(DecodeError::Truncated)
            &&& p < b.len() && b[p] == 0x80 && p + 13 < b.len() && b[p + 13] > 3 ==> parse_op(b, p)
                == Err::<(OpView, int), DecodeError>(DecodeError::UnknownTag(b[p + 13]))
        }),
{
}

} // verus!
