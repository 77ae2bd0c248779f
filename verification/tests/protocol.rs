//! The op-stream codec.
use canopy::handles::{AttrId, ElementTag, EventKind, HandlerId, NodeId, PropId, ResId, StrId};
use canopy::protocol::{
    decode_all, DecodeError, EventPayload, Op, OpEncoder, OpReader, F32, PROTOCOL_VERSION,
};
use canopy::tags;
use canopy::wire::{copy_range, get_u16, get_u32, get_u64, push_bytes, push_u16, push_u32, push_u64};

fn encode(ops: &[Op]) -> Vec<u8> {
    let mut enc = OpEncoder::new();
    for op in ops {
        enc.push(op);
    }
    enc.into_bytes()
}

#[test]
fn round_trips_a_mixed_batch() {
    let ops = vec![
        Op::BeginBatch { version: PROTOCOL_VERSION, seq: 7 },
        Op::InternString { id: StrId::new(0), bytes: b"Count: 0".to_vec() },
        Op::CreateElement { node: NodeId::new(1), tag: ElementTag::new(3) },
        Op::CreateText { node: NodeId::new(2), text: StrId::new(0) },
        Op::InsertBefore { parent: NodeId::new(1), child: NodeId::new(2), anchor: NodeId::null() },
        Op::SetInlineStyle { node: NodeId::new(1), prop: PropId::new(5), value: StrId::new(0) },
        Op::AddListener {
            node: NodeId::new(1),
            event: EventKind::new(1),
            handler: HandlerId::new(42),
        },
        Op::DispatchEvent {
            handler: HandlerId::new(42),
            node: NodeId::new(1),
            payload: EventPayload::Pointer {
                x: F32::from_bits(120.0f32.to_bits()),
                y: F32::from_bits(48.5f32.to_bits()),
                button: 0,
            },
        },
        Op::SetText { node: NodeId::new(2), text: StrId::new(0) },
        Op::EndBatch,
    ];

    let mut enc = OpEncoder::new();
    for op in &ops {
        enc.push(op);
    }
    let bytes = enc.into_bytes();

    assert_eq!(decode_all(&bytes).unwrap(), ops);
}

#[test]
fn truncated_stream_is_an_error_not_a_panic() {
    let mut enc = OpEncoder::new();
    enc.push(&Op::CreateElement { node: NodeId::new(9), tag: ElementTag::new(1) });
    let bytes = enc.into_bytes();
    // Drop the last byte to truncate the operand.
    let truncated = &bytes[..bytes.len() - 1];
    assert_eq!(decode_all(truncated), Err(DecodeError::Truncated));
}

#[test]
fn null_anchor_is_distinguishable() {
    assert!(NodeId::null().is_null());
    assert!(!NodeId::new(0).is_null());
    assert_eq!(NodeId::null().raw(), u64::MAX);
    assert_eq!(NodeId::null().raw(), NodeId::NULL);
}

/// One op of each kind, with operands whose bytes all differ.
fn one_of_each() -> Vec<Op> {
    let node = NodeId::new(0x1122_3344_5566_7788);
    let text = StrId::new(0x99aa_bbcc);
    vec![
        Op::BeginBatch { version: 0x0102, seq: 0x0304_0506 },
        Op::EndBatch,
        Op::CreateElement { node, tag: ElementTag::new(0x0708) },
        Op::CreateText { node, text },
        Op::RemoveNode { node },
        Op::InsertBefore { parent: node, child: NodeId::new(1), anchor: NodeId::new(2) },
        Op::SetText { node, text },
        Op::SetAttribute { node, attr: AttrId::new(0x090a), value: text },
        Op::SetInlineStyle { node, prop: PropId::new(0x0b0c), value: text },
        Op::SetClass { node, class: text },
        Op::RemoveClass { node, class: text },
        Op::SetTagName { node, name: text },
        Op::AddListener { node, event: EventKind::new(0x0d0e), handler: HandlerId::new(5) },
        Op::RemoveListener { node, event: EventKind::new(0x0d0e) },
        Op::InternString { id: text, bytes: vec![1, 2, 3] },
        Op::DispatchEvent { handler: HandlerId::new(6), node, payload: EventPayload::Empty },
        Op::DispatchEvent {
            handler: HandlerId::new(6),
            node,
            payload: EventPayload::Pointer { x: F32::from_bits(7), y: F32::from_bits(8), button: 9 },
        },
        Op::DispatchEvent {
            handler: HandlerId::new(6),
            node,
            payload: EventPayload::Key { code: 0x0a0b_0c0d, mods: 3 },
        },
        Op::DispatchEvent { handler: HandlerId::new(6), node, payload: EventPayload::Text { text } },
    ]
}

#[test]
fn every_op_round_trips_alone_and_in_sequence() {
    let ops = one_of_each();
    assert_eq!(decode_all(&encode(&ops)).unwrap(), ops);
    for op in ops {
        let one = vec![op];
        assert_eq!(decode_all(&encode(&one)).unwrap(), one);
    }
}

#[test]
fn every_cut_inside_an_op_is_truncated() {
    for op in one_of_each() {
        let bytes = encode(&[op]);
        for k in 1..bytes.len() {
            assert_eq!(decode_all(&bytes[..k]), Err(DecodeError::Truncated));
        }
    }
}

#[test]
fn bytes_are_little_endian_after_the_tag() {
    let bytes = encode(&[Op::SetAttribute {
        node: NodeId::new(0x1122_3344_5566_7788),
        attr: AttrId::new(0x99aa),
        value: StrId::new(0xbbcc_ddee),
    }]);
    assert_eq!(
        bytes,
        vec![
            0x15, 0x88, 0x77, 0x66, 0x55, 0x44, 0x33, 0x22, 0x11, 0xaa, 0x99, 0xee, 0xdd, 0xcc, 0xbb
        ]
    );
    assert_eq!(bytes[0], tags::SET_ATTRIBUTE);
}

#[test]
fn unknown_tags_are_named() {
    assert_eq!(decode_all(&[0xff]), Err(DecodeError::UnknownTag(0xff)));
    let mut bad_payload = encode(&[Op::DispatchEvent {
        handler: HandlerId::new(1),
        node: NodeId::new(2),
        payload: EventPayload::Empty,
    }]);
    let last = bad_payload.len() - 1;
    bad_payload[last] = 4;
    assert_eq!(decode_all(&bad_payload), Err(DecodeError::UnknownTag(4)));
    assert_eq!(DecodeError::UnknownTag(0x0f).message(), "unknown op-stream tag 0x0f");
    assert_eq!(DecodeError::Truncated.message(), "op-stream truncated");
}

#[test]
fn a_reader_stops_after_the_first_error() {
    let mut bytes = encode(&[Op::EndBatch]);
    bytes.push(0x77);
    bytes.push(tags::END_BATCH);
    let mut reader = OpReader::new(&bytes);
    assert_eq!(reader.next(), Some(Ok(Op::EndBatch)));
    assert_eq!(reader.next(), Some(Err(DecodeError::UnknownTag(0x77))));
    assert_eq!(reader.next(), None);
}

#[test]
fn an_encoder_counts_and_clears() {
    let mut enc = OpEncoder::default();
    assert!(enc.is_empty());
    enc.begin_batch(3);
    enc.end_batch();
    assert_eq!(enc.len(), 8);
    assert_eq!(enc.as_bytes(), &[1, 1, 0, 3, 0, 0, 0, 2]);
    enc.clear();
    assert!(enc.is_empty());
    assert_eq!(enc.into_bytes(), Vec::<u8>::new());
    assert_eq!(ResId::new(4).raw(), 4);
}

#[test]
fn numbers_are_little_endian() {
    let mut out = vec![9];
    push_u16(&mut out, 0x0102);
    push_u32(&mut out, 0x0304_0506);
    push_u64(&mut out, 0x0708_090a_0b0c_0d0e);
    push_bytes(&mut out, &[1, 2]);
    assert_eq!(
        out,
        vec![9, 2, 1, 6, 5, 4, 3, 0x0e, 0x0d, 0x0c, 0x0b, 0x0a, 9, 8, 7, 1, 2]
    );
    assert_eq!(get_u16(&out, 1), 0x0102);
    assert_eq!(get_u32(&out, 3), 0x0304_0506);
    assert_eq!(get_u64(&out, 7), 0x0708_090a_0b0c_0d0e);
    assert_eq!(copy_range(&out, 15, 17), vec![1, 2]);
}
