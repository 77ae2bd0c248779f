//! The retained tree.
use canopy::dom::Dom;
use canopy::emitter::Emitter;
use canopy::handles::{AttrId, ElementTag, EventKind, HandlerId, NodeId, PropId, StrId};
use canopy::protocol::{EventPayload, Op, OpEncoder};
use canopy::tree::HostError;

fn root() -> NodeId {
    NodeId::root()
}

fn batch(ops: &[Op]) -> Vec<u8> {
    let mut enc = OpEncoder::new();
    for op in ops {
        enc.push(op);
    }
    enc.into_bytes()
}

#[test]
fn applies_a_mounted_tree() {
    let mut e = Emitter::new();
    let col = e.create_element(ElementTag::new(1));
    e.append(root(), col);
    let label = e.create_text("hello");
    e.append(col, label);

    let mut dom = Dom::new();
    dom.apply(&e.take_batch(0)).unwrap();

    assert_eq!(dom.node_count(), 2);
    assert_eq!(dom.children(root()), &[col]);
    assert_eq!(dom.children(col), &[label]);
    assert_eq!(dom.text_of(label), Some("hello"));
}

#[test]
fn set_text_updates_in_place() {
    let mut e = Emitter::new();
    let t = e.create_text("a");
    e.append(root(), t);
    e.set_text(t, "b");
    let mut dom = Dom::new();
    dom.apply(&e.take_batch(0)).unwrap();
    assert_eq!(dom.text_of(t), Some("b"));
}

#[test]
fn inline_styles_are_retained() {
    let bg = PropId::new(1);
    let mut e = Emitter::new();
    let n = e.create_element(ElementTag::new(1));
    e.append(root(), n);
    e.set_inline_style(n, bg, "#202830");
    let mut dom = Dom::new();
    dom.apply(&e.take_batch(0)).unwrap();
    assert_eq!(dom.style(n, bg), Some("#202830"));
}

#[test]
fn element_identity_is_retained_for_the_capable_tier() {
    let mut e = Emitter::new();
    let n = e.create_element(ElementTag::new(1));
    e.append(root(), n);
    e.set_tag_name(n, "button");
    e.set_class(n, "btn");
    e.set_class(n, "primary");
    e.set_class(n, "btn");
    e.set_attribute(n, AttrId::new(AttrId::ID), "submit");
    let mut dom = Dom::new();
    dom.apply(&e.take_batch(0)).unwrap();

    assert_eq!(dom.tag_name(n), Some("button"));
    assert_eq!(dom.classes(n), &["btn".to_string(), "primary".to_string()]);
    assert_eq!(dom.id(n), Some("submit"));
}

#[test]
fn remove_class_drops_it() {
    let mut e = Emitter::new();
    let n = e.create_element(ElementTag::new(1));
    e.append(root(), n);
    e.set_class(n, "a");
    e.set_class(n, "b");
    e.remove_class(n, "a");
    let mut dom = Dom::new();
    dom.apply(&e.take_batch(0)).unwrap();
    assert_eq!(dom.classes(n), &["b".to_string()]);
}

#[test]
fn forged_handle_is_rejected() {
    let mut e = Emitter::new();
    let real = e.create_text("ok");
    e.append(root(), real);
    let mut dom = Dom::new();
    dom.apply(&e.take_batch(0)).unwrap();

    let mut forged = Emitter::new();
    for _ in 0..100 {
        forged.alloc_node();
    }
    let ghost = forged.alloc_node();
    forged.set_text(ghost, "haxx");
    assert_eq!(dom.apply(&forged.take_batch(1)), Err(HostError::BadHandle));
}

#[test]
fn remove_drops_the_subtree() {
    let mut e = Emitter::new();
    let col = e.create_element(ElementTag::new(1));
    e.append(root(), col);
    let a = e.create_text("a");
    e.append(col, a);
    let b = e.create_text("b");
    e.append(col, b);
    let mut dom = Dom::new();
    dom.apply(&e.take_batch(0)).unwrap();
    assert_eq!(dom.node_count(), 3);

    let mut rm = Emitter::new();
    rm.remove(col);
    dom.apply(&rm.take_batch(1)).unwrap();
    assert_eq!(dom.node_count(), 0);
    assert!(dom.children(root()).is_empty());
}

#[test]
fn unknown_strings_and_host_events_do_not_decode() {
    let mut dom = Dom::new();
    let text = batch(&[Op::CreateText { node: NodeId::new(1), text: StrId::new(9) }]);
    assert_eq!(dom.apply(&text), Err(HostError::Decode));
    let event = batch(&[Op::DispatchEvent {
        handler: HandlerId::new(0),
        node: NodeId::new(1),
        payload: EventPayload::Empty,
    }]);
    assert_eq!(dom.apply(&event), Err(HostError::Decode));
    assert_eq!(dom.apply(&[0xff]), Err(HostError::Decode));
    let not_utf8 = batch(&[Op::InternString { id: StrId::new(0), bytes: vec![0xc3, 0x28] }]);
    assert_eq!(dom.apply(&not_utf8), Err(HostError::Decode));
    assert_eq!(dom.node_count(), 0);
}

#[test]
fn a_node_cannot_be_put_below_itself() {
    let mut e = Emitter::new();
    let a = e.create_element(ElementTag::new(1));
    let b = e.create_element(ElementTag::new(1));
    let c = e.create_element(ElementTag::new(1));
    e.append(root(), a);
    e.append(a, b);
    e.append(b, c);
    let mut dom = Dom::new();
    dom.apply(&e.take_batch(0)).unwrap();
    for (parent, child) in [(a, a), (b, a), (c, a), (c, b)] {
        e.append(parent, child);
        assert_eq!(dom.apply(&e.take_batch(1)), Err(HostError::BadHandle));
    }
    assert_eq!(dom.children(root()), &[a]);
    assert_eq!(dom.children(a), &[b]);
    assert_eq!(dom.children(b), &[c]);
    assert_eq!(dom.ancestors(c), vec![c, b, a]);
    assert_eq!(dom.preorder(a), vec![a, b, c]);
    assert!(dom.reaches(a, c));
    assert!(!dom.reaches(c, a));
}

#[test]
fn a_node_created_again_can_be_put_below_its_old_child() {
    let mut dom = Dom::new();
    let (one, two) = (NodeId::new(1), NodeId::new(2));
    let create = |node| Op::CreateElement { node, tag: ElementTag::new(1) };
    let insert = |parent, child| Op::InsertBefore { parent, child, anchor: NodeId::null() };
    let ops = batch(&[
        create(one),
        create(two),
        insert(root(), one),
        insert(one, two),
        create(one),
        insert(two, one),
    ]);
    assert_eq!(dom.apply(&ops), Ok(()));
    assert!(dom.children(root()).is_empty());
    assert!(dom.children(one).is_empty());
    assert_eq!(dom.children(two), &[one]);
    // The two record each other as parent; the way up ends where it comes round.
    assert_eq!(dom.ancestors(one), vec![one, two]);
    assert_eq!(dom.preorder(two), vec![two, one]);
}

#[test]
fn the_root_cannot_be_created() {
    let mut dom = Dom::new();
    let ops = batch(&[Op::CreateElement { node: root(), tag: ElementTag::new(1) }]);
    assert_eq!(dom.apply(&ops), Err(HostError::BadHandle));
    assert_eq!(dom.node_count(), 0);
}

#[test]
fn insertion_goes_before_its_anchor() {
    let mut e = Emitter::new();
    let a = e.create_text("a");
    let b = e.create_text("b");
    let c = e.create_text("c");
    e.append(root(), a);
    e.append(root(), b);
    e.insert(root(), c, b);
    let mut dom = Dom::new();
    dom.apply(&e.take_batch(0)).unwrap();
    assert_eq!(dom.children(root()), &[a, c, b]);

    e.insert(root(), a, NodeId::null());
    dom.apply(&e.take_batch(1)).unwrap();
    assert_eq!(dom.children(root()), &[c, b, a]);

    e.insert(root(), b, NodeId::new(77));
    assert_eq!(dom.apply(&e.take_batch(2)), Err(HostError::BadHandle));
    assert_eq!(dom.children(root()), &[c, b, a], "a refused insertion changes nothing");
    e.insert(root(), b, b);
    assert_eq!(dom.apply(&e.take_batch(3)), Err(HostError::BadHandle));
    assert_eq!(dom.children(root()), &[c, b, a]);
}

#[test]
fn a_refused_move_leaves_the_node_where_it_is() {
    let mut e = Emitter::new();
    let a = e.create_element(ElementTag::new(1));
    let b = e.create_element(ElementTag::new(1));
    let x = e.create_text("x");
    e.append(root(), a);
    e.append(root(), b);
    e.append(a, x);
    let mut dom = Dom::new();
    dom.apply(&e.take_batch(0)).unwrap();

    e.insert(b, x, a);
    assert_eq!(dom.apply(&e.take_batch(1)), Err(HostError::BadHandle));
    assert_eq!(dom.children(a), &[x]);
    assert!(dom.children(b).is_empty());
    assert_eq!(dom.node(x).unwrap().parent, Some(a));
}

#[test]
fn what_precedes_a_bad_op_stays_applied() {
    let mut e = Emitter::new();
    let a = e.create_text("a");
    e.append(root(), a);
    e.set_text(NodeId::new(50), "b");
    e.append(root(), NodeId::new(51));
    let mut dom = Dom::new();
    assert_eq!(dom.apply(&e.take_batch(0)), Err(HostError::BadHandle));
    assert_eq!(dom.children(root()), &[a]);
}

#[test]
fn listeners_are_added_and_removed() {
    let mut e = Emitter::new();
    let n = e.create_element(ElementTag::new(3));
    e.append(root(), n);
    e.add_listener(n, EventKind::new(1), HandlerId::new(7));
    e.add_listener(n, EventKind::new(2), HandlerId::new(8));
    let mut dom = Dom::new();
    dom.apply(&e.take_batch(0)).unwrap();
    assert_eq!(
        dom.node(n).unwrap().listeners,
        vec![(EventKind::new(1), HandlerId::new(7)), (EventKind::new(2), HandlerId::new(8))]
    );
    let off = batch(&[Op::RemoveListener { node: n, event: EventKind::new(1) }]);
    dom.apply(&off).unwrap();
    assert_eq!(dom.node(n).unwrap().listeners, vec![(EventKind::new(2), HandlerId::new(8))]);
}

#[test]
fn a_copy_of_a_tree_is_independent() {
    let mut e = Emitter::new();
    let n = e.create_element(ElementTag::new(1));
    e.append(root(), n);
    let mut dom = Dom::new();
    dom.apply(&e.take_batch(0)).unwrap();
    let mut copy = dom.clone();
    copy.set_inline_style(n, PropId::new(1), "#000000".to_string());
    copy.set_inline_style(NodeId::new(99), PropId::new(1), "#000000".to_string());
    assert_eq!(copy.style(n, PropId::new(1)), Some("#000000"));
    assert_eq!(copy.node_count(), 1);
    assert_eq!(dom.style(n, PropId::new(1)), None);
    assert_eq!(Dom::default().node_count(), 0);
}

#[test]
fn reads_of_nodes_that_are_not_there_are_empty() {
    let dom = Dom::new();
    let n = NodeId::new(5);
    assert!(dom.node(n).is_none());
    assert_eq!(dom.text_of(n), None);
    assert_eq!(dom.tag_name(n), None);
    assert_eq!(dom.attr(n, AttrId::new(1)), None);
    assert!(dom.classes(n).is_empty());
    assert!(dom.children(n).is_empty());
    assert_eq!(dom.string(StrId::new(0)), None);
    assert!(!dom.contains(n));
}
