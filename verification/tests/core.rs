//! The emitter and the reconciler.
use canopy::dom::Dom;
use canopy::emitter::Emitter;
use canopy::handles::{ElementTag, NodeId};
use canopy::protocol::{decode_all, Op};
use canopy::reconciler::{element, text, Reconciler, Rendered, VNode};

fn column() -> ElementTag {
    ElementTag::new(1)
}

fn row() -> ElementTag {
    ElementTag::new(2)
}

fn button() -> ElementTag {
    ElementTag::new(3)
}

fn counter(n: i32) -> VNode {
    element(
        column(),
        vec![
            text(&format!("Count: {n}")),
            element(
                row(),
                vec![element(button(), vec![text("+")]), element(button(), vec![text("-")])],
            ),
        ],
    )
}

fn host_root() -> NodeId {
    NodeId::new(0)
}

#[test]
fn mount_emits_a_create_tree() {
    let mut r = Reconciler::new();
    let (_rendered, bytes) = r.mount(host_root(), &counter(0));
    let ops = decode_all(&bytes).unwrap();

    let creates = ops.iter().filter(|o| matches!(o, Op::CreateElement { .. })).count();
    assert_eq!(creates, 4);
    assert!(ops.iter().any(|o| matches!(o, Op::CreateText { .. })));
    assert!(ops.iter().any(|o| matches!(o, Op::InternString { .. })));
}

#[test]
fn diff_text_only_emits_one_set_text_and_no_creates() {
    let mut r = Reconciler::new();
    let (rendered, _) = r.mount(host_root(), &counter(0));

    let (_rendered2, bytes) = r.diff(rendered, &counter(1), host_root(), 1);
    let ops = decode_all(&bytes).unwrap();

    let set_texts = ops.iter().filter(|o| matches!(o, Op::SetText { .. })).count();
    assert_eq!(set_texts, 1, "only the changed label should update");
    assert!(
        !ops.iter().any(|o| matches!(o, Op::CreateElement { .. })),
        "a stable structure must not recreate nodes"
    );
}

#[test]
fn identical_frame_emits_no_mutations() {
    let mut r = Reconciler::new();
    let (rendered, _) = r.mount(host_root(), &counter(0));
    let (_r2, bytes) = r.diff(rendered, &counter(0), host_root(), 1);
    let ops = decode_all(&bytes).unwrap();
    assert_eq!(ops.len(), 2);
    assert!(matches!(ops[0], Op::BeginBatch { .. }));
    assert!(matches!(ops[1], Op::EndBatch));
}

#[test]
fn emitter_interns_each_string_once() {
    let mut e = Emitter::new();
    let n = e.create_text("hi");
    e.set_text(n, "hi");
    e.set_text(n, "bye");
    let ops = decode_all(&e.take_batch(0)).unwrap();
    let interns = ops.iter().filter(|o| matches!(o, Op::InternString { .. })).count();
    assert_eq!(interns, 2);
}

#[test]
fn a_mounted_tree_is_what_the_host_shows() {
    let mut r = Reconciler::new();
    let mut dom = Dom::new();
    let (rendered, bytes) = r.mount(host_root(), &counter(3));
    dom.apply(&bytes).unwrap();
    let col = rendered.id();
    assert_eq!(dom.node_count(), 7);
    assert_eq!(dom.children(NodeId::root()), &[col]);
    let kids = dom.children(col).to_vec();
    assert_eq!(dom.text_of(kids[0]), Some("Count: 3"));
    assert_eq!(dom.node(kids[1]).unwrap().tag, Some(row()));

    let (rendered, bytes) = r.diff(rendered, &counter(4), host_root(), 1);
    dom.apply(&bytes).unwrap();
    assert_eq!(dom.text_of(kids[0]), Some("Count: 4"));
    assert_eq!(rendered.id(), col);
}

#[test]
fn another_kind_is_mounted_afresh() {
    let mut r = Reconciler::new();
    let mut dom = Dom::new();
    let (rendered, bytes) = r.mount(host_root(), &element(column(), vec![text("a")]));
    dom.apply(&bytes).unwrap();
    let old = rendered.id();
    let (rendered, bytes) = r.diff(rendered, &element(row(), vec![]), host_root(), 1);
    dom.apply(&bytes).unwrap();
    assert!(!dom.contains(old));
    assert_eq!(dom.node_count(), 1);
    match rendered {
        Rendered::Element { id, tag, children } => {
            assert_ne!(id, old);
            assert_eq!(tag, row());
            assert!(children.is_empty());
        }
        Rendered::Text { .. } => panic!("expected an element"),
    }
}

#[test]
fn batches_are_numbered_and_emptied() {
    let mut e = Emitter::new();
    assert!(e.is_empty());
    let a = e.alloc_node();
    let b = e.create_element(column());
    assert_ne!(a, b);
    assert!(!e.is_empty());
    let ops = decode_all(&e.take_batch(41)).unwrap();
    assert!(matches!(ops[0], Op::BeginBatch { seq: 41, .. }));
    assert!(e.is_empty());
    assert_eq!(decode_all(&e.take_batch(42)).unwrap().len(), 2);
}

#[test]
fn interning_hands_out_one_id_for_each_string() {
    let mut e = Emitter::new();
    let a = e.intern("a");
    let b = e.intern("b");
    assert_ne!(a, b);
    assert_eq!(e.intern("a"), a);
    assert_eq!(decode_all(&e.take_batch(0)).unwrap().len(), 4);
    assert_eq!(e.intern("b"), b);
    assert!(e.is_empty());
}

#[test]
fn a_replaced_child_keeps_its_place() {
    let mut r = Reconciler::new();
    let mut dom = Dom::new();
    let first = element(column(), vec![text("a"), text("b")]);
    let (prev, b0) = r.mount(host_root(), &first);
    let next = element(column(), vec![element(row(), vec![]), text("b")]);
    let (rd, b1) = r.diff(prev, &next, host_root(), 1);
    assert_eq!(dom.apply(&b0), Ok(()));
    assert_eq!(dom.apply(&b1), Ok(()));
    assert_eq!(dom.children(NodeId::new(1)), &[NodeId::new(4), NodeId::new(3)]);
    assert_eq!(dom.node_count(), 3);
    match &rd {
        Rendered::Element { children, .. } => {
            assert_eq!(children[0].id(), NodeId::new(4));
            assert_eq!(children[1].id(), NodeId::new(3));
        }
        Rendered::Text { .. } => panic!("expected an element"),
    }
    // The tree that came back is what the next frame is diffed against.
    let (_, b2) = r.diff(rd, &first, host_root(), 2);
    assert_eq!(dom.apply(&b2), Ok(()));
    assert_eq!(dom.children(NodeId::new(1)), &[NodeId::new(5), NodeId::new(3)]);
    assert_eq!(dom.text_of(NodeId::new(5)), Some("a"));
}

#[test]
fn a_replaced_top_level_node_keeps_its_place() {
    let mut r = Reconciler::new();
    let mut dom = Dom::new();
    let (one, b0) = r.mount(host_root(), &text("one"));
    let (two, b1) = r.mount(host_root(), &text("two"));
    let (one, b2) = r.diff(one, &element(row(), vec![text("x")]), host_root(), 1);
    for b in [&b0, &b1, &b2] {
        assert_eq!(dom.apply(b), Ok(()));
    }
    assert_eq!(dom.children(NodeId::root()), &[one.id(), two.id()]);
    assert_eq!(dom.node_count(), 3);
}

#[test]
fn descriptions_and_mounted_trees_can_be_copied() {
    let v = counter(1);
    assert_eq!(v.clone(), v);
    if let VNode::Element(e) = &v {
        assert_eq!(e.clone(), *e);
    }
    let (rendered, _) = Reconciler::new().mount(host_root(), &v);
    assert_eq!(rendered.clone(), rendered);
}

#[test]
fn each_string_is_sent_once_over_all_batches_and_before_its_use() {
    let mut e = Emitter::new();
    let n = e.create_text("a");
    let mut ops = decode_all(&e.take_batch(0)).unwrap();
    e.set_class(n, "b");
    e.set_text(n, "a");
    ops.extend(decode_all(&e.take_batch(1)).unwrap());
    e.set_tag_name(n, "b");
    e.remove_class(n, "a");
    ops.extend(decode_all(&e.take_batch(2)).unwrap());
    let sent = |id: u32| {
        ops.iter().position(|o| matches!(o, Op::InternString { id: i, .. } if i.raw() == id)).unwrap()
    };
    let interns = ops.iter().filter(|o| matches!(o, Op::InternString { .. })).count();
    assert_eq!(interns, 2);
    let class = ops.iter().position(|o| matches!(o, Op::SetClass { .. })).unwrap();
    assert!(sent(1) < class);
    let created = ops.iter().position(|o| matches!(o, Op::CreateText { .. })).unwrap();
    assert!(sent(0) < created);
}
