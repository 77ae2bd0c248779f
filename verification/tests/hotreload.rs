//! Watching files and reloading.
use canopy::dom::Dom;
use canopy::emitter::Emitter;
use canopy::handles::{ElementTag, EventKind, HandlerId, NodeId, PropId};
use canopy::hotreload::{reapply, Debouncer, RawEvent, ReloadEvent, Wait, DEFAULT_DEBOUNCE};
use canopy::snapshot::dump;
use canopy::tree::HostError;

fn root() -> NodeId {
    NodeId::root()
}

fn initial_tree() -> (Vec<u8>, NodeId) {
    let mut e = Emitter::new();
    let col = e.create_element(ElementTag::new(1));
    e.append(root(), col);
    let label = e.create_text("before");
    e.append(col, label);
    (e.take_batch(0), label)
}

fn path(p: &str) -> Vec<u8> {
    p.as_bytes().to_vec()
}

#[test]
fn reload_event_path_is_first_path() {
    let ev = ReloadEvent { paths: vec![path("/a"), path("/b")] };
    assert_eq!(ev.path(), "/a".as_bytes());
}

#[test]
fn rebuilt_batch_reapplies_onto_live_tree() {
    let (batch0, label) = initial_tree();
    let mut dom = Dom::new();
    dom.apply(&batch0).expect("initial mount");
    assert_eq!(dom.node_count(), 2);
    assert_eq!(dom.text_of(label), Some("before"));

    let mut rebuild = Emitter::new();
    let col = rebuild.create_element(ElementTag::new(1));
    rebuild.append(root(), col);
    let label2 = rebuild.create_text("before");
    rebuild.append(col, label2);
    assert_eq!(label2, label, "deterministic rebuild must reproduce handles");

    rebuild.set_text(label2, "after");
    let reload_batch = rebuild.take_batch(1);

    reapply(&mut dom, &reload_batch).expect("reapply reload batch");

    assert_eq!(dom.node_count(), 2, "structure unchanged");
    assert_eq!(dom.children(root()), &[col]);
    assert_eq!(dom.children(col), &[label]);
    assert_eq!(dom.text_of(label), Some("after"), "text node updated by the reload batch");
}

#[test]
fn reapply_rejects_a_forged_handle() {
    let (batch0, _label) = initial_tree();
    let mut dom = Dom::new();
    dom.apply(&batch0).expect("initial mount");

    let mut forged = Emitter::new();
    for _ in 0..256 {
        forged.alloc_node();
    }
    let ghost = forged.alloc_node();
    forged.set_text(ghost, "haxx");

    assert_eq!(reapply(&mut dom, &forged.take_batch(1)), Err(HostError::BadHandle));
    assert_eq!(dom.node_count(), 2);
}

fn changed(paths: &[&str]) -> RawEvent {
    RawEvent::Changed(paths.iter().map(|p| path(p)).collect())
}

#[test]
fn a_burst_is_one_event_with_each_path_once() {
    assert_eq!(DEFAULT_DEBOUNCE, 80);
    let mut d = Debouncer::new();
    for _ in 0..8 {
        let (event, wait) = d.step(changed(&["/styles.css"]));
        assert!(event.is_none());
        assert_eq!(wait, Wait::More);
    }
    assert!(d.step(changed(&["/b", "/styles.css", "/b"])).0.is_none());
    let (event, wait) = d.step(RawEvent::Quiet);
    assert_eq!(event.unwrap().paths, vec![path("/styles.css"), path("/b")]);
    assert_eq!(wait, Wait::First);
    let (event, _) = d.step(RawEvent::Quiet);
    assert!(event.is_none());
}

#[test]
fn a_build_sent_again_changes_nothing() {
    let mut e = Emitter::new();
    let first = e.create_element(ElementTag::new(1));
    e.append(root(), first);
    let second = e.create_element(ElementTag::new(3));
    e.insert(root(), second, first);
    e.set_class(second, "btn");
    e.set_inline_style(second, PropId::new(1), "#000000");
    e.add_listener(second, EventKind::new(1), HandlerId::new(4));
    let label = e.create_text("label");
    e.append(second, label);
    let batch = e.take_batch(0);

    let mut dom = Dom::new();
    reapply(&mut dom, &batch).unwrap();
    let before = dump(&dom);
    reapply(&mut dom, &batch).unwrap();
    assert_eq!(dump(&dom), before);
    assert_eq!(dom.children(root()), &[second, first]);
    assert_eq!(dom.children(second), &[label]);
    assert_eq!(dom.node(second).unwrap().listeners.len(), 1);
}

#[test]
fn paths_that_are_not_text_stay_apart() {
    let mut d = Debouncer::new();
    let (a, b) = (vec![b'/', 0xff], vec![b'/', 0xfe]);
    d.step(RawEvent::Changed(vec![a.clone(), b.clone(), a.clone()]));
    assert_eq!(d.step(RawEvent::Closed).0.unwrap().paths, vec![a, b]);
}
