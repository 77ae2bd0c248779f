//! The accessibility tree.
use accesskit::{NodeId as AccessId, Role};
use canopy::a11y::{accesskit_id, build_tree, descendant_text, has_click_listener, node_for, CLICK, ROOT_ID};
use canopy::dom::Dom;
use canopy::emitter::Emitter;
use canopy::handles::{ElementTag, EventKind, HandlerId, NodeId};

fn build_demo_dom() -> (Dom, NodeId, NodeId, NodeId) {
    let mut e = Emitter::new();

    let col = e.create_element(ElementTag::new(1));
    e.append(NodeId::root(), col);

    let label = e.create_text("Welcome");
    e.append(col, label);

    let btn = e.create_element(ElementTag::new(3));
    let btn_text = e.create_text("Click me");
    e.append(btn, btn_text);
    e.append(col, btn);
    e.add_listener(btn, EventKind::new(CLICK), HandlerId::new(0));

    let mut dom = Dom::new();
    dom.apply(&e.take_batch(0)).unwrap();

    (dom, col, label, btn)
}

fn id(node: NodeId) -> AccessId {
    AccessId(accesskit_id(node))
}

fn root_id() -> AccessId {
    AccessId(ROOT_ID)
}

#[test]
fn root_is_a_window_parenting_the_top_level_column() {
    let (dom, col, _, _) = build_demo_dom();
    let update = build_tree(&dom);

    let (_, root) =
        update.nodes.iter().find(|(id, _)| *id == root_id()).expect("root node present");
    assert_eq!(root.role(), Role::Window);
    assert_eq!(root.children(), &[id(col)]);
    assert_eq!(update.tree.as_ref().unwrap().root, root_id());
    assert_eq!(update.focus, root_id());
}

#[test]
fn button_node_is_named_by_its_text() {
    let (dom, _, _, btn) = build_demo_dom();
    let update = build_tree(&dom);

    let (_, button) =
        update.nodes.iter().find(|(i, _)| *i == id(btn)).expect("button node present");
    assert_eq!(button.role(), Role::Button);
    assert_eq!(button.label(), Some("Click me"));
}

#[test]
fn text_label_becomes_a_label_with_its_string_as_value() {
    let (dom, col, label, _) = build_demo_dom();
    let update = build_tree(&dom);

    let (_, label_node) =
        update.nodes.iter().find(|(i, _)| *i == id(label)).expect("label node present");
    assert_eq!(label_node.role(), Role::Label);
    assert_eq!(label_node.value(), Some("Welcome"));

    let (_, column) =
        update.nodes.iter().find(|(i, _)| *i == id(col)).expect("column node present");
    assert_eq!(column.role(), Role::GenericContainer);
    assert!(column.children().contains(&id(label)));
}

#[test]
fn input_element_becomes_a_text_input_with_its_text_as_value() {
    let mut e = Emitter::new();
    let input = e.create_element(ElementTag::new(4));
    let txt = e.create_text("hello");
    e.append(input, txt);
    e.append(NodeId::root(), input);
    let mut dom = Dom::new();
    dom.apply(&e.take_batch(0)).unwrap();

    let update = build_tree(&dom);
    let (_, input_node) =
        update.nodes.iter().find(|(i, _)| *i == id(input)).expect("input node present");
    assert_eq!(input_node.role(), Role::TextInput);
    assert_eq!(input_node.value(), Some("hello"));
}

#[test]
fn node_count_covers_root_plus_every_dom_node() {
    let (dom, _, _, _) = build_demo_dom();
    let update = build_tree(&dom);
    assert_eq!(update.nodes.len(), dom.node_count() + 1);
    assert_eq!(update.nodes.len(), 5);
}

#[test]
fn single_nodes_are_described_too() {
    let (dom, col, label, btn) = build_demo_dom();
    assert!(node_for(&dom, NodeId::new(99)).is_none());
    assert_eq!(node_for(&dom, col).unwrap().role(), Role::GenericContainer);
    assert_eq!(node_for(&dom, btn).unwrap().label(), Some("Click me"));
    assert_eq!(node_for(&dom, label).unwrap().value(), Some("Welcome"));
    assert!(has_click_listener(&dom, btn));
    assert!(!has_click_listener(&dom, col));
    assert_eq!(descendant_text(&dom, col), Some("WelcomeClick me".to_string()));
    assert_eq!(descendant_text(&dom, NodeId::new(99)), None);
}

#[test]
fn the_tree_is_named_for_the_application() {
    let update = build_tree(&Dom::new());
    assert_eq!(update.nodes.len(), 1);
    let tree = update.tree.unwrap();
    assert_eq!(tree.app_name.as_deref(), Some("Canopy"));
}
