//! The accessibility tree: what assistive technologies are told about a retained tree.
//!
//! Roles are inferred from structure. A text node is a label that holds its text; an element
//! that listens for clicks, or is a button, is a button named by the text in it; a text field
//! holds the text in it; any other element is a container; and the host's root is the window.
//! The nodes themselves are made by the AccessKit crate.
use accesskit::Node as AccessNode;
use crate::dom::{Dom, Node};
use crate::handles::{ElementTag, EventKind, HandlerId, NodeId};
use crate::style::{EL_BUTTON, EL_INPUT};
use crate::tree::{
    acyclic, forest, kids, law_preorder_unfolds, law_trees_hold_each_node_once, lemma_forest_push, orderly,
    preorder, well_formed, DomView, NodeView,
};
use vstd::prelude::*;
use vstd::string::StringExecFns;

verus! {

/// The event kind of a click.
pub const CLICK: u16 = 1;

/// The id of the synthesized root. Live nodes have other ids.
pub const ROOT_ID: u64 = 0;

/// A node of the accessibility tree.
#[verifier::external_type_specification]
#[verifier::external_body]
pub struct ExAccessNode(AccessNode);

/// A description of a whole accessibility tree, as a platform adapter takes it.
#[verifier::external_type_specification]
#[verifier::external_body]
pub struct ExTreeUpdate(accesskit::TreeUpdate);

/// What a node is to assistive technologies.
#[derive(Clone, Copy, PartialEq, Eq, Debug, Structural)]
pub enum SemanticRole {
    Window,
    Label,
    Button,
    TextInput,
    GenericContainer,
}

/// The role that an accessibility node was made with.
pub uninterp spec fn access_role(n: AccessNode) -> SemanticRole;

/// The ids of the children of an accessibility node, in order.
pub uninterp spec fn access_children(n: AccessNode) -> Seq<u64>;

/// The label of an accessibility node.
pub uninterp spec fn access_label(n: AccessNode) -> Option<Seq<char>>;

/// The value of an accessibility node.
pub uninterp spec fn access_value(n: AccessNode) -> Option<Seq<char>>;

/// The nodes of a tree update with their ids, in order.
pub uninterp spec fn update_nodes(u: accesskit::TreeUpdate) -> Seq<(u64, AccessNode)>;

/// The root of the tree that an update carries.
pub uninterp spec fn update_root(u: accesskit::TreeUpdate) -> Option<u64>;

/// The names of the toolkit and of the application in the tree that an update carries.
pub uninterp spec fn update_names(u: accesskit::TreeUpdate) -> Seq<Seq<char>>;

/// The node that has the focus after an update.
pub uninterp spec fn update_focus(u: accesskit::TreeUpdate) -> u64;

/// `accesskit::Node::new` makes a node of the given role with no properties set: no children, no
/// label, no value.
#[verifier::external_body]
fn new_node(role: SemanticRole) -> (r: AccessNode)
    ensures
        access_role(r) == role,
        access_children(r) == Seq::<u64>::empty(),
        access_label(r) is None,
        access_value(r) is None,
{
    accesskit::Node::new(match role {
        SemanticRole::Window => accesskit::Role::Window,
        SemanticRole::Label => accesskit::Role::Label,
        SemanticRole::Button => accesskit::Role::Button,
        SemanticRole::TextInput => accesskit::Role::TextInput,
        SemanticRole::GenericContainer => accesskit::Role::GenericContainer,
    })
}

/// `accesskit::Node::set_children` replaces the children of a node and leaves its role and its
/// other properties as they are.
#[verifier::external_body]
fn set_children(node: &mut AccessNode, children: Vec<u64>)
    ensures
        access_children(*final(node)) == children@,
        access_role(*final(node)) == access_role(*old(node)),
        access_label(*final(node)) == access_label(*old(node)),
        access_value(*final(node)) == access_value(*old(node)),
{
    let ids: Vec<accesskit::NodeId> = children.into_iter().map(accesskit::NodeId).collect();
    node.set_children(ids);
}

/// `accesskit::Node::set_label` sets the label of a node and leaves its role and its other
/// properties as they are.
#[verifier::external_body]
fn set_label(node: &mut AccessNode, label: String)
    ensures
        access_label(*final(node)) == Some(label@),
        access_role(*final(node)) == access_role(*old(node)),
        access_children(*final(node)) == access_children(*old(node)),
        access_value(*final(node)) == access_value(*old(node)),
{
    node.set_label(label);
}

/// `accesskit::Node::set_value` sets the value of a node and leaves its role and its other
/// properties as they are.
#[verifier::external_body]
fn set_value(node: &mut AccessNode, value: String)
    ensures
        access_value(*final(node)) == Some(value@),
        access_role(*final(node)) == access_role(*old(node)),
        access_children(*final(node)) == access_children(*old(node)),
        access_label(*final(node)) == access_label(*old(node)),
{
    node.set_value(value);
}

/// `accesskit::TreeUpdate` and `accesskit::Tree::new`: an update that carries the nodes, a tree
/// with the given root and names, and the focus.
#[verifier::external_body]
fn tree_update(
    nodes: Vec<(u64, AccessNode)>,
    root: u64,
    toolkit: String,
    app: String,
    focus: u64,
) -> (r: accesskit::TreeUpdate)
    ensures
        update_nodes(r) == nodes@,
        update_root(r) == Some(root),
        update_names(r) == seq![toolkit@, app@],
        update_focus(r) == focus,
{
    let mut tree = accesskit::Tree::new(accesskit::NodeId(root));
    tree.toolkit_name = Some(toolkit);
    tree.app_name = Some(app);
    let nodes = nodes.into_iter().map(|n| (accesskit::NodeId(n.0), n.1)).collect();
    accesskit::TreeUpdate { nodes, tree: Some(tree), focus: accesskit::NodeId(focus) }
}

/// What assistive technologies are told about a node.
#[verifier::ext_equal]
pub ghost struct AccessView {
    pub role: SemanticRole,
    pub children: Seq<u64>,
    pub label: Option<Seq<char>>,
    pub value: Option<Seq<char>>,
}

/// What an accessibility node says.
pub open spec fn access_view(n: AccessNode) -> AccessView {
    AccessView {
        role: access_role(n),
        children: access_children(n),
        label: access_label(n),
        value: access_value(n),
    }
}

/// The accessibility id of a node: its handle.
pub fn accesskit_id(node: NodeId) -> (r: u64)
    ensures
        r == node.0,
{
    node.0
}

/// The ids of nodes.
pub open spec fn raw_ids(ids: Seq<NodeId>) -> Seq<u64> {
    Seq::new(ids.len(), |i: int| ids[i].0)
}

fn to_raw_ids(ids: &[NodeId]) -> (r: Vec<u64>)
    ensures
        r@ == raw_ids(ids@),
{
    let mut r: Vec<u64> = Vec::new();
    let mut i: usize = 0;
    while i < ids.len()
        invariant
            i <= ids@.len(),
            r@ == raw_ids(ids@).take(i as int),
        decreases ids@.len() - i,
    {
        r.push(accesskit_id(ids[i]));
        i += 1;
        assert(r@ =~= raw_ids(ids@).take(i as int));
    }
    assert(r@ =~= raw_ids(ids@));
    r
}

/// The texts of the given nodes, one after the other.
pub open spec fn texts(nodes: Map<u64, NodeView>, ids: Seq<NodeId>) -> Seq<char>
    decreases ids.len(),
{
    if ids.len() == 0 {
        seq![]
    } else {
        let before = texts(nodes, ids.drop_last());
        let n = ids.last();
        if nodes.contains_key(n.0) && nodes[n.0].text is Some {
            before + nodes[n.0].text->0
        } else {
            before
        }
    }
}

/// The text in a node: its own and that of its descendants, in document order.
pub open spec fn inner_text(nodes: Map<u64, NodeView>, n: NodeId) -> Seq<char> {
    texts(nodes, preorder(nodes, n))
}

/// The text in a node, if there is any.
pub open spec fn descendant_text_of(nodes: Map<u64, NodeView>, n: NodeId) -> Option<Seq<char>> {
    if inner_text(nodes, n).len() == 0 {
        None
    } else {
        Some(inner_text(nodes, n))
    }
}

/// The text in a node, if there is any.
pub fn descendant_text(dom: &Dom, node: NodeId) -> (r: Option<String>)
    requires
        dom.wf(),
    ensures
        match r {
            Some(s) => descendant_text_of(dom@.nodes, node) == Some(s@),
            None => descendant_text_of(dom@.nodes, node) is None,
        },
{
    let ids = dom.preorder(node);
    let ghost nodes = dom@.nodes;
    let mut out = String::new();
    let mut i: usize = 0;
    assert(ids@.take(0) =~= seq![]);
    assert(out@ =~= seq![]);
    while i < ids.len()
        invariant
            i <= ids@.len(),
            nodes == dom@.nodes,
            out@ == texts(nodes, ids@.take(i as int)),
        decreases ids@.len() - i,
    {
        proof {
            assert(ids@.take(i + 1).drop_last() =~= ids@.take(i as int));
            assert(ids@.take(i + 1).last() == ids@[i as int]);
        }
        if let Some(text) = dom.text_of(ids[i]) {
            out.append(text);
        }
        i += 1;
    }
    assert(ids@.take(i as int) =~= ids@);
    if out.as_str().is_empty() {
        None
    } else {
        Some(out)
    }
}

/// Whether a list of subscriptions holds one for clicks.
pub open spec fn hears_clicks(ls: Seq<(EventKind, HandlerId)>) -> bool {
    exists|i: int| 0 <= i < ls.len() && (#[trigger] ls[i]).0 == EventKind(CLICK)
}

fn node_hears_clicks(n: &Node) -> (r: bool)
    ensures
        r == hears_clicks(n@.listeners),
{
    let mut i: usize = 0;
    while i < n.listeners.len()
        invariant
            i <= n.listeners@.len(),
            forall|k: int| 0 <= k < i ==> (#[trigger] n.listeners@[k]).0 != EventKind(CLICK),
        decreases n.listeners@.len() - i,
    {
        if n.listeners[i].0.0 == CLICK {
            assert(n.listeners@[i as int].0 == EventKind(CLICK));
            return true;
        }
        i += 1;
    }
    false
}

/// Whether a node listens for clicks, and so can be activated.
pub fn has_click_listener(dom: &Dom, node: NodeId) -> (r: bool)
    ensures
        r == (dom@.nodes.contains_key(node.0) && hears_clicks(dom@.nodes[node.0].listeners)),
{
    match dom.node(node) {
        Some(n) => node_hears_clicks(n),
        None => false,
    }
}

/// The role of a node.
pub open spec fn role_of(n: NodeView) -> SemanticRole {
    if n.tag is None {
        SemanticRole::Label
    } else if n.tag == Some(ElementTag(EL_INPUT)) {
        SemanticRole::TextInput
    } else if n.tag == Some(ElementTag(EL_BUTTON)) || hears_clicks(n.listeners) {
        SemanticRole::Button
    } else {
        SemanticRole::GenericContainer
    }
}

/// What assistive technologies are told about a live node.
pub open spec fn described(nodes: Map<u64, NodeView>, n: NodeId) -> AccessView {
    let node = nodes[n.0];
    let role = role_of(node);
    AccessView {
        role,
        children: if role == SemanticRole::Label {
            seq![]
        } else {
            raw_ids(node.children)
        },
        label: if role == SemanticRole::Button {
            descendant_text_of(nodes, n)
        } else {
            None
        },
        value: if role == SemanticRole::Label {
            node.text
        } else if role == SemanticRole::TextInput {
            descendant_text_of(nodes, n)
        } else {
            None
        },
    }
}

/// The accessibility node for a live node; its children are named, but not described.
pub fn node_for(dom: &Dom, node: NodeId) -> (r: Option<AccessNode>)
    requires
        dom.wf(),
    ensures
        match r {
            Some(n) => dom@.nodes.contains_key(node.0) && access_view(n) == described(
                dom@.nodes,
                node,
            ),
            None => !dom@.nodes.contains_key(node.0),
        },
{
    let n = match dom.node(node) {
        Some(n) => n,
        None => {
            return None;
        },
    };
    let tag = match n.tag {
        Some(tag) => tag,
        None => {
            let mut out = new_node(SemanticRole::Label);
            if let Some(text) = &n.text {
                set_value(&mut out, text.clone());
            }
            assert(access_view(out) =~= described(dom@.nodes, node));
            return Some(out);
        },
    };
    let role = if tag.0 == EL_INPUT {
        SemanticRole::TextInput
    } else if tag.0 == EL_BUTTON || node_hears_clicks(n) {
        SemanticRole::Button
    } else {
        SemanticRole::GenericContainer
    };
    let mut out = new_node(role);
    set_children(&mut out, to_raw_ids(n.children.as_slice()));
    match role {
        SemanticRole::Button => {
            if let Some(name) = descendant_text(dom, node) {
                set_label(&mut out, name);
            }
        },
        SemanticRole::TextInput => {
            if let Some(value) = descendant_text(dom, node) {
                set_value(&mut out, value);
            }
        },
        _ => {},
    }
    assert(access_view(out) =~= described(dom@.nodes, node));
    Some(out)
}

/// What assistive technologies are told about the live nodes among the given ones, in order.
pub open spec fn described_all(nodes: Map<u64, NodeView>, ids: Seq<NodeId>) -> Seq<(u64, AccessView)>
    decreases ids.len(),
{
    if ids.len() == 0 {
        seq![]
    } else {
        let before = described_all(nodes, ids.drop_last());
        let n = ids.last();
        if nodes.contains_key(n.0) {
            before.push((n.0, described(nodes, n)))
        } else {
            before
        }
    }
}

/// What the nodes of a list say.
pub open spec fn access_views(s: Seq<(u64, AccessNode)>) -> Seq<(u64, AccessView)> {
    Seq::new(s.len(), |i: int| (s[i].0, access_view(s[i].1)))
}

/// What assistive technologies are told about the window.
pub open spec fn window(roots: Seq<NodeId>) -> AccessView {
    AccessView {
        role: SemanticRole::Window,
        children: raw_ids(roots),
        label: None,
        value: None,
    }
}

/// What assistive technologies are told about a tree: the window, then every node that can be
/// reached from the top, each parent before its children.
pub open spec fn described_tree(d: DomView) -> Seq<(u64, AccessView)> {
    seq![(ROOT_ID, window(d.roots))] + described_all(d.nodes, forest(d.nodes, d.roots))
}

proof fn lemma_described_concat(nodes: Map<u64, NodeView>, a: Seq<NodeId>, b: Seq<NodeId>)
    ensures
        described_all(nodes, a + b) == described_all(nodes, a) + described_all(nodes, b),
    decreases b.len(),
{
    if b.len() == 0 {
        assert(a + b =~= a);
        assert(described_all(nodes, a) + described_all(nodes, b) =~= described_all(nodes, a));
    } else {
        assert((a + b).drop_last() =~= a + b.drop_last());
        lemma_described_concat(nodes, a, b.drop_last());
        assert(described_all(nodes, a + b) =~= described_all(nodes, a) + described_all(nodes, b));
    }
}

/// Append the accessibility nodes of a node and its descendants.
fn push_subtree(dom: &Dom, node: NodeId, out: &mut Vec<(u64, AccessNode)>)
    requires
        dom.wf(),
    ensures
        access_views(final(out)@) == access_views(old(out)@) + described_all(
            dom@.nodes,
            preorder(dom@.nodes, node),
        ),
{
    let ids = dom.preorder(node);
    let ghost nodes = dom@.nodes;
    let ghost start = access_views(out@);
    let mut i: usize = 0;
    assert(ids@.take(0) =~= seq![]);
    assert(start + described_all(nodes, ids@.take(0)) =~= start);
    while i < ids.len()
        invariant
            dom.wf(),
            i <= ids@.len(),
            nodes == dom@.nodes,
            access_views(out@) == start + described_all(nodes, ids@.take(i as int)),
        decreases ids@.len() - i,
    {
        proof {
            assert(ids@.take(i + 1).drop_last() =~= ids@.take(i as int));
            assert(ids@.take(i + 1).last() == ids@[i as int]);
        }
        if let Some(n) = node_for(dom, ids[i]) {
            let ghost before = out@;
            out.push((accesskit_id(ids[i]), n));
            assert(access_views(out@) =~= access_views(before).push(
                (ids@[i as int].0, access_view(n)),
            ));
        }
        i += 1;
        assert(access_views(out@) =~= start + described_all(nodes, ids@.take(i as int)));
    }
    assert(ids@.take(i as int) =~= ids@);
}

/// Describe a whole tree. The focus is on the window.
pub fn build_tree(dom: &Dom) -> (r: accesskit::TreeUpdate)
    requires
        dom.wf(),
    ensures
        access_views(update_nodes(r)) == described_tree(dom@),
        update_root(r) == Some(ROOT_ID),
        update_names(r) == seq!["Canopy"@, "Canopy"@],
        update_focus(r) == ROOT_ID,
{
    let ghost nodes = dom@.nodes;
    let roots = dom.children(NodeId::root());
    let mut out: Vec<(u64, AccessNode)> = Vec::new();
    let mut root = new_node(SemanticRole::Window);
    set_children(&mut root, to_raw_ids(roots));
    assert(access_view(root) =~= window(dom@.roots));
    out.push((ROOT_ID, root));
    let ghost top = seq![(ROOT_ID, window(dom@.roots))];
    assert(access_views(out@) =~= top);
    let mut i: usize = 0;
    assert(roots@.take(0) =~= seq![]);
    assert(top + described_all(nodes, forest(nodes, roots@.take(0))) =~= top);
    while i < roots.len()
        invariant
            dom.wf(),
            nodes == dom@.nodes,
            roots@ == dom@.roots,
            i <= roots@.len(),
            access_views(out@) == top + described_all(nodes, forest(nodes, roots@.take(i as int))),
        decreases roots@.len() - i,
    {
        proof {
            lemma_forest_push(nodes, roots@.take(i as int), roots@[i as int]);
            assert(roots@.take(i + 1) =~= roots@.take(i as int).push(roots@[i as int]));
            lemma_described_concat(
                nodes,
                forest(nodes, roots@.take(i as int)),
                preorder(nodes, roots@[i as int]),
            );
        }
        push_subtree(dom, roots[i], &mut out);
        i += 1;
        assert(access_views(out@) =~= top + described_all(
            nodes,
            forest(nodes, roots@.take(i as int)),
        ));
    }
    assert(roots@.take(i as int) =~= roots@);
    tree_update(out, ROOT_ID, "Canopy".to_owned(), "Canopy".to_owned(), ROOT_ID)
}

/// Parents are kept: the accessibility node of an element lists its children, all of them and in
/// order, whatever its role.
pub proof fn law_elements_list_their_children(nodes: Map<u64, NodeView>, n: NodeId)
    requires
        nodes.contains_key(n.0),
        nodes[n.0].tag is Some,
    ensures
        described(nodes, n).children == raw_ids(nodes[n.0].children),
{
}

/// Every live node that can be reached from the top is described, under its own id.
pub proof fn law_reachable_nodes_are_described(d: DomView, i: int)
    requires
        0 <= i < forest(d.nodes, d.roots).len(),
        d.nodes.contains_key(forest(d.nodes, d.roots)[i].0),
    ensures
        described_tree(d).contains(
            (
                forest(d.nodes, d.roots)[i].0,
                described(d.nodes, forest(d.nodes, d.roots)[i]),
            ),
        ),
{
    let ids = forest(d.nodes, d.roots);
    let entry = (ids[i].0, described(d.nodes, ids[i]));
    lemma_described_holds(d.nodes, ids, i);
    let all = described_all(d.nodes, ids);
    let k = choose|k: int| 0 <= k < all.len() && all[k] == entry;
    assert(described_tree(d)[k + 1] == entry);
}

proof fn lemma_described_holds(nodes: Map<u64, NodeView>, ids: Seq<NodeId>, i: int)
    requires
        0 <= i < ids.len(),
        nodes.contains_key(ids[i].0),
    ensures
        described_all(nodes, ids).contains((ids[i].0, described(nodes, ids[i]))),
    decreases ids.len(),
{
    let all = described_all(nodes, ids);
    let init = described_all(nodes, ids.drop_last());
    if i == ids.len() - 1 {
        assert(all[init.len() as int] == (ids[i].0, described(nodes, ids[i])));
    } else {
        lemma_described_holds(nodes, ids.drop_last(), i);
        let entry = (ids[i].0, described(nodes, ids[i]));
        let k = choose|k: int| 0 <= k < init.len() && init[k] == entry;
        assert(all[k] == entry);
    }
}

/// Whether a list of subscriptions holds one for clicks.
spec fn clickable(ls: Seq<(EventKind, HandlerId)>) -> bool {
    exists|i: int| 0 <= i < ls.len() && (#[trigger] ls[i]).0.0 == 1
}

/// The text of a node, and nothing for one that has none.
pub open spec fn own_text(nodes: Map<u64, NodeView>, n: NodeId) -> Seq<char> {
    if nodes.contains_key(n.0) && nodes[n.0].text is Some {
        nodes[n.0].text->0
    } else {
        seq![]
    }
}

/// The texts in the given nodes, one after the other.
pub open spec fn inner_texts(nodes: Map<u64, NodeView>, ids: Seq<NodeId>) -> Seq<char>
    decreases ids.len(),
{
    if ids.len() == 0 {
        seq![]
    } else {
        inner_text(nodes, ids[0]) + inner_texts(nodes, ids.drop_first())
    }
}

proof fn lemma_texts_concat(nodes: Map<u64, NodeView>, a: Seq<NodeId>, b: Seq<NodeId>)
    ensures
        texts(nodes, a + b) == texts(nodes, a) + texts(nodes, b),
    decreases b.len(),
{
    if b.len() == 0 {
        assert(a + b =~= a);
        assert(texts(nodes, a) + texts(nodes, b) =~= texts(nodes, a));
    } else {
        assert((a + b).drop_last() =~= a + b.drop_last());
        lemma_texts_concat(nodes, a, b.drop_last());
        assert(texts(nodes, a + b) =~= texts(nodes, a) + texts(nodes, b));
    }
}

proof fn lemma_texts_of_forest(nodes: Map<u64, NodeView>, ids: Seq<NodeId>)
    ensures
        texts(nodes, forest(nodes, ids)) == inner_texts(nodes, ids),
    decreases ids.len(),
{
    if ids.len() > 0 {
        lemma_texts_of_forest(nodes, ids.drop_first());
        lemma_texts_concat(nodes, preorder(nodes, ids[0]), forest(nodes, ids.drop_first()));
    }
}

/// The text in a node is its own text, followed by the text in its children, in order.
pub proof fn law_inner_text_runs_in_document_order(nodes: Map<u64, NodeView>, n: NodeId)
    requires
        acyclic(nodes),
    ensures
        inner_text(nodes, n) == own_text(nodes, n) + inner_texts(nodes, kids(nodes, n)),
{
    law_preorder_unfolds(nodes, n);
    lemma_texts_concat(nodes, seq![n], forest(nodes, kids(nodes, n)));
    lemma_texts_of_forest(nodes, kids(nodes, n));
    assert(seq![n].drop_last() =~= Seq::<NodeId>::empty());
    assert(texts(nodes, seq![n].drop_last()) =~= Seq::<char>::empty());
    assert(texts(nodes, seq![n]) =~= own_text(nodes, n));
}

/// What each kind of node is to assistive technologies. A text node is a label that says its text.
/// A text field (tag 4) is a text input with the text in it as its value. Any other element that is
/// a button (tag 3) or has a subscription for clicks (event 1) is a button, named by the text in
/// it, where there is any. Every other element is a container and has no name.
pub proof fn law_elements_are_what_they_can_do(nodes: Map<u64, NodeView>, n: NodeId)
    requires
        nodes.contains_key(n.0),
    ensures
        ({
            let node = nodes[n.0];
            let said = described(nodes, n);
            let inside = inner_text(nodes, n);
            let some_text = if inside.len() > 0 {
                Some(inside)
            } else {
                None
            };
            &&& node.tag is None ==> said.role == SemanticRole::Label && said.value == node.text
                && said.label is None && said.children.len() == 0
            &&& node.tag matches Some(t) ==> t.0 == 4 ==> said.role == SemanticRole::TextInput
                && said.value == some_text && said.label is None
            &&& node.tag matches Some(t) ==> t.0 != 4 && (t.0 == 3 || exists|i: int|
                0 <= i < node.listeners.len() && (#[trigger] node.listeners[i]).0.0 == 1)
                ==> said.role == SemanticRole::Button && said.label == some_text
                && said.value is None
            &&& node.tag matches Some(t) ==> t.0 != 4 && t.0 != 3 && (forall|i: int|
                0 <= i < node.listeners.len() ==> (#[trigger] node.listeners[i]).0.0 != 1)
                ==> said.role == SemanticRole::GenericContainer && said.label is None
                && said.value is None
        }),
{
    let ls = nodes[n.0].listeners;
    if clickable(ls) {
        let i = choose|i: int| 0 <= i < ls.len() && (#[trigger] ls[i]).0.0 == 1;
        assert(ls[i].0 == EventKind(1));
        assert(hears_clicks(ls));
    }
    if hears_clicks(ls) {
        let i = choose|i: int| 0 <= i < ls.len() && (#[trigger] ls[i]).0 == EventKind(CLICK);
        assert(ls[i].0.0 == 1);
        assert(clickable(ls));
    }
}

/// The description of a tree begins with its window, which has the id 0 and lists the top-level
/// nodes in order. Each further entry stands for a live node that can be reached from the top.
pub proof fn law_descriptions_begin_with_the_window(d: DomView, i: int)
    requires
        0 <= i < described_tree(d).len(),
    ensures
        described_tree(d)[0].0 == 0,
        described_tree(d)[0].1.role == SemanticRole::Window,
        described_tree(d)[0].1.children.len() == d.roots.len(),
        forall|k: int|
            0 <= k < d.roots.len() ==> #[trigger] described_tree(d)[0].1.children[k] == d.roots[k].0,
        i > 0 ==> {
            let n = NodeId(described_tree(d)[i].0);
            &&& d.nodes.contains_key(n.0)
            &&& forest(d.nodes, d.roots).contains(n)
            &&& described_tree(d)[i].1 == described(d.nodes, n)
        },
{
    let all = described_all(d.nodes, forest(d.nodes, d.roots));
    if i > 0 {
        assert(described_tree(d)[i] == all[i - 1]);
        lemma_described_are_live(d.nodes, forest(d.nodes, d.roots), i - 1);
    }
}

proof fn lemma_described_are_live(nodes: Map<u64, NodeView>, ids: Seq<NodeId>, i: int)
    requires
        0 <= i < described_all(nodes, ids).len(),
    ensures
        ({
            let n = NodeId(described_all(nodes, ids)[i].0);
            &&& nodes.contains_key(n.0)
            &&& ids.contains(n)
            &&& described_all(nodes, ids)[i].1 == described(nodes, n)
        }),
    decreases ids.len(),
{
    let init = described_all(nodes, ids.drop_last());
    let all = described_all(nodes, ids);
    if i < init.len() {
        assert(all[i] == init[i]);
        lemma_described_are_live(nodes, ids.drop_last(), i);
        let n = NodeId(all[i].0);
        let k = choose|k: int| 0 <= k < ids.len() - 1 && ids.drop_last()[k] == n;
        assert(ids[k] == n);
    } else {
        let last = ids.last();
        assert(NodeId(last.0) == last);
        assert(ids[ids.len() - 1] == last);
    }
}

/// In an orderly tree each node is described once.
pub proof fn law_nodes_are_described_once(d: DomView, i: int, j: int)
    requires
        well_formed(d),
        orderly(d),
        0 < i < described_tree(d).len(),
        0 < j < described_tree(d).len(),
        described_tree(d)[i].0 == described_tree(d)[j].0,
    ensures
        i == j,
        described_tree(d).len() == 1 + forest(d.nodes, d.roots).len(),
{
    let ids = forest(d.nodes, d.roots);
    law_trees_hold_each_node_once(d);
    lemma_live_described(d.nodes, ids);
    let all = described_all(d.nodes, ids);
    assert(described_tree(d)[i] == all[i - 1]);
    assert(described_tree(d)[j] == all[j - 1]);
    assert(ids[i - 1].0 == ids[j - 1].0);
    assert(ids[i - 1] == ids[j - 1]);
}

proof fn lemma_live_described(nodes: Map<u64, NodeView>, ids: Seq<NodeId>)
    requires
        forall|i: int| 0 <= i < ids.len() ==> nodes.contains_key((#[trigger] ids[i]).0),
    ensures
        described_all(nodes, ids).len() == ids.len(),
        forall|i: int|
            0 <= i < ids.len() ==> (#[trigger] described_all(nodes, ids)[i]).0 == ids[i].0,
    decreases ids.len(),
{
    if ids.len() > 0 {
        let init = ids.drop_last();
        assert forall|i: int| 0 <= i < init.len() implies nodes.contains_key(
            (#[trigger] init[i]).0,
        ) by {
            assert(init[i] == ids[i]);
        }
        lemma_live_described(nodes, init);
        assert(nodes.contains_key(ids[ids.len() - 1].0));
        assert forall|i: int| 0 <= i < ids.len() implies (#[trigger] described_all(
            nodes,
            ids,
        )[i]).0 == ids[i].0 by {
            if i < init.len() {
                assert(described_all(nodes, ids)[i] == described_all(nodes, init)[i]);
            }
        }
    }
}

/// The text inside a node is what its texts say together, and there is none where they say nothing.
pub proof fn law_inner_text_is_absent_where_empty(nodes: Map<u64, NodeView>, n: NodeId)
    ensures
        descendant_text_of(nodes, n) is None <==> inner_text(nodes, n).len() == 0,
        descendant_text_of(nodes, n) matches Some(s) ==> s == inner_text(nodes, n),
{
}

} // verus!
