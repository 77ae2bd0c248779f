//! The host's retained tree and the consuming end of the op-stream.
//!
//! [`Dom`] decodes a batch of op-stream bytes and applies the mutations. This is where a
//! handle the guest made up is refused: an op that names a node which does not exist is
//! answered with [`HostError::BadHandle`].
use crate::handles::{AttrId, ElementTag, EventKind, HandlerId, NodeId, PropId, StrId, ROOT};
use crate::protocol::{lemma_parse_op_end, Op, OpReader};
use crate::seqs::{lemma_filter_push, lemma_map_values_insert, lemma_map_values_remove};
use crate::text::{
    opt_str, opt_string, string_chars, string_from_utf8, strings_chars,
};
use crate::tree::{
    adopted, ancestors, apply_bytes, apply_op, blank_node, climb, create_node, detached, edit_node,
    empty_dom, forest, height, insert_before, kids, law_ops_keep_trees_well_formed,
    law_preorder_unfolds, law_reaches_unfolds, lemma_child_is_lower, lemma_detached_well_formed,
    lemma_finite, lemma_forest_push, lemma_with_style_well_formed, other_class, other_event, other_than, preorder, reaches, remove_node, siblings, well_formed,
    with_siblings, with_style, without, DomView, HostError, NodeView,
};
use std::collections::BTreeMap;
use vstd::prelude::*;
use vstd::slice::slice_to_vec;

verus! {

broadcast use vstd::std_specs::btree::group_btree_axioms;

/// One retained node.
#[derive(Clone, Debug)]
pub struct Node {
    /// Element kind, or `None` for a text node.
    pub tag: Option<ElementTag>,
    /// Text content, for text nodes.
    pub text: Option<String>,
    /// Parent, or `None` if detached or top-level.
    pub parent: Option<NodeId>,
    /// Children, in order.
    pub children: Vec<NodeId>,
    /// Inline styles, by raw property id.
    pub styles: BTreeMap<u16, String>,
    /// CSS local name (such as `div`), if the guest declared one.
    pub tag_name: Option<String>,
    /// CSS class names, in the order they were added.
    pub classes: Vec<String>,
    /// Attributes, by raw attribute id.
    pub attrs: BTreeMap<u16, String>,
    /// Subscriptions on this node.
    pub listeners: Vec<(EventKind, HandlerId)>,
}

impl View for Node {
    type V = NodeView;

    open spec fn view(&self) -> NodeView {
        NodeView {
            tag: self.tag,
            text: opt_string(self.text),
            parent: self.parent,
            children: self.children@,
            styles: self.styles@.map_values(string_chars()),
            tag_name: opt_string(self.tag_name),
            classes: strings_chars(self.classes@),
            attrs: self.attrs@.map_values(string_chars()),
            listeners: self.listeners@,
        }
    }
}

impl Default for Node {
    fn default() -> (r: Node)
        ensures
            r@ == blank_node(),
    {
        let r = Node {
            tag: None,
            text: None,
            parent: None,
            children: Vec::new(),
            styles: BTreeMap::new(),
            tag_name: None,
            classes: Vec::new(),
            attrs: BTreeMap::new(),
            listeners: Vec::new(),
        };
        assert(r@ =~= blank_node());
        r
    }
}

/// What a node holds, as a function.
pub open spec fn node_view() -> spec_fn(Node) -> NodeView {
    |n: Node| n@
}

/// A retained node tree, built by applying op-stream batches.
pub struct Dom {
    nodes: BTreeMap<u64, Node>,
    strings: BTreeMap<u32, String>,
    roots: Vec<NodeId>,
}

impl View for Dom {
    type V = DomView;

    closed spec fn view(&self) -> DomView {
        DomView {
            nodes: self.nodes@.map_values(node_view()),
            strings: self.strings@.map_values(string_chars()),
            roots: self.roots@,
        }
    }
}

impl Default for Dom {
    fn default() -> (r: Dom)
        ensures
            r@ == empty_dom(),
            r.wf(),
    {
        Dom::new()
    }
}

impl Clone for Dom {
    fn clone(&self) -> (r: Dom)
        ensures
            r@ == self@,
    {
        let r = Dom {
            nodes: self.nodes.clone(),
            strings: self.strings.clone(),
            roots: slice_to_vec(self.roots.as_slice()),
        };
        assert(r@ =~= self@);
        r
    }
}

/// `v` without the occurrences of `x`.
fn retain_others(v: &Vec<NodeId>, x: NodeId) -> (r: Vec<NodeId>)
    ensures
        r@ == without(v@, x),
{
    let mut r: Vec<NodeId> = Vec::new();
    let mut i: usize = 0;
    assert(v@.take(0).filter(other_than(x)) =~= Seq::<NodeId>::empty()) by {
        reveal(Seq::filter);
    }
    while i < v.len()
        invariant
            i <= v@.len(),
            r@ == v@.take(i as int).filter(other_than(x)),
        decreases v@.len() - i,
    {
        proof {
            lemma_filter_push(v@.take(i as int), v@[i as int], other_than(x));
            assert(v@.take(i + 1) =~= v@.take(i as int).push(v@[i as int]));
        }
        if v[i] != x {
            r.push(v[i]);
        }
        i += 1;
    }
    assert(v@.take(i as int) =~= v@);
    r
}

/// `v` without the subscriptions to `event`.
fn retain_other_events(v: &Vec<(EventKind, HandlerId)>, event: EventKind) -> (r: Vec<
    (EventKind, HandlerId),
>)
    ensures
        r@ == v@.filter(other_event(event)),
{
    let mut r: Vec<(EventKind, HandlerId)> = Vec::new();
    let mut i: usize = 0;
    assert(v@.take(0).filter(other_event(event)) =~= Seq::<(EventKind, HandlerId)>::empty()) by {
        reveal(Seq::filter);
    }
    while i < v.len()
        invariant
            i <= v@.len(),
            r@ == v@.take(i as int).filter(other_event(event)),
        decreases v@.len() - i,
    {
        proof {
            lemma_filter_push(v@.take(i as int), v@[i as int], other_event(event));
            assert(v@.take(i + 1) =~= v@.take(i as int).push(v@[i as int]));
        }
        if v[i].0 != event {
            r.push(v[i]);
        }
        i += 1;
    }
    assert(v@.take(i as int) =~= v@);
    r
}

/// `v` without the strings equal to `name`.
fn retain_other_classes(v: &Vec<String>, name: &String) -> (r: Vec<String>)
    ensures
        strings_chars(r@) == strings_chars(v@).filter(other_class(name@)),
{
    let mut r: Vec<String> = Vec::new();
    let mut i: usize = 0;
    assert(strings_chars(v@).take(0).filter(other_class(name@)) =~= Seq::<Seq<char>>::empty()) by {
        reveal(Seq::filter);
    }
    assert(strings_chars(r@) =~= Seq::<Seq<char>>::empty());
    while i < v.len()
        invariant
            i <= v@.len(),
            strings_chars(r@) == strings_chars(v@).take(i as int).filter(other_class(name@)),
        decreases v@.len() - i,
    {
        let ghost seen = strings_chars(v@).take(i as int);
        let ghost kept = r@;
        proof {
            lemma_filter_push(seen, v@[i as int]@, other_class(name@));
            assert(strings_chars(v@).take(i + 1) =~= seen.push(v@[i as int]@));
        }
        if v[i] != *name {
            r.push(v[i].clone());
            assert(strings_chars(r@) =~= strings_chars(kept).push(v@[i as int]@));
        }
        i += 1;
    }
    assert(strings_chars(v@).take(i as int) =~= strings_chars(v@));
    r
}

/// Whether `v` holds a string equal to `name`.
pub fn contains_string(v: &Vec<String>, name: &String) -> (r: bool)
    ensures
        r == strings_chars(v@).contains(name@),
{
    let mut i: usize = 0;
    while i < v.len()
        invariant
            i <= v@.len(),
            forall|j: int| 0 <= j < i ==> (#[trigger] strings_chars(v@)[j]) != name@,
        decreases v@.len() - i,
    {
        if v[i] == *name {
            assert(strings_chars(v@)[i as int] == name@);
            return true;
        }
        i += 1;
    }
    false
}

/// Where `x` first occurs in `v`.
fn position(v: &Vec<NodeId>, x: NodeId) -> (r: Option<usize>)
    ensures
        match r {
            Some(i) => v@.index_of_first(x) == Some(i as int) && i < v@.len(),
            None => v@.index_of_first(x) is None,
        },
{
    proof {
        v@.index_of_first_ensures(x);
    }
    let mut i: usize = 0;
    while i < v.len()
        invariant
            i <= v@.len(),
            forall|j: int| 0 <= j < i ==> v@[j] != x,
        decreases v@.len() - i,
    {
        if v[i] == x {
            proof {
                v@.index_of_first_ensures(x);
                assert(v@.contains(x));
            }
            return Some(i);
        }
        i += 1;
    }
    None
}

impl Dom {
    /// What holds of every tree: see [`well_formed`].
    pub open spec fn wf(&self) -> bool {
        well_formed(self@)
    }

    /// An empty tree.
    pub fn new() -> (r: Dom)
        ensures
            r@ == empty_dom(),
            r.wf(),
    {
        let r = Dom { nodes: BTreeMap::new(), strings: BTreeMap::new(), roots: Vec::new() };
        assert(r@ =~= empty_dom());
        assert(crate::tree::is_ranking(r@.nodes, |n: u64| 0nat));
        r
    }

    /// Number of live nodes.
    pub fn node_count(&self) -> (r: usize)
        ensures
            r == self@.nodes.len(),
    {
        assert(self@.nodes.dom() =~= self.nodes@.dom());
        self.nodes.len()
    }

    /// Borrow a node by handle.
    pub fn node(&self, node: NodeId) -> (r: Option<&Node>)
        ensures
            match r {
                Some(n) => self@.nodes.contains_key(node.0) && n@ == self@.nodes[node.0],
                None => !self@.nodes.contains_key(node.0),
            },
    {
        self.nodes.get(&node.0)
    }

    /// The text content of a node, if it exists and has text.
    pub fn text_of(&self, node: NodeId) -> (r: Option<&str>)
        ensures
            opt_str(r) == if self@.nodes.contains_key(node.0) {
                self@.nodes[node.0].text
            } else {
                None
            },
    {
        match self.node(node) {
            Some(n) => match &n.text {
                Some(t) => Some(t.as_str()),
                None => None,
            },
            None => None,
        }
    }

    /// The inline style value of a node's property, if set.
    pub fn style(&self, node: NodeId, prop: PropId) -> (r: Option<&str>)
        ensures
            opt_str(r) == if self@.nodes.contains_key(node.0)
                && self@.nodes[node.0].styles.contains_key(prop.0) {
                Some(self@.nodes[node.0].styles[prop.0])
            } else {
                None
            },
    {
        match self.node(node) {
            Some(n) => match n.styles.get(&prop.0) {
                Some(v) => Some(v.as_str()),
                None => None,
            },
            None => None,
        }
    }

    /// A node's CSS local name, if the guest declared one.
    pub fn tag_name(&self, node: NodeId) -> (r: Option<&str>)
        ensures
            opt_str(r) == if self@.nodes.contains_key(node.0) {
                self@.nodes[node.0].tag_name
            } else {
                None
            },
    {
        match self.node(node) {
            Some(n) => match &n.tag_name {
                Some(t) => Some(t.as_str()),
                None => None,
            },
            None => None,
        }
    }

    /// A node's CSS class names, in the order they were added.
    pub fn classes(&self, node: NodeId) -> (r: &[String])
        ensures
            strings_chars(r@) == if self@.nodes.contains_key(node.0) {
                self@.nodes[node.0].classes
            } else {
                seq![]
            },
    {
        match self.node(node) {
            Some(n) => n.classes.as_slice(),
            None => {
                let none: &[String] = &[];
                assert(strings_chars(none@) =~= seq![]);
                none
            },
        }
    }

    /// The value of a node's attribute, if set.
    pub fn attr(&self, node: NodeId, attr: AttrId) -> (r: Option<&str>)
        ensures
            opt_str(r) == if self@.nodes.contains_key(node.0)
                && self@.nodes[node.0].attrs.contains_key(attr.0) {
                Some(self@.nodes[node.0].attrs[attr.0])
            } else {
                None
            },
    {
        match self.node(node) {
            Some(n) => match n.attrs.get(&attr.0) {
                Some(v) => Some(v.as_str()),
                None => None,
            },
            None => None,
        }
    }

    /// A node's CSS id, if set.
    pub fn id(&self, node: NodeId) -> (r: Option<&str>)
        ensures
            opt_str(r) == if self@.nodes.contains_key(node.0)
                && self@.nodes[node.0].attrs.contains_key(AttrId::ID) {
                Some(self@.nodes[node.0].attrs[AttrId::ID])
            } else {
                None
            },
    {
        self.attr(node, AttrId(AttrId::ID))
    }

    /// The children of a node, or the top-level nodes for the root.
    pub fn children(&self, node: NodeId) -> (r: &[NodeId])
        ensures
            r@ == siblings(self@, node),
    {
        if node.0 == ROOT {
            return self.roots.as_slice();
        }
        match self.node(node) {
            Some(n) => n.children.as_slice(),
            None => {
                let none: &[NodeId] = &[];
                assert(none@ =~= seq![]);
                none
            },
        }
    }

    /// Look up an interned string.
    pub fn string(&self, id: StrId) -> (r: Option<&str>)
        ensures
            opt_str(r) == if self@.strings.contains_key(id.0) {
                Some(self@.strings[id.0])
            } else {
                None
            },
    {
        match self.strings.get(&id.0) {
            Some(s) => Some(s.as_str()),
            None => None,
        }
    }

    /// Whether a node exists.
    pub fn contains(&self, node: NodeId) -> (r: bool)
        ensures
            r == self@.nodes.contains_key(node.0),
    {
        self.nodes.contains_key(&node.0)
    }

    /// A copy of an interned string; an unknown id is a decode error.
    fn resolve_str(&self, id: StrId) -> (r: Result<String, HostError>)
        ensures
            match r {
                Ok(s) => self@.strings.contains_key(id.0) && s@ == self@.strings[id.0],
                Err(e) => e == HostError::Decode && !self@.strings.contains_key(id.0),
            },
    {
        match self.strings.get(&id.0) {
            Some(s) => Ok(s.clone()),
            None => Err(HostError::Decode),
        }
    }

    /// Put a node at a handle.
    fn put(&mut self, id: NodeId, node: Node)
        ensures
            final(self)@ == (DomView { nodes: old(self)@.nodes.insert(id.0, node@), ..old(self)@ }),
    {
        proof {
            lemma_map_values_insert(self.nodes@, id.0, node, node_view());
        }
        self.nodes.insert(id.0, node);
        assert(self@ =~= DomView { nodes: old(self)@.nodes.insert(id.0, node@), ..old(self)@ });
    }

    /// Take a node out, to be put back changed.
    fn take(&mut self, id: NodeId) -> (r: Result<Node, HostError>)
        ensures
            match r {
                Ok(n) => old(self)@.nodes.contains_key(id.0) && n@ == old(self)@.nodes[id.0]
                    && final(self)@ == (DomView {
                    nodes: old(self)@.nodes.remove(id.0),
                    ..old(self)@
                }),
                Err(e) => e == HostError::BadHandle && !old(self)@.nodes.contains_key(id.0)
                    && final(self)@ == old(self)@,
            },
    {
        proof {
            lemma_map_values_remove(self.nodes@, id.0, node_view());
        }
        match self.nodes.remove(&id.0) {
            Some(n) => {
                assert(self@ =~= DomView { nodes: old(self)@.nodes.remove(id.0), ..old(self)@ });
                Ok(n)
            },
            None => {
                assert(self@ =~= old(self)@);
                Err(HostError::BadHandle)
            },
        }
    }

    fn detach(&mut self, node: NodeId)
        requires
            old(self)@.nodes.contains_key(node.0),
        ensures
            final(self)@ == detached(old(self)@, node),
    {
        let parent = match self.node(node) {
            Some(n) => n.parent,
            None => None,
        };
        match parent {
            Some(p) => {
                if let Ok(mut pn) = self.take(p) {
                    pn.children = retain_others(&pn.children, node);
                    self.put(p, pn);
                    assert(self@ =~= detached(old(self)@, node));
                }
            },
            None => {
                self.roots = retain_others(&self.roots, node);
                assert(self@ =~= detached(old(self)@, node));
            },
        }
    }

    /// Whether `target` is `from` or one of its descendants.
    pub fn reaches(&self, from: NodeId, target: NodeId) -> (r: bool)
        requires
            self.wf(),
        ensures
            r == reaches(self@.nodes, from, target),
        decreases height(self@.nodes, from),
    {
        proof {
            law_reaches_unfolds(self@.nodes, from, target);
        }
        if from == target {
            return true;
        }
        if let Some(n) = self.node(from) {
            let mut i: usize = 0;
            while i < n.children.len()
                invariant
                    self.wf(),
                    self@.nodes.contains_key(from.0),
                    n@ == self@.nodes[from.0],
                    i <= n.children@.len(),
                    forall|j: int|
                        0 <= j < i ==> !reaches(
                            self@.nodes,
                            #[trigger] kids(self@.nodes, from)[j],
                            target,
                        ),
                    reaches(self@.nodes, from, target) <==> from == target || exists|j: int|
                        0 <= j < kids(self@.nodes, from).len() && reaches(
                            self@.nodes,
                            #[trigger] kids(self@.nodes, from)[j],
                            target,
                        ),
                decreases n.children@.len() - i,
            {
                proof {
                    lemma_child_is_lower(self@.nodes, from, i as int);
                }
                assert(kids(self@.nodes, from)[i as int] == n.children@[i as int]);
                if self.reaches(n.children[i], target) {
                    return true;
                }
                i += 1;
            }
        }
        false
    }

    /// A node, the parent it records, that one's parent, and so on up, each once.
    pub fn ancestors(&self, node: NodeId) -> (r: Vec<NodeId>)
        ensures
            r@ == ancestors(self@.nodes, node),
    {
        let mut path: Vec<NodeId> = Vec::new();
        let mut here = node;
        let ghost nodes = self@.nodes;
        let ghost mut left = nodes.dom();
        loop
            invariant
                nodes == self@.nodes,
                ancestors(nodes, node) == path@ + climb(nodes, here, left),
                forall|k: u64| #[trigger]
                    left.contains(k) <==> nodes.contains_key(k) && !path@.contains(NodeId(k)),
                forall|i: int| 0 <= i < path@.len() ==> nodes.contains_key((#[trigger] path@[i]).0),
                !path@.contains(here),
            decreases left.len(),
        {
            let ghost before = path@;
            proof {
                lemma_finite(left);
                assert(NodeId(here.0) == here);
            }
            path.push(here);
            proof {
                left = left.remove(here.0);
                assert forall|k: u64| #[trigger] left.contains(k) <==> nodes.contains_key(k)
                    && !path@.contains(NodeId(k)) by {
                    if path@.contains(NodeId(k)) && k != here.0 {
                        let i = choose|i: int| 0 <= i < path@.len() && path@[i] == NodeId(k);
                        assert(before[i] == NodeId(k));
                    }
                    if before.contains(NodeId(k)) {
                        let i = choose|i: int| 0 <= i < before.len() && before[i] == NodeId(k);
                        assert(path@[i] == NodeId(k));
                    }
                    assert(path@[before.len() as int] == here);
                }
            }
            let parent = match self.node(here) {
                Some(n) => n.parent,
                None => None,
            };
            match parent {
                Some(p) => {
                    proof {
                        assert(NodeId(p.0) == p);
                        path@.index_of_first_ensures(p);
                        assert forall|i: int| 0 <= i < path@.len() implies nodes.contains_key(
                            (#[trigger] path@[i]).0,
                        ) by {
                            if i < before.len() {
                                assert(path@[i] == before[i]);
                            }
                        }
                    }
                    if position(&path, p).is_some() {
                        assert(path@.contains(p));
                        assert(before + seq![here] =~= path@);
                        return path;
                    }
                    assert(!path@.contains(p));
                    assert(before + (seq![here] + climb(nodes, p, left)) =~= path@ + climb(
                        nodes,
                        p,
                        left,
                    ));
                    here = p;
                },
                None => {
                    assert(before + seq![here] =~= path@);
                    return path;
                },
            }
        }
    }

    /// Append a node and its descendants to `out`, each parent before its children.
    fn collect(&self, node: NodeId, out: &mut Vec<NodeId>)
        requires
            self.wf(),
        ensures
            final(out)@ == old(out)@ + preorder(self@.nodes, node),
        decreases height(self@.nodes, node),
    {
        out.push(node);
        proof {
            law_preorder_unfolds(self@.nodes, node);
        }
        if let Some(n) = self.node(node) {
            let mut i: usize = 0;
            assert(out@ =~= old(out)@ + seq![node] + forest(self@.nodes, n.children@.take(0)));
            while i < n.children.len()
                invariant
                    self.wf(),
                    self@.nodes.contains_key(node.0),
                    n@ == self@.nodes[node.0],
                    i <= n.children@.len(),
                    out@ == old(out)@ + seq![node] + forest(
                        self@.nodes,
                        n.children@.take(i as int),
                    ),
                decreases n.children@.len() - i,
            {
                let c = n.children[i];
                proof {
                    assert(kids(self@.nodes, node)[i as int] == c);
                    lemma_child_is_lower(self@.nodes, node, i as int);
                    lemma_forest_push(self@.nodes, n.children@.take(i as int), c);
                    assert(n.children@.take(i + 1) =~= n.children@.take(i as int).push(c));
                }
                self.collect(c, out);
                i += 1;
                assert(out@ =~= old(out)@ + seq![node] + forest(
                    self@.nodes,
                    n.children@.take(i as int),
                ));
            }
            assert(n.children@.take(i as int) =~= kids(self@.nodes, node));
        }
        assert(out@ =~= old(out)@ + preorder(self@.nodes, node));
    }

    /// A node and its descendants, each parent before its children, siblings in order.
    pub fn preorder(&self, node: NodeId) -> (r: Vec<NodeId>)
        requires
            self.wf(),
        ensures
            r@ == preorder(self@.nodes, node),
    {
        let mut out: Vec<NodeId> = Vec::new();
        self.collect(node, &mut out);
        assert(out@ =~= preorder(self@.nodes, node));
        out
    }

    /// Drop a node and its descendants.
    fn remove_subtree(&mut self, node: NodeId)
        requires
            old(self).wf(),
        ensures
            final(self)@ == (DomView {
                nodes: old(self)@.nodes.remove_keys(
                    preorder(old(self)@.nodes, node).map_values(|x: NodeId| x.0).to_set(),
                ),
                ..old(self)@
            }),
    {
        let mut doomed: Vec<NodeId> = Vec::new();
        self.collect(node, &mut doomed);
        let ghost raw = preorder(self@.nodes, node).map_values(|x: NodeId| x.0);
        assert(doomed@ =~= preorder(self@.nodes, node));
        let mut i: usize = 0;
        assert(self@.nodes.remove_keys(raw.take(0).to_set()) =~= self@.nodes);
        while i < doomed.len()
            invariant
                i <= doomed@.len(),
                doomed@.len() == raw.len(),
                forall|j: int| 0 <= j < raw.len() ==> raw[j] == (#[trigger] doomed@[j]).0,
                self@.nodes == old(self)@.nodes.remove_keys(raw.take(i as int).to_set()),
                self@.strings == old(self)@.strings,
                self@.roots == old(self)@.roots,
            decreases doomed@.len() - i,
        {
            let _ = self.take(doomed[i]);
            i += 1;
            proof {
                let done = raw.take(i as int);
                let before = raw.take(i - 1);
                assert(done =~= before.push(raw[i - 1]));
                assert forall|k: u64| #[trigger]
                    done.to_set().contains(k) <==> before.to_set().contains(k) || k == raw[i
                        - 1] by {
                    if before.contains(k) {
                        let j = choose|j: int| 0 <= j < before.len() && before[j] == k;
                        assert(done[j] == k);
                    }
                    if k == raw[i - 1] {
                        assert(done[i - 1] == k);
                    }
                    if done.contains(k) {
                        let j = choose|j: int| 0 <= j < done.len() && done[j] == k;
                        if j < before.len() {
                            assert(before[j] == k);
                        }
                    }
                }
                assert(self@.nodes =~= old(self)@.nodes.remove_keys(done.to_set()));
            }
        }
        assert(raw.take(i as int) =~= raw);
        assert(self@ =~= DomView {
            nodes: old(self)@.nodes.remove_keys(raw.to_set()),
            ..old(self)@
        });
    }

    /// Replace the children of a node, or the top-level nodes for the root.
    fn set_siblings(&mut self, parent: NodeId, line: Vec<NodeId>)
        requires
            parent.0 == ROOT || old(self)@.nodes.contains_key(parent.0),
        ensures
            final(self)@ == with_siblings(old(self)@, parent, line@),
    {
        if parent.0 == ROOT {
            self.roots = line;
        } else if let Ok(mut n) = self.take(parent) {
            n.children = line;
            self.put(parent, n);
        }
        assert(self@ =~= with_siblings(old(self)@, parent, line@));
    }

    /// The children of `parent` once `child` has left its old place for it.
    fn siblings_without(&self, parent: NodeId, child: NodeId) -> (r: Vec<NodeId>)
        requires
            self.wf(),
            self@.nodes.contains_key(child.0),
            parent.0 == ROOT || self@.nodes.contains_key(parent.0),
            parent.0 != child.0,
        ensures
            r@ == siblings(adopted(detached(self@, child), child, parent), parent),
    {
        let line = slice_to_vec(self.children(parent));
        let recorded = match self.node(child) {
            Some(n) => n.parent,
            None => None,
        };
        let leaves = match recorded {
            Some(p) => p.0 == parent.0 && parent.0 != ROOT,
            None => parent.0 == ROOT,
        };
        if leaves {
            retain_others(&line, child)
        } else {
            line
        }
    }

    fn insert_before(&mut self, parent: NodeId, child: NodeId, anchor: NodeId) -> (r: Result<
        (),
        HostError,
    >)
        requires
            old(self).wf(),
        ensures
            (final(self)@, r) == insert_before(old(self)@, parent, child, anchor),
    {
        if !self.contains(child) || parent.0 != ROOT && !self.contains(parent) {
            return Err(HostError::BadHandle);
        }
        if parent.0 != ROOT && self.reaches(child, parent) {
            return Err(HostError::BadHandle);
        }
        proof {
            law_reaches_unfolds(self@.nodes, child, child);
        }
        let mut line = self.siblings_without(parent, child);
        if anchor.is_null() {
            line.push(child);
        } else {
            match position(&line, anchor) {
                Some(at) => {
                    line.insert(at, child);
                },
                None => {
                    return Err(HostError::BadHandle);
                },
            }
        }
        self.detach(child);
        if let Ok(mut c) = self.take(child) {
            c.parent = if parent.0 == ROOT {
                None
            } else {
                Some(parent)
            };
            self.put(child, c);
        }
        assert(self@ =~= adopted(detached(old(self)@, child), child, parent));
        self.set_siblings(parent, line);
        Ok(())
    }

    fn remove_node(&mut self, node: NodeId) -> (r: Result<(), HostError>)
        requires
            old(self).wf(),
        ensures
            (final(self)@, r) == remove_node(old(self)@, node),
    {
        if !self.contains(node) {
            return Err(HostError::BadHandle);
        }
        self.detach(node);
        proof {
            lemma_detached_well_formed(old(self)@, node);
        }
        self.remove_subtree(node);
        Ok(())
    }

    fn create_node(&mut self, node: NodeId, fresh: Node) -> (r: Result<(), HostError>)
        ensures
            (final(self)@, r) == create_node(old(self)@, node, fresh@),
    {
        if node.0 == ROOT {
            return Err(HostError::BadHandle);
        }
        self.put(node, fresh);
        Ok(())
    }

    /// Put back a node that was taken out.
    fn put_edited(&mut self, Ghost(before): Ghost<DomView>, node: NodeId, n: Node)
        requires
            before.nodes.contains_key(node.0),
            old(self)@ == (DomView { nodes: before.nodes.remove(node.0), ..before }),
        ensures
            (final(self)@, Ok::<(), HostError>(())) == edit_node(before, node, n@),
    {
        self.put(node, n);
        assert(self@ =~= edit_node(before, node, n@).0);
    }

    fn apply_op(&mut self, op: Op) -> (r: Result<(), HostError>)
        requires
            old(self).wf(),
        ensures
            (final(self)@, r) == apply_op(old(self)@, op@),
            final(self).wf(),
    {
        proof {
            law_ops_keep_trees_well_formed(self@, op@);
        }
        let ghost before = self@;
        match op {
            Op::BeginBatch { .. } => {},
            Op::EndBatch => {},
            Op::InternString { id, bytes } => {
                match string_from_utf8(bytes) {
                    Some(s) => {
                        proof {
                            lemma_map_values_insert(self.strings@, id.0, s, string_chars());
                        }
                        self.strings.insert(id.0, s);
                        assert(self@ =~= apply_op(before, op@).0);
                    },
                    None => {
                        return Err(HostError::Decode);
                    },
                }
            },
            Op::CreateElement { node, tag } => {
                let mut fresh = Node::default();
                fresh.tag = Some(tag);
                return self.create_node(node, fresh);
            },
            Op::CreateText { node, text } => {
                let value = self.resolve_str(text)?;
                let mut fresh = Node::default();
                fresh.text = Some(value);
                return self.create_node(node, fresh);
            },
            Op::InsertBefore { parent, child, anchor } => {
                return self.insert_before(parent, child, anchor);
            },
            Op::RemoveNode { node } => {
                return self.remove_node(node);
            },
            Op::SetText { node, text } => {
                let value = self.resolve_str(text)?;
                let mut n = self.take(node)?;
                n.text = Some(value);
                self.put_edited(Ghost(before), node, n);
            },
            Op::AddListener { node, event, handler } => {
                let mut n = self.take(node)?;
                n.listeners.push((event, handler));
                self.put_edited(Ghost(before), node, n);
            },
            Op::RemoveListener { node, event } => {
                let mut n = self.take(node)?;
                n.listeners = retain_other_events(&n.listeners, event);
                self.put_edited(Ghost(before), node, n);
            },
            Op::SetInlineStyle { node, prop, value } => {
                let value = self.resolve_str(value)?;
                let mut n = self.take(node)?;
                proof {
                    lemma_map_values_insert(n.styles@, prop.0, value, string_chars());
                }
                n.styles.insert(prop.0, value);
                self.put_edited(Ghost(before), node, n);
            },
            Op::SetClass { node, class } => {
                let name = self.resolve_str(class)?;
                let mut n = self.take(node)?;
                if !contains_string(&n.classes, &name) {
                    let ghost held = n.classes@;
                    n.classes.push(name);
                    assert(strings_chars(n.classes@) =~= strings_chars(held).push(name@));
                }
                self.put_edited(Ghost(before), node, n);
            },
            Op::RemoveClass { node, class } => {
                let name = self.resolve_str(class)?;
                let mut n = self.take(node)?;
                n.classes = retain_other_classes(&n.classes, &name);
                self.put_edited(Ghost(before), node, n);
            },
            Op::SetAttribute { node, attr, value } => {
                let value = self.resolve_str(value)?;
                let mut n = self.take(node)?;
                proof {
                    lemma_map_values_insert(n.attrs@, attr.0, value, string_chars());
                }
                n.attrs.insert(attr.0, value);
                self.put_edited(Ghost(before), node, n);
            },
            Op::SetTagName { node, name } => {
                let name = self.resolve_str(name)?;
                let mut n = self.take(node)?;
                n.tag_name = Some(name);
                self.put_edited(Ghost(before), node, n);
            },
            Op::DispatchEvent { .. } => {
                return Err(HostError::Decode);
            },
        }
        Ok(())
    }

    /// Set an inline style of a live node from the host's side, past any op-stream.
    pub fn set_inline_style(&mut self, node: NodeId, prop: PropId, value: String)
        requires
            old(self).wf(),
        ensures
            final(self)@ == with_style(old(self)@, node, prop, value@),
            final(self).wf(),
    {
        let ghost before = self@;
        match self.take(node) {
            Ok(n) => {
                let mut n = n;
                proof {
                    lemma_map_values_insert(n.styles@, prop.0, value, string_chars());
                }
                let ghost was = n@;
                n.styles.insert(prop.0, value);
                assert(n@ =~= NodeView { styles: was.styles.insert(prop.0, value@), ..was });
                self.put(node, n);
                assert(self@ =~= with_style(before, node, prop, value@));
            },
            Err(_) => {},
        }
        proof {
            lemma_with_style_well_formed(before, node, prop, value@);
        }
    }

    /// Decode and apply a batch, op by op, up to the first that is bad.
    pub fn apply(&mut self, ops: &[u8]) -> (r: Result<(), HostError>)
        requires
            old(self).wf(),
        ensures
            (final(self)@, r) == apply_bytes(old(self)@, ops@, 0),
            final(self).wf(),
    {
        let mut reader = OpReader::new(ops);
        loop
            invariant
                self.wf(),
                reader.bytes() == ops@,
                0 <= reader.position() <= ops@.len(),
                apply_bytes(old(self)@, ops@, 0) == apply_bytes(self@, ops@, reader.position()),
            decreases ops@.len() - reader.position(),
        {
            let ghost p = reader.position();
            match reader.next() {
                None => {
                    return Ok(());
                },
                Some(Err(_)) => {
                    return Err(HostError::Decode);
                },
                Some(Ok(op)) => {
                    proof {
                        lemma_parse_op_end(ops@, p);
                    }
                    self.apply_op(op)?;
                },
            }
        }
    }
}

} // verus!
