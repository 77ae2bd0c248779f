//! Virtual node trees, and how they are mounted and diffed into ops.
use crate::emitter::{
    emitted, emitter_wf, fresh_emitter, with_element, with_insert, with_set_text, with_text, batch_ops,
    Emitter, EmitterView,
};
use crate::handles::{ElementTag, NodeId};
use crate::protocol::{ops_bytes, OpView};
use vstd::prelude::*;

verus! {

/// A virtual node that the guest produces.
#[derive(Debug, PartialEq, Eq)]
pub enum VNode {
    /// An element with a kind and children.
    Element(VElement),
    /// A text leaf.
    Text(String),
}

/// An element vnode.
#[derive(Debug, PartialEq, Eq)]
pub struct VElement {
    /// Element kind.
    pub tag: ElementTag,
    /// Children.
    pub children: Vec<VNode>,
}

/// What a [`VNode`] says.
pub ghost enum VNodeView {
    Element { tag: ElementTag, children: Seq<VNodeView> },
    Text(Seq<char>),
}

/// What a vnode says.
pub open spec fn vnode_view(n: VNode) -> VNodeView
    decreases n,
{
    match n {
        VNode::Element(e) => VNodeView::Element {
            tag: e.tag,
            children: Seq::new(
                e.children@.len(),
                |i: int|
                    if 0 <= i < e.children@.len() {
                        vnode_view(e.children@[i])
                    } else {
                        arbitrary()
                    },
            ),
        },
        VNode::Text(s) => VNodeView::Text(s@),
    }
}

impl View for VNode {
    type V = VNodeView;

    open spec fn view(&self) -> VNodeView {
        vnode_view(*self)
    }
}

/// What the vnodes of a sequence say.
pub open spec fn vnodes_view(s: Seq<VNode>) -> Seq<VNodeView> {
    Seq::new(s.len(), |i: int| s[i]@)
}

fn clone_vnode(n: &VNode) -> (r: VNode)
    ensures
        r@ == n@,
    decreases *n,
{
    match n {
        VNode::Element(e) => {
            let children = clone_vnodes(&e.children);
            let r = VNode::Element(VElement { tag: e.tag, children });
            assert(r@->children =~= vnodes_view(children@));
            assert(n@->children =~= vnodes_view(e.children@));
            r
        },
        VNode::Text(s) => VNode::Text(s.clone()),
    }
}

fn clone_vnodes(ns: &Vec<VNode>) -> (r: Vec<VNode>)
    ensures
        vnodes_view(r@) == vnodes_view(ns@),
    decreases *ns,
{
    let mut r: Vec<VNode> = Vec::new();
    let mut i: usize = 0;
    while i < ns.len()
        invariant
            i <= ns@.len(),
            vnodes_view(r@) == vnodes_view(ns@.take(i as int)),
        decreases ns@.len() - i,
    {
        let ghost before = r@;
        r.push(clone_vnode(&ns[i]));
        assert(vnodes_view(r@) =~= vnodes_view(before).push(ns@[i as int]@));
        i += 1;
        assert(vnodes_view(r@) =~= vnodes_view(ns@.take(i as int)));
    }
    assert(ns@.take(i as int) =~= ns@);
    r
}

impl Clone for VNode {
    /// A vnode that says the same.
    fn clone(&self) -> (r: VNode)
        ensures
            r@ == self@,
    {
        clone_vnode(self)
    }
}

impl Clone for VElement {
    /// An element of the same kind whose children say the same.
    fn clone(&self) -> (r: VElement)
        ensures
            r.tag == self.tag,
            vnodes_view(r.children@) == vnodes_view(self.children@),
    {
        VElement { tag: self.tag, children: clone_vnodes(&self.children) }
    }
}

/// Build an element vnode.
pub fn element(tag: ElementTag, children: Vec<VNode>) -> (r: VNode)
    ensures
        r@ == (VNodeView::Element { tag, children: vnodes_view(children@) }),
{
    let r = VNode::Element(VElement { tag, children });
    assert(r@->children =~= vnodes_view(children@));
    r
}

/// Build a text vnode.
pub fn text(value: &str) -> (r: VNode)
    ensures
        r@ == VNodeView::Text(value@),
{
    VNode::Text(value.to_owned())
}

/// A mounted vnode: it remembers the host handles, so that the next frame can be diffed
/// against it.
#[derive(Debug, PartialEq, Eq)]
pub enum Rendered {
    /// A mounted element.
    Element {
        /// Host node handle.
        id: NodeId,
        /// Element kind.
        tag: ElementTag,
        /// Mounted children.
        children: Vec<Rendered>,
    },
    /// A mounted text node.
    Text {
        /// Host node handle.
        id: NodeId,
        /// Current text.
        value: String,
    },
}

/// What a [`Rendered`] says.
pub ghost enum RenderedView {
    Element { id: NodeId, tag: ElementTag, children: Seq<RenderedView> },
    Text { id: NodeId, value: Seq<char> },
}

/// What a mounted node says.
pub open spec fn rendered_view(r: Rendered) -> RenderedView
    decreases r,
{
    match r {
        Rendered::Element { id, tag, children } => RenderedView::Element {
            id,
            tag,
            children: Seq::new(
                children@.len(),
                |i: int|
                    if 0 <= i < children@.len() {
                        rendered_view(children@[i])
                    } else {
                        arbitrary()
                    },
            ),
        },
        Rendered::Text { id, value } => RenderedView::Text { id, value: value@ },
    }
}

impl View for Rendered {
    type V = RenderedView;

    open spec fn view(&self) -> RenderedView {
        rendered_view(*self)
    }
}

/// What the mounted nodes of a sequence say.
pub open spec fn rendereds_view(s: Seq<Rendered>) -> Seq<RenderedView> {
    Seq::new(s.len(), |i: int| s[i]@)
}

fn clone_rendered(n: &Rendered) -> (r: Rendered)
    ensures
        r@ == n@,
    decreases *n,
{
    match n {
        Rendered::Element { id, tag, children } => {
            let kids = clone_rendereds(children);
            let r = Rendered::Element { id: *id, tag: *tag, children: kids };
            assert(r@->Element_children =~= rendereds_view(kids@));
            assert(n@->Element_children =~= rendereds_view(children@));
            r
        },
        Rendered::Text { id, value } => Rendered::Text { id: *id, value: value.clone() },
    }
}

fn clone_rendereds(ns: &Vec<Rendered>) -> (r: Vec<Rendered>)
    ensures
        rendereds_view(r@) == rendereds_view(ns@),
    decreases *ns,
{
    let mut r: Vec<Rendered> = Vec::new();
    let mut i: usize = 0;
    while i < ns.len()
        invariant
            i <= ns@.len(),
            rendereds_view(r@) == rendereds_view(ns@.take(i as int)),
        decreases ns@.len() - i,
    {
        let ghost before = r@;
        r.push(clone_rendered(&ns[i]));
        assert(rendereds_view(r@) =~= rendereds_view(before).push(ns@[i as int]@));
        i += 1;
        assert(rendereds_view(r@) =~= rendereds_view(ns@.take(i as int)));
    }
    assert(ns@.take(i as int) =~= ns@);
    r
}

impl Clone for Rendered {
    /// A mounted node that says the same, with the same handles.
    fn clone(&self) -> (r: Rendered)
        ensures
            r@ == self@,
    {
        clone_rendered(self)
    }
}

impl RenderedView {
    /// The host handle of a mounted node.
    pub open spec fn id(self) -> NodeId {
        match self {
            RenderedView::Element { id, .. } => id,
            RenderedView::Text { id, .. } => id,
        }
    }
}

impl Rendered {
    /// The host handle of this node.
    pub fn id(&self) -> (r: NodeId)
        ensures
            r == self@.id(),
    {
        match self {
            Rendered::Element { id, .. } => *id,
            Rendered::Text { id, .. } => *id,
        }
    }
}

/// Mount a vnode under `parent` before `anchor`: create it, insert it, then mount its children
/// under it in order.
pub open spec fn mounted(e: EmitterView, n: VNodeView, parent: NodeId, anchor: NodeId) -> (
    EmitterView,
    RenderedView,
)
    decreases n,
{
    let id = NodeId(e.next_node);
    match n {
        VNodeView::Element { tag, children } => {
            let (out, kids) = mounted_all(
                with_insert(with_element(e, tag), parent, id, anchor),
                children,
                id,
            );
            (out, RenderedView::Element { id, tag, children: kids })
        },
        VNodeView::Text(s) => (
            with_insert(with_text(e, s), parent, id, anchor),
            RenderedView::Text { id, value: s },
        ),
    }
}

/// Mount vnodes one after the other at the end of the children of `parent`.
pub open spec fn mounted_all(e: EmitterView, ns: Seq<VNodeView>, parent: NodeId) -> (
    EmitterView,
    Seq<RenderedView>,
)
    decreases ns,
{
    if ns.len() == 0 {
        (e, seq![])
    } else {
        let (mid, kids) = mounted_all(e, ns.drop_last(), parent);
        let (out, kid) = mounted(mid, ns.last(), parent, NodeId(NodeId::NULL));
        (out, kids.push(kid))
    }
}

/// Replace the mounted node `prev` by a vnode: mount it before the node that it replaces, then
/// remove that one with everything below it.
pub open spec fn replaced(e: EmitterView, prev: NodeId, next: VNodeView, parent: NodeId) -> (
    EmitterView,
    RenderedView,
) {
    let (out, r) = mounted(e, next, parent, prev);
    (emitted(out, OpView::RemoveNode { node: prev }), r)
}

/// Bring a mounted node up to date with a vnode. An element of the same kind and with as many
/// children is kept and its children are brought up to date; a text node is kept and its text
/// is sent if it changed; anything else is replaced.
pub open spec fn diffed(e: EmitterView, prev: RenderedView, next: VNodeView, parent: NodeId) -> (
    EmitterView,
    RenderedView,
)
    decreases next,
{
    match (prev, next) {
        (
            RenderedView::Element { id, tag, children },
            VNodeView::Element { tag: next_tag, children: ns },
        ) => if tag == next_tag && children.len() == ns.len() {
            let (out, kids) = diffed_all(e, children, ns, id);
            (out, RenderedView::Element { id, tag, children: kids })
        } else {
            replaced(e, id, next, parent)
        },
        (RenderedView::Text { id, value }, VNodeView::Text(s)) => (
            if value != s {
                with_set_text(e, id, s)
            } else {
                e
            },
            RenderedView::Text { id, value: s },
        ),
        _ => replaced(e, prev.id(), next, parent),
    }
}

/// Bring mounted nodes up to date with vnodes, pair by pair.
pub open spec fn diffed_all(
    e: EmitterView,
    prevs: Seq<RenderedView>,
    ns: Seq<VNodeView>,
    parent: NodeId,
) -> (EmitterView, Seq<RenderedView>)
    decreases ns,
{
    if ns.len() == 0 || prevs.len() != ns.len() {
        (e, seq![])
    } else {
        let (mid, kids) = diffed_all(e, prevs.drop_last(), ns.drop_last(), parent);
        let (out, kid) = diffed(mid, prevs.last(), ns.last(), parent);
        (out, kids.push(kid))
    }
}

/// How many nodes a vnode tree has.
pub open spec fn vnode_count(n: VNodeView) -> nat
    decreases n,
{
    match n {
        VNodeView::Element { tag, children } => 1 + vnodes_count(children),
        VNodeView::Text(_) => 1,
    }
}

/// How many nodes the vnode trees of a sequence have together.
pub open spec fn vnodes_count(ns: Seq<VNodeView>) -> nat
    decreases ns,
{
    if ns.len() == 0 {
        0
    } else {
        vnodes_count(ns.drop_last()) + vnode_count(ns.last())
    }
}

/// Whether an emitter has handles and string ids left for `count` more nodes.
pub open spec fn has_room(e: EmitterView, count: nat) -> bool {
    &&& emitter_wf(e)
    &&& e.next_node + count <= u64::MAX
    &&& e.strings.len() + count <= u32::MAX
}

/// Whether `out` is an emitter that came from `e` by creating at most `count` nodes.
pub open spec fn grown(e: EmitterView, out: EmitterView, count: nat) -> bool {
    &&& emitter_wf(out)
    &&& e.next_node <= out.next_node <= e.next_node + count
    &&& e.strings.len() <= out.strings.len() <= e.strings.len() + count
}

proof fn lemma_vnodes_count_take(ns: Seq<VNodeView>, i: int)
    requires
        0 <= i < ns.len(),
    ensures
        vnodes_count(ns.take(i + 1)) == vnodes_count(ns.take(i)) + vnode_count(ns[i]),
        vnodes_count(ns.take(i + 1)) <= vnodes_count(ns),
    decreases ns.len() - i,
{
    assert(ns.take(i + 1).drop_last() =~= ns.take(i));
    if i + 1 == ns.len() {
        assert(ns.take(i + 1) =~= ns);
    } else {
        lemma_vnodes_count_take(ns, i + 1);
    }
}

pub proof fn lemma_mounted_grows(e: EmitterView, n: VNodeView, parent: NodeId, anchor: NodeId)
    requires
        has_room(e, vnode_count(n)),
    ensures
        grown(e, mounted(e, n, parent, anchor).0, vnode_count(n)),
        mounted(e, n, parent, anchor).0.next_node == e.next_node + vnode_count(n),
    decreases n,
{
    match n {
        VNodeView::Element { tag, children } => {
            let id = NodeId(e.next_node);
            lemma_mounted_all_grows(
                with_insert(with_element(e, tag), parent, id, anchor),
                children,
                id,
            );
        },
        VNodeView::Text(s) => {},
    }
}

pub proof fn lemma_mounted_all_grows(e: EmitterView, ns: Seq<VNodeView>, parent: NodeId)
    requires
        has_room(e, vnodes_count(ns)),
    ensures
        grown(e, mounted_all(e, ns, parent).0, vnodes_count(ns)),
        mounted_all(e, ns, parent).0.next_node == e.next_node + vnodes_count(ns),
    decreases ns,
{
    if ns.len() > 0 {
        lemma_mounted_all_grows(e, ns.drop_last(), parent);
        let mid = mounted_all(e, ns.drop_last(), parent).0;
        lemma_mounted_grows(mid, ns.last(), parent, NodeId(NodeId::NULL));
    }
}

pub proof fn lemma_diffed_grows(e: EmitterView, prev: RenderedView, next: VNodeView, parent: NodeId)
    requires
        has_room(e, vnode_count(next)),
    ensures
        grown(e, diffed(e, prev, next, parent).0, vnode_count(next)),
    decreases next,
{
    match (prev, next) {
        (
            RenderedView::Element { id, tag, children },
            VNodeView::Element { tag: next_tag, children: ns },
        ) => {
            if tag == next_tag && children.len() == ns.len() {
                lemma_diffed_all_grows(e, children, ns, id);
            } else {
                lemma_mounted_grows(e, next, parent, prev.id());
            }
        },
        (RenderedView::Text { id, value }, VNodeView::Text(s)) => {},
        _ => {
            lemma_mounted_grows(e, next, parent, prev.id());
        },
    }
}

pub proof fn lemma_diffed_all_grows(
    e: EmitterView,
    prevs: Seq<RenderedView>,
    ns: Seq<VNodeView>,
    parent: NodeId,
)
    requires
        has_room(e, vnodes_count(ns)),
    ensures
        grown(e, diffed_all(e, prevs, ns, parent).0, vnodes_count(ns)),
    decreases ns,
{
    if ns.len() > 0 && prevs.len() == ns.len() {
        lemma_diffed_all_grows(e, prevs.drop_last(), ns.drop_last(), parent);
        let mid = diffed_all(e, prevs.drop_last(), ns.drop_last(), parent).0;
        lemma_diffed_grows(mid, prevs.last(), ns.last(), parent);
    }
}

/// Mounts vnode trees and diffs them against what is mounted.
pub struct Reconciler {
    emitter: Emitter,
}

impl View for Reconciler {
    type V = EmitterView;

    closed spec fn view(&self) -> EmitterView {
        self.emitter@
    }
}

impl Default for Reconciler {
    fn default() -> (r: Reconciler)
        ensures
            r@ == fresh_emitter(),
    {
        Reconciler::new()
    }
}

impl Reconciler {
    /// A reconciler that has mounted nothing.
    pub fn new() -> (r: Reconciler)
        ensures
            r@ == fresh_emitter(),
    {
        Reconciler { emitter: Emitter::new() }
    }

    /// Mount `node` under `root_parent`: the mounted tree, and the bytes of the batch that
    /// builds it. There must be a handle and a string id left for each node.
    pub fn mount(&mut self, root_parent: NodeId, node: &VNode) -> (r: (Rendered, Vec<u8>))
        requires
            has_room(old(self)@, vnode_count(node@)),
        ensures
            ({
                let (out, tree) = mounted(old(self)@, node@, root_parent, NodeId(NodeId::NULL));
                &&& r.0@ == tree
                &&& r.1@ == ops_bytes(batch_ops(out, 0))
                &&& final(self)@ == EmitterView { pending: seq![], ..out }
            }),
            grown(old(self)@, final(self)@, vnode_count(node@)),
    {
        proof {
            lemma_mounted_grows(self@, node@, root_parent, NodeId(NodeId::NULL));
        }
        let rendered = self.mount_node(node, root_parent, NodeId::null());
        let bytes = self.emitter.take_batch(0);
        (rendered, bytes)
    }

    /// Diff the mounted `prev` against `next`, both under `root_parent`: the new mounted tree,
    /// and the bytes of the batch that makes the change. There must be a handle and a string id
    /// left for each node.
    pub fn diff(&mut self, prev: Rendered, next: &VNode, root_parent: NodeId, seq: u32) -> (r: (
        Rendered,
        Vec<u8>,
    ))
        requires
            has_room(old(self)@, vnode_count(next@)),
        ensures
            ({
                let (out, tree) = diffed(old(self)@, prev@, next@, root_parent);
                &&& r.0@ == tree
                &&& r.1@ == ops_bytes(batch_ops(out, seq))
                &&& final(self)@ == EmitterView { pending: seq![], ..out }
            }),
            grown(old(self)@, final(self)@, vnode_count(next@)),
    {
        proof {
            lemma_diffed_grows(self@, prev@, next@, root_parent);
        }
        let rendered = self.diff_node(prev, next, root_parent);
        let bytes = self.emitter.take_batch(seq);
        (rendered, bytes)
    }

    fn mount_node(&mut self, node: &VNode, parent: NodeId, anchor: NodeId) -> (r: Rendered)
        requires
            has_room(old(self)@, vnode_count(node@)),
        ensures
            (final(self)@, r@) == mounted(old(self)@, node@, parent, anchor),
        decreases *node,
    {
        match node {
            VNode::Element(ve) => {
                let ghost ns = node@->children;
                assert(ns =~= vnodes_view(ve.children@));
                let id = self.emitter.create_element(ve.tag);
                self.emitter.insert(parent, id, anchor);
                let children = self.mount_children(&ve.children, id);
                let r = Rendered::Element { id, tag: ve.tag, children };
                assert(r@->Element_children =~= rendereds_view(children@));
                r
            },
            VNode::Text(s) => {
                let id = self.emitter.create_text(s.as_str());
                self.emitter.insert(parent, id, anchor);
                Rendered::Text { id, value: s.clone() }
            },
        }
    }

    fn mount_children(&mut self, nodes: &Vec<VNode>, parent: NodeId) -> (r: Vec<Rendered>)
        requires
            has_room(old(self)@, vnodes_count(vnodes_view(nodes@))),
        ensures
            (final(self)@, rendereds_view(r@)) == mounted_all(
                old(self)@,
                vnodes_view(nodes@),
                parent,
            ),
        decreases *nodes,
    {
        let ghost ns = vnodes_view(nodes@);
        let ghost start = self@;
        let mut kids: Vec<Rendered> = Vec::new();
        let mut i: usize = 0;
        assert(rendereds_view(kids@) =~= seq![]);
        while i < nodes.len()
            invariant
                ns == vnodes_view(nodes@),
                i <= nodes@.len(),
                has_room(start, vnodes_count(ns)),
                (self@, rendereds_view(kids@)) == mounted_all(start, ns.take(i as int), parent),
            decreases nodes@.len() - i,
        {
            let ghost before = kids@;
            proof {
                lemma_vnodes_count_take(ns, i as int);
                lemma_mounted_all_grows(start, ns.take(i as int), parent);
                assert(ns.take(i + 1).drop_last() =~= ns.take(i as int));
                assert(ns.take(i + 1).last() == nodes@[i as int]@);
            }
            let kid = self.mount_node(&nodes[i], parent, NodeId::null());
            kids.push(kid);
            assert(rendereds_view(kids@) =~= rendereds_view(before).push(kid@));
            i += 1;
        }
        assert(ns.take(i as int) =~= ns);
        kids
    }

    fn replace_node(&mut self, prev: NodeId, next: &VNode, parent: NodeId) -> (r: Rendered)
        requires
            has_room(old(self)@, vnode_count(next@)),
        ensures
            (final(self)@, r@) == replaced(old(self)@, prev, next@, parent),
    {
        proof {
            lemma_mounted_grows(self@, next@, parent, prev);
        }
        let r = self.mount_node(next, parent, prev);
        self.emitter.remove(prev);
        r
    }

    fn diff_node(&mut self, prev: Rendered, next: &VNode, parent: NodeId) -> (r: Rendered)
        requires
            has_room(old(self)@, vnode_count(next@)),
        ensures
            (final(self)@, r@) == diffed(old(self)@, prev@, next@, parent),
        decreases *next,
    {
        match prev {
            Rendered::Element { id, tag, children } => {
                if let VNode::Element(ve) = next {
                    if tag == ve.tag && children.len() == ve.children.len() {
                        let ghost ns = next@->children;
                        let ghost prevs = prev@->Element_children;
                        assert(ns =~= vnodes_view(ve.children@));
                        assert(prevs =~= rendereds_view(children@));
                        let kids = self.diff_children(children, &ve.children, id);
                        let r = Rendered::Element { id, tag, children: kids };
                        assert(r@->Element_children =~= rendereds_view(kids@));
                        return r;
                    }
                }
                self.replace_node(id, next, parent)
            },
            Rendered::Text { id, value } => {
                if let VNode::Text(s) = next {
                    if value != *s {
                        self.emitter.set_text(id, s.as_str());
                    }
                    return Rendered::Text { id, value: s.clone() };
                }
                self.replace_node(id, next, parent)
            },
        }
    }

    fn diff_children(&mut self, prevs: Vec<Rendered>, nexts: &Vec<VNode>, parent: NodeId) -> (r:
        Vec<Rendered>)
        requires
            prevs@.len() == nexts@.len(),
            has_room(old(self)@, vnodes_count(vnodes_view(nexts@))),
        ensures
            (final(self)@, rendereds_view(r@)) == diffed_all(
                old(self)@,
                rendereds_view(prevs@),
                vnodes_view(nexts@),
                parent,
            ),
        decreases *nexts,
    {
        let ghost ns = vnodes_view(nexts@);
        let ghost olds = rendereds_view(prevs@);
        let ghost start = self@;
        let mut kids: Vec<Rendered> = Vec::new();
        let mut left = prevs;
        let mut i: usize = 0;
        assert(rendereds_view(kids@) =~= seq![]);
        assert(left@ =~= prevs@.skip(0));
        while i < nexts.len()
            invariant
                i <= nexts@.len(),
                ns == vnodes_view(nexts@),
                olds == rendereds_view(prevs@),
                prevs@.len() == nexts@.len(),
                left@ == prevs@.skip(i as int),
                has_room(start, vnodes_count(ns)),
                (self@, rendereds_view(kids@)) == diffed_all(
                    start,
                    olds.take(i as int),
                    ns.take(i as int),
                    parent,
                ),
            decreases nexts@.len() - i,
        {
            let ghost before = kids@;
            proof {
                lemma_vnodes_count_take(ns, i as int);
                lemma_diffed_all_grows(start, olds.take(i as int), ns.take(i as int), parent);
                assert(ns.take(i + 1).drop_last() =~= ns.take(i as int));
                assert(olds.take(i + 1).drop_last() =~= olds.take(i as int));
                assert(ns.take(i + 1).last() == nexts@[i as int]@);
                assert(olds.take(i + 1).last() == prevs@[i as int]@);
            }
            let prev = left.remove(0);
            assert(left@ =~= prevs@.skip(i + 1));
            let kid = self.diff_node(prev, &nexts[i], parent);
            kids.push(kid);
            assert(rendereds_view(kids@) =~= rendereds_view(before).push(kid@));
            i += 1;
        }
        assert(ns.take(i as int) =~= ns);
        assert(olds.take(i as int) =~= olds);
        kids
    }
}

/// A mounted node is kept where it is of the same kind as the vnode: two texts, or two elements of the
/// same tag and with as many children. Then its handle stays; else the node that replaces it has the
/// next handle. A text that stays the same sends nothing, and one that changes sends its new text.
pub proof fn law_like_nodes_keep_their_handles(
    e: EmitterView,
    prev: RenderedView,
    next: VNodeView,
    parent: NodeId,
)
    ensures
        ({
            let (out, r) = diffed(e, prev, next, parent);
            let texts = prev is Text && next is Text;
            let elements = prev is Element && next is Element && prev->tag == next->tag
                && prev->Element_children.len() == next->children.len();
            &&& texts || elements ==> r.id() == prev.id()
            &&& !texts && !elements ==> r.id() == NodeId(e.next_node) && out.pending.last() == (
            OpView::RemoveNode { node: prev.id() })
            &&& texts && prev->value == next->Text_0 ==> out == e
            &&& texts && prev->value != next->Text_0 ==> out == with_set_text(
                e,
                prev.id(),
                next->Text_0,
            )
        }),
{
}

} // verus!
