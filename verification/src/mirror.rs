//! What the reconciler promises of the host: mounting builds the tree on the host, and diffing
//! brings it up to date, whatever the next frame is.
use crate::emitter::{
    allocated, batch_ops, emitted, emitter_wf, interned, string_id, with_element, with_insert, with_set_text,
    with_text, EmitterView,
};
use crate::handles::{ElementTag, NodeId, StrId, ROOT};
use crate::protocol::{op_fits, ops_bytes, OpView};
use crate::reconciler::{
    diffed, diffed_all, has_room, lemma_diffed_all_grows, lemma_mounted_all_grows, lemma_mounted_grows,
    mounted, mounted_all, replaced, vnode_count, vnodes_count, RenderedView, VNodeView,
};
use crate::seqs::{lemma_filter_absent, lemma_filter_push};
use crate::tree::{
    acyclic, adopted, apply_bytes, apply_op, apply_ops, detached, kids,
    law_ops_compose, law_ops_keep_trees_orderly, law_ops_keep_trees_well_formed, law_reaches_unfolds,
    lemma_child_is_lower, lemma_reached_is_not_higher, lemma_removal_effect, orderly, other_than, reaches,
    remove_node, siblings, well_formed, with_siblings, without, DomView, NodeView,
};
use vstd::prelude::*;
use vstd::utf8::{encode_utf8, encode_utf8_decode_utf8, encode_utf8_valid_utf8};

verus! {

/// What a mounted tree shows, without its handles.
pub open spec fn shape(r: RenderedView) -> VNodeView
    decreases r,
{
    match r {
        RenderedView::Element { id, tag, children } => VNodeView::Element {
            tag,
            children: Seq::new(
                children.len(),
                |i: int|
                    if 0 <= i < children.len() {
                        shape(children[i])
                    } else {
                        arbitrary()
                    },
            ),
        },
        RenderedView::Text { id, value } => VNodeView::Text(value),
    }
}

/// What mounted trees show.
pub open spec fn shapes(rs: Seq<RenderedView>) -> Seq<VNodeView> {
    Seq::new(rs.len(), |i: int| shape(rs[i]))
}

/// Mounting yields a tree that shows what the vnode says.
pub proof fn law_mounting_shows_the_vnode(e: EmitterView, n: VNodeView, parent: NodeId, anchor: NodeId)
    ensures
        shape(mounted(e, n, parent, anchor).1) == n,
    decreases n,
{
    if let VNodeView::Element { tag, children } = n {
        let id = NodeId(e.next_node);
        let start = with_insert(with_element(e, tag), parent, id, anchor);
        lemma_mounting_shows_all(start, children, id);
        let kids = mounted_all(start, children, id).1;
        assert(shape(mounted(e, n, parent, anchor).1)->children =~= shapes(kids));
    }
}

proof fn lemma_mounting_shows_all(e: EmitterView, ns: Seq<VNodeView>, parent: NodeId)
    ensures
        shapes(mounted_all(e, ns, parent).1) == ns,
    decreases ns,
{
    if ns.len() > 0 {
        lemma_mounting_shows_all(e, ns.drop_last(), parent);
        let (mid, kids) = mounted_all(e, ns.drop_last(), parent);
        law_mounting_shows_the_vnode(mid, ns.last(), parent, NodeId(NodeId::NULL));
        assert(shapes(mounted_all(e, ns, parent).1) =~= shapes(kids).push(ns.last()));
        assert(ns =~= ns.drop_last().push(ns.last()));
    } else {
        assert(shapes(mounted_all(e, ns, parent).1) =~= ns);
    }
}

/// Diffing yields a tree that shows what the new vnode says, whatever was mounted before.
pub proof fn law_diffing_shows_the_vnode(
    e: EmitterView,
    prev: RenderedView,
    next: VNodeView,
    parent: NodeId,
)
    ensures
        shape(diffed(e, prev, next, parent).1) == next,
    decreases next,
{
    match (prev, next) {
        (
            RenderedView::Element { id, tag, children },
            VNodeView::Element { tag: next_tag, children: ns },
        ) => {
            if tag == next_tag && children.len() == ns.len() {
                lemma_diffing_shows_all(e, children, ns, id);
                let kids = diffed_all(e, children, ns, id).1;
                assert(shape(diffed(e, prev, next, parent).1)->children =~= shapes(kids));
            } else {
                law_mounting_shows_the_vnode(e, next, parent, prev.id());
            }
        },
        (RenderedView::Text { id, value }, VNodeView::Text(s)) => {},
        _ => {
            law_mounting_shows_the_vnode(e, next, parent, prev.id());
        },
    }
}

proof fn lemma_diffing_shows_all(
    e: EmitterView,
    prevs: Seq<RenderedView>,
    ns: Seq<VNodeView>,
    parent: NodeId,
)
    requires
        prevs.len() == ns.len(),
    ensures
        shapes(diffed_all(e, prevs, ns, parent).1) == ns,
    decreases ns,
{
    if ns.len() > 0 {
        lemma_diffing_shows_all(e, prevs.drop_last(), ns.drop_last(), parent);
        let (mid, kids) = diffed_all(e, prevs.drop_last(), ns.drop_last(), parent);
        law_diffing_shows_the_vnode(mid, prevs.last(), ns.last(), parent);
        assert(shapes(diffed_all(e, prevs, ns, parent).1) =~= shapes(kids).push(ns.last()));
        assert(ns =~= ns.drop_last().push(ns.last()));
    } else {
        assert(shapes(diffed_all(e, prevs, ns, parent).1) =~= ns);
    }
}

/// A frame that shows what is mounted emits nothing and keeps every handle.
pub proof fn law_identical_frame_emits_nothing(e: EmitterView, prev: RenderedView, parent: NodeId)
    ensures
        diffed(e, prev, shape(prev), parent) == (e, prev),
    decreases prev,
{
    if let RenderedView::Element { id, tag, children } = prev {
        assert(shape(prev)->children =~= shapes(children));
        lemma_identical_frames_emit_nothing(e, children, id);
    }
}

proof fn lemma_identical_frames_emit_nothing(
    e: EmitterView,
    prevs: Seq<RenderedView>,
    parent: NodeId,
)
    ensures
        diffed_all(e, prevs, shapes(prevs), parent) == (e, prevs),
    decreases prevs,
{
    if prevs.len() > 0 {
        lemma_identical_frames_emit_nothing(e, prevs.drop_last(), parent);
        assert(shapes(prevs).drop_last() =~= shapes(prevs.drop_last()));
        law_identical_frame_emits_nothing(e, prevs.last(), parent);
        assert(prevs.drop_last().push(prevs.last()) =~= prevs);
    } else {
        assert(prevs =~= seq![]);
    }
}

// ---------------------------------------------------------------------------------------
// The host's side.
// ---------------------------------------------------------------------------------------

/// Whether the host tree shows a mounted tree: each node is there under its handle, with its
/// kind or text, and lists its children in order.
pub open spec fn mirrors(d: DomView, r: RenderedView) -> bool
    decreases r,
{
    match r {
        RenderedView::Element { id, tag, children } => {
            &&& d.nodes.contains_key(id.0)
            &&& d.nodes[id.0].tag == Some(tag)
            &&& d.nodes[id.0].text is None
            &&& d.nodes[id.0].children == ids(children)
            &&& forall|i: int| 0 <= i < children.len() ==> mirrors(d, #[trigger] children[i])
        },
        RenderedView::Text { id, value } => {
            &&& d.nodes.contains_key(id.0)
            &&& d.nodes[id.0].tag is None
            &&& d.nodes[id.0].text == Some(value)
            &&& d.nodes[id.0].children.len() == 0
        },
    }
}

/// The handles of mounted nodes.
pub open spec fn ids(rs: Seq<RenderedView>) -> Seq<NodeId> {
    Seq::new(rs.len(), |i: int| rs[i].id())
}

/// Whether every handle in a mounted tree lies between `lo` and `hi`.
pub open spec fn within(r: RenderedView, lo: u64, hi: u64) -> bool
    decreases r,
{
    &&& lo <= r.id().0 < hi
    &&& match r {
        RenderedView::Element { id, tag, children } => forall|i: int|
            0 <= i < children.len() ==> within(#[trigger] children[i], lo, hi),
        RenderedView::Text { id, value } => true,
    }
}

/// Whether the host has `s` interned under the id `i`.
pub open spec fn knows(d: DomView, i: int, s: Seq<char>) -> bool {
    d.strings.contains_key(i as u32) && d.strings[i as u32] == s
}

/// Whether the host, once it has all that was emitted so far, agrees with the emitter: its tree is
/// well formed and orderly, it knows every interned string, and no handle that is still to be
/// handed out occurs in its tree.
pub open spec fn in_step(e: EmitterView, d: DomView) -> bool {
    &&& well_formed(d)
    &&& orderly(d)
    &&& forall|i: int| 0 <= i < e.strings.len() ==> #[trigger] knows(d, i, e.strings[i])
    &&& forall|k: u64| #[trigger] d.nodes.contains_key(k) ==> k < e.next_node
}

/// The ops that were emitted between `e` and `out`.
pub open spec fn news(e: EmitterView, out: EmitterView) -> Seq<OpView> {
    out.pending.skip(e.pending.len() as int)
}

/// Whether two trees hold the same under the raw handle `k`.
pub open spec fn same_at(d: DomView, after: DomView, k: u64) -> bool {
    &&& after.nodes.contains_key(k) == d.nodes.contains_key(k)
    &&& d.nodes.contains_key(k) ==> after.nodes[k] == d.nodes[k]
}

/// A list of children with `n` put before `anchor`, or at its end for the null handle.
pub open spec fn placed(line: Seq<NodeId>, n: NodeId, anchor: NodeId) -> Seq<NodeId> {
    if anchor.0 == NodeId::NULL {
        line.push(n)
    } else {
        line.insert(line.index_of_first(anchor)->0, n)
    }
}

/// Whether `anchor` is a place under `parent`: one of its children, or the null handle for the end.
pub open spec fn is_place(d: DomView, parent: NodeId, anchor: NodeId) -> bool {
    &&& parent.0 == ROOT || d.nodes.contains_key(parent.0)
    &&& anchor.0 == NodeId::NULL || siblings(d, parent).contains(anchor)
}

/// Whether the host, given the ops emitted between `e` and `out`, accepts them all and goes
/// from `d` to `after`, in step with the emitter again.
pub open spec fn follows(e: EmitterView, d: DomView, out: EmitterView, after: DomView) -> bool {
    &&& out.pending == e.pending + news(e, out)
    &&& apply_ops(d, news(e, out)) == (after, Ok::<(), crate::tree::HostError>(()))
    &&& in_step(out, after)
    &&& e.next_node <= out.next_node
}

/// Whether the children of `parent` become `line`, and nothing else of it changes.
pub open spec fn relists(d: DomView, after: DomView, parent: NodeId, line: Seq<NodeId>) -> bool {
    &&& siblings(after, parent) == line
    &&& parent.0 != ROOT ==> after.nodes.contains_key(parent.0) && after.nodes[parent.0] == (
    NodeView { children: after.nodes[parent.0].children, ..d.nodes[parent.0] }) && after.roots
        == d.roots
}

/// Whether the host follows from `d` to `after`, where `parent` has the children `line`, every
/// other older node is as it was, and each handle that was handed out is a new node.
pub open spec fn grows(
    e: EmitterView,
    d: DomView,
    out: EmitterView,
    after: DomView,
    parent: NodeId,
    line: Seq<NodeId>,
) -> bool {
    &&& follows(e, d, out, after)
    &&& relists(d, after, parent, line)
    &&& forall|k: u64| k < e.next_node && k != parent.0 ==> #[trigger] same_at(d, after, k)
    &&& forall|k: u64| #[trigger]
        after.nodes.contains_key(k) <==> d.nodes.contains_key(k) || e.next_node <= k
            < out.next_node
}

proof fn lemma_follows_compose(
    e: EmitterView,
    d: DomView,
    mid: EmitterView,
    between: DomView,
    out: EmitterView,
    after: DomView,
)
    requires
        follows(e, d, mid, between),
        follows(mid, between, out, after),
    ensures
        follows(e, d, out, after),
{
    assert(out.pending =~= e.pending + (news(e, mid) + news(mid, out)));
    assert(news(e, out) =~= news(e, mid) + news(mid, out));
    law_ops_compose(d, news(e, mid), news(mid, out));
}

proof fn lemma_follows_nothing(e: EmitterView, d: DomView)
    requires
        in_step(e, d),
    ensures
        follows(e, d, e, d),
{
    assert(news(e, e) =~= Seq::<OpView>::empty());
    assert(e.pending =~= e.pending + news(e, e));
}

proof fn lemma_grows_compose(
    e: EmitterView,
    d: DomView,
    mid: EmitterView,
    between: DomView,
    out: EmitterView,
    after: DomView,
    parent: NodeId,
    first: Seq<NodeId>,
    then: Seq<NodeId>,
)
    requires
        grows(e, d, mid, between, parent, first),
        grows(mid, between, out, after, parent, then),
    ensures
        grows(e, d, out, after, parent, then),
{
    lemma_follows_compose(e, d, mid, between, out, after);
    assert forall|k: u64| k < e.next_node && k != parent.0 implies #[trigger] same_at(
        d,
        after,
        k,
    ) by {
        assert(same_at(d, between, k));
        assert(same_at(between, after, k));
    }
    assert forall|k: u64| #[trigger] after.nodes.contains_key(k) <==> d.nodes.contains_key(k)
        || e.next_node <= k < out.next_node by {
        assert(after.nodes.contains_key(k) <==> between.nodes.contains_key(k) || mid.next_node <= k
            < out.next_node);
        assert(between.nodes.contains_key(k) <==> d.nodes.contains_key(k) || e.next_node <= k
            < mid.next_node);
    }
}

proof fn lemma_one_op(d: DomView, op: OpView)
    requires
        apply_op(d, op).1 is Ok,
    ensures
        apply_ops(d, seq![op]) == apply_op(d, op),
{
    let after = apply_op(d, op).0;
    assert(seq![op].drop_first() =~= Seq::<OpView>::empty());
    assert(apply_ops(after, Seq::<OpView>::empty()) == (after, Ok::<(), crate::tree::HostError>(())));
}

proof fn lemma_two_ops(d: DomView, a: OpView, b: OpView)
    requires
        apply_op(d, a).1 is Ok,
        apply_op(apply_op(d, a).0, b).1 is Ok,
    ensures
        apply_ops(d, seq![a, b]) == apply_op(apply_op(d, a).0, b),
{
    lemma_one_op(d, a);
    lemma_one_op(apply_op(d, a).0, b);
    law_ops_compose(d, seq![a], seq![b]);
    assert(seq![a] + seq![b] =~= seq![a, b]);
}

/// Creating a node under a new handle and placing it under `parent`.
proof fn lemma_create_and_place(
    e: EmitterView,
    d: DomView,
    create: OpView,
    fresh: NodeView,
    parent: NodeId,
    anchor: NodeId,
)
    requires
        emitter_wf(e),
        e.next_node < u64::MAX,
        in_step(e, d),
        is_place(d, parent, anchor),
        create is CreateElement && create->CreateElement_node == NodeId(e.next_node)
            || create is CreateText && create->CreateText_node == NodeId(e.next_node),
        apply_op(d, create) == crate::tree::create_node(d, NodeId(e.next_node), fresh),
        fresh.children.len() == 0,
        fresh.parent is None,
        fresh.classes.len() == 0,
    ensures
        ({
            let id = NodeId(e.next_node);
            let out = with_insert(emitted(allocated(e), create), parent, id, anchor);
            let made = apply_op(d, create).0;
            let insert = OpView::InsertBefore { parent, child: id, anchor };
            let after = apply_op(made, insert).0;
            &&& grows(e, d, out, after, parent, placed(siblings(d, parent), id, anchor))
            &&& after.nodes.contains_key(id.0)
            &&& after.nodes[id.0] == NodeView {
                parent: if parent.0 == ROOT {
                    None
                } else {
                    Some(parent)
                },
                ..fresh
            }
        }),
{
    let id = NodeId(e.next_node);
    let made = apply_op(d, create).0;
    let insert = OpView::InsertBefore { parent, child: id, anchor };
    let after = apply_op(made, insert).0;
    let out = with_insert(emitted(allocated(e), create), parent, id, anchor);
    assert(made.nodes == d.nodes.insert(id.0, fresh));
    assert(!d.nodes.contains_key(id.0));
    law_ops_keep_trees_well_formed(d, create);
    law_ops_keep_trees_well_formed(made, insert);
    law_ops_keep_trees_orderly(d, create);
    law_ops_keep_trees_orderly(made, insert);
    // The new node closes no cycle.
    if parent.0 != ROOT {
        assert(parent.0 < id.0);
        law_reaches_unfolds(made.nodes, id, parent);
        assert(kids(made.nodes, id).len() == 0);
    }
    // It was nowhere to be detached from.
    assert forall|i: int| 0 <= i < made.roots.len() implies other_than(id)(
        #[trigger] made.roots[i],
    ) by {
        assert(siblings(d, NodeId(ROOT)).contains(d.roots[i]));
    }
    lemma_filter_absent(made.roots, other_than(id));
    let moved = adopted(detached(made, id), id, parent);
    assert(detached(made, id) =~= made);
    let line = siblings(moved, parent);
    assert(line == siblings(d, parent));
    line.index_of_first_ensures(anchor);
    assert(after == with_siblings(moved, parent, placed(line, id, anchor)));
    // What was sent.
    assert(news(e, out) =~= seq![create, insert]);
    assert(out.pending =~= e.pending + news(e, out));
    lemma_two_ops(d, create, insert);
    // The host is in step again.
    assert forall|i: int| 0 <= i < out.strings.len() implies #[trigger] knows(
        after,
        i,
        out.strings[i],
    ) by {
        assert(knows(d, i, e.strings[i]));
    }
    assert forall|k: u64| #[trigger] after.nodes.contains_key(k) <==> d.nodes.contains_key(k)
        || e.next_node <= k < out.next_node by {}
    assert(in_step(out, after));
}

/// Placing a new element under `parent`.
proof fn lemma_place_element(
    e: EmitterView,
    d: DomView,
    tag: ElementTag,
    parent: NodeId,
    anchor: NodeId,
) -> (after: DomView)
    requires
        has_room(e, 1),
        in_step(e, d),
        is_place(d, parent, anchor),
    ensures
        ({
            let id = NodeId(e.next_node);
            let out = with_insert(with_element(e, tag), parent, id, anchor);
            &&& grows(e, d, out, after, parent, placed(siblings(d, parent), id, anchor))
            &&& after.nodes.contains_key(id.0)
            &&& after.nodes[id.0].tag == Some(tag)
            &&& after.nodes[id.0].text is None
            &&& after.nodes[id.0].children.len() == 0
        }),
{
    let id = NodeId(e.next_node);
    let create = OpView::CreateElement { node: id, tag };
    let fresh = NodeView { tag: Some(tag), ..crate::tree::blank_node() };
    lemma_create_and_place(e, d, create, fresh, parent, anchor);
    let insert = OpView::InsertBefore { parent, child: id, anchor };
    apply_op(apply_op(d, create).0, insert).0
}

/// Interning a string that the emitter has room for.
proof fn lemma_intern(e: EmitterView, d: DomView, s: Seq<char>, parent: NodeId) -> (after: DomView)
    requires
        emitter_wf(e),
        e.strings.len() < u32::MAX,
        in_step(e, d),
        parent.0 == ROOT || d.nodes.contains_key(parent.0),
    ensures
        grows(e, d, interned(e, s), after, parent, siblings(d, parent)),
        after.nodes == d.nodes,
        after.roots == d.roots,
        after.strings.contains_key(string_id(e, s).0),
        after.strings[string_id(e, s).0] == s,
{
    let out = interned(e, s);
    e.strings.index_of_first_ensures(s);
    if e.strings.contains(s) {
        let i = e.strings.index_of_first(s)->0;
        assert(knows(d, i, e.strings[i]));
        lemma_follows_nothing(e, d);
        d
    } else {
        let id = e.strings.len() as u32;
        let op = OpView::InternString { id: StrId(id), bytes: encode_utf8(s) };
        encode_utf8_valid_utf8(s);
        encode_utf8_decode_utf8(s);
        let after = apply_op(d, op).0;
        assert(after.strings == d.strings.insert(id, s));
        assert(news(e, out) =~= seq![op]);
        assert(out.pending =~= e.pending + news(e, out));
        lemma_one_op(d, op);
        law_ops_keep_trees_orderly(d, op);
        assert forall|i: int| 0 <= i < out.strings.len() implies #[trigger] knows(
            after,
            i,
            out.strings[i],
        ) by {
            if i < e.strings.len() {
                assert(knows(d, i, e.strings[i]));
            }
        }
        assert(in_step(out, after));
        after
    }
}

/// Placing a new text node under `parent`.
proof fn lemma_place_text(
    e: EmitterView,
    d: DomView,
    s: Seq<char>,
    parent: NodeId,
    anchor: NodeId,
) -> (after: DomView)
    requires
        has_room(e, 1),
        in_step(e, d),
        is_place(d, parent, anchor),
    ensures
        ({
            let id = NodeId(e.next_node);
            let out = with_insert(with_text(e, s), parent, id, anchor);
            &&& grows(e, d, out, after, parent, placed(siblings(d, parent), id, anchor))
            &&& after.nodes.contains_key(id.0)
            &&& after.nodes[id.0].tag is None
            &&& after.nodes[id.0].text == Some(s)
            &&& after.nodes[id.0].children.len() == 0
        }),
{
    let id = NodeId(e.next_node);
    let mid = interned(e, s);
    let between = lemma_intern(e, d, s, parent);
    let create = OpView::CreateText { node: id, text: string_id(e, s) };
    let fresh = NodeView { text: Some(s), ..crate::tree::blank_node() };
    lemma_create_and_place(mid, between, create, fresh, parent, anchor);
    let insert = OpView::InsertBefore { parent, child: id, anchor };
    let after = apply_op(apply_op(between, create).0, insert).0;
    let out = with_insert(with_text(e, s), parent, id, anchor);
    assert(out == with_insert(emitted(allocated(mid), create), parent, id, anchor));
    let line = siblings(d, parent);
    lemma_grows_compose(e, d, mid, between, out, after, parent, line, placed(line, id, anchor));
    after
}

/// A host tree that is as it was on a range of handles still shows what is mounted there.
proof fn lemma_mirrors_stay(d: DomView, after: DomView, r: RenderedView, lo: u64, hi: u64)
    requires
        mirrors(d, r),
        within(r, lo, hi),
        forall|k: u64| lo <= k < hi ==> #[trigger] same_at(d, after, k),
    ensures
        mirrors(after, r),
    decreases r,
{
    assert(same_at(d, after, r.id().0));
    if let RenderedView::Element { id, tag, children } = r {
        assert forall|i: int| 0 <= i < children.len() implies mirrors(
            after,
            #[trigger] children[i],
        ) by {
            assert(within(children[i], lo, hi));
            lemma_mirrors_stay(d, after, children[i], lo, hi);
        }
    }
}

proof fn lemma_within_wider(r: RenderedView, lo: u64, hi: u64, low: u64, high: u64)
    requires
        within(r, lo, hi),
        low <= lo,
        hi <= high,
    ensures
        within(r, low, high),
    decreases r,
{
    if let RenderedView::Element { id, tag, children } = r {
        assert forall|i: int| 0 <= i < children.len() implies within(
            #[trigger] children[i],
            low,
            high,
        ) by {
            lemma_within_wider(children[i], lo, hi, low, high);
        }
    }
}

/// Mounting builds the tree on the host: the host accepts every op that mounting emits, lists
/// the new node under `parent` at its place, shows the mounted tree under it, and leaves every
/// other node as it was. The handles of the mounted tree are new, and each handle that was handed
/// out is a new node.
pub proof fn law_mounting_builds_the_tree(
    e: EmitterView,
    d: DomView,
    n: VNodeView,
    parent: NodeId,
    anchor: NodeId,
) -> (after: DomView)
    requires
        has_room(e, vnode_count(n)),
        in_step(e, d),
        is_place(d, parent, anchor),
    ensures
        ({
            let (out, r) = mounted(e, n, parent, anchor);
            &&& grows(e, d, out, after, parent, placed(siblings(d, parent), r.id(), anchor))
            &&& mirrors(after, r)
            &&& within(r, e.next_node, out.next_node)
        }),
    decreases n,
{
    let (out, r) = mounted(e, n, parent, anchor);
    let id = NodeId(e.next_node);
    lemma_mounted_grows(e, n, parent, anchor);
    match n {
        VNodeView::Element { tag, children } => {
            let start = with_insert(with_element(e, tag), parent, id, anchor);
            let first = lemma_place_element(e, d, tag, parent, anchor);
            let after = lemma_mounting_builds_all(start, first, children, id);
            let kids = mounted_all(start, children, id).1;
            lemma_mounted_all_grows(start, children, id);
            // The children went under the new node, not under `parent`.
            let line = placed(siblings(d, parent), id, anchor);
            assert(siblings(first, id) + ids(kids) =~= ids(kids));
            lemma_grows_elsewhere(e, d, start, first, out, after, parent, id, line, ids(kids));
            assert forall|i: int| 0 <= i < kids.len() implies within(
                #[trigger] kids[i],
                e.next_node,
                out.next_node,
            ) by {
                lemma_within_wider(
                    kids[i],
                    start.next_node,
                    out.next_node,
                    e.next_node,
                    out.next_node,
                );
            }
            after
        },
        VNodeView::Text(s) => lemma_place_text(e, d, s, parent, anchor),
    }
}

/// Growing a node that was just placed leaves `parent` with that node placed.
proof fn lemma_grows_elsewhere(
    e: EmitterView,
    d: DomView,
    mid: EmitterView,
    between: DomView,
    out: EmitterView,
    after: DomView,
    parent: NodeId,
    id: NodeId,
    line: Seq<NodeId>,
    below: Seq<NodeId>,
)
    requires
        grows(e, d, mid, between, parent, line),
        grows(mid, between, out, after, id, below),
        parent.0 == ROOT || d.nodes.contains_key(parent.0),
        id.0 == e.next_node,
        mid.next_node > e.next_node,
        e.next_node >= 1,
        in_step(e, d),
    ensures
        grows(e, d, out, after, parent, line),
{
    lemma_follows_compose(e, d, mid, between, out, after);
    if parent.0 != ROOT {
        assert(parent.0 < e.next_node);
        assert(same_at(between, after, parent.0));
        assert(after.nodes[parent.0] == between.nodes[parent.0]);
    }
    assert(siblings(after, parent) == siblings(between, parent));
    assert forall|k: u64| k < e.next_node && k != parent.0 implies #[trigger] same_at(
        d,
        after,
        k,
    ) by {
        assert(same_at(d, between, k));
        assert(same_at(between, after, k));
    }
    assert forall|k: u64| #[trigger] after.nodes.contains_key(k) <==> d.nodes.contains_key(k)
        || e.next_node <= k < out.next_node by {
        assert(after.nodes.contains_key(k) <==> between.nodes.contains_key(k) || mid.next_node <= k
            < out.next_node);
        assert(between.nodes.contains_key(k) <==> d.nodes.contains_key(k) || e.next_node <= k
            < mid.next_node);
    }
}

proof fn lemma_mounting_builds_all(
    e: EmitterView,
    d: DomView,
    ns: Seq<VNodeView>,
    parent: NodeId,
) -> (after: DomView)
    requires
        has_room(e, vnodes_count(ns)),
        in_step(e, d),
        parent.0 != ROOT,
        d.nodes.contains_key(parent.0),
    ensures
        ({
            let (out, rs) = mounted_all(e, ns, parent);
            &&& grows(e, d, out, after, parent, siblings(d, parent) + ids(rs))
            &&& forall|i: int| 0 <= i < rs.len() ==> mirrors(after, #[trigger] rs[i])
            &&& forall|i: int|
                0 <= i < rs.len() ==> within(#[trigger] rs[i], e.next_node, out.next_node)
        }),
    decreases ns,
{
    let (out, rs) = mounted_all(e, ns, parent);
    let line = siblings(d, parent);
    if ns.len() == 0 {
        lemma_follows_nothing(e, d);
        assert(line + ids(rs) =~= line);
        d
    } else {
        let (mid, firsts) = mounted_all(e, ns.drop_last(), parent);
        lemma_mounted_all_grows(e, ns.drop_last(), parent);
        let between = lemma_mounting_builds_all(e, d, ns.drop_last(), parent);
        let null = NodeId(NodeId::NULL);
        let after = law_mounting_builds_the_tree(mid, between, ns.last(), parent, null);
        let last = mounted(mid, ns.last(), parent, null).1;
        assert((line + ids(firsts)).push(last.id()) =~= line + ids(rs));
        lemma_grows_compose(
            e,
            d,
            mid,
            between,
            out,
            after,
            parent,
            line + ids(firsts),
            line + ids(rs),
        );
        assert forall|i: int| 0 <= i < rs.len() implies mirrors(after, #[trigger] rs[i]) by {
            if i < firsts.len() {
                assert(rs[i] == firsts[i]);
                assert(parent.0 < e.next_node);
                lemma_mirrors_stay(between, after, firsts[i], e.next_node, mid.next_node);
            }
        }
        assert forall|i: int| 0 <= i < rs.len() implies within(
            #[trigger] rs[i],
            e.next_node,
            out.next_node,
        ) by {
            if i < firsts.len() {
                assert(rs[i] == firsts[i]);
                lemma_within_wider(
                    firsts[i],
                    e.next_node,
                    mid.next_node,
                    e.next_node,
                    out.next_node,
                );
            } else {
                lemma_within_wider(last, mid.next_node, out.next_node, e.next_node, out.next_node);
            }
        }
        after
    }
}

/// A host that accepts the pending ops accepts them as a batch, with the same outcome.
proof fn lemma_batch_is_its_pending_ops(out: EmitterView, d: DomView, after: DomView, seq: u32)
    requires
        apply_ops(d, out.pending) == (after, Ok::<(), crate::tree::HostError>(())),
        forall|i: int| 0 <= i < out.pending.len() ==> op_fits(#[trigger] out.pending[i]),
    ensures
        apply_bytes(d, ops_bytes(batch_ops(out, seq)), 0) == (
            after,
            Ok::<(), crate::tree::HostError>(()),
        ),
{
    let all = batch_ops(out, seq);
    let begin = OpView::BeginBatch { version: crate::protocol::PROTOCOL_VERSION, seq };
    assert forall|i: int| 0 <= i < all.len() implies op_fits(#[trigger] all[i]) by {
        if 1 <= i < all.len() - 1 {
            assert(all[i] == out.pending[i - 1]);
        }
    }
    crate::tree::law_batch_is_its_ops(d, all);
    lemma_one_op(d, begin);
    lemma_one_op(after, OpView::EndBatch);
    law_ops_compose(d, seq![begin], out.pending);
    law_ops_compose(d, seq![begin] + out.pending, seq![OpView::EndBatch]);
}

/// A set to which a run of numbers was added.
proof fn lemma_added_run(a: Set<u64>, lo: u64, hi: u64, b: Set<u64>)
    requires
        a.finite(),
        lo <= hi,
        forall|k: u64| #[trigger] a.contains(k) ==> k < lo,
        forall|k: u64| #[trigger] b.contains(k) <==> a.contains(k) || lo <= k < hi,
    ensures
        b.finite(),
        b.len() == a.len() + (hi - lo),
    decreases hi - lo,
{
    if lo == hi {
        assert(a =~= b);
    } else {
        let last = (hi - 1) as u64;
        lemma_added_run(a, lo, last, b.remove(last));
        assert(b =~= b.remove(last).insert(last));
    }
}

/// Mounting under an emitter with nothing pending, and sending the batch: the host accepts the
/// bytes, lists the new node last under `parent`, shows the mounted tree, and holds as many nodes
/// more as the vnode has.
pub proof fn law_mounted_batch_builds_the_tree(
    e: EmitterView,
    d: DomView,
    n: VNodeView,
    parent: NodeId,
    seq: u32,
)
    requires
        has_room(e, vnode_count(n)),
        e.pending.len() == 0,
        in_step(e, d),
        parent.0 == ROOT || d.nodes.contains_key(parent.0),
        ({
            let out = mounted(e, n, parent, NodeId(NodeId::NULL)).0;
            forall|i: int| 0 <= i < out.pending.len() ==> op_fits(#[trigger] out.pending[i])
        }),
    ensures
        ({
            let (out, r) = mounted(e, n, parent, NodeId(NodeId::NULL));
            let (after, answer) = apply_bytes(d, ops_bytes(batch_ops(out, seq)), 0);
            &&& answer is Ok
            &&& mirrors(after, r)
            &&& siblings(after, parent) == siblings(d, parent).push(r.id())
            &&& in_step(EmitterView { pending: seq![], ..out }, after)
            &&& d.nodes.dom().finite() ==> after.nodes.dom().finite() && after.nodes.len()
                == d.nodes.len() + vnode_count(n)
        }),
{
    let null = NodeId(NodeId::NULL);
    let (out, r) = mounted(e, n, parent, null);
    let after = law_mounting_builds_the_tree(e, d, n, parent, null);
    lemma_mounted_grows(e, n, parent, null);
    assert(news(e, out) =~= out.pending);
    lemma_batch_is_its_pending_ops(out, d, after, seq);
    if d.nodes.dom().finite() {
        assert forall|k: u64| #[trigger] after.nodes.dom().contains(k) <==> d.nodes.dom().contains(
            k,
        ) || e.next_node <= k < out.next_node by {
            assert(after.nodes.contains_key(k) <==> d.nodes.contains_key(k) || e.next_node <= k
                < out.next_node);
        }
        lemma_added_run(d.nodes.dom(), e.next_node, out.next_node, after.nodes.dom());
    }
}

/// The first frame fills an empty host: its batch is accepted, the mounted node is the only
/// top-level one, the host shows the vnode under it, no handle occurs twice, and the host holds as
/// many nodes as the vnode has.
pub proof fn law_first_frame_fills_the_host(n: VNodeView)
    requires
        has_room(crate::emitter::fresh_emitter(), vnode_count(n)),
        ({
            let e = crate::emitter::fresh_emitter();
            let out = mounted(e, n, NodeId(ROOT), NodeId(NodeId::NULL)).0;
            forall|i: int| 0 <= i < out.pending.len() ==> op_fits(#[trigger] out.pending[i])
        }),
    ensures
        ({
            let e = crate::emitter::fresh_emitter();
            let (out, r) = mounted(e, n, NodeId(ROOT), NodeId(NodeId::NULL));
            let d = crate::tree::empty_dom();
            let (after, answer) = apply_bytes(d, ops_bytes(batch_ops(out, 0)), 0);
            &&& answer is Ok
            &&& after.roots == seq![r.id()]
            &&& mirrors(after, r)
            &&& shape(r) == n
            &&& distinct(r)
            &&& after.nodes.len() == vnode_count(n)
        }),
{
    let e = crate::emitter::fresh_emitter();
    let d = crate::tree::empty_dom();
    let null = NodeId(NodeId::NULL);
    law_fresh_sides_are_in_step();
    law_mounted_batch_builds_the_tree(e, d, n, NodeId(ROOT), 0);
    law_mounting_shows_the_vnode(e, n, NodeId(ROOT), null);
    law_mounted_handles_are_new_and_distinct(e, n, NodeId(ROOT), null);
    let (out, r) = mounted(e, n, NodeId(ROOT), null);
    let after = apply_bytes(d, ops_bytes(batch_ops(out, 0)), 0).0;
    assert(d.nodes.dom() =~= Set::<u64>::empty());
    assert(siblings(after, NodeId(ROOT)) =~= seq![r.id()]);
}

/// Whether a mounted tree and a vnode differ in their texts at most.
pub open spec fn same_build(r: RenderedView, n: VNodeView) -> bool
    decreases r,
{
    match (r, n) {
        (
            RenderedView::Element { id, tag, children },
            VNodeView::Element { tag: next_tag, children: ns },
        ) => {
            &&& tag == next_tag
            &&& children.len() == ns.len()
            &&& forall|i: int| 0 <= i < children.len() ==> same_build(#[trigger] children[i], ns[i])
        },
        (RenderedView::Text { id, value }, VNodeView::Text(_)) => true,
        _ => false,
    }
}

/// Whether the raw handle `k` occurs in a mounted tree.
pub open spec fn holds(r: RenderedView, k: u64) -> bool
    decreases r,
{
    r.id().0 == k || match r {
        RenderedView::Element { id, tag, children } => exists|i: int|
            0 <= i < children.len() && holds(#[trigger] children[i], k),
        RenderedView::Text { id, value } => false,
    }
}

/// Whether no handle occurs twice in a mounted tree.
pub open spec fn distinct(r: RenderedView) -> bool
    decreases r,
{
    match r {
        RenderedView::Element { id, tag, children } => {
            &&& forall|i: int| 0 <= i < children.len() ==> distinct(#[trigger] children[i])
            &&& forall|i: int| 0 <= i < children.len() ==> !holds(#[trigger] children[i], id.0)
            &&& forall|i: int, j: int, k: u64|
                #![trigger holds(children[i], k), holds(children[j], k)]
                0 <= i < children.len() && 0 <= j < children.len() && holds(children[i], k)
                    && holds(children[j], k) ==> i == j
        },
        RenderedView::Text { id, value } => true,
    }
}

/// Whether two mounted trees have the same handles in the same places.
pub open spec fn same_handles(a: RenderedView, b: RenderedView) -> bool {
    &&& a.id() == b.id()
    &&& forall|k: u64| #[trigger] holds(b, k) ==> holds(a, k)
}

/// A tree that is as it was on the handles of a mounted tree still shows it.
proof fn lemma_mirrors_keep(d: DomView, after: DomView, r: RenderedView)
    requires
        mirrors(d, r),
        forall|k: u64| holds(r, k) ==> #[trigger] same_at(d, after, k),
    ensures
        mirrors(after, r),
    decreases r,
{
    assert(holds(r, r.id().0));
    assert(same_at(d, after, r.id().0));
    if let RenderedView::Element { id, tag, children } = r {
        assert forall|i: int| 0 <= i < children.len() implies mirrors(
            after,
            #[trigger] children[i],
        ) by {
            assert forall|k: u64| holds(children[i], k) implies #[trigger] same_at(
                d,
                after,
                k,
            ) by {
                assert(holds(r, k));
            }
            lemma_mirrors_keep(d, after, children[i]);
        }
    }
}

/// Whether the ops sent between `e` and `out` set texts at most, are all accepted, and take the
/// host from `d` to `after`, where only nodes of `touched` differ.
pub open spec fn retexts(
    e: EmitterView,
    d: DomView,
    out: EmitterView,
    after: DomView,
    touched: spec_fn(u64) -> bool,
) -> bool {
    &&& out.pending == e.pending + news(e, out)
    &&& apply_ops(d, news(e, out)) == (after, Ok::<(), crate::tree::HostError>(()))
    &&& in_step(out, after)
    &&& out.next_node == e.next_node
    &&& forall|k: u64| !touched(k) ==> #[trigger] same_at(d, after, k)
    &&& forall|i: int|
        0 <= i < news(e, out).len() ==> (#[trigger] news(e, out)[i]) is SetText || news(
            e,
            out,
        )[i] is InternString
}

proof fn lemma_retexts_compose(
    e: EmitterView,
    d: DomView,
    mid: EmitterView,
    between: DomView,
    out: EmitterView,
    after: DomView,
    first: spec_fn(u64) -> bool,
    then: spec_fn(u64) -> bool,
    both: spec_fn(u64) -> bool,
)
    requires
        retexts(e, d, mid, between, first),
        retexts(mid, between, out, after, then),
        forall|k: u64| #[trigger] both(k) <== first(k),
        forall|k: u64| #[trigger] both(k) <== then(k),
    ensures
        retexts(e, d, out, after, both),
{
    assert(out.pending =~= e.pending + (news(e, mid) + news(mid, out)));
    assert(news(e, out) =~= news(e, mid) + news(mid, out));
    law_ops_compose(d, news(e, mid), news(mid, out));
    assert forall|k: u64| !both(k) implies #[trigger] same_at(d, after, k) by {
        assert(same_at(d, between, k));
        assert(same_at(between, after, k));
    }
}

proof fn lemma_retexts_nothing(e: EmitterView, d: DomView, touched: spec_fn(u64) -> bool)
    requires
        in_step(e, d),
    ensures
        retexts(e, d, e, d, touched),
{
    assert(news(e, e) =~= Seq::<OpView>::empty());
    assert(e.pending =~= e.pending + news(e, e));
}

/// Sending the text of one node.
proof fn lemma_retext_one(e: EmitterView, d: DomView, node: NodeId, s: Seq<char>) -> (after: DomView)
    requires
        emitter_wf(e),
        e.strings.len() < u32::MAX,
        in_step(e, d),
        d.nodes.contains_key(node.0),
    ensures
        retexts(e, d, with_set_text(e, node, s), after, |k: u64| k == node.0),
        after.nodes == d.nodes.insert(node.0, NodeView { text: Some(s), ..d.nodes[node.0] }),
        after.roots == d.roots,
{
    let mid = interned(e, s);
    let between = lemma_intern(e, d, s, NodeId(ROOT));
    let op = OpView::SetText { node, text: string_id(e, s) };
    let after = apply_op(between, op).0;
    let out = with_set_text(e, node, s);
    law_ops_keep_trees_well_formed(between, op);
    law_ops_keep_trees_orderly(between, op);
    lemma_one_op(between, op);
    assert(news(mid, out) =~= seq![op]);
    assert(out.pending =~= mid.pending + news(mid, out));
    assert forall|i: int| 0 <= i < out.strings.len() implies #[trigger] knows(
        after,
        i,
        out.strings[i],
    ) by {
        assert(knows(between, i, mid.strings[i]));
    }
    assert(in_step(out, after));
    let one = |k: u64| k == node.0;
    let none = |k: u64| false;
    assert forall|i: int| 0 <= i < news(e, mid).len() implies (
    #[trigger] news(e, mid)[i]) is InternString by {}
    assert(retexts(e, d, mid, between, none)) by {
        assert forall|k: u64| !none(k) implies #[trigger] same_at(d, between, k) by {}
    }
    assert(retexts(mid, between, out, after, one)) by {
        assert forall|k: u64| !one(k) implies #[trigger] same_at(between, after, k) by {}
    }
    lemma_retexts_compose(e, d, mid, between, out, after, none, one, one);
    after
}

/// A host that was in step stays so when a node is removed.
proof fn lemma_removal_stays_in_step(e: EmitterView, d: DomView, n: NodeId)
    requires
        in_step(e, d),
        d.nodes.contains_key(n.0),
    ensures
        follows(e, d, emitted(e, OpView::RemoveNode { node: n }), remove_node(d, n).0),
{
    let op = OpView::RemoveNode { node: n };
    law_ops_keep_trees_well_formed(d, op);
    law_ops_keep_trees_orderly(d, op);
    let after = remove_node(d, n).0;
    let out = emitted(e, op);
    lemma_one_op(d, op);
    assert(news(e, out) =~= seq![op]);
    assert(out.pending =~= e.pending + news(e, out));
    assert forall|i: int| 0 <= i < out.strings.len() implies #[trigger] knows(
        after,
        i,
        out.strings[i],
    ) by {
        assert(knows(d, i, e.strings[i]));
    }
}

/// Diffing a frame that differs in its texts at most sends nothing but those texts: the host
/// accepts them, no node is created or removed, every handle stays, and the host shows the new
/// frame.
pub proof fn law_diffing_texts_updates_in_place(
    e: EmitterView,
    d: DomView,
    prev: RenderedView,
    next: VNodeView,
    parent: NodeId,
) -> (after: DomView)
    requires
        has_room(e, vnode_count(next)),
        in_step(e, d),
        mirrors(d, prev),
        distinct(prev),
        same_build(prev, next),
    ensures
        ({
            let (out, r) = diffed(e, prev, next, parent);
            &&& retexts(e, d, out, after, |k: u64| holds(prev, k))
            &&& mirrors(after, r)
            &&& same_handles(prev, r)
            &&& after.nodes.dom() == d.nodes.dom()
        }),
    decreases next,
{
    let (out, r) = diffed(e, prev, next, parent);
    let held = |k: u64| holds(prev, k);
    match (prev, next) {
        (
            RenderedView::Element { id, tag, children },
            VNodeView::Element { tag: next_tag, children: ns },
        ) => {
            let after = lemma_diffing_all_texts(e, d, children, ns, id);
            let kids = diffed_all(e, children, ns, id).1;
            let below = |k: u64| held_by(children, k);
            assert forall|k: u64| #[trigger] held(k) <== below(k) by {
                if below(k) {
                    let i = choose|i: int|
                        0 <= i < children.len() && holds(#[trigger] children[i], k);
                    assert(holds(children[i], k));
                }
            }
            assert forall|k: u64| !held(k) implies #[trigger] same_at(d, after, k) by {
                assert(!below(k));
            }
            assert(!below(id.0));
            assert(same_at(d, after, id.0));
            assert(ids(kids) =~= ids(children));
            assert forall|k: u64| #[trigger] holds(r, k) implies holds(prev, k) by {
                if k != id.0 {
                    let i = choose|i: int| 0 <= i < kids.len() && holds(#[trigger] kids[i], k);
                    assert(same_handles(children[i], kids[i]));
                    assert(holds(children[i], k));
                }
            }
            after
        },
        (RenderedView::Text { id, value }, VNodeView::Text(s)) => {
            if value != s {
                let after = lemma_retext_one(e, d, id, s);
                assert forall|k: u64| !held(k) implies #[trigger] same_at(d, after, k) by {
                    let one = |k: u64| k == id.0;
                    assert(!one(k));
                }
                assert(after.nodes.dom() =~= d.nodes.dom());
                after
            } else {
                lemma_retexts_nothing(e, d, held);
                d
            }
        },
        _ => d,
    }
}

/// Whether the raw handle `k` occurs in one of the mounted trees.
pub open spec fn held_by(rs: Seq<RenderedView>, k: u64) -> bool {
    exists|i: int| 0 <= i < rs.len() && holds(#[trigger] rs[i], k)
}

proof fn lemma_diffing_all_texts(
    e: EmitterView,
    d: DomView,
    prevs: Seq<RenderedView>,
    ns: Seq<VNodeView>,
    parent: NodeId,
) -> (after: DomView)
    requires
        has_room(e, vnodes_count(ns)),
        in_step(e, d),
        prevs.len() == ns.len(),
        forall|i: int| 0 <= i < prevs.len() ==> mirrors(d, #[trigger] prevs[i]),
        forall|i: int| 0 <= i < prevs.len() ==> distinct(#[trigger] prevs[i]),
        forall|i: int| 0 <= i < prevs.len() ==> same_build(#[trigger] prevs[i], ns[i]),
        forall|i: int, j: int, k: u64|
            #![trigger holds(prevs[i], k), holds(prevs[j], k)]
            0 <= i < prevs.len() && 0 <= j < prevs.len() && holds(prevs[i], k) && holds(
                prevs[j],
                k,
            ) ==> i == j,
    ensures
        ({
            let (out, rs) = diffed_all(e, prevs, ns, parent);
            &&& retexts(e, d, out, after, |k: u64| held_by(prevs, k))
            &&& rs.len() == prevs.len()
            &&& forall|i: int| 0 <= i < rs.len() ==> mirrors(after, #[trigger] rs[i])
            &&& forall|i: int| 0 <= i < rs.len() ==> same_handles(prevs[i], #[trigger] rs[i])
            &&& after.nodes.dom() == d.nodes.dom()
        }),
    decreases ns,
{
    let (out, rs) = diffed_all(e, prevs, ns, parent);
    let held = |k: u64| held_by(prevs, k);
    if ns.len() == 0 {
        lemma_retexts_nothing(e, d, held);
        d
    } else {
        let init = prevs.drop_last();
        let last = prevs.last();
        let (mid, firsts) = diffed_all(e, init, ns.drop_last(), parent);
        lemma_diffed_all_grows(e, init, ns.drop_last(), parent);
        assert forall|i: int| 0 <= i < init.len() implies same_build(
            #[trigger] init[i],
            ns.drop_last()[i],
        ) by {
            assert(same_build(prevs[i], ns[i]));
        }
        assert forall|i: int| 0 <= i < init.len() implies mirrors(d, #[trigger] init[i]) by {
            assert(mirrors(d, prevs[i]));
        }
        assert forall|i: int| 0 <= i < init.len() implies distinct(#[trigger] init[i]) by {
            assert(distinct(prevs[i]));
        }
        assert forall|i: int, j: int, k: u64|
            #![trigger holds(init[i], k), holds(init[j], k)]
            0 <= i < init.len() && 0 <= j < init.len() && holds(init[i], k) && holds(
                init[j],
                k,
            ) implies i == j by {
            assert(holds(prevs[i], k) && holds(prevs[j], k));
        }
        let between = lemma_diffing_all_texts(e, d, init, ns.drop_last(), parent);
        let n = (prevs.len() - 1) as int;
        assert(prevs[n] == last);
        assert(mirrors(d, prevs[n]) && distinct(prevs[n]) && same_build(prevs[n], ns[n]));
        let first = |k: u64| held_by(init, k);
        let then = |k: u64| holds(last, k);
        assert forall|k: u64| holds(last, k) implies #[trigger] same_at(d, between, k) by {
            if first(k) {
                let i = choose|i: int| 0 <= i < init.len() && holds(#[trigger] init[i], k);
                assert(holds(prevs[i], k) && holds(prevs[n], k));
            }
        }
        lemma_mirrors_keep(d, between, last);
        let after = law_diffing_texts_updates_in_place(mid, between, last, ns.last(), parent);
        let kid = diffed(mid, last, ns.last(), parent).1;
        assert forall|k: u64| #[trigger] held(k) <== first(k) by {
            if first(k) {
                let i = choose|i: int| 0 <= i < init.len() && holds(#[trigger] init[i], k);
                assert(holds(prevs[i], k));
            }
        }
        assert forall|k: u64| #[trigger] held(k) <== then(k) by {
            if then(k) {
                assert(holds(prevs[n], k));
            }
        }
        lemma_retexts_compose(e, d, mid, between, out, after, first, then, held);
        assert forall|i: int| 0 <= i < rs.len() implies mirrors(after, #[trigger] rs[i])
            && same_handles(prevs[i], rs[i]) by {
            if i < firsts.len() {
                assert(rs[i] == firsts[i]);
                assert(same_handles(init[i], firsts[i]));
                assert forall|k: u64| holds(firsts[i], k) implies #[trigger] same_at(
                    between,
                    after,
                    k,
                ) by {
                    assert(holds(prevs[i], k));
                    if then(k) {
                        assert(holds(prevs[n], k));
                    }
                }
                lemma_mirrors_keep(between, after, firsts[i]);
            } else {
                assert(rs[i] == kid);
            }
        }
        after
    }
}

proof fn lemma_within_holds(r: RenderedView, lo: u64, hi: u64, k: u64)
    requires
        within(r, lo, hi),
        holds(r, k),
    ensures
        lo <= k < hi,
    decreases r,
{
    if let RenderedView::Element { id, tag, children } = r {
        if id.0 != k {
            let i = choose|i: int| 0 <= i < children.len() && holds(#[trigger] children[i], k);
            lemma_within_holds(children[i], lo, hi, k);
        }
    }
}

/// Mounting hands out new handles, each once.
pub proof fn law_mounted_handles_are_new_and_distinct(
    e: EmitterView,
    n: VNodeView,
    parent: NodeId,
    anchor: NodeId,
)
    requires
        has_room(e, vnode_count(n)),
    ensures
        ({
            let (out, r) = mounted(e, n, parent, anchor);
            within(r, e.next_node, out.next_node) && distinct(r)
        }),
    decreases n,
{
    let (out, r) = mounted(e, n, parent, anchor);
    lemma_mounted_grows(e, n, parent, anchor);
    if let VNodeView::Element { tag, children } = n {
        let id = NodeId(e.next_node);
        let start = with_insert(with_element(e, tag), parent, id, anchor);
        lemma_mounted_handles(start, children, id);
        let kids = mounted_all(start, children, id).1;
        assert forall|i: int| 0 <= i < kids.len() implies within(
            #[trigger] kids[i],
            e.next_node,
            out.next_node,
        ) && !holds(kids[i], id.0) by {
            lemma_within_wider(kids[i], start.next_node, out.next_node, e.next_node, out.next_node);
            if holds(kids[i], id.0) {
                lemma_within_holds(kids[i], start.next_node, out.next_node, id.0);
            }
        }
    }
}

proof fn lemma_mounted_handles(e: EmitterView, ns: Seq<VNodeView>, parent: NodeId)
    requires
        has_room(e, vnodes_count(ns)),
    ensures
        ({
            let (out, rs) = mounted_all(e, ns, parent);
            &&& forall|i: int|
                0 <= i < rs.len() ==> within(#[trigger] rs[i], e.next_node, out.next_node)
            &&& forall|i: int| 0 <= i < rs.len() ==> distinct(#[trigger] rs[i])
            &&& forall|i: int, j: int, k: u64|
                #![trigger holds(rs[i], k), holds(rs[j], k)]
                0 <= i < rs.len() && 0 <= j < rs.len() && holds(rs[i], k) && holds(rs[j], k)
                    ==> i == j
        }),
    decreases ns,
{
    if ns.len() > 0 {
        let (out, rs) = mounted_all(e, ns, parent);
        let (mid, firsts) = mounted_all(e, ns.drop_last(), parent);
        lemma_mounted_all_grows(e, ns.drop_last(), parent);
        lemma_mounted_handles(e, ns.drop_last(), parent);
        law_mounted_handles_are_new_and_distinct(mid, ns.last(), parent, NodeId(NodeId::NULL));
        lemma_mounted_grows(mid, ns.last(), parent, NodeId(NodeId::NULL));
        let last = mounted(mid, ns.last(), parent, NodeId(NodeId::NULL)).1;
        let n = firsts.len() as int;
        assert forall|i: int| 0 <= i < rs.len() implies within(
            #[trigger] rs[i],
            e.next_node,
            out.next_node,
        ) && distinct(rs[i]) by {
            if i < n {
                assert(rs[i] == firsts[i]);
                lemma_within_wider(
                    firsts[i],
                    e.next_node,
                    mid.next_node,
                    e.next_node,
                    out.next_node,
                );
            } else {
                lemma_within_wider(last, mid.next_node, out.next_node, e.next_node, out.next_node);
            }
        }
        assert forall|i: int, j: int, k: u64|
            #![trigger holds(rs[i], k), holds(rs[j], k)]
            0 <= i < rs.len() && 0 <= j < rs.len() && holds(rs[i], k) && holds(
                rs[j],
                k,
            ) implies i == j by {
            if i < n {
                assert(rs[i] == firsts[i]);
                lemma_within_holds(firsts[i], e.next_node, mid.next_node, k);
            } else {
                lemma_within_holds(last, mid.next_node, out.next_node, k);
            }
            if j < n {
                assert(rs[j] == firsts[j]);
                lemma_within_holds(firsts[j], e.next_node, mid.next_node, k);
            } else {
                lemma_within_holds(last, mid.next_node, out.next_node, k);
            }
            if i < n && j < n {
                assert(holds(firsts[i], k) && holds(firsts[j], k));
            }
        }
    }
}

/// A fresh emitter and an empty host tree are in step.
pub proof fn law_fresh_sides_are_in_step()
    ensures
        in_step(crate::emitter::fresh_emitter(), crate::tree::empty_dom()),
{
    let nodes = Map::<u64, NodeView>::empty();
    assert(crate::tree::is_ranking(nodes, |n: u64| 0nat));
}

/// Diffing a frame that differs in its texts at most, under an emitter with nothing pending, and
/// sending the batch: the host accepts the bytes, keeps every node under its handle, and shows
/// the new frame.
pub proof fn law_diffed_batch_updates_in_place(
    e: EmitterView,
    d: DomView,
    prev: RenderedView,
    next: VNodeView,
    parent: NodeId,
    seq: u32,
)
    requires
        has_room(e, vnode_count(next)),
        e.pending.len() == 0,
        in_step(e, d),
        mirrors(d, prev),
        distinct(prev),
        same_build(prev, next),
        ({
            let out = diffed(e, prev, next, parent).0;
            forall|i: int| 0 <= i < out.pending.len() ==> op_fits(#[trigger] out.pending[i])
        }),
    ensures
        ({
            let (out, r) = diffed(e, prev, next, parent);
            let (after, answer) = apply_bytes(d, ops_bytes(batch_ops(out, seq)), 0);
            &&& answer is Ok
            &&& mirrors(after, r)
            &&& shape(r) == next
            &&& same_handles(prev, r)
            &&& after.nodes.dom() == d.nodes.dom()
            &&& in_step(EmitterView { pending: seq![], ..out }, after)
        }),
{
    let (out, r) = diffed(e, prev, next, parent);
    let after = law_diffing_texts_updates_in_place(e, d, prev, next, parent);
    assert(news(e, out) =~= out.pending);
    lemma_batch_is_its_pending_ops(out, d, after, seq);
    law_diffing_shows_the_vnode(e, prev, next, parent);
}

// ---------------------------------------------------------------------------------------
// Any next frame.
// ---------------------------------------------------------------------------------------

/// Mounting hands out a run of handles and leaves none of them out.
proof fn lemma_mounted_handles_are_a_run(e: EmitterView, n: VNodeView, parent: NodeId, anchor: NodeId)
    requires
        has_room(e, vnode_count(n)),
    ensures
        ({
            let (out, r) = mounted(e, n, parent, anchor);
            forall|k: u64| e.next_node <= k < out.next_node ==> #[trigger] holds(r, k)
        }),
    decreases n,
{
    let (out, r) = mounted(e, n, parent, anchor);
    if let VNodeView::Element { tag, children } = n {
        let id = NodeId(e.next_node);
        let start = with_insert(with_element(e, tag), parent, id, anchor);
        lemma_mounted_runs_join(start, children, id);
        let kids = mounted_all(start, children, id).1;
        assert forall|k: u64| e.next_node <= k < out.next_node implies #[trigger] holds(r, k) by {
            if k != id.0 {
                assert(held_by(kids, k));
                let i = choose|i: int| 0 <= i < kids.len() && holds(#[trigger] kids[i], k);
                assert(holds(r->Element_children[i], k));
            }
        }
    }
}

proof fn lemma_mounted_runs_join(e: EmitterView, ns: Seq<VNodeView>, parent: NodeId)
    requires
        has_room(e, vnodes_count(ns)),
    ensures
        ({
            let (out, rs) = mounted_all(e, ns, parent);
            forall|k: u64| e.next_node <= k < out.next_node ==> #[trigger] held_by(rs, k)
        }),
    decreases ns,
{
    let (out, rs) = mounted_all(e, ns, parent);
    if ns.len() > 0 {
        let null = NodeId(NodeId::NULL);
        let (mid, firsts) = mounted_all(e, ns.drop_last(), parent);
        lemma_mounted_all_grows(e, ns.drop_last(), parent);
        lemma_mounted_runs_join(e, ns.drop_last(), parent);
        lemma_mounted_handles_are_a_run(mid, ns.last(), parent, null);
        let last = mounted(mid, ns.last(), parent, null).1;
        assert forall|k: u64| e.next_node <= k < out.next_node implies #[trigger] held_by(rs, k) by {
            if k < mid.next_node {
                assert(held_by(firsts, k));
                let i = choose|i: int| 0 <= i < firsts.len() && holds(#[trigger] firsts[i], k);
                assert(rs[i] == firsts[i]);
                assert(holds(rs[i], k));
            } else {
                assert(holds(last, k));
                assert(rs[firsts.len() as int] == last);
                assert(holds(rs[firsts.len() as int], k));
            }
        }
    }
}

/// What a mounted tree holds is live on a host that shows it, and reached from its top.
proof fn lemma_held_is_reached(d: DomView, r: RenderedView, k: u64)
    requires
        acyclic(d.nodes),
        mirrors(d, r),
        holds(r, k),
    ensures
        d.nodes.contains_key(k),
        reaches(d.nodes, r.id(), NodeId(k)),
    decreases r,
{
    law_reaches_unfolds(d.nodes, r.id(), NodeId(k));
    if r.id().0 != k {
        let children = r->Element_children;
        let i = choose|i: int| 0 <= i < children.len() && holds(#[trigger] children[i], k);
        lemma_held_is_reached(d, children[i], k);
        assert(kids(d.nodes, r.id())[i] == children[i].id());
    }
}

/// On a host that shows a mounted tree, what its top reaches is in the tree.
proof fn lemma_reached_is_held(d: DomView, r: RenderedView, x: NodeId)
    requires
        acyclic(d.nodes),
        mirrors(d, r),
        reaches(d.nodes, r.id(), x),
    ensures
        holds(r, x.0),
    decreases r,
{
    law_reaches_unfolds(d.nodes, r.id(), x);
    if r.id() != x {
        let line = kids(d.nodes, r.id());
        let i = choose|i: int|
            0 <= i < line.len() && reaches(d.nodes, #[trigger] line[i], x);
        if let RenderedView::Element { id, tag, children } = r {
            assert(line[i] == children[i].id());
            lemma_reached_is_held(d, children[i], x);
            assert(holds(children[i], x.0));
        }
    }
}

/// The parent that lists a mounted tree is not in it.
proof fn lemma_parent_is_not_held(d: DomView, r: RenderedView, parent: NodeId)
    requires
        well_formed(d),
        mirrors(d, r),
        siblings(d, parent).contains(r.id()),
    ensures
        !holds(r, parent.0),
{
    if holds(r, parent.0) {
        lemma_held_is_reached(d, r, parent.0);
        assert(NodeId(parent.0) == parent);
        let line = kids(d.nodes, parent);
        let i = choose|i: int| 0 <= i < line.len() && line[i] == r.id();
        lemma_child_is_lower(d.nodes, parent, i);
        lemma_reached_is_not_higher(d.nodes, r.id(), parent);
    }
}

/// A list in which `b` stands where `a` first stood.
pub open spec fn swapped(line: Seq<NodeId>, a: NodeId, b: NodeId) -> Seq<NodeId> {
    line.update(line.index_of_first(a)->0, b)
}

/// Putting `b` before `a` and taking `a` out puts `b` in its place.
proof fn lemma_swap(line: Seq<NodeId>, a: NodeId, b: NodeId)
    requires
        line.no_duplicates(),
        line.contains(a),
        a != b,
    ensures
        without(line.insert(line.index_of_first(a)->0, b), a) == swapped(line, a, b),
{
    line.index_of_first_ensures(a);
    let at = line.index_of_first(a)->0;
    let keep = other_than(a);
    let head = line.take(at).push(b);
    let tail = line.skip(at + 1);
    let all = line.insert(at, b);
    assert(all =~= head + (seq![a] + tail));
    Seq::filter_distributes_over_add(head, seq![a] + tail, keep);
    Seq::filter_distributes_over_add(seq![a], tail, keep);
    assert forall|i: int| 0 <= i < head.len() implies keep(#[trigger] head[i]) by {}
    lemma_filter_absent(head, keep);
    assert forall|i: int| 0 <= i < tail.len() implies keep(#[trigger] tail[i]) by {
        assert(tail[i] == line[at + 1 + i]);
    }
    lemma_filter_absent(tail, keep);
    let none = Seq::<NodeId>::empty();
    lemma_filter_absent(none, keep);
    lemma_filter_push(none, a, keep);
    assert(seq![a] =~= none.push(a));
    assert(swapped(line, a, b) =~= head + tail);
    assert(without(all, a) =~= swapped(line, a, b));
}

/// A list in which a node takes its own place.
proof fn lemma_swap_same(line: Seq<NodeId>, a: NodeId)
    requires
        line.contains(a),
    ensures
        swapped(line, a, a) == line,
{
    line.index_of_first_ensures(a);
    assert(swapped(line, a, a) =~= line);
}

/// Whether the host follows from `d`, where `prev` is mounted under `parent`, to `after`, where `r`
/// is mounted in its place: `parent` lists `r` where it listed `prev` and else what it listed, the
/// host shows `r`, the nodes of `r` are the only ones in the place of those of `prev`, and every
/// other node is as it was.
pub open spec fn renews(
    e: EmitterView,
    d: DomView,
    out: EmitterView,
    after: DomView,
    prev: RenderedView,
    r: RenderedView,
    parent: NodeId,
) -> bool {
    &&& follows(e, d, out, after)
    &&& relists(d, after, parent, swapped(siblings(d, parent), prev.id(), r.id()))
    &&& mirrors(after, r)
    &&& distinct(r)
    &&& forall|k: u64|
        k < e.next_node && k != parent.0 && !holds(prev, k) ==> #[trigger] same_at(d, after, k)
    &&& forall|k: u64| #[trigger]
        after.nodes.contains_key(k) <==> holds(r, k) || d.nodes.contains_key(k) && !holds(prev, k)
    &&& forall|k: u64| #[trigger]
        holds(r, k) ==> holds(prev, k) || e.next_node <= k < out.next_node
}

/// Replacing a mounted tree.
proof fn lemma_replacing_renews(
    e: EmitterView,
    d: DomView,
    prev: RenderedView,
    next: VNodeView,
    parent: NodeId,
) -> (after: DomView)
    requires
        has_room(e, vnode_count(next)),
        in_step(e, d),
        mirrors(d, prev),
        siblings(d, parent).contains(prev.id()),
    ensures
        ({
            let (out, r) = replaced(e, prev.id(), next, parent);
            renews(e, d, out, after, prev, r, parent)
        }),
{
    let old = prev.id();
    let line = siblings(d, parent);
    let (mid, r) = mounted(e, next, parent, old);
    let out = emitted(mid, OpView::RemoveNode { node: old });
    lemma_parent_is_not_held(d, prev, parent);
    assert(holds(prev, old.0));
    assert(old.0 != NodeId::NULL);
    lemma_mounted_grows(e, next, parent, old);
    let between = law_mounting_builds_the_tree(e, d, next, parent, old);
    law_mounted_handles_are_new_and_distinct(e, next, parent, old);
    lemma_mounted_handles_are_a_run(e, next, parent, old);
    assert forall|k: u64| holds(prev, k) implies #[trigger] same_at(d, between, k) by {
        lemma_held_is_reached(d, prev, k);
    }
    lemma_mirrors_keep(d, between, prev);
    assert(same_at(d, between, old.0));
    line.index_of_first_ensures(old);
    let at = line.index_of_first(old)->0;
    assert(siblings(between, parent) == line.insert(at, r.id()));
    assert(siblings(between, parent)[at + 1] == old);
    lemma_removal_stays_in_step(mid, between, old);
    lemma_removal_effect(between, old, parent);
    let after = remove_node(between, old).0;
    lemma_follows_compose(e, d, mid, between, out, after);
    assert(siblings(d, parent).no_duplicates());
    lemma_within_holds(r, e.next_node, mid.next_node, r.id().0);
    lemma_swap(line, old, r.id());
    assert forall|k: u64| #[trigger] reaches(between.nodes, old, NodeId(k)) <==> holds(prev, k) by {
        if holds(prev, k) {
            lemma_held_is_reached(between, prev, k);
        }
        if reaches(between.nodes, old, NodeId(k)) {
            lemma_reached_is_held(between, prev, NodeId(k));
        }
    }
    assert forall|k: u64| #[trigger] holds(r, k) <==> e.next_node <= k < mid.next_node by {
        if holds(r, k) {
            lemma_within_holds(r, e.next_node, mid.next_node, k);
        }
    }
    assert forall|k: u64| #[trigger] after.nodes.contains_key(k) <==> holds(r, k)
        || d.nodes.contains_key(k) && !holds(prev, k) by {
        assert(between.nodes.contains_key(k) <==> d.nodes.contains_key(k) || e.next_node <= k
            < mid.next_node);
        assert(reaches(between.nodes, old, NodeId(k)) <==> holds(prev, k));
        if holds(prev, k) {
            lemma_held_is_reached(d, prev, k);
        }
        assert(holds(r, k) <==> e.next_node <= k < mid.next_node);
    }
    assert forall|k: u64| k < e.next_node && k != parent.0 && !holds(prev, k) implies #[trigger] same_at(
        d,
        after,
        k,
    ) by {
        assert(same_at(d, between, k));
        assert(after.nodes.contains_key(k) <==> holds(r, k) || d.nodes.contains_key(k) && !holds(
            prev,
            k,
        ));
        assert(holds(r, k) <==> e.next_node <= k < mid.next_node);
    }
    assert forall|k: u64| holds(r, k) implies #[trigger] same_at(between, after, k) by {
        assert(holds(r, k) <==> e.next_node <= k < mid.next_node);
        assert(after.nodes.contains_key(k));
        if parent.0 != ROOT {
            assert(parent.0 < e.next_node);
        }
    }
    lemma_mirrors_keep(between, after, r);
    after
}

/// Diffing brings the host up to date, whatever the next frame is: the host accepts every op that
/// diffing emits, shows the new frame where it showed the old one, in the same order, and leaves
/// every node outside as it was. Of the old frame nothing is left but what is in the new one.
pub proof fn law_diffing_brings_the_host_up_to_date(
    e: EmitterView,
    d: DomView,
    prev: RenderedView,
    next: VNodeView,
    parent: NodeId,
) -> (after: DomView)
    requires
        has_room(e, vnode_count(next)),
        in_step(e, d),
        mirrors(d, prev),
        distinct(prev),
        siblings(d, parent).contains(prev.id()),
    ensures
        ({
            let (out, r) = diffed(e, prev, next, parent);
            renews(e, d, out, after, prev, r, parent)
        }),
    decreases next, 1nat,
{
    let (out, r) = diffed(e, prev, next, parent);
    lemma_parent_is_not_held(d, prev, parent);
    assert(holds(prev, prev.id().0));
    match (prev, next) {
        (
            RenderedView::Element { id, tag, children },
            VNodeView::Element { tag: next_tag, children: ns },
        ) => {
            if tag == next_tag && children.len() == ns.len() {
                lemma_keeping_renews(e, d, prev, next, parent)
            } else {
                lemma_replacing_renews(e, d, prev, next, parent)
            }
        },
        (RenderedView::Text { id, value }, VNodeView::Text(s)) => {
            lemma_swap_same(siblings(d, parent), id);
            if value != s {
                let after = lemma_retext_one(e, d, id, s);
                let one = |k: u64| k == id.0;
                assert(follows(e, d, out, after));
                assert forall|k: u64|
                    k < e.next_node && k != parent.0 && !holds(prev, k) implies #[trigger] same_at(
                    d,
                    after,
                    k,
                ) by {
                    assert(!one(k));
                }
                assert(after.roots == d.roots);
                after
            } else {
                lemma_follows_nothing(e, d);
                d
            }
        },
        _ => lemma_replacing_renews(e, d, prev, next, parent),
    }
}

/// Diffing inside an element that is kept.
proof fn lemma_keeping_renews(
    e: EmitterView,
    d: DomView,
    prev: RenderedView,
    next: VNodeView,
    parent: NodeId,
) -> (after: DomView)
    requires
        has_room(e, vnode_count(next)),
        in_step(e, d),
        mirrors(d, prev),
        distinct(prev),
        siblings(d, parent).contains(prev.id()),
        prev is Element,
        next is Element,
        prev->Element_tag == next->Element_tag,
        prev->Element_children.len() == next->children.len(),
    ensures
        ({
            let (out, r) = diffed(e, prev, next, parent);
            renews(e, d, out, after, prev, r, parent)
        }),
    decreases next, 0nat,
{
    let (out, r) = diffed(e, prev, next, parent);
    let id = prev.id();
    let children = prev->Element_children;
    let ns = next->children;
    lemma_parent_is_not_held(d, prev, parent);
    assert(holds(prev, id.0));
    lemma_swap_same(siblings(d, parent), id);
    assert(ids(children) + Seq::<NodeId>::empty() =~= ids(children));
    assert(!held_by(children, id.0));
    let after = lemma_diffing_all(e, d, children, ns, id, seq![]);
    let kids = diffed_all(e, children, ns, id).1;
    assert(ids(kids) + Seq::<NodeId>::empty() =~= ids(kids));
    assert forall|k: u64| #[trigger] holds(prev, k) <==> k == id.0 || held_by(children, k) by {
        if held_by(children, k) {
            let i = choose|i: int| 0 <= i < children.len() && holds(#[trigger] children[i], k);
            assert(holds(children[i], k));
        }
    }
    assert forall|k: u64| #[trigger] holds(r, k) <==> k == id.0 || held_by(kids, k) by {
        if held_by(kids, k) {
            let i = choose|i: int| 0 <= i < kids.len() && holds(#[trigger] kids[i], k);
            assert(holds(r->Element_children[i], k));
        }
    }
    assert(r->Element_children == kids);
    assert(!held_by(kids, id.0));
    assert forall|k: u64| k < e.next_node && k != parent.0 && !holds(prev, k) implies #[trigger] same_at(
        d,
        after,
        k,
    ) by {
        assert(!held_by(children, k));
    }
    if parent.0 != ROOT {
        assert(!held_by(children, parent.0));
        assert(same_at(d, after, parent.0));
    }
    assert forall|k: u64| #[trigger] after.nodes.contains_key(k) <==> holds(r, k)
        || d.nodes.contains_key(k) && !holds(prev, k) by {
        assert(after.nodes.contains_key(k) <==> held_by(kids, k) || d.nodes.contains_key(k)
            && !held_by(children, k));
    }
    assert forall|k: u64| #[trigger] holds(r, k) implies holds(prev, k) || e.next_node <= k
        < out.next_node by {
        if k != id.0 {
            assert(held_by(kids, k));
            let i = choose|i: int| 0 <= i < kids.len() && holds(#[trigger] kids[i], k);
            assert(holds(kids[i], k));
            if holds(children[i], k) {
                assert(held_by(children, k));
            }
        }
    }
    assert forall|i: int| 0 <= i < kids.len() implies !holds(#[trigger] kids[i], id.0) by {
        if holds(kids[i], id.0) {
            assert(held_by(kids, id.0));
        }
    }
    after
}

/// Whether no handle occurs in two of the mounted trees.
pub open spec fn apart(rs: Seq<RenderedView>) -> bool {
    forall|i: int, j: int, k: u64|
        #![trigger holds(rs[i], k), holds(rs[j], k)]
        0 <= i < rs.len() && 0 <= j < rs.len() && holds(rs[i], k) && holds(rs[j], k) ==> i == j
}

/// Diffing children of one parent, which lists them before `tail`, one after the other.
proof fn lemma_diffing_all(
    e: EmitterView,
    d: DomView,
    prevs: Seq<RenderedView>,
    ns: Seq<VNodeView>,
    parent: NodeId,
    tail: Seq<NodeId>,
) -> (after: DomView)
    requires
        has_room(e, vnodes_count(ns)),
        in_step(e, d),
        prevs.len() == ns.len(),
        parent.0 != ROOT,
        d.nodes.contains_key(parent.0),
        siblings(d, parent) == ids(prevs) + tail,
        forall|i: int| 0 <= i < prevs.len() ==> mirrors(d, #[trigger] prevs[i]),
        forall|i: int| 0 <= i < prevs.len() ==> distinct(#[trigger] prevs[i]),
        apart(prevs),
        !held_by(prevs, parent.0),
    ensures
        ({
            let (out, rs) = diffed_all(e, prevs, ns, parent);
            &&& follows(e, d, out, after)
            &&& relists(d, after, parent, ids(rs) + tail)
            &&& rs.len() == prevs.len()
            &&& forall|i: int| 0 <= i < rs.len() ==> mirrors(after, #[trigger] rs[i])
            &&& forall|i: int| 0 <= i < rs.len() ==> distinct(#[trigger] rs[i])
            &&& apart(rs)
            &&& !held_by(rs, parent.0)
            &&& forall|k: u64|
                k < e.next_node && k != parent.0 && !held_by(prevs, k) ==> #[trigger] same_at(
                    d,
                    after,
                    k,
                )
            &&& forall|k: u64| #[trigger]
                after.nodes.contains_key(k) <==> held_by(rs, k) || d.nodes.contains_key(k)
                    && !held_by(prevs, k)
            &&& forall|i: int, k: u64|
                0 <= i < rs.len() && #[trigger] holds(rs[i], k) ==> holds(prevs[i], k)
                    || e.next_node <= k < out.next_node
        }),
    decreases ns, 0nat,
{
    let (out, rs) = diffed_all(e, prevs, ns, parent);
    if ns.len() == 0 {
        lemma_follows_nothing(e, d);
        assert(ids(rs) =~= ids(prevs));
        d
    } else {
        let n = (prevs.len() - 1) as int;
        let init = prevs.drop_last();
        let last = prevs.last();
        let (mid, firsts) = diffed_all(e, init, ns.drop_last(), parent);
        lemma_diffed_all_grows(e, init, ns.drop_last(), parent);
        assert(prevs[n] == last);
        assert(mirrors(d, prevs[n]) && distinct(prevs[n]));
        let rest = seq![last.id()] + tail;
        assert(ids(prevs) + tail =~= ids(init) + rest);
        assert forall|i: int| 0 <= i < init.len() implies mirrors(d, #[trigger] init[i])
            && distinct(init[i]) by {
            assert(mirrors(d, prevs[i]) && distinct(prevs[i]));
        }
        assert(apart(init)) by {
            assert forall|i: int, j: int, k: u64|
                #![trigger holds(init[i], k), holds(init[j], k)]
                0 <= i < init.len() && 0 <= j < init.len() && holds(init[i], k) && holds(
                    init[j],
                    k,
                ) implies i == j by {
                assert(holds(prevs[i], k) && holds(prevs[j], k));
            }
        }
        assert forall|k: u64| #[trigger] held_by(prevs, k) <==> held_by(init, k) || holds(last, k) by {
            lemma_held_by_push(init, last, k);
            assert(init.push(last) =~= prevs);
        }
        let between = lemma_diffing_all(e, d, init, ns.drop_last(), parent, rest);
        // What the last child holds is still as it was.
        assert forall|k: u64| holds(last, k) implies k < e.next_node && !held_by(init, k)
            && #[trigger] same_at(d, between, k) by {
            lemma_held_is_reached(d, last, k);
            assert(held_by(prevs, k));
            if held_by(init, k) {
                let i = choose|i: int| 0 <= i < init.len() && holds(#[trigger] init[i], k);
                assert(holds(prevs[i], k) && holds(prevs[n], k));
            }
        }
        lemma_mirrors_keep(d, between, last);
        let line = siblings(between, parent);
        assert(line == ids(firsts) + rest);
        assert(line[n] == last.id());
        let after = law_diffing_brings_the_host_up_to_date(mid, between, last, ns.last(), parent);
        let kid = diffed(mid, last, ns.last(), parent).1;
        lemma_follows_compose(e, d, mid, between, out, after);
        // The new last child stands where the old one stood.
        assert(line.no_duplicates());
        line.index_of_first_ensures(last.id());
        assert(line.index_of_first(last.id())->0 == n);
        assert(rs =~= firsts.push(kid));
        assert(swapped(line, last.id(), kid.id()) =~= ids(rs) + tail);
        assert forall|k: u64| #[trigger] held_by(rs, k) <==> held_by(firsts, k) || holds(kid, k) by {
            lemma_held_by_push(firsts, kid, k);
        }
        assert(parent.0 < e.next_node);
        // The earlier children are not touched by the last one.
        assert forall|i: int, k: u64| 0 <= i < n && #[trigger] holds(rs[i], k) implies (holds(
            prevs[i],
            k,
        ) && k < e.next_node || e.next_node <= k < mid.next_node) && !holds(last, k) && k
            != parent.0 && !holds(kid, k) by {
            assert(rs[i] == firsts[i]);
            assert(holds(firsts[i], k));
            assert(init[i] == prevs[i]);
            if holds(prevs[i], k) {
                lemma_held_is_reached(d, prevs[i], k);
                assert(held_by(prevs, k));
                if holds(last, k) {
                    assert(holds(prevs[n], k));
                }
            } else {
                if holds(last, k) {
                    assert(same_at(d, between, k));
                }
            }
        }
        assert forall|i: int| 0 <= i < rs.len() implies mirrors(after, #[trigger] rs[i]) && distinct(
            rs[i],
        ) by {
            if i < n {
                assert(rs[i] == firsts[i]);
                assert forall|k: u64| holds(rs[i], k) implies #[trigger] same_at(
                    between,
                    after,
                    k,
                ) by {}
                lemma_mirrors_keep(between, after, rs[i]);
            } else {
                assert(rs[i] == kid);
            }
        }
        assert(apart(rs)) by {
            assert forall|i: int, j: int, k: u64|
                #![trigger holds(rs[i], k), holds(rs[j], k)]
                0 <= i < rs.len() && 0 <= j < rs.len() && holds(rs[i], k) && holds(
                    rs[j],
                    k,
                ) implies i == j by {
                if i < n && j < n {
                    assert(holds(firsts[i], k) && holds(firsts[j], k));
                } else if i < n {
                    assert(rs[j] == kid);
                } else if j < n {
                    assert(rs[i] == kid);
                }
            }
        }
        assert(!holds(kid, parent.0)) by {
            if holds(kid, parent.0) {
                assert(holds(last, parent.0));
            }
        }
        assert forall|k: u64| k < e.next_node && k != parent.0 && !held_by(prevs, k) implies
            #[trigger] same_at(d, after, k) by {
            assert(same_at(d, between, k));
            assert(same_at(between, after, k));
        }
        assert forall|k: u64| #[trigger] after.nodes.contains_key(k) <==> held_by(rs, k)
            || d.nodes.contains_key(k) && !held_by(prevs, k) by {
            assert(between.nodes.contains_key(k) <==> held_by(firsts, k) || d.nodes.contains_key(k)
                && !held_by(init, k));
            assert(after.nodes.contains_key(k) <==> holds(kid, k) || between.nodes.contains_key(k)
                && !holds(last, k));
            assert(held_by(prevs, k) <==> held_by(init, k) || holds(last, k));
            assert(held_by(rs, k) <==> held_by(firsts, k) || holds(kid, k));
            if held_by(firsts, k) {
                let i = choose|i: int| 0 <= i < firsts.len() && holds(#[trigger] firsts[i], k);
                assert(rs[i] == firsts[i]);
                assert(holds(rs[i], k));
            }
        }
        assert forall|i: int, k: u64| 0 <= i < rs.len() && #[trigger] holds(rs[i], k) implies holds(
            prevs[i],
            k,
        ) || e.next_node <= k < out.next_node by {
            if i == n {
                assert(rs[i] == kid);
                assert(holds(kid, k));
            }
        }
        after
    }
}

proof fn lemma_held_by_push(rs: Seq<RenderedView>, r: RenderedView, k: u64)
    ensures
        held_by(rs.push(r), k) <==> held_by(rs, k) || holds(r, k),
{
    let all = rs.push(r);
    if held_by(rs, k) {
        let i = choose|i: int| 0 <= i < rs.len() && holds(#[trigger] rs[i], k);
        assert(holds(all[i], k));
    }
    if holds(r, k) {
        assert(holds(all[rs.len() as int], k));
    }
    if held_by(all, k) {
        let i = choose|i: int| 0 <= i < all.len() && holds(#[trigger] all[i], k);
        if i < rs.len() {
            assert(holds(rs[i], k));
        }
    }
}

/// The same of the batch: a frame diffed under an emitter with nothing pending, and sent. The host
/// accepts the bytes, shows the new frame where it showed the old one, and leaves every node
/// outside as it was; the two sides are in step again, ready for the next frame.
pub proof fn law_diffed_batch_brings_the_host_up_to_date(
    e: EmitterView,
    d: DomView,
    prev: RenderedView,
    next: VNodeView,
    parent: NodeId,
    seq: u32,
) -> (after: DomView)
    requires
        has_room(e, vnode_count(next)),
        e.pending.len() == 0,
        in_step(e, d),
        mirrors(d, prev),
        distinct(prev),
        siblings(d, parent).contains(prev.id()),
        ({
            let out = diffed(e, prev, next, parent).0;
            forall|i: int| 0 <= i < out.pending.len() ==> op_fits(#[trigger] out.pending[i])
        }),
    ensures
        ({
            let (out, r) = diffed(e, prev, next, parent);
            &&& apply_bytes(d, ops_bytes(batch_ops(out, seq)), 0) == (
                after,
                Ok::<(), crate::tree::HostError>(()),
            )
            &&& in_step(EmitterView { pending: seq![], ..out }, after)
            &&& mirrors(after, r)
            &&& shape(r) == next
            &&& distinct(r)
            &&& siblings(after, parent) == swapped(siblings(d, parent), prev.id(), r.id())
            &&& siblings(after, parent).contains(r.id())
            &&& forall|k: u64|
                d.nodes.contains_key(k) && k != parent.0 && !holds(prev, k)
                    ==> #[trigger] same_at(d, after, k)
            &&& forall|k: u64| #[trigger]
                after.nodes.contains_key(k) <==> holds(r, k) || d.nodes.contains_key(k) && !holds(
                    prev,
                    k,
                )
            &&& parent.0 != ROOT ==> after.roots == d.roots && after.nodes[parent.0] == (NodeView {
                children: siblings(after, parent),
                ..d.nodes[parent.0]
            })
        }),
{
    let (out, r) = diffed(e, prev, next, parent);
    let after = law_diffing_brings_the_host_up_to_date(e, d, prev, next, parent);
    assert(news(e, out) =~= out.pending);
    lemma_batch_is_its_pending_ops(out, d, after, seq);
    law_diffing_shows_the_vnode(e, prev, next, parent);
    let line = siblings(d, parent);
    line.index_of_first_ensures(prev.id());
    assert(siblings(after, parent)[line.index_of_first(prev.id())->0] == r.id());
    after
}

} // verus!
