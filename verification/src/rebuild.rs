//! What reloading promises: a build that is run again onto the tree it has built leaves that tree
//! as it is, so that a reload changes what its edits change and nothing else.
use crate::handles::{NodeId, ROOT};
use crate::protocol::{op_fits, ops_bytes, OpView};
use crate::seqs::{lemma_filter_absent, lemma_filter_member};
use crate::tree::{
    acyclic, adopted, apply_bytes, apply_op, apply_ops, blank_node, closes_cycle, create_node,
    detached, edit_node, empty_dom, height, is_ranking, kids, law_batch_is_its_ops, law_ops_compose,
    law_ops_keep_trees_well_formed, law_reaches_unfolds, lemma_child_is_lower, lemma_same_subtree,
    other_than, reaches, siblings, targets, well_formed, with_siblings, without, DomView, HostError,
    NodeView,
};
use vstd::prelude::*;

verus! {

/// Whether a sequence of ops only builds: it removes no node.
pub open spec fn builds(ops: Seq<OpView>) -> bool {
    forall|i: int| 0 <= i < ops.len() ==> !(#[trigger] ops[i] is RemoveNode)
}

/// Whether the children and the parents that nodes record are themselves nodes.
spec fn linked(nodes: Map<u64, NodeView>) -> bool {
    &&& forall|k: u64, i: int|
        #![trigger nodes[k].children[i]]
        nodes.contains_key(k) && 0 <= i < nodes[k].children.len() ==> nodes.contains_key(
            nodes[k].children[i].0,
        )
    &&& forall|k: u64|
        #![trigger nodes[k].parent]
        nodes.contains_key(k) && nodes[k].parent is Some ==> nodes.contains_key(
            (nodes[k].parent->0).0,
        )
}

/// Whether `t` has every node of `s` as it is there.
spec fn carries(s: Map<u64, NodeView>, t: Map<u64, NodeView>) -> bool {
    forall|k: u64| #[trigger]
        s.contains_key(k) ==> t.contains_key(k) && t[k] == s[k]
}

/// Whether `t` is what a tree `d` has become while a build that has come as far as `s` runs over
/// it: it holds what is built so far, else at most what `d` held, and of the old top-level nodes
/// those remain, as `old`, that were not built again.
spec fn overlays(s: DomView, t: DomView, d: DomView, old: Seq<NodeId>) -> bool {
    &&& carries(s.nodes, t.nodes)
    &&& forall|k: u64| #[trigger]
        t.nodes.contains_key(k) ==> s.nodes.contains_key(k) || d.nodes.contains_key(k)
    &&& forall|k: u32| #[trigger]
        s.strings.contains_key(k) ==> t.strings.contains_key(k) && t.strings[k] == s.strings[k]
    &&& forall|k: u32| #[trigger]
        t.strings.contains_key(k) ==> s.strings.contains_key(k) || d.strings.contains_key(k)
    &&& t.roots == old + s.roots
    &&& forall|i: int|
        0 <= i < old.len() ==> d.roots.contains(#[trigger] old[i]) && !s.roots.contains(old[i])
    &&& forall|i: int|
        0 <= i < old.len() && s.nodes.contains_key((#[trigger] old[i]).0)
            ==> s.nodes[old[i].0].parent is None
}

proof fn lemma_reached_is_held(nodes: Map<u64, NodeView>, n: NodeId, x: NodeId)
    requires
        acyclic(nodes),
        linked(nodes),
        nodes.contains_key(n.0),
        reaches(nodes, n, x),
    ensures
        nodes.contains_key(x.0),
    decreases height(nodes, n),
{
    law_reaches_unfolds(nodes, n, x);
    if n != x {
        let i = choose|i: int|
            0 <= i < kids(nodes, n).len() && reaches(nodes, #[trigger] kids(nodes, n)[i], x);
        lemma_child_is_lower(nodes, n, i);
        assert(nodes.contains_key(nodes[n.0].children[i].0));
        lemma_reached_is_held(nodes, kids(nodes, n)[i], x);
    }
}

proof fn lemma_same_cycles(s: DomView, t: DomView, parent: NodeId, child: NodeId)
    requires
        well_formed(s),
        well_formed(t),
        linked(s.nodes),
        carries(s.nodes, t.nodes),
        s.nodes.contains_key(parent.0),
        s.nodes.contains_key(child.0),
    ensures
        closes_cycle(s.nodes, parent, child) == closes_cycle(t.nodes, parent, child),
{
    assert forall|x: NodeId| #[trigger] reaches(s.nodes, child, x) implies kids(s.nodes, x) == kids(
        t.nodes,
        x,
    ) by {
        lemma_reached_is_held(s.nodes, child, x);
    }
    lemma_same_subtree(s.nodes, t.nodes, child);
}

/// A node moves in a tree as it does in the build that runs over it.
proof fn lemma_insertion_overlays(
    s: DomView,
    t: DomView,
    d: DomView,
    old: Seq<NodeId>,
    parent: NodeId,
    child: NodeId,
    anchor: NodeId,
)
    requires
        well_formed(s),
        well_formed(t),
        linked(s.nodes),
        overlays(s, t, d, old),
        apply_op(s, (OpView::InsertBefore { parent, child, anchor })).1 is Ok,
    ensures
        ({
            let op = OpView::InsertBefore { parent, child, anchor };
            &&& apply_op(t, op).1 is Ok
            &&& linked(apply_op(s, op).0.nodes)
            &&& overlays(apply_op(s, op).0, apply_op(t, op).0, d, without(old, child))
        }),
{
    let op = OpView::InsertBefore { parent, child, anchor };
    let rest = without(old, child);
    lemma_filter_member(old, other_than(child));
    lemma_filter_member(s.roots, other_than(child));
    if parent.0 != ROOT {
        lemma_same_cycles(s, t, parent, child);
    }
    let (cut_s, cut_t) = (detached(s, child), detached(t, child));
    assert(s.nodes[child.0] == t.nodes[child.0]);
    match s.nodes[child.0].parent {
        Some(p) => {
            assert(s.nodes.contains_key(p.0));
            lemma_filter_member(s.nodes[p.0].children, other_than(child));
            assert forall|i: int| 0 <= i < old.len() implies other_than(child)(#[trigger] old[i]) by {}
            lemma_filter_absent(old, other_than(child));
        },
        None => {
            Seq::filter_distributes_over_add(old, s.roots, other_than(child));
        },
    }
    assert(cut_t.roots == rest + cut_s.roots);
    assert(carries(cut_s.nodes, cut_t.nodes));
    let (moved_s, moved_t) = (adopted(cut_s, child, parent), adopted(cut_t, child, parent));
    assert(carries(moved_s.nodes, moved_t.nodes));
    let (line_s, line_t) = (siblings(moved_s, parent), siblings(moved_t, parent));
    assert forall|i: int| 0 <= i < cut_s.roots.len() implies s.roots.contains(
        #[trigger] cut_s.roots[i],
    ) by {}
    line_s.index_of_first_ensures(anchor);
    line_t.index_of_first_ensures(anchor);
    let (out_s, out_t) = (apply_op(s, op).0, apply_op(t, op).0);
    if parent.0 == ROOT {
        assert(line_t == rest + line_s);
        if anchor.0 == NodeId::NULL {
            assert(line_t.push(child) =~= rest + line_s.push(child));
        } else {
            let at = line_s.index_of_first(anchor)->0;
            assert(line_t[rest.len() + at] == anchor);
            let found = line_t.index_of_first(anchor)->0;
            if found < rest.len() {
                assert(rest[found] == anchor);
                assert(old.contains(rest[found]));
                let j = choose|j: int| 0 <= j < old.len() && old[j] == rest[found];
                assert(s.roots.contains(old[j]));
            } else {
                assert(line_s[found - rest.len()] == anchor);
            }
            assert(found == rest.len() + at);
            assert(line_t.insert(found, child) =~= rest + line_s.insert(at, child));
        }
    } else {
        assert(moved_s.nodes.contains_key(parent.0));
        assert(line_t == line_s);
    }
    assert(carries(out_s.nodes, out_t.nodes));
    assert forall|i: int| 0 <= i < rest.len() implies d.roots.contains(#[trigger] rest[i])
        && !out_s.roots.contains(rest[i]) by {
        assert(old.contains(rest[i]));
        let j = choose|j: int| 0 <= j < old.len() && old[j] == rest[i];
        assert(!s.roots.contains(old[j]));
        if out_s.roots.contains(rest[i]) {
            let m = choose|m: int| 0 <= m < out_s.roots.len() && out_s.roots[m] == rest[i];
            lemma_inserted_member(cut_s, out_s, parent, child, anchor, m);
        }
    }
    assert forall|i: int|
        0 <= i < rest.len() && out_s.nodes.contains_key((#[trigger] rest[i]).0) implies
        out_s.nodes[rest[i].0].parent is None by {
        assert(old.contains(rest[i]));
        let j = choose|j: int| 0 <= j < old.len() && old[j] == rest[i];
        assert(s.nodes.contains_key(old[j].0));
        assert(rest[i] != child);
        assert(rest[i].0 != child.0);
    }
    lemma_insertion_keeps_links(s, parent, child, anchor);
}

/// Every top-level node after an insertion was one before, or is the inserted node.
proof fn lemma_inserted_member(
    cut: DomView,
    out: DomView,
    parent: NodeId,
    child: NodeId,
    anchor: NodeId,
    m: int,
)
    requires
        0 <= m < out.roots.len(),
        ({
            let moved = adopted(cut, child, parent);
            let line = siblings(moved, parent);
            if anchor.0 == NodeId::NULL {
                out == with_siblings(moved, parent, line.push(child))
            } else {
                &&& line.index_of_first(anchor) is Some
                &&& out == with_siblings(
                    moved,
                    parent,
                    line.insert(line.index_of_first(anchor)->0, child),
                )
            }
        }),
    ensures
        out.roots[m] == child || cut.roots.contains(out.roots[m]),
{
    let line = siblings(adopted(cut, child, parent), parent);
    line.index_of_first_ensures(anchor);
    if parent.0 == ROOT && anchor.0 != NodeId::NULL {
        let at = line.index_of_first(anchor)->0;
        if m < at {
            assert(out.roots[m] == line[m]);
        } else if m > at {
            assert(out.roots[m] == line[m - 1]);
        }
    } else if parent.0 == ROOT {
        if m < line.len() {
            assert(out.roots[m] == line[m]);
        }
    } else {
        assert(out.roots[m] == cut.roots[m]);
    }
}

proof fn lemma_insertion_keeps_links(s: DomView, parent: NodeId, child: NodeId, anchor: NodeId)
    requires
        linked(s.nodes),
        apply_op(s, (OpView::InsertBefore { parent, child, anchor })).1 is Ok,
    ensures
        linked(apply_op(s, (OpView::InsertBefore { parent, child, anchor })).0.nodes),
{
    let out = apply_op(s, (OpView::InsertBefore { parent, child, anchor })).0;
    let moved = adopted(detached(s, child), child, parent);
    let line = siblings(moved, parent);
    line.index_of_first_ensures(anchor);
    assert forall|k: u64, i: int|
        #![trigger moved.nodes[k].children[i]]
        moved.nodes.contains_key(k) && 0 <= i < moved.nodes[k].children.len() implies
        s.nodes.contains_key(moved.nodes[k].children[i].0) by {
        let whole = s.nodes[k].children;
        let part = moved.nodes[k].children;
        lemma_filter_member(whole, other_than(child));
        if part != whole {
            assert(part == without(whole, child));
            let j = choose|j: int| 0 <= j < whole.len() && whole[j] == part[i];
            assert(s.nodes.contains_key(s.nodes[k].children[j].0));
        } else {
            assert(s.nodes.contains_key(s.nodes[k].children[i].0));
        }
    }
    assert(out.nodes.dom() =~= s.nodes.dom());
    assert forall|k: u64, i: int|
        #![trigger out.nodes[k].children[i]]
        out.nodes.contains_key(k) && 0 <= i < out.nodes[k].children.len() implies
        out.nodes.contains_key(out.nodes[k].children[i].0) by {
        if k == parent.0 && parent.0 != ROOT {
            let at = if anchor.0 == NodeId::NULL {
                line.len() as int
            } else {
                line.index_of_first(anchor)->0
            };
            assert(out.nodes[k].children =~= line.insert(at, child));
            if i != at {
                let j = if i < at {
                    i
                } else {
                    i - 1
                };
                assert(out.nodes[k].children[i] == moved.nodes[k].children[j]);
            }
        } else {
            assert(out.nodes[k].children[i] == moved.nodes[k].children[i]);
        }
    }
    assert forall|k: u64|
        #![trigger out.nodes[k].parent]
        out.nodes.contains_key(k) && out.nodes[k].parent is Some implies out.nodes.contains_key(
        (out.nodes[k].parent->0).0,
    ) by {
        if k != child.0 {
            assert(out.nodes[k].parent == s.nodes[k].parent);
        }
    }
}

/// Both sides put the same into a node that the build has.
proof fn lemma_edit_overlays(
    s: DomView,
    t: DomView,
    d: DomView,
    old: Seq<NodeId>,
    n: NodeId,
    v: NodeView,
)
    requires
        linked(s.nodes),
        overlays(s, t, d, old),
        s.nodes.contains_key(n.0),
        v.children == s.nodes[n.0].children,
        v.parent == s.nodes[n.0].parent,
    ensures
        linked(edit_node(s, n, v).0.nodes),
        overlays(edit_node(s, n, v).0, edit_node(t, n, v).0, d, old),
        edit_node(t, n, v).1 is Ok,
{
    let out = edit_node(s, n, v).0;
    lemma_kept_links(s.nodes, out.nodes);
}

/// Both sides create the same node.
proof fn lemma_creation_overlays(
    s: DomView,
    t: DomView,
    d: DomView,
    old: Seq<NodeId>,
    n: NodeId,
    v: NodeView,
)
    requires
        linked(s.nodes),
        overlays(s, t, d, old),
        n.0 != ROOT,
        v.children.len() == 0,
        v.parent is None,
    ensures
        linked(create_node(s, n, v).0.nodes),
        overlays(create_node(s, n, v).0, create_node(t, n, v).0, d, old),
        create_node(t, n, v).1 is Ok,
{
    let out = create_node(s, n, v).0;
    lemma_kept_links(s.nodes, out.nodes);
}

/// Nodes stay linked where no link changes but to vanish.
proof fn lemma_kept_links(s: Map<u64, NodeView>, out: Map<u64, NodeView>)
    requires
        linked(s),
        forall|k: u64| #[trigger] s.contains_key(k) ==> out.contains_key(k),
        forall|k: u64| #[trigger]
            out.contains_key(k) ==> out[k].children.len() == 0 || s.contains_key(k)
                && out[k].children == s[k].children,
        forall|k: u64| #[trigger]
            out.contains_key(k) ==> out[k].parent is None || s.contains_key(k) && out[k].parent
                == s[k].parent,
    ensures
        linked(out),
{
    assert forall|k: u64, i: int|
        #![trigger out[k].children[i]]
        out.contains_key(k) && 0 <= i < out[k].children.len() implies out.contains_key(
        out[k].children[i].0,
    ) by {
        assert(s[k].children[i] == out[k].children[i]);
    }
    assert forall|k: u64|
        #![trigger out[k].parent]
        out.contains_key(k) && out[k].parent is Some implies out.contains_key(
        (out[k].parent->0).0,
    ) by {
        assert(s[k].parent == out[k].parent);
    }
}

/// One op of a build does to the tree that the build runs over what it does to the build.
proof fn lemma_step_overlays(s: DomView, t: DomView, d: DomView, old: Seq<NodeId>, op: OpView) -> (
    rest: Seq<NodeId>)
    requires
        well_formed(s),
        well_formed(t),
        linked(s.nodes),
        overlays(s, t, d, old),
        !(op is RemoveNode),
        apply_op(s, op).1 is Ok,
    ensures
        apply_op(t, op).1 is Ok,
        linked(apply_op(s, op).0.nodes),
        overlays(apply_op(s, op).0, apply_op(t, op).0, d, rest),
{
    match op {
        OpView::InsertBefore { parent, child, anchor } => {
            lemma_insertion_overlays(s, t, d, old, parent, child, anchor);
            without(old, child)
        },
        OpView::CreateElement { node, tag } => {
            lemma_creation_overlays(s, t, d, old, node, NodeView { tag: Some(tag), ..blank_node() });
            old
        },
        OpView::CreateText { node, text } => {
            let v = NodeView { text: Some(s.strings[text.0]), ..blank_node() };
            lemma_creation_overlays(s, t, d, old, node, v);
            old
        },
        OpView::InternString { id, bytes } => old,
        OpView::BeginBatch { .. } => old,
        OpView::EndBatch => old,
        OpView::SetText { node, .. } => lemma_edit_op_overlays(s, t, d, old, op, node),
        OpView::SetInlineStyle { node, .. } => lemma_edit_op_overlays(s, t, d, old, op, node),
        OpView::SetAttribute { node, .. } => lemma_edit_op_overlays(s, t, d, old, op, node),
        OpView::SetTagName { node, .. } => lemma_edit_op_overlays(s, t, d, old, op, node),
        OpView::SetClass { node, .. } => lemma_edit_op_overlays(s, t, d, old, op, node),
        OpView::RemoveClass { node, .. } => lemma_edit_op_overlays(s, t, d, old, op, node),
        OpView::AddListener { node, .. } => lemma_edit_op_overlays(s, t, d, old, op, node),
        OpView::RemoveListener { node, .. } => lemma_edit_op_overlays(s, t, d, old, op, node),
        OpView::DispatchEvent { .. } => old,
        OpView::RemoveNode { .. } => old,
    }
}

proof fn lemma_edit_op_overlays(
    s: DomView,
    t: DomView,
    d: DomView,
    old: Seq<NodeId>,
    op: OpView,
    n: NodeId,
) -> (rest: Seq<NodeId>)
    requires
        linked(s.nodes),
        overlays(s, t, d, old),
        targets(op, n),
        op is SetText || op is SetInlineStyle || op is SetAttribute || op is SetTagName
            || op is SetClass || op is RemoveClass || op is AddListener || op is RemoveListener,
        apply_op(s, op).1 is Ok,
    ensures
        apply_op(t, op).1 is Ok,
        linked(apply_op(s, op).0.nodes),
        overlays(apply_op(s, op).0, apply_op(t, op).0, d, rest),
        rest == old,
{
    assert(s.nodes.contains_key(n.0));
    let v = apply_op(s, op).0.nodes[n.0];
    assert(t.nodes[n.0] == s.nodes[n.0]);
    assert(apply_op(s, op).0 == edit_node(s, n, v).0);
    assert(apply_op(t, op).0 == edit_node(t, n, v).0);
    lemma_edit_overlays(s, t, d, old, n, v);
    old
}

proof fn lemma_build_overlays(s: DomView, t: DomView, d: DomView, old: Seq<NodeId>, ops: Seq<OpView>) -> (
    rest: Seq<NodeId>)
    requires
        well_formed(s),
        well_formed(t),
        linked(s.nodes),
        overlays(s, t, d, old),
        builds(ops),
        apply_ops(s, ops).1 is Ok,
    ensures
        apply_ops(t, ops).1 is Ok,
        overlays(apply_ops(s, ops).0, apply_ops(t, ops).0, d, rest),
    decreases ops.len(),
{
    if ops.len() == 0 {
        old
    } else {
        assert(!(ops[0] is RemoveNode));
        let next = lemma_step_overlays(s, t, d, old, ops[0]);
        law_ops_keep_trees_well_formed(s, ops[0]);
        law_ops_keep_trees_well_formed(t, ops[0]);
        let then = ops.drop_first();
        assert forall|i: int| 0 <= i < then.len() implies !(#[trigger] then[i] is RemoveNode) by {
            assert(then[i] == ops[i + 1]);
        }
        lemma_build_overlays(apply_op(s, ops[0]).0, apply_op(t, ops[0]).0, d, next, then)
    }
}

/// A build run again onto the tree that it has built leaves the tree exactly as it is.
pub proof fn law_rebuilding_changes_nothing(ops: Seq<OpView>)
    requires
        builds(ops),
        apply_ops(empty_dom(), ops).1 is Ok,
    ensures
        ({
            let built = apply_ops(empty_dom(), ops).0;
            apply_ops(built, ops) == (built, Ok::<(), HostError>(()))
        }),
{
    let none = empty_dom();
    let built = apply_ops(none, ops).0;
    lemma_empty_is_well_formed();
    lemma_ops_keep_well_formed(none, ops);
    assert(built.roots =~= built.roots + none.roots);
    let rest = lemma_build_overlays(none, built, built, built.roots, ops);
    let again = apply_ops(built, ops).0;
    assert(overlays(built, again, built, rest));
    if rest.len() > 0 {
        let n = rest[0];
        assert(built.roots.contains(n));
        assert(!built.roots.contains(n));
    }
    assert(rest.len() == 0);
    assert(again.roots =~= built.roots);
    assert(again.nodes =~= built.nodes);
    assert(again.strings =~= built.strings);
    assert(again == built);
    assert(apply_ops(built, ops).1->Ok_0 == ());
}

proof fn lemma_empty_is_well_formed()
    ensures
        well_formed(empty_dom()),
        linked(empty_dom().nodes),
{
    let rank = |n: u64| 0nat;
    assert(is_ranking(empty_dom().nodes, rank));
}

proof fn lemma_ops_keep_well_formed(d: DomView, ops: Seq<OpView>)
    requires
        well_formed(d),
    ensures
        well_formed(apply_ops(d, ops).0),
    decreases ops.len(),
{
    if ops.len() > 0 {
        law_ops_keep_trees_well_formed(d, ops[0]);
        lemma_ops_keep_well_formed(apply_op(d, ops[0]).0, ops.drop_first());
    }
}

/// A reload that runs the build again and then makes its edits does to the tree what the edits
/// alone do.
pub proof fn law_reloads_make_their_edits(ops: Seq<OpView>, edits: Seq<OpView>)
    requires
        builds(ops),
        apply_ops(empty_dom(), ops).1 is Ok,
    ensures
        ({
            let built = apply_ops(empty_dom(), ops).0;
            apply_ops(built, ops + edits) == apply_ops(built, edits)
        }),
{
    let built = apply_ops(empty_dom(), ops).0;
    law_rebuilding_changes_nothing(ops);
    law_ops_compose(built, ops, edits);
}

/// The same of bytes: a batch that only builds, sent again to the host that it has filled, is
/// accepted and changes nothing.
pub proof fn law_resent_builds_change_nothing(ops: Seq<OpView>)
    requires
        builds(ops),
        forall|i: int| 0 <= i < ops.len() ==> op_fits(#[trigger] ops[i]),
        apply_bytes(empty_dom(), ops_bytes(ops), 0).1 is Ok,
    ensures
        ({
            let built = apply_bytes(empty_dom(), ops_bytes(ops), 0).0;
            apply_bytes(built, ops_bytes(ops), 0) == (built, Ok::<(), HostError>(()))
        }),
{
    law_batch_is_its_ops(empty_dom(), ops);
    law_rebuilding_changes_nothing(ops);
    law_batch_is_its_ops(apply_ops(empty_dom(), ops).0, ops);
}

} // verus!
