//! What the host's retained tree is, and what each op does to it.
//!
//! A tree is a map from node handles to nodes, each of which lists its children. Ops are
//! functions on trees: [`apply_op`] says, of a tree and an op, what tree and what answer come
//! out, and [`apply_bytes`] says the same of a whole encoded batch.
use crate::handles::{ElementTag, EventKind, HandlerId, NodeId, PropId, StrId, ROOT};
use crate::protocol::{
    law_op_round_trip, lemma_parse_op_end, op_bytes, op_fits, ops_bytes, parse_op, parse_ops, OpView,
};
use crate::seqs::{
    lemma_filter_absent, lemma_filter_contains, lemma_filter_member, lemma_filter_no_duplicates,
    lemma_insert_contains, lemma_insert_no_duplicates,
};
use crate::wire::{lemma_stands_at_concat, stands_at};
use vstd::prelude::*;
use vstd::utf8::{decode_utf8, valid_utf8};

verus! {

/// Why the host refused a batch.
#[derive(Clone, Copy, PartialEq, Eq, Debug, Structural)]
pub enum HostError {
    /// An op names a node that does not exist, or would close a cycle.
    BadHandle,
    /// The bytes are not a valid guest batch.
    Decode,
    /// The host does not support the request.
    Unsupported,
}

/// What a retained node holds.
#[verifier::ext_equal]
pub ghost struct NodeView {
    /// Element kind; a text node has none.
    pub tag: Option<ElementTag>,
    /// Text content.
    pub text: Option<Seq<char>>,
    /// Parent; a detached or top-level node has none.
    pub parent: Option<NodeId>,
    /// Children, in order.
    pub children: Seq<NodeId>,
    /// Inline style values, by raw property id.
    pub styles: Map<u16, Seq<char>>,
    /// CSS local name.
    pub tag_name: Option<Seq<char>>,
    /// CSS class names, in the order they were added.
    pub classes: Seq<Seq<char>>,
    /// Attribute values, by raw attribute id.
    pub attrs: Map<u16, Seq<char>>,
    /// Event subscriptions, in the order they were added.
    pub listeners: Seq<(EventKind, HandlerId)>,
}

/// What a retained tree holds.
#[verifier::ext_equal]
pub ghost struct DomView {
    /// The live nodes, by raw handle.
    pub nodes: Map<u64, NodeView>,
    /// The string table, by raw string id.
    pub strings: Map<u32, Seq<char>>,
    /// The top-level nodes, in order.
    pub roots: Seq<NodeId>,
}

/// A node with nothing in it.
pub open spec fn blank_node() -> NodeView {
    NodeView {
        tag: None,
        text: None,
        parent: None,
        children: seq![],
        styles: Map::empty(),
        tag_name: None,
        classes: seq![],
        attrs: Map::empty(),
        listeners: seq![],
    }
}

/// A tree with nothing in it.
pub open spec fn empty_dom() -> DomView {
    DomView { nodes: Map::empty(), strings: Map::empty(), roots: seq![] }
}

// ---------------------------------------------------------------------------------------
// Reachability.
// ---------------------------------------------------------------------------------------

/// The children of a live node; a dead node has none.
pub open spec fn kids(nodes: Map<u64, NodeView>, n: NodeId) -> Seq<NodeId> {
    if nodes.contains_key(n.0) {
        nodes[n.0].children
    } else {
        seq![]
    }
}

/// Whether `rank` puts every node strictly above its children.
pub open spec fn is_ranking(nodes: Map<u64, NodeView>, rank: spec_fn(u64) -> nat) -> bool {
    forall|n: u64, i: int|
        #![trigger nodes[n].children[i]]
        nodes.contains_key(n) && 0 <= i < nodes[n].children.len() ==> rank(nodes[n].children[i].0)
            < rank(n)
}

/// No node is its own descendant.
pub open spec fn acyclic(nodes: Map<u64, NodeView>) -> bool {
    exists|rank: spec_fn(u64) -> nat| is_ranking(nodes, rank)
}

/// How high a node stands above its descendants.
pub open spec fn height(nodes: Map<u64, NodeView>, n: NodeId) -> nat {
    (choose|rank: spec_fn(u64) -> nat| is_ranking(nodes, rank))(n.0)
}

/// A node and all its descendants, each parent before its children, siblings in order. In an
/// acyclic tree this is the node followed by the [`forest`] of its children.
pub open spec fn preorder(nodes: Map<u64, NodeView>, n: NodeId) -> Seq<NodeId>
    decreases height(nodes, n), kids(nodes, n).len() + 1,
{
    seq![n] + forest_below(nodes, kids(nodes, n), height(nodes, n))
}

/// The nodes of `ids` that stand lower than `h`, each with its descendants.
pub open spec fn forest_below(nodes: Map<u64, NodeView>, ids: Seq<NodeId>, h: nat) -> Seq<NodeId>
    decreases h, ids.len(),
{
    if ids.len() == 0 {
        seq![]
    } else {
        (if height(nodes, ids[0]) < h {
            preorder(nodes, ids[0])
        } else {
            seq![]
        }) + forest_below(nodes, ids.drop_first(), h)
    }
}

/// The nodes of `ids`, each with its descendants.
pub open spec fn forest(nodes: Map<u64, NodeView>, ids: Seq<NodeId>) -> Seq<NodeId>
    decreases ids.len(),
{
    if ids.len() == 0 {
        seq![]
    } else {
        preorder(nodes, ids[0]) + forest(nodes, ids.drop_first())
    }
}

/// Whether `x` is `n` or one of its descendants.
pub open spec fn reaches(nodes: Map<u64, NodeView>, n: NodeId, x: NodeId) -> bool {
    preorder(nodes, n).contains(x)
}

/// The parent that a live node records.
pub open spec fn parent_of(nodes: Map<u64, NodeView>, n: NodeId) -> Option<NodeId> {
    if nodes.contains_key(n.0) {
        nodes[n.0].parent
    } else {
        None
    }
}

/// A node, the parent it records, that one's parent, and so on up, until one records none or the
/// next has been passed; `left` are the live nodes that were not passed.
pub open spec fn climb(nodes: Map<u64, NodeView>, n: NodeId, left: Set<u64>) -> Seq<NodeId>
    decreases left.len(),
{
    proof {
        lemma_finite(left);
    }
    if !left.contains(n.0) {
        seq![n]
    } else {
        let rest = left.remove(n.0);
        match parent_of(nodes, n) {
            Some(p) => if nodes.contains_key(p.0) && !rest.contains(p.0) {
                seq![n]
            } else {
                seq![n] + climb(nodes, p, rest)
            },
            None => seq![n],
        }
    }
}

/// A node, the parent it records, that one's parent, and so on up, each once.
pub open spec fn ancestors(nodes: Map<u64, NodeView>, n: NodeId) -> Seq<NodeId> {
    climb(nodes, n, nodes.dom())
}

/// There are finitely many raw handles.
pub proof fn lemma_finite(s: Set<u64>)
    ensures
        s.finite(),
{
    <u64 as vstd::set_lib::FiniteFull>::full_properties();
    vstd::set_lib::lemma_set_subset_finite(Set::<u64>::full(), s);
}

// ---------------------------------------------------------------------------------------
// What each op does.
// ---------------------------------------------------------------------------------------

/// Every node but `x`.
pub open spec fn other_than(x: NodeId) -> spec_fn(NodeId) -> bool {
    |c: NodeId| c != x
}

/// Every class but `name`.
pub open spec fn other_class(name: Seq<char>) -> spec_fn(Seq<char>) -> bool {
    |c: Seq<char>| c != name
}

/// Every subscription but those to `event`.
pub open spec fn other_event(event: EventKind) -> spec_fn((EventKind, HandlerId)) -> bool {
    |l: (EventKind, HandlerId)| l.0 != event
}

/// `s` without the occurrences of `x`.
pub open spec fn without(s: Seq<NodeId>, x: NodeId) -> Seq<NodeId> {
    s.filter(other_than(x))
}

/// The tree in which no parent lists `n`, so far as `n` knows its parent.
pub open spec fn detached(d: DomView, n: NodeId) -> DomView {
    match d.nodes[n.0].parent {
        Some(p) => if d.nodes.contains_key(p.0) {
            DomView {
                nodes: d.nodes.insert(
                    p.0,
                    NodeView {
                        children: without(d.nodes[p.0].children, n),
                        ..d.nodes[p.0]
                    },
                ),
                ..d
            }
        } else {
            d
        },
        None => DomView { roots: without(d.roots, n), ..d },
    }
}

/// The tree in which `n` records `parent` as its parent.
pub open spec fn adopted(d: DomView, n: NodeId, parent: NodeId) -> DomView {
    let p = if parent.0 == ROOT {
        None
    } else {
        Some(parent)
    };
    DomView { nodes: d.nodes.insert(n.0, NodeView { parent: p, ..d.nodes[n.0] }), ..d }
}

/// The children of `parent`, or the top-level nodes if it is the root.
pub open spec fn siblings(d: DomView, parent: NodeId) -> Seq<NodeId> {
    if parent.0 == ROOT {
        d.roots
    } else {
        kids(d.nodes, parent)
    }
}

/// The tree in which `parent` has the children `s`.
pub open spec fn with_siblings(d: DomView, parent: NodeId, s: Seq<NodeId>) -> DomView {
    if parent.0 == ROOT {
        DomView { roots: s, ..d }
    } else {
        DomView {
            nodes: d.nodes.insert(parent.0, NodeView { children: s, ..d.nodes[parent.0] }),
            ..d
        }
    }
}

/// Whether putting `child` under `parent` would close a cycle: the parent is inside the child's
/// own subtree.
pub open spec fn closes_cycle(nodes: Map<u64, NodeView>, parent: NodeId, child: NodeId) -> bool {
    reaches(nodes, child, parent)
}

/// Insert `child` under `parent` before `anchor`. Nodes that do not exist are refused, and so
/// are an insertion that would close a cycle and an anchor that is none of the other children
/// of `parent`.
pub open spec fn insert_before(
    d: DomView,
    parent: NodeId,
    child: NodeId,
    anchor: NodeId,
) -> (DomView, Result<(), HostError>) {
    if !d.nodes.contains_key(child.0) || parent.0 != ROOT && !d.nodes.contains_key(parent.0) {
        (d, Err(HostError::BadHandle))
    } else if parent.0 != ROOT && closes_cycle(d.nodes, parent, child) {
        (d, Err(HostError::BadHandle))
    } else {
        let moved = adopted(detached(d, child), child, parent);
        let line = siblings(moved, parent);
        if anchor.0 == NodeId::NULL {
            (with_siblings(moved, parent, line.push(child)), Ok(()))
        } else {
            match line.index_of_first(anchor) {
                Some(at) => (with_siblings(moved, parent, line.insert(at, child)), Ok(())),
                None => (d, Err(HostError::BadHandle)),
            }
        }
    }
}

/// Remove `n` and everything below it.
pub open spec fn remove_node(d: DomView, n: NodeId) -> (DomView, Result<(), HostError>) {
    if d.nodes.contains_key(n.0) {
        let cut = detached(d, n);
        (
            DomView {
                nodes: cut.nodes.remove_keys(
                    preorder(cut.nodes, n).map_values(|x: NodeId| x.0).to_set(),
                ),
                ..cut
            },
            Ok(()),
        )
    } else {
        (d, Err(HostError::BadHandle))
    }
}

/// Put a fresh node into the tree. The root is not a node and cannot be created.
pub open spec fn create_node(d: DomView, n: NodeId, fresh: NodeView) -> (
    DomView,
    Result<(), HostError>,
) {
    if n.0 == ROOT {
        (d, Err(HostError::BadHandle))
    } else {
        (DomView { nodes: d.nodes.insert(n.0, fresh), ..d }, Ok(()))
    }
}

/// Replace what node `n` holds, if it exists.
pub open spec fn edit_node(d: DomView, n: NodeId, edited: NodeView) -> (
    DomView,
    Result<(), HostError>,
) {
    if d.nodes.contains_key(n.0) {
        (DomView { nodes: d.nodes.insert(n.0, edited), ..d }, Ok(()))
    } else {
        (d, Err(HostError::BadHandle))
    }
}

/// The tree in which a live node has an inline style set.
pub open spec fn with_style(d: DomView, n: NodeId, prop: PropId, value: Seq<char>) -> DomView {
    let node = d.nodes[n.0];
    edit_node(d, n, NodeView { styles: node.styles.insert(prop.0, value), ..node }).0
}

/// What an op does to a tree, and what the host answers.
pub open spec fn apply_op(d: DomView, op: OpView) -> (DomView, Result<(), HostError>) {
    match op {
        OpView::BeginBatch { .. } => (d, Ok(())),
        OpView::EndBatch => (d, Ok(())),
        OpView::InternString { id, bytes } => if valid_utf8(bytes) {
            (DomView { strings: d.strings.insert(id.0, decode_utf8(bytes)), ..d }, Ok(()))
        } else {
            (d, Err(HostError::Decode))
        },
        OpView::CreateElement { node, tag } => create_node(
            d,
            node,
            NodeView { tag: Some(tag), ..blank_node() },
        ),
        OpView::CreateText { node, text } => if d.strings.contains_key(text.0) {
            create_node(d, node, NodeView { text: Some(d.strings[text.0]), ..blank_node() })
        } else {
            (d, Err(HostError::Decode))
        },
        OpView::InsertBefore { parent, child, anchor } => insert_before(d, parent, child, anchor),
        OpView::RemoveNode { node } => remove_node(d, node),
        OpView::SetText { node, text } => if d.strings.contains_key(text.0) {
            edit_node(d, node, NodeView { text: Some(d.strings[text.0]), ..d.nodes[node.0] })
        } else {
            (d, Err(HostError::Decode))
        },
        OpView::AddListener { node, event, handler } => {
            let n = d.nodes[node.0];
            edit_node(d, node, NodeView { listeners: n.listeners.push((event, handler)), ..n })
        },
        OpView::RemoveListener { node, event } => {
            let n = d.nodes[node.0];
            edit_node(
                d,
                node,
                NodeView {
                    listeners: n.listeners.filter(other_event(event)),
                    ..n
                },
            )
        },
        OpView::SetInlineStyle { node, prop, value } => if d.strings.contains_key(value.0) {
            let n = d.nodes[node.0];
            edit_node(
                d,
                node,
                NodeView { styles: n.styles.insert(prop.0, d.strings[value.0]), ..n },
            )
        } else {
            (d, Err(HostError::Decode))
        },
        OpView::SetClass { node, class } => if d.strings.contains_key(class.0) {
            let n = d.nodes[node.0];
            let name = d.strings[class.0];
            edit_node(
                d,
                node,
                NodeView {
                    classes: if n.classes.contains(name) {
                        n.classes
                    } else {
                        n.classes.push(name)
                    },
                    ..n
                },
            )
        } else {
            (d, Err(HostError::Decode))
        },
        OpView::RemoveClass { node, class } => if d.strings.contains_key(class.0) {
            let n = d.nodes[node.0];
            let name = d.strings[class.0];
            edit_node(
                d,
                node,
                NodeView { classes: n.classes.filter(other_class(name)), ..n },
            )
        } else {
            (d, Err(HostError::Decode))
        },
        OpView::SetAttribute { node, attr, value } => if d.strings.contains_key(value.0) {
            let n = d.nodes[node.0];
            edit_node(d, node, NodeView { attrs: n.attrs.insert(attr.0, d.strings[value.0]), ..n })
        } else {
            (d, Err(HostError::Decode))
        },
        OpView::SetTagName { node, name } => if d.strings.contains_key(name.0) {
            edit_node(d, node, NodeView { tag_name: Some(d.strings[name.0]), ..d.nodes[node.0] })
        } else {
            (d, Err(HostError::Decode))
        },
        OpView::DispatchEvent { .. } => (d, Err(HostError::Decode)),
    }
}

/// What a sequence of ops does: each in turn, up to the first that is refused.
pub open spec fn apply_ops(d: DomView, ops: Seq<OpView>) -> (DomView, Result<(), HostError>)
    decreases ops.len(),
{
    if ops.len() == 0 {
        (d, Ok(()))
    } else {
        let (next, answer) = apply_op(d, ops[0]);
        if answer is Ok {
            apply_ops(next, ops.drop_first())
        } else {
            (next, answer)
        }
    }
}

/// What the bytes from `p` on do: each op in turn, up to the first that cannot be decoded or
/// is refused.
pub open spec fn apply_bytes(d: DomView, b: Seq<u8>, p: int) -> (DomView, Result<(), HostError>)
    decreases b.len() - p,
{
    if p >= b.len() {
        (d, Ok(()))
    } else {
        match parse_op(b, p) {
            Ok((op, q)) => {
                let (next, answer) = apply_op(d, op);
                if answer is Ok {
                    apply_bytes(next, b, q)
                } else {
                    (next, answer)
                }
            },
            Err(_) => (d, Err(HostError::Decode)),
        }
    }
}

// ---------------------------------------------------------------------------------------
// What every op keeps.
// ---------------------------------------------------------------------------------------

/// What holds of every tree that ops have built: no node is below itself, the root is not a node,
/// and no node has a class twice.
pub open spec fn well_formed(d: DomView) -> bool {
    &&& acyclic(d.nodes)
    &&& !d.nodes.contains_key(ROOT)
    &&& forall|n: u64| #[trigger]
        d.nodes.contains_key(n) ==> d.nodes[n].classes.no_duplicates()
}

proof fn lemma_height_ranks(nodes: Map<u64, NodeView>)
    requires
        acyclic(nodes),
    ensures
        is_ranking(nodes, |n: u64| height(nodes, NodeId(n))),
{
    let rank = choose|rank: spec_fn(u64) -> nat| is_ranking(nodes, rank);
    assert forall|n: u64, i: int|
        #![trigger nodes[n].children[i]]
        nodes.contains_key(n) && 0 <= i < nodes[n].children.len() implies height(
        nodes,
        NodeId(nodes[n].children[i].0),
    ) < height(nodes, NodeId(n)) by {
        assert(rank(nodes[n].children[i].0) < rank(n));
    }
}

/// In an acyclic tree a child stands lower than its parent.
pub proof fn lemma_child_is_lower(nodes: Map<u64, NodeView>, n: NodeId, i: int)
    requires
        acyclic(nodes),
        0 <= i < kids(nodes, n).len(),
    ensures
        height(nodes, kids(nodes, n)[i]) < height(nodes, n),
{
    lemma_height_ranks(nodes);
    assert(nodes[n.0].children[i] == kids(nodes, n)[i]);
}

proof fn lemma_forest_below(nodes: Map<u64, NodeView>, ids: Seq<NodeId>, h: nat)
    requires
        forall|i: int| 0 <= i < ids.len() ==> height(nodes, #[trigger] ids[i]) < h,
    ensures
        forest_below(nodes, ids, h) == forest(nodes, ids),
    decreases ids.len(),
{
    if ids.len() > 0 {
        assert(height(nodes, ids[0]) < h);
        assert forall|i: int| 0 <= i < ids.drop_first().len() implies height(
            nodes,
            #[trigger] ids.drop_first()[i],
        ) < h by {
            assert(ids.drop_first()[i] == ids[i + 1]);
        }
        lemma_forest_below(nodes, ids.drop_first(), h);
    }
}

/// In an acyclic tree, the preorder of a node is the node followed by the forest of its
/// children.
pub proof fn law_preorder_unfolds(nodes: Map<u64, NodeView>, n: NodeId)
    requires
        acyclic(nodes),
    ensures
        preorder(nodes, n) == seq![n] + forest(nodes, kids(nodes, n)),
{
    let ids = kids(nodes, n);
    assert forall|i: int| 0 <= i < ids.len() implies height(nodes, #[trigger] ids[i]) < height(
        nodes,
        n,
    ) by {
        lemma_child_is_lower(nodes, n, i);
    }
    lemma_forest_below(nodes, ids, height(nodes, n));
}

/// A forest with one more tree at its end.
pub proof fn lemma_forest_push(nodes: Map<u64, NodeView>, ids: Seq<NodeId>, n: NodeId)
    ensures
        forest(nodes, ids.push(n)) == forest(nodes, ids) + preorder(nodes, n),
    decreases ids.len(),
{
    let all = ids.push(n);
    if ids.len() == 0 {
        assert(all.drop_first() =~= ids);
        assert(forest(nodes, all) =~= forest(nodes, ids) + preorder(nodes, n));
    } else {
        assert(all.drop_first() =~= ids.drop_first().push(n));
        lemma_forest_push(nodes, ids.drop_first(), n);
        assert(forest(nodes, all) =~= forest(nodes, ids) + preorder(nodes, n));
    }
}

/// What is in a forest is in one of its trees.
pub proof fn lemma_forest_member(nodes: Map<u64, NodeView>, ids: Seq<NodeId>, x: NodeId)
    ensures
        forest(nodes, ids).contains(x) <==> exists|i: int|
            0 <= i < ids.len() && reaches(nodes, #[trigger] ids[i], x),
    decreases ids.len(),
{
    if ids.len() > 0 {
        let first = preorder(nodes, ids[0]);
        let rest = forest(nodes, ids.drop_first());
        lemma_forest_member(nodes, ids.drop_first(), x);
        assert((first + rest).contains(x) <==> first.contains(x) || rest.contains(x)) by {
            if first.contains(x) {
                let i = choose|i: int| 0 <= i < first.len() && first[i] == x;
                assert((first + rest)[i] == x);
            }
            if rest.contains(x) {
                let i = choose|i: int| 0 <= i < rest.len() && rest[i] == x;
                assert((first + rest)[first.len() + i] == x);
            }
            if (first + rest).contains(x) {
                let i = choose|i: int| 0 <= i < (first + rest).len() && (first + rest)[i] == x;
                if i < first.len() {
                    assert(first[i] == x);
                } else {
                    assert(rest[i - first.len()] == x);
                }
            }
        }
        if exists|i: int| 0 <= i < ids.len() && reaches(nodes, #[trigger] ids[i], x) {
            let i = choose|i: int| 0 <= i < ids.len() && reaches(nodes, #[trigger] ids[i], x);
            if i > 0 {
                assert(ids.drop_first()[i - 1] == ids[i]);
            }
        }
        if rest.contains(x) {
            let i = choose|i: int|
                0 <= i < ids.drop_first().len() && reaches(
                    nodes,
                    #[trigger] ids.drop_first()[i],
                    x,
                );
            assert(ids[i + 1] == ids.drop_first()[i]);
        }
        if first.contains(x) {
            assert(reaches(nodes, ids[0], x));
        }
    }
}

/// In an acyclic tree, a node reaches itself and what its children reach, and nothing else.
pub proof fn law_reaches_unfolds(nodes: Map<u64, NodeView>, n: NodeId, x: NodeId)
    requires
        acyclic(nodes),
    ensures
        reaches(nodes, n, x) <==> n == x || exists|i: int|
            0 <= i < kids(nodes, n).len() && reaches(nodes, #[trigger] kids(nodes, n)[i], x),
{
    law_preorder_unfolds(nodes, n);
    lemma_forest_member(nodes, kids(nodes, n), x);
    let tail = forest(nodes, kids(nodes, n));
    let all = seq![n] + tail;
    if n == x {
        assert(all[0] == x);
    }
    if tail.contains(x) {
        let i = choose|i: int| 0 <= i < tail.len() && tail[i] == x;
        assert(all[i + 1] == x);
    }
    if all.contains(x) && n != x {
        let i = choose|i: int| 0 <= i < all.len() && all[i] == x;
        assert(tail[i - 1] == x);
    }
}

/// Whether every parent-child edge of `m` is one of `nodes`.
spec fn no_new_edges(nodes: Map<u64, NodeView>, m: Map<u64, NodeView>) -> bool {
    forall|n: u64, i: int|
        #![trigger m[n].children[i]]
        m.contains_key(n) && 0 <= i < m[n].children.len() ==> nodes.contains_key(n)
            && nodes[n].children.contains(m[n].children[i])
}

proof fn lemma_no_new_edges(nodes: Map<u64, NodeView>, m: Map<u64, NodeView>, rank: spec_fn(u64) -> nat)
    requires
        no_new_edges(nodes, m),
        is_ranking(nodes, rank),
    ensures
        is_ranking(m, rank),
{
    assert forall|n: u64, i: int|
        #![trigger m[n].children[i]]
        m.contains_key(n) && 0 <= i < m[n].children.len() implies rank(m[n].children[i].0) < rank(
        n,
    ) by {
        let c = m[n].children[i];
        let old = nodes[n].children;
        let j = choose|j: int| 0 <= j < old.len() && old[j] == c;
        assert(nodes[n].children[j] == c);
    }
}

proof fn lemma_fewer_edges_acyclic(nodes: Map<u64, NodeView>, m: Map<u64, NodeView>)
    requires
        no_new_edges(nodes, m),
        acyclic(nodes),
    ensures
        acyclic(m),
{
    let rank = choose|rank: spec_fn(u64) -> nat| is_ranking(nodes, rank);
    lemma_no_new_edges(nodes, m, rank);
}

proof fn lemma_same_children(nodes: Map<u64, NodeView>, k: u64, v: NodeView)
    requires
        nodes.contains_key(k) ==> v.children == nodes[k].children,
        !nodes.contains_key(k) ==> v.children.len() == 0,
    ensures
        no_new_edges(nodes, nodes.insert(k, v)),
{
    let m = nodes.insert(k, v);
    assert forall|n: u64, i: int|
        #![trigger m[n].children[i]]
        m.contains_key(n) && 0 <= i < m[n].children.len() implies nodes.contains_key(n)
        && nodes[n].children.contains(m[n].children[i]) by {
        assert(nodes[n].children[i] == m[n].children[i]);
    }
}

/// What is left without `x` was there before.
pub proof fn lemma_without_member(s: Seq<NodeId>, x: NodeId)
    ensures
        forall|i: int|
            0 <= i < without(s, x).len() ==> #[trigger] without(s, x)[i] != x && s.contains(
                without(s, x)[i],
            ),
{
    lemma_filter_member(s, other_than(x));
}

proof fn lemma_detached_edges(d: DomView, n: NodeId)
    ensures
        no_new_edges(d.nodes, detached(d, n).nodes),
        detached(d, n).nodes.dom() =~= d.nodes.dom(),
        forall|k: u64| #[trigger]
            d.nodes.contains_key(k) ==> detached(d, n).nodes[k].classes == d.nodes[k].classes
                && detached(d, n).nodes[k].parent == d.nodes[k].parent,
{
    let m = detached(d, n).nodes;
    assert forall|k: u64, i: int|
        #![trigger m[k].children[i]]
        m.contains_key(k) && 0 <= i < m[k].children.len() implies d.nodes.contains_key(k)
        && d.nodes[k].children.contains(m[k].children[i]) by {
        lemma_without_member(d.nodes[k].children, n);
        if m[k].children == d.nodes[k].children {
            assert(d.nodes[k].children[i] == m[k].children[i]);
        } else {
            let rest = without(d.nodes[k].children, n);
            assert(m[k].children == rest);
            assert(d.nodes[k].children.contains(rest[i]));
        }
    }
}

/// Detaching a node keeps a tree well formed.
pub proof fn lemma_detached_well_formed(d: DomView, n: NodeId)
    requires
        well_formed(d),
    ensures
        well_formed(detached(d, n)),
{
    lemma_detached_edges(d, n);
    lemma_fewer_edges_acyclic(d.nodes, detached(d, n).nodes);
    assert forall|k: u64| #[trigger] detached(d, n).nodes.contains_key(k) implies detached(
        d,
        n,
    ).nodes[k].classes.no_duplicates() by {
        assert(d.nodes.contains_key(k));
    }
}

proof fn lemma_moved_edges(d: DomView, child: NodeId, parent: NodeId)
    requires
        d.nodes.contains_key(child.0),
    ensures
        ({
            let moved = adopted(detached(d, child), child, parent);
            &&& no_new_edges(d.nodes, moved.nodes)
            &&& moved.nodes.dom() =~= d.nodes.dom()
            &&& forall|k: u64| #[trigger]
                d.nodes.contains_key(k) ==> moved.nodes[k].classes == d.nodes[k].classes
            &&& forall|k: u64| #[trigger]
                d.nodes.contains_key(k) && k != child.0 ==> moved.nodes[k].parent
                    == d.nodes[k].parent
        }),
{
    let cut = detached(d, child);
    let moved = adopted(cut, child, parent);
    lemma_detached_edges(d, child);
    assert forall|n: u64, i: int|
        #![trigger moved.nodes[n].children[i]]
        moved.nodes.contains_key(n) && 0 <= i < moved.nodes[n].children.len() implies
        d.nodes.contains_key(n) && d.nodes[n].children.contains(moved.nodes[n].children[i]) by {
        assert(cut.nodes[n].children[i] == moved.nodes[n].children[i]);
    }
}

proof fn lemma_insert_acyclic(
    d: DomView,
    moved: DomView,
    parent: NodeId,
    child: NodeId,
    at: int,
)
    requires
        acyclic(d.nodes),
        no_new_edges(d.nodes, moved.nodes),
        moved.nodes.contains_key(parent.0),
        d.nodes.contains_key(parent.0),
        parent.0 != ROOT,
        !reaches(d.nodes, child, parent),
        0 <= at <= siblings(moved, parent).len(),
    ensures
        acyclic(with_siblings(moved, parent, siblings(moved, parent).insert(at, child)).nodes),
{
    let line = siblings(moved, parent);
    let m = with_siblings(moved, parent, line.insert(at, child)).nodes;
    let base = |n: u64| height(d.nodes, NodeId(n));
    let lift = (height(d.nodes, child) + 1) as nat;
    let rank = |n: u64|
        if reaches(d.nodes, NodeId(n), parent) {
            base(n) + lift
        } else {
            base(n)
        };
    lemma_height_ranks(d.nodes);
    law_reaches_unfolds(d.nodes, parent, parent);
    assert forall|n: u64, i: int|
        #![trigger m[n].children[i]]
        m.contains_key(n) && 0 <= i < m[n].children.len() implies rank(m[n].children[i].0) < rank(
        n,
    ) by {
        let c = m[n].children[i];
        if n == parent.0 && i == at {
            assert(c == child);
            assert(NodeId(child.0) == child && NodeId(n) == parent);
        } else {
            let j = if n == parent.0 && i > at {
                i - 1
            } else {
                i
            };
            assert(moved.nodes[n].children[j] == c);
            assert(d.nodes[n].children.contains(c));
            let k = choose|k: int| 0 <= k < d.nodes[n].children.len() && d.nodes[n].children[k] == c;
            assert(d.nodes[n].children[k] == c);
            assert(base(c.0) < base(n));
            assert(kids(d.nodes, NodeId(n))[k] == c);
            law_reaches_unfolds(d.nodes, NodeId(n), parent);
            assert(NodeId(c.0) == c);
        }
    }
    assert(is_ranking(m, rank));
}

/// Every op keeps a tree well formed, also when it is refused.
pub proof fn law_ops_keep_trees_well_formed(d: DomView, op: OpView)
    requires
        well_formed(d),
    ensures
        well_formed(apply_op(d, op).0),
{
    let after = apply_op(d, op).0;
    match op {
        OpView::InsertBefore { parent, child, anchor } => {
            if after != d {
                let moved = adopted(detached(d, child), child, parent);
                let line = siblings(moved, parent);
                lemma_moved_edges(d, child, parent);
                lemma_fewer_edges_acyclic(d.nodes, moved.nodes);
                line.index_of_first_ensures(anchor);
                if parent.0 != ROOT {
                    if anchor.0 == NodeId::NULL {
                        assert(line.push(child) =~= line.insert(line.len() as int, child));
                        lemma_insert_acyclic(d, moved, parent, child, line.len() as int);
                    } else if line.contains(anchor) {
                        lemma_insert_acyclic(
                            d,
                            moved,
                            parent,
                            child,
                            line.index_of_first(anchor)->0,
                        );
                    }
                }
                assert forall|n: u64| #[trigger] after.nodes.contains_key(n) implies
                    after.nodes[n].classes.no_duplicates() by {
                    assert(d.nodes.contains_key(n));
                    assert(moved.nodes[n].classes == d.nodes[n].classes);
                }
            }
        },
        OpView::RemoveNode { node } => {
            if d.nodes.contains_key(node.0) {
                let cut = detached(d, node);
                lemma_detached_edges(d, node);
                assert forall|n: u64, i: int|
                    #![trigger after.nodes[n].children[i]]
                    after.nodes.contains_key(n) && 0 <= i < after.nodes[n].children.len() implies
                    d.nodes.contains_key(n) && d.nodes[n].children.contains(
                    after.nodes[n].children[i],
                ) by {
                    assert(cut.nodes[n].children[i] == after.nodes[n].children[i]);
                }
                lemma_fewer_edges_acyclic(d.nodes, after.nodes);
                assert forall|n: u64| #[trigger] after.nodes.contains_key(n) implies
                    after.nodes[n].classes.no_duplicates() by {
                    assert(d.nodes.contains_key(n));
                }
            }
        },
        OpView::CreateElement { node, tag } => {
            lemma_create_well_formed(d, node, NodeView { tag: Some(tag), ..blank_node() });
        },
        OpView::CreateText { node, text } => {
            lemma_create_well_formed(
                d,
                node,
                NodeView { text: Some(d.strings[text.0]), ..blank_node() },
            );
        },
        OpView::SetClass { node, class } => {
            lemma_edit_well_formed(d, node, after.nodes[node.0]);
        },
        OpView::RemoveClass { node, class } => {
            let name = d.strings[class.0];
            if d.nodes.contains_key(node.0) {
                lemma_filter_no_duplicates(d.nodes[node.0].classes, other_class(name));
            }
            lemma_edit_well_formed(d, node, after.nodes[node.0]);
        },
        OpView::SetText { node, .. } => {
            lemma_edit_well_formed(d, node, after.nodes[node.0]);
        },
        OpView::AddListener { node, .. } => {
            lemma_edit_well_formed(d, node, after.nodes[node.0]);
        },
        OpView::RemoveListener { node, .. } => {
            lemma_edit_well_formed(d, node, after.nodes[node.0]);
        },
        OpView::SetInlineStyle { node, .. } => {
            lemma_edit_well_formed(d, node, after.nodes[node.0]);
        },
        OpView::SetAttribute { node, .. } => {
            lemma_edit_well_formed(d, node, after.nodes[node.0]);
        },
        OpView::SetTagName { node, .. } => {
            lemma_edit_well_formed(d, node, after.nodes[node.0]);
        },
        _ => {},
    }
}

proof fn lemma_create_well_formed(d: DomView, n: NodeId, fresh: NodeView)
    requires
        well_formed(d),
        fresh.children.len() == 0,
        fresh.classes.len() == 0,
        fresh.parent is None,
    ensures
        well_formed(create_node(d, n, fresh).0),
{
    let m = d.nodes.insert(n.0, fresh);
    assert forall|k: u64, i: int|
        #![trigger m[k].children[i]]
        m.contains_key(k) && 0 <= i < m[k].children.len() implies d.nodes.contains_key(k)
        && d.nodes[k].children.contains(m[k].children[i]) by {
        assert(d.nodes[k].children[i] == m[k].children[i]);
    }
    lemma_fewer_edges_acyclic(d.nodes, m);
}

proof fn lemma_edit_well_formed(d: DomView, n: NodeId, edited: NodeView)
    requires
        well_formed(d),
        d.nodes.contains_key(n.0) ==> edited.children == d.nodes[n.0].children && edited.parent
            == d.nodes[n.0].parent && edited.classes.no_duplicates(),
    ensures
        well_formed(edit_node(d, n, edited).0),
{
    if d.nodes.contains_key(n.0) {
        lemma_same_children(d.nodes, n.0, edited);
        lemma_fewer_edges_acyclic(d.nodes, d.nodes.insert(n.0, edited));
    }
}

/// Setting a style keeps a tree well-formed.
pub proof fn lemma_with_style_well_formed(d: DomView, n: NodeId, prop: PropId, value: Seq<char>)
    requires
        well_formed(d),
    ensures
        well_formed(with_style(d, n, prop, value)),
{
    if d.nodes.contains_key(n.0) {
        lemma_edit_well_formed(d, n, with_style(d, n, prop, value).nodes[n.0]);
    }
}

/// A whole batch keeps a tree well formed, wherever in it the host stops.
pub proof fn law_batches_keep_trees_well_formed(d: DomView, b: Seq<u8>, p: int)
    requires
        well_formed(d),
        0 <= p,
    ensures
        well_formed(apply_bytes(d, b, p).0),
    decreases b.len() - p,
{
    if p < b.len() {
        if let Ok((op, q)) = parse_op(b, p) {
            law_ops_keep_trees_well_formed(d, op);
            if apply_op(d, op).1 is Ok {
                law_batches_keep_trees_well_formed(apply_op(d, op).0, b, q);
            }
        }
    }
}

/// The parent that the children of `p` record.
pub open spec fn owner(p: NodeId) -> Option<NodeId> {
    if p.0 == ROOT {
        None
    } else {
        Some(p)
    }
}

/// Whether the lists of children and the recorded parents agree: every node that a list names is
/// live and records the owner of that list as its parent, no list names a node twice, and a node
/// that records a parent is listed by it.
pub open spec fn orderly(d: DomView) -> bool {
    &&& forall|p: NodeId, c: NodeId| #[trigger]
        siblings(d, p).contains(c) ==> d.nodes.contains_key(c.0) && d.nodes[c.0].parent == owner(p)
    &&& forall|p: NodeId| #[trigger] siblings(d, p).no_duplicates()
    &&& forall|k: u64|
        #![trigger d.nodes[k].parent]
        d.nodes.contains_key(k) && d.nodes[k].parent is Some ==> kids(
            d.nodes,
            d.nodes[k].parent->0,
        ).contains(NodeId(k))
}

/// Whether an op creates a node under the handle of a live one.
pub open spec fn recreates(d: DomView, op: OpView) -> bool {
    match op {
        OpView::CreateElement { node, .. } => d.nodes.contains_key(node.0),
        OpView::CreateText { node, .. } => d.nodes.contains_key(node.0),
        _ => false,
    }
}

/// In an orderly tree a node is listed at one place at most, in all lists together.
pub proof fn law_nodes_are_listed_once(d: DomView, p: NodeId, i: int, q: NodeId, j: int)
    requires
        orderly(d),
        0 <= i < siblings(d, p).len(),
        0 <= j < siblings(d, q).len(),
        siblings(d, p)[i] == siblings(d, q)[j],
    ensures
        p == q,
        i == j,
{
    let c = siblings(d, p)[i];
    assert(siblings(d, p).contains(c));
    assert(siblings(d, q).contains(c));
    assert(owner(p) == owner(q));
    assert(siblings(d, p).no_duplicates());
}

/// What is left of the lists when a node is detached.
proof fn lemma_detached_lists(d: DomView, n: NodeId, p: NodeId)
    requires
        well_formed(d),
        orderly(d),
        d.nodes.contains_key(n.0),
    ensures
        siblings(detached(d, n), p) == without(siblings(d, p), n),
        siblings(detached(d, n), p).no_duplicates(),
        forall|c: NodeId| #[trigger]
            siblings(detached(d, n), p).contains(c) <==> siblings(d, p).contains(c) && c != n,
{
    let line = siblings(d, p);
    let kept = siblings(detached(d, n), p);
    if d.nodes[n.0].parent != owner(p) {
        assert forall|i: int| 0 <= i < line.len() implies other_than(n)(#[trigger] line[i]) by {
            assert(line.contains(line[i]));
        }
        lemma_filter_absent(line, other_than(n));
        assert(kept == line);
    } else {
        assert(kept == without(line, n));
    }
    assert(line.no_duplicates());
    lemma_filter_no_duplicates(line, other_than(n));
    assert forall|c: NodeId| #[trigger] kept.contains(c) <==> line.contains(c) && c != n by {
        lemma_filter_contains(line, c, other_than(n));
    }
}

proof fn lemma_insertion_keeps_order(d: DomView, parent: NodeId, child: NodeId, anchor: NodeId)
    requires
        well_formed(d),
        orderly(d),
        insert_before(d, parent, child, anchor).1 is Ok,
    ensures
        orderly(insert_before(d, parent, child, anchor).0),
{
    let after = insert_before(d, parent, child, anchor).0;
    let cut = detached(d, child);
    let moved = adopted(cut, child, parent);
    let line = siblings(moved, parent);
    law_reaches_unfolds(d.nodes, child, child);
    lemma_detached_lists(d, child, parent);
    line.index_of_first_ensures(anchor);
    let at = if anchor.0 == NodeId::NULL {
        line.len() as int
    } else {
        line.index_of_first(anchor)->0
    };
    assert(line.push(child) =~= line.insert(line.len() as int, child));
    assert(siblings(after, parent) == line.insert(at, child));
    assert(line == siblings(cut, parent));
    lemma_insert_no_duplicates(line, at, child);
    assert forall|p: NodeId, c: NodeId| #[trigger] siblings(after, p).contains(c) implies
        after.nodes.contains_key(c.0) && after.nodes[c.0].parent == owner(p) by {
        lemma_detached_lists(d, child, p);
        if p == parent {
            lemma_insert_contains(line, at, child, c);
        } else {
            assert(siblings(after, p) == siblings(cut, p));
        }
        if c != child {
            assert(siblings(d, p).contains(c));
            assert(c.0 != child.0);
            assert(after.nodes[c.0].parent == d.nodes[c.0].parent);
        }
    }
    assert forall|p: NodeId| #[trigger] siblings(after, p).no_duplicates() by {
        lemma_detached_lists(d, child, p);
        if p != parent {
            assert(siblings(after, p) == siblings(cut, p));
        }
    }
    assert forall|k: u64|
        #![trigger after.nodes[k].parent]
        after.nodes.contains_key(k) && after.nodes[k].parent is Some implies kids(
        after.nodes,
        after.nodes[k].parent->0,
    ).contains(NodeId(k)) by {
        let q = after.nodes[k].parent->0;
        if k == child.0 {
            lemma_insert_contains(line, at, child, child);
        } else {
            assert(d.nodes[k].parent == Some(q));
            assert(kids(d.nodes, q).contains(NodeId(k)));
            assert(d.nodes.contains_key(q.0));
            assert(siblings(d, q).contains(NodeId(k)));
            lemma_detached_lists(d, child, q);
            assert(siblings(cut, q).contains(NodeId(k)));
            if q == parent {
                lemma_insert_contains(line, at, child, NodeId(k));
            } else {
                assert(siblings(after, q) == siblings(cut, q));
            }
        }
    }
}

/// What is listed by something that a node reaches is reached by the node.
proof fn lemma_reaches_child(nodes: Map<u64, NodeView>, n: NodeId, q: NodeId, x: NodeId)
    requires
        acyclic(nodes),
        reaches(nodes, n, q),
        kids(nodes, q).contains(x),
    ensures
        reaches(nodes, n, x),
    decreases height(nodes, n),
{
    law_reaches_unfolds(nodes, n, q);
    law_reaches_unfolds(nodes, n, x);
    if n == q {
        let i = choose|i: int| 0 <= i < kids(nodes, q).len() && kids(nodes, q)[i] == x;
        law_reaches_unfolds(nodes, x, x);
        assert(reaches(nodes, kids(nodes, n)[i], x));
    } else {
        let i = choose|i: int|
            0 <= i < kids(nodes, n).len() && reaches(nodes, #[trigger] kids(nodes, n)[i], q);
        lemma_child_is_lower(nodes, n, i);
        lemma_reaches_child(nodes, kids(nodes, n)[i], q, x);
    }
}

/// In an orderly tree the way up does not depend on what was passed below.
proof fn lemma_climb_above(d: DomView, n: NodeId, a: Set<u64>, b: Set<u64>)
    requires
        well_formed(d),
        orderly(d),
        forall|k: u64| #[trigger]
            d.nodes.contains_key(k) && height(d.nodes, NodeId(k)) >= height(d.nodes, n) ==> a.contains(
                k,
            ) && b.contains(k),
        forall|k: u64| #[trigger] a.contains(k) ==> d.nodes.contains_key(k),
        forall|k: u64| #[trigger] b.contains(k) ==> d.nodes.contains_key(k),
    ensures
        climb(d.nodes, n, a) == climb(d.nodes, n, b),
    decreases a.len(),
{
    lemma_finite(a);
    assert(NodeId(n.0) == n);
    if let Some(p) = parent_of(d.nodes, n) {
        lemma_recorded_parent_is_above(d, n);
        assert(a.contains(n.0) && b.contains(n.0));
        assert forall|k: u64| #[trigger]
            d.nodes.contains_key(k) && height(d.nodes, NodeId(k)) >= height(d.nodes, p) implies a.remove(
            n.0,
        ).contains(k) && b.remove(n.0).contains(k) by {
            assert(k != n.0);
        }
        assert(NodeId(p.0) == p);
        lemma_climb_above(d, p, a.remove(n.0), b.remove(n.0));
    }
}

/// In an orderly tree the recorded parent is live and stands higher.
proof fn lemma_recorded_parent_is_above(d: DomView, n: NodeId)
    requires
        well_formed(d),
        orderly(d),
        parent_of(d.nodes, n) is Some,
    ensures
        d.nodes.contains_key((parent_of(d.nodes, n)->0).0),
        height(d.nodes, parent_of(d.nodes, n)->0) > height(d.nodes, n),
        kids(d.nodes, parent_of(d.nodes, n)->0).contains(n),
{
    let p = d.nodes[n.0].parent->0;
    assert(NodeId(n.0) == n);
    let line = kids(d.nodes, p);
    assert(line.contains(n));
    let i = choose|i: int| 0 <= i < line.len() && line[i] == n;
    lemma_child_is_lower(d.nodes, p, i);
}

/// In an orderly tree, the ancestors of a node are the node followed by the ancestors of its
/// parent.
pub proof fn law_ancestors_unfold(d: DomView, n: NodeId)
    requires
        well_formed(d),
        orderly(d),
    ensures
        ancestors(d.nodes, n) == match parent_of(d.nodes, n) {
            Some(p) => seq![n] + ancestors(d.nodes, p),
            None => seq![n],
        },
{
    if let Some(p) = parent_of(d.nodes, n) {
        let all = d.nodes.dom();
        lemma_recorded_parent_is_above(d, n);
        assert(NodeId(n.0) == n && NodeId(p.0) == p);
        assert forall|k: u64| #[trigger]
            d.nodes.contains_key(k) && height(d.nodes, NodeId(k)) >= height(d.nodes, p) implies all.remove(
            n.0,
        ).contains(k) && all.contains(k) by {}
        lemma_climb_above(d, p, all.remove(n.0), all);
    }
}

/// In an orderly tree a node is below another exactly where it has the other as an ancestor.
pub proof fn law_below_is_having_above(d: DomView, n: NodeId, x: NodeId)
    requires
        well_formed(d),
        orderly(d),
    ensures
        reaches(d.nodes, n, x) <==> ancestors(d.nodes, x).contains(n),
{
    lemma_below_is_having_above(d, n, x, d.nodes.dom());
}

proof fn lemma_below_is_having_above(d: DomView, n: NodeId, x: NodeId, left: Set<u64>)
    requires
        well_formed(d),
        orderly(d),
        forall|k: u64| #[trigger]
            d.nodes.contains_key(k) && height(d.nodes, NodeId(k)) >= height(d.nodes, x) ==> left.contains(
                k,
            ),
    ensures
        reaches(d.nodes, n, x) <==> ancestors(d.nodes, x).contains(n),
    decreases left.len(),
{
    lemma_finite(left);
    law_ancestors_unfold(d, x);
    law_reaches_unfolds(d.nodes, n, n);
    assert(NodeId(x.0) == x);
    let all = ancestors(d.nodes, x);
    assert(all[0] == x);
    if let Some(p) = parent_of(d.nodes, x) {
        lemma_recorded_parent_is_above(d, x);
        assert(left.contains(x.0));
        lemma_below_is_having_above(d, n, p, left.remove(x.0));
        let up = ancestors(d.nodes, p);
        if up.contains(n) {
            let i = choose|i: int| 0 <= i < up.len() && up[i] == n;
            assert(all[i + 1] == n);
            lemma_reaches_child(d.nodes, n, p, x);
        }
        if all.contains(n) && n != x {
            let i = choose|i: int| 0 <= i < all.len() && all[i] == n;
            assert(up[i - 1] == n);
        }
    }
    if reaches(d.nodes, n, x) && n != x {
        let q = lemma_reached_is_listed(d.nodes, n, x);
        assert(siblings(d, q).contains(x));
        assert(parent_of(d.nodes, x) == Some(q));
    }
}

/// What a node reaches below itself is listed by something that it reaches.
proof fn lemma_reached_is_listed(nodes: Map<u64, NodeView>, n: NodeId, x: NodeId) -> (q: NodeId)
    requires
        acyclic(nodes),
        reaches(nodes, n, x),
        n != x,
    ensures
        reaches(nodes, n, q),
        kids(nodes, q).contains(x),
    decreases height(nodes, n),
{
    law_reaches_unfolds(nodes, n, x);
    let i = choose|i: int|
        0 <= i < kids(nodes, n).len() && reaches(nodes, #[trigger] kids(nodes, n)[i], x);
    let c = kids(nodes, n)[i];
    lemma_child_is_lower(nodes, n, i);
    if c == x {
        law_reaches_unfolds(nodes, n, n);
        n
    } else {
        let q = lemma_reached_is_listed(nodes, c, x);
        law_reaches_unfolds(nodes, n, q);
        q
    }
}

proof fn lemma_removal_keeps_order(d: DomView, n: NodeId)
    requires
        well_formed(d),
        orderly(d),
        d.nodes.contains_key(n.0),
    ensures
        orderly(remove_node(d, n).0),
{
    let after = remove_node(d, n).0;
    let cut = detached(d, n);
    law_removal_drops_the_subtree(d, n);
    assert forall|p: NodeId| #[trigger] siblings(after, p) == if p.0 == ROOT
        || after.nodes.contains_key(p.0) {
        siblings(cut, p)
    } else {
        seq![]
    } by {}
    assert forall|p: NodeId, c: NodeId| #[trigger] siblings(after, p).contains(c) implies
        after.nodes.contains_key(c.0) && after.nodes[c.0].parent == owner(p) by {
        lemma_detached_lists(d, n, p);
        assert(siblings(cut, p).contains(c));
        assert(siblings(d, p).contains(c) && c != n);
        assert(NodeId(c.0) == c && NodeId(p.0) == p);
        if reaches(d.nodes, n, c) {
            let q = lemma_reached_is_listed(d.nodes, n, c);
            assert(siblings(d, q).contains(c));
            assert(owner(p) == owner(q));
            assert(p == q);
            assert(!after.nodes.contains_key(p.0));
        }
        assert(after.nodes.contains_key(c.0));
        assert(after.nodes[c.0].parent == d.nodes[c.0].parent);
    }
    assert forall|p: NodeId| #[trigger] siblings(after, p).no_duplicates() by {
        lemma_detached_lists(d, n, p);
    }
    assert forall|k: u64|
        #![trigger after.nodes[k].parent]
        after.nodes.contains_key(k) && after.nodes[k].parent is Some implies kids(
        after.nodes,
        after.nodes[k].parent->0,
    ).contains(NodeId(k)) by {
        let q = after.nodes[k].parent->0;
        assert(d.nodes[k].parent == Some(q));
        assert(siblings(d, q).contains(NodeId(k)));
        lemma_detached_lists(d, n, q);
        assert(siblings(cut, q).contains(NodeId(k)));
        if reaches(d.nodes, n, q) {
            lemma_reaches_child(d.nodes, n, q, NodeId(k));
        }
        assert(NodeId(q.0) == q);
        assert(after.nodes.contains_key(q.0));
        assert(siblings(after, q).contains(NodeId(k)));
    }
}

proof fn lemma_same_lists_keep_order(d: DomView, after: DomView)
    requires
        orderly(d),
        after.roots == d.roots,
        forall|k: u64| #[trigger]
            d.nodes.contains_key(k) ==> after.nodes.contains_key(k) && after.nodes[k].parent
                == d.nodes[k].parent && after.nodes[k].children == d.nodes[k].children,
        forall|k: u64| #[trigger]
            after.nodes.contains_key(k) && !d.nodes.contains_key(k)
                ==> after.nodes[k].children.len() == 0 && after.nodes[k].parent is None,
    ensures
        orderly(after),
{
    assert forall|p: NodeId| #[trigger] siblings(after, p) == siblings(d, p) by {
        if p.0 != ROOT && !d.nodes.contains_key(p.0) {
            assert(siblings(after, p) =~= seq![]);
        }
    }
    assert forall|p: NodeId, c: NodeId| #[trigger] siblings(after, p).contains(c) implies
        after.nodes.contains_key(c.0) && after.nodes[c.0].parent == owner(p) by {
        assert(siblings(d, p).contains(c));
    }
    assert forall|p: NodeId| #[trigger] siblings(after, p).no_duplicates() by {
        assert(siblings(d, p).no_duplicates());
    }
    assert forall|k: u64|
        #![trigger after.nodes[k].parent]
        after.nodes.contains_key(k) && after.nodes[k].parent is Some implies kids(
        after.nodes,
        after.nodes[k].parent->0,
    ).contains(NodeId(k)) by {
        assert(d.nodes.contains_key(k));
        assert(kids(d.nodes, d.nodes[k].parent->0).contains(NodeId(k)));
    }
}

/// Every op keeps an orderly tree orderly, also when it is refused, unless it creates a node under
/// the handle of a live one: that one's old parent then still lists it.
pub proof fn law_ops_keep_trees_orderly(d: DomView, op: OpView)
    requires
        well_formed(d),
        orderly(d),
        !recreates(d, op),
    ensures
        orderly(apply_op(d, op).0),
{
    let after = apply_op(d, op).0;
    match op {
        OpView::InsertBefore { parent, child, anchor } => {
            if apply_op(d, op).1 is Ok {
                lemma_insertion_keeps_order(d, parent, child, anchor);
            }
        },
        OpView::RemoveNode { node } => {
            if d.nodes.contains_key(node.0) {
                lemma_removal_keeps_order(d, node);
            }
        },
        _ => {
            lemma_same_lists_keep_order(d, after);
        },
    }
}

/// Whether no op of the bytes from `p` on, as far as the host applies them, creates a node under
/// the handle of a live one.
pub open spec fn creates_anew(d: DomView, b: Seq<u8>, p: int) -> bool
    decreases b.len() - p,
{
    p >= b.len() || match parse_op(b, p) {
        Ok((op, q)) => {
            &&& !recreates(d, op)
            &&& apply_op(d, op).1 is Ok ==> creates_anew(apply_op(d, op).0, b, q)
        },
        Err(_) => true,
    }
}

/// A whole batch keeps an orderly tree orderly, wherever in it the host stops.
pub proof fn law_batches_keep_trees_orderly(d: DomView, b: Seq<u8>, p: int)
    requires
        well_formed(d),
        orderly(d),
        0 <= p,
        creates_anew(d, b, p),
    ensures
        orderly(apply_bytes(d, b, p).0),
    decreases b.len() - p,
{
    if p < b.len() {
        if let Ok((op, q)) = parse_op(b, p) {
            law_ops_keep_trees_well_formed(d, op);
            law_ops_keep_trees_orderly(d, op);
            if apply_op(d, op).1 is Ok {
                law_batches_keep_trees_orderly(apply_op(d, op).0, b, q);
            }
        }
    }
}

/// The tree that a host has reached by batches, of which each was accepted or refused.
pub open spec fn reached_by(batches: Seq<Seq<u8>>) -> DomView
    decreases batches.len(),
{
    if batches.len() == 0 {
        empty_dom()
    } else {
        apply_bytes(reached_by(batches.drop_last()), batches.last(), 0).0
    }
}

/// A host's tree is well formed whatever it is sent, and orderly as long as no op creates a node
/// under the handle of a live one.
pub proof fn law_hosts_stay_orderly(batches: Seq<Seq<u8>>)
    requires
        forall|i: int|
            0 <= i < batches.len() ==> creates_anew(
                reached_by(batches.take(i)),
                #[trigger] batches[i],
                0,
            ),
    ensures
        well_formed(reached_by(batches)),
        orderly(reached_by(batches)),
    decreases batches.len(),
{
    if batches.len() == 0 {
        let rank = |n: u64| 0nat;
        assert(is_ranking(empty_dom().nodes, rank));
    } else {
        let before = batches.drop_last();
        assert forall|i: int| 0 <= i < before.len() implies creates_anew(
            reached_by(before.take(i)),
            #[trigger] before[i],
            0,
        ) by {
            assert(before[i] == batches[i]);
            assert(before.take(i) =~= batches.take(i));
        }
        law_hosts_stay_orderly(before);
        let last = batches.len() - 1;
        assert(batches[last] == batches.last());
        assert(batches.take(last) =~= before);
        law_batches_keep_trees_well_formed(reached_by(before), batches.last(), 0);
        law_batches_keep_trees_orderly(reached_by(before), batches.last(), 0);
    }
}

/// A refused op changes nothing.
pub proof fn law_refused_ops_change_nothing(d: DomView, op: OpView)
    requires
        apply_op(d, op).1 is Err,
    ensures
        apply_op(d, op).0 == d,
{
}

// ---------------------------------------------------------------------------------------
// What a guest can and cannot do.
// ---------------------------------------------------------------------------------------

/// Whether an op asks the host to change an existing node `n`.
pub open spec fn targets(op: OpView, n: NodeId) -> bool {
    match op {
        OpView::RemoveNode { node } => node == n,
        OpView::InsertBefore { parent, child, .. } => child == n || parent == n && n.0 != ROOT,
        OpView::SetText { node, .. } => node == n,
        OpView::SetAttribute { node, .. } => node == n,
        OpView::SetInlineStyle { node, .. } => node == n,
        OpView::SetClass { node, .. } => node == n,
        OpView::RemoveClass { node, .. } => node == n,
        OpView::SetTagName { node, .. } => node == n,
        OpView::AddListener { node, .. } => node == n,
        OpView::RemoveListener { node, .. } => node == n,
        _ => false,
    }
}

/// The interned string that an op refers to.
pub open spec fn string_of(op: OpView) -> Option<StrId> {
    match op {
        OpView::CreateText { text, .. } => Some(text),
        OpView::SetText { text, .. } => Some(text),
        OpView::SetAttribute { value, .. } => Some(value),
        OpView::SetInlineStyle { value, .. } => Some(value),
        OpView::SetClass { class, .. } => Some(class),
        OpView::RemoveClass { class, .. } => Some(class),
        OpView::SetTagName { name, .. } => Some(name),
        _ => None,
    }
}

/// An op that targets a node which does not exist is refused and changes nothing. The answer
/// is `BadHandle`, unless the op also refers to a string that was never interned.
pub proof fn law_forged_handles_are_refused(d: DomView, op: OpView, n: NodeId)
    requires
        targets(op, n),
        !d.nodes.contains_key(n.0),
    ensures
        apply_op(d, op).0 == d,
        string_of(op) matches Some(s) && !d.strings.contains_key(s.0) ==> apply_op(d, op).1 == Err::<
            (),
            HostError,
        >(HostError::Decode),
        (string_of(op) matches Some(s) ==> d.strings.contains_key(s.0)) ==> apply_op(d, op).1
            == Err::<(), HostError>(HostError::BadHandle),
{
}

/// An op that refers to a string which was never interned is a decode error and changes
/// nothing.
pub proof fn law_unknown_strings_are_refused(d: DomView, op: OpView)
    requires
        string_of(op) matches Some(s) && !d.strings.contains_key(s.0),
    ensures
        apply_op(d, op) == (d, Err::<(), HostError>(HostError::Decode)),
{
}

/// Putting a node under itself or under one of its own descendants is refused and changes
/// nothing.
pub proof fn law_cycles_are_refused(d: DomView, parent: NodeId, child: NodeId, anchor: NodeId)
    requires
        parent.0 != ROOT,
        closes_cycle(d.nodes, parent, child),
    ensures
        apply_op(d, (OpView::InsertBefore { parent, child, anchor })) == (
            d,
            Err::<(), HostError>(HostError::BadHandle),
        ),
{
}

/// The nodes that an op may change, create or remove: those it names, the parent that the moved
/// or removed node leaves, and what goes with a removed node.
pub open spec fn touches(d: DomView, op: OpView, k: u64) -> bool {
    match op {
        OpView::CreateElement { node, .. } => k == node.0,
        OpView::CreateText { node, .. } => k == node.0,
        OpView::InsertBefore { parent, child, .. } => k == child.0 || k == parent.0
            || d.nodes[child.0].parent == Some(NodeId(k)),
        OpView::RemoveNode { node } => d.nodes[node.0].parent == Some(NodeId(k)) || preorder(
            detached(d, node).nodes,
            node,
        ).map_values(|x: NodeId| x.0).contains(k),
        _ => targets(op, NodeId(k)),
    }
}

/// An op leaves every node that it does not touch as it was.
pub proof fn law_other_nodes_stay(d: DomView, op: OpView, k: u64)
    requires
        !touches(d, op, k),
    ensures
        apply_op(d, op).0.nodes.contains_key(k) == d.nodes.contains_key(k),
        d.nodes.contains_key(k) ==> apply_op(d, op).0.nodes[k] == d.nodes[k],
{
    if let OpView::RemoveNode { node } = op {
        let cut = detached(d, node);
        let doomed = preorder(cut.nodes, node).map_values(|x: NodeId| x.0);
        assert(!doomed.to_set().contains(k));
        if let Some(p) = d.nodes[node.0].parent {
            assert(p == NodeId(p.0));
        }
        if d.nodes.contains_key(node.0) {
            assert(cut.nodes.contains_key(k) == d.nodes.contains_key(k));
            assert(cut.nodes[k] == d.nodes[k]);
            assert(apply_op(d, op).0.nodes == cut.nodes.remove_keys(doomed.to_set()));
            lemma_remove_keys_keeps(cut.nodes, doomed.to_set(), k);
        }
    }
    if let OpView::InsertBefore { parent, child, .. } = op {
        if let Some(p) = d.nodes[child.0].parent {
            assert(p == NodeId(p.0));
        }
    }
    assert(NodeId(k).0 == k);
}

/// Only interning changes the string table.
pub proof fn law_strings_stay(d: DomView, op: OpView)
    requires
        !(op is InternString),
    ensures
        apply_op(d, op).0.strings == d.strings,
{
}

/// What was written is there: after an op that the host accepted, the node it names holds what
/// the op says.
pub proof fn law_writes_read_back(d: DomView, op: OpView)
    requires
        apply_op(d, op).1 is Ok,
    ensures
        ({
            let after = apply_op(d, op).0;
            match op {
                OpView::InternString { id, bytes } => after.strings.contains_key(id.0)
                    && after.strings[id.0] == decode_utf8(bytes),
                OpView::CreateElement { node, tag } => after.nodes.contains_key(node.0)
                    && after.nodes[node.0].tag == Some(tag),
                OpView::CreateText { node, text } => after.nodes.contains_key(node.0)
                    && after.nodes[node.0].text == Some(d.strings[text.0])
                    && after.nodes[node.0].tag is None,
                OpView::SetText { node, text } => after.nodes[node.0].text == Some(
                    d.strings[text.0],
                ),
                OpView::SetAttribute { node, attr, value } => after.nodes[node.0].attrs.contains_key(
                    attr.0,
                ) && after.nodes[node.0].attrs[attr.0] == d.strings[value.0],
                OpView::SetInlineStyle { node, prop, value } =>
                after.nodes[node.0].styles.contains_key(prop.0)
                    && after.nodes[node.0].styles[prop.0] == d.strings[value.0],
                OpView::SetTagName { node, name } => after.nodes[node.0].tag_name == Some(
                    d.strings[name.0],
                ),
                OpView::SetClass { node, class } => after.nodes[node.0].classes.contains(
                    d.strings[class.0],
                ),
                OpView::RemoveClass { node, class } => !after.nodes[node.0].classes.contains(
                    d.strings[class.0],
                ),
                OpView::AddListener { node, event, handler } =>
                after.nodes[node.0].listeners.contains((event, handler)),
                OpView::RemoveListener { node, event } => forall|i: int|
                    0 <= i < after.nodes[node.0].listeners.len() ==> (
                    #[trigger] after.nodes[node.0].listeners[i]).0 != event,
                OpView::RemoveNode { node } => !after.nodes.contains_key(node.0),
                OpView::InsertBefore { parent, child, anchor } => siblings(after, parent).contains(
                    child,
                ) && after.nodes[child.0].parent == if parent.0 == ROOT {
                    None
                } else {
                    Some(parent)
                },
                _ => true,
            }
        }),
{
    let after = apply_op(d, op).0;
    match op {
        OpView::RemoveNode { node } => {
            let pre = preorder(detached(d, node).nodes, node);
            let raw = pre.map_values(|x: NodeId| x.0);
            assert(pre[0] == node);
            assert(raw[0] == node.0);
            assert(raw.to_set().contains(node.0));
            lemma_remove_keys_drops(detached(d, node).nodes, raw.to_set(), node.0);
        },
        OpView::SetClass { node, class } => {
            let name = d.strings[class.0];
            let held = d.nodes[node.0].classes;
            if !held.contains(name) {
                assert(held.push(name)[held.len() as int] == name);
            }
        },
        OpView::RemoveClass { node, class } => {
            lemma_filter_member(d.nodes[node.0].classes, other_class(d.strings[class.0]));
        },
        OpView::RemoveListener { node, event } => {
            lemma_filter_member(d.nodes[node.0].listeners, other_event(event));
        },
        OpView::AddListener { node, event, handler } => {
            let held = d.nodes[node.0].listeners;
            assert(held.push((event, handler))[held.len() as int] == (event, handler));
        },
        OpView::InsertBefore { parent, child, anchor } => {
            let moved = adopted(detached(d, child), child, parent);
            let line = siblings(moved, parent);
            line.index_of_first_ensures(anchor);
            if anchor.0 == NodeId::NULL {
                assert(line.push(child)[line.len() as int] == child);
            } else {
                let at = line.index_of_first(anchor)->0;
                assert(line.insert(at, child)[at] == child);
            }
        },
        _ => {},
    }
}

proof fn lemma_remove_keys_keeps(m: Map<u64, NodeView>, gone: Set<u64>, k: u64)
    requires
        !gone.contains(k),
    ensures
        m.remove_keys(gone).contains_key(k) == m.contains_key(k),
        m.contains_key(k) ==> m.remove_keys(gone)[k] == m[k],
{
}

proof fn lemma_remove_keys_drops(m: Map<u64, NodeView>, gone: Set<u64>, k: u64)
    requires
        gone.contains(k),
    ensures
        !m.remove_keys(gone).contains_key(k),
{
}

/// In an acyclic tree, what a node reaches stands no higher than the node.
pub proof fn lemma_reached_is_not_higher(nodes: Map<u64, NodeView>, n: NodeId, x: NodeId)
    requires
        acyclic(nodes),
        reaches(nodes, n, x),
    ensures
        height(nodes, x) <= height(nodes, n),
    decreases height(nodes, n),
{
    law_reaches_unfolds(nodes, n, x);
    if n != x {
        let i = choose|i: int|
            0 <= i < kids(nodes, n).len() && reaches(nodes, #[trigger] kids(nodes, n)[i], x);
        lemma_child_is_lower(nodes, n, i);
        lemma_reached_is_not_higher(nodes, kids(nodes, n)[i], x);
    }
}

/// Two trees in which everything that a node reaches has the same children agree below the node.
pub proof fn lemma_same_subtree(a: Map<u64, NodeView>, b: Map<u64, NodeView>, n: NodeId)
    requires
        acyclic(a),
        acyclic(b),
        forall|x: NodeId| #[trigger] reaches(a, n, x) ==> kids(a, x) == kids(b, x),
    ensures
        preorder(a, n) == preorder(b, n),
    decreases height(a, n), kids(a, n).len() + 1,
{
    law_preorder_unfolds(a, n);
    law_preorder_unfolds(b, n);
    law_reaches_unfolds(a, n, n);
    let ids = kids(a, n);
    assert forall|i: int| 0 <= i < ids.len() implies height(a, #[trigger] ids[i]) < height(a, n) by {
        lemma_child_is_lower(a, n, i);
    }
    assert forall|i: int, x: NodeId|
        0 <= i < ids.len() && #[trigger] reaches(a, #[trigger] ids[i], x) implies kids(a, x) == kids(
        b,
        x,
    ) by {
        law_reaches_unfolds(a, n, x);
    }
    lemma_same_forest(a, b, ids, height(a, n));
}

proof fn lemma_same_forest(
    a: Map<u64, NodeView>,
    b: Map<u64, NodeView>,
    ids: Seq<NodeId>,
    h: nat,
)
    requires
        acyclic(a),
        acyclic(b),
        forall|i: int| 0 <= i < ids.len() ==> height(a, #[trigger] ids[i]) < h,
        forall|i: int, x: NodeId|
            0 <= i < ids.len() && #[trigger] reaches(a, #[trigger] ids[i], x) ==> kids(a, x) == kids(
                b,
                x,
            ),
    ensures
        forest(a, ids) == forest(b, ids),
    decreases h, ids.len(),
{
    if ids.len() > 0 {
        assert(height(a, ids[0]) < h);
        assert forall|x: NodeId| #[trigger] reaches(a, ids[0], x) implies kids(a, x) == kids(b, x) by {}
        lemma_same_subtree(a, b, ids[0]);
        let rest = ids.drop_first();
        assert forall|i: int| 0 <= i < rest.len() implies height(a, #[trigger] rest[i]) < h by {
            assert(rest[i] == ids[i + 1]);
        }
        assert forall|i: int, x: NodeId|
            0 <= i < rest.len() && #[trigger] reaches(a, #[trigger] rest[i], x) implies kids(a, x)
            == kids(b, x) by {
            assert(rest[i] == ids[i + 1]);
        }
        lemma_same_forest(a, b, rest, h);
    }
}

/// Detaching a node leaves what is below it alone.
proof fn lemma_detached_keeps_the_subtree(d: DomView, n: NodeId)
    requires
        well_formed(d),
    ensures
        preorder(detached(d, n).nodes, n) == preorder(d.nodes, n),
{
    let cut = detached(d, n);
    lemma_detached_well_formed(d, n);
    assert forall|x: NodeId| #[trigger] reaches(d.nodes, n, x) implies kids(d.nodes, x) == kids(
        cut.nodes,
        x,
    ) by {
        let line = kids(d.nodes, x);
        lemma_reached_is_not_higher(d.nodes, n, x);
        assert forall|i: int| 0 <= i < line.len() implies other_than(n)(#[trigger] line[i]) by {
            lemma_child_is_lower(d.nodes, x, i);
        }
        lemma_filter_absent(line, other_than(n));
    }
    lemma_same_subtree(d.nodes, cut.nodes, n);
}

/// Removing a node removes it and everything below it, and no other node.
pub proof fn law_removal_drops_the_subtree(d: DomView, n: NodeId)
    requires
        well_formed(d),
        d.nodes.contains_key(n.0),
    ensures
        ({
            let (after, answer) = apply_op(d, (OpView::RemoveNode { node: n }));
            &&& answer is Ok
            &&& !after.nodes.contains_key(n.0)
            &&& forall|k: u64| #[trigger]
                after.nodes.contains_key(k) <==> d.nodes.contains_key(k) && !reaches(
                    d.nodes,
                    n,
                    NodeId(k),
                )
        }),
{
    let (after, _) = apply_op(d, (OpView::RemoveNode { node: n }));
    let cut = detached(d, n);
    lemma_detached_keeps_the_subtree(d, n);
    let line = preorder(d.nodes, n);
    let doomed = line.map_values(|x: NodeId| x.0);
    assert forall|k: u64| #[trigger]
        after.nodes.contains_key(k) <==> d.nodes.contains_key(k) && !reaches(d.nodes, n, NodeId(k)) by {
        assert(cut.nodes.contains_key(k) == d.nodes.contains_key(k));
        if line.contains(NodeId(k)) {
            let i = choose|i: int| 0 <= i < line.len() && line[i] == NodeId(k);
            assert(doomed[i] == k);
            lemma_remove_keys_drops(cut.nodes, doomed.to_set(), k);
        } else {
            if doomed.contains(k) {
                let i = choose|i: int| 0 <= i < doomed.len() && doomed[i] == k;
                assert(line[i] == NodeId(k));
            }
            lemma_remove_keys_keeps(cut.nodes, doomed.to_set(), k);
        }
    }
    law_reaches_unfolds(d.nodes, n, n);
    assert(NodeId(n.0) == n);
}

/// Removing a child of `p` from an orderly tree takes it out of that one list, and leaves every
/// node that is neither `p` nor below the child as it was.
pub proof fn lemma_removal_effect(d: DomView, n: NodeId, p: NodeId)
    requires
        well_formed(d),
        orderly(d),
        siblings(d, p).contains(n),
    ensures
        ({
            let after = remove_node(d, n).0;
            &&& siblings(after, p) == without(siblings(d, p), n)
            &&& p.0 != ROOT ==> after.nodes.contains_key(p.0) && after.nodes[p.0] == (NodeView {
                children: after.nodes[p.0].children,
                ..d.nodes[p.0]
            }) && after.roots == d.roots
            &&& forall|k: u64| #[trigger]
                after.nodes.contains_key(k) <==> d.nodes.contains_key(k) && !reaches(
                    d.nodes,
                    n,
                    NodeId(k),
                )
            &&& forall|k: u64|
                #![trigger after.nodes[k]]
                after.nodes.contains_key(k) && k != p.0 ==> after.nodes[k] == d.nodes[k]
        }),
{
    let after = remove_node(d, n).0;
    let cut = detached(d, n);
    law_removal_drops_the_subtree(d, n);
    lemma_detached_lists(d, n, p);
    assert(d.nodes[n.0].parent == owner(p));
    if p.0 != ROOT {
        let line = kids(d.nodes, p);
        let i = choose|i: int| 0 <= i < line.len() && line[i] == n;
        lemma_child_is_lower(d.nodes, p, i);
        if reaches(d.nodes, n, p) {
            lemma_reached_is_not_higher(d.nodes, n, p);
        }
        assert(NodeId(p.0) == p);
        assert(after.nodes.contains_key(p.0));
    }
}

/// Applying an encoded batch is applying its ops one by one.
pub proof fn law_batch_is_its_ops(d: DomView, ops: Seq<OpView>)
    requires
        forall|i: int| 0 <= i < ops.len() ==> op_fits(#[trigger] ops[i]),
    ensures
        apply_bytes(d, ops_bytes(ops), 0) == apply_ops(d, ops),
{
    let b = ops_bytes(ops);
    assert(b.subrange(0, b.len() as int) =~= b);
    lemma_apply_bytes_at(d, b, 0, ops);
}

proof fn lemma_apply_bytes_at(d: DomView, b: Seq<u8>, p: int, ops: Seq<OpView>)
    requires
        forall|i: int| 0 <= i < ops.len() ==> op_fits(#[trigger] ops[i]),
        stands_at(b, p, ops_bytes(ops)),
        p + ops_bytes(ops).len() == b.len(),
    ensures
        apply_bytes(d, b, p) == apply_ops(d, ops),
    decreases ops.len(),
{
    if ops.len() > 0 {
        let rest = ops.drop_first();
        lemma_stands_at_concat(b, p, op_bytes(ops[0]), ops_bytes(rest));
        assert(op_fits(ops[0]));
        law_op_round_trip(b, p, ops[0]);
        lemma_parse_op_end(b, p);
        assert forall|i: int| 0 <= i < rest.len() implies op_fits(#[trigger] rest[i]) by {
            assert(rest[i] == ops[i + 1]);
        }
        if apply_op(d, ops[0]).1 is Ok {
            lemma_apply_bytes_at(apply_op(d, ops[0]).0, b, p + op_bytes(ops[0]).len(), rest);
        }
    }
}

/// Ops that follow each other in two runs.
pub proof fn law_ops_compose(d: DomView, first: Seq<OpView>, then: Seq<OpView>)
    ensures
        apply_ops(d, first + then) == if apply_ops(d, first).1 is Ok {
            apply_ops(apply_ops(d, first).0, then)
        } else {
            apply_ops(d, first)
        },
    decreases first.len(),
{
    if first.len() == 0 {
        assert(first + then =~= then);
    } else {
        assert((first + then).drop_first() =~= first.drop_first() + then);
        law_ops_compose(apply_op(d, first[0]).0, first.drop_first(), then);
    }
}

/// Bytes that do not decode are never accepted.
pub proof fn law_undecodable_bytes_are_refused(d: DomView, b: Seq<u8>, p: int)
    requires
        0 <= p,
        parse_ops(b, p) is Err,
    ensures
        apply_bytes(d, b, p).1 is Err,
    decreases b.len() - p,
{
    if p < b.len() {
        if let Ok((op, q)) = parse_op(b, p) {
            if apply_op(d, op).1 is Ok {
                law_undecodable_bytes_are_refused(apply_op(d, op).0, b, q);
            }
        }
    }
}

// ---------------------------------------------------------------------------------------
// An orderly tree is a tree.
// ---------------------------------------------------------------------------------------

/// Of two nodes above a third, one is above the other.
proof fn lemma_comparable(d: DomView, a: NodeId, b: NodeId, x: NodeId, left: Set<u64>)
    requires
        well_formed(d),
        orderly(d),
        reaches(d.nodes, a, x),
        reaches(d.nodes, b, x),
        forall|k: u64| #[trigger]
            d.nodes.contains_key(k) && height(d.nodes, NodeId(k)) >= height(d.nodes, x) ==> left.contains(
                k,
            ),
    ensures
        reaches(d.nodes, a, b) || reaches(d.nodes, b, a),
    decreases left.len(),
{
    lemma_finite(left);
    if a != x && b != x {
        let q = lemma_reached_is_listed(d.nodes, a, x);
        let r = lemma_reached_is_listed(d.nodes, b, x);
        assert(siblings(d, q).contains(x));
        assert(siblings(d, r).contains(x));
        assert(owner(q) == owner(r));
        assert(q == r);
        assert(parent_of(d.nodes, x) == Some(q));
        lemma_recorded_parent_is_above(d, x);
        assert(NodeId(x.0) == x);
        lemma_comparable(d, a, b, q, left.remove(x.0));
    }
}

/// The subtrees of two children of one parent have nothing in common.
pub proof fn lemma_siblings_apart(d: DomView, p: NodeId, i: int, j: int, x: NodeId)
    requires
        well_formed(d),
        orderly(d),
        0 <= i < siblings(d, p).len(),
        0 <= j < siblings(d, p).len(),
        reaches(d.nodes, siblings(d, p)[i], x),
        reaches(d.nodes, siblings(d, p)[j], x),
    ensures
        i == j,
{
    let a = siblings(d, p)[i];
    let b = siblings(d, p)[j];
    assert(siblings(d, p).contains(a));
    assert(siblings(d, p).contains(b));
    lemma_comparable(d, a, b, x, d.nodes.dom());
    assert(siblings(d, p).no_duplicates());
    if i != j {
        if reaches(d.nodes, a, b) {
            lemma_sibling_not_reached(d, p, a, b);
        } else {
            lemma_sibling_not_reached(d, p, b, a);
        }
    }
}

proof fn lemma_sibling_not_reached(d: DomView, p: NodeId, a: NodeId, b: NodeId)
    requires
        well_formed(d),
        orderly(d),
        siblings(d, p).contains(a),
        siblings(d, p).contains(b),
        a != b,
    ensures
        !reaches(d.nodes, a, b),
{
    if reaches(d.nodes, a, b) {
        let q = lemma_reached_is_listed(d.nodes, a, b);
        assert(siblings(d, q).contains(b));
        assert(owner(p) == owner(q));
        assert(p == q);
        let line = kids(d.nodes, p);
        let k = choose|k: int| 0 <= k < line.len() && line[k] == a;
        lemma_child_is_lower(d.nodes, p, k);
        lemma_reached_is_not_higher(d.nodes, a, p);
    }
}

/// In an orderly tree no node occurs twice below a node, the node itself included, and all of
/// them are live.
pub proof fn law_subtrees_hold_each_node_once(d: DomView, n: NodeId)
    requires
        well_formed(d),
        orderly(d),
        d.nodes.contains_key(n.0),
    ensures
        preorder(d.nodes, n).no_duplicates(),
        forall|i: int|
            0 <= i < preorder(d.nodes, n).len() ==> d.nodes.contains_key(
                (#[trigger] preorder(d.nodes, n)[i]).0,
            ),
    decreases height(d.nodes, n), kids(d.nodes, n).len() + 1,
{
    let ids = kids(d.nodes, n);
    law_preorder_unfolds(d.nodes, n);
    assert(siblings(d, n) == ids);
    assert(ids.take(ids.len() as int) =~= ids);
    lemma_forest_distinct(d, n, ids.len(), height(d.nodes, n));
    let rest = forest(d.nodes, ids);
    let all = preorder(d.nodes, n);
    lemma_forest_member(d.nodes, ids, n);
    if rest.contains(n) {
        let i = choose|i: int| 0 <= i < ids.len() && reaches(d.nodes, #[trigger] ids[i], n);
        lemma_child_is_lower(d.nodes, n, i);
        lemma_reached_is_not_higher(d.nodes, ids[i], n);
    }
    assert forall|i: int, j: int| 0 <= i < all.len() && 0 <= j < all.len() && i != j implies all[i]
        != all[j] by {
        if i > 0 {
            assert(all[i] == rest[i - 1]);
            assert(rest.contains(rest[i - 1]));
        }
        if j > 0 {
            assert(all[j] == rest[j - 1]);
            assert(rest.contains(rest[j - 1]));
        }
    }
    assert forall|i: int| 0 <= i < all.len() implies d.nodes.contains_key((#[trigger] all[i]).0) by {
        if i > 0 {
            assert(all[i] == rest[i - 1]);
        }
    }
}

proof fn lemma_forest_distinct(d: DomView, p: NodeId, k: nat, h: nat)
    requires
        well_formed(d),
        orderly(d),
        k <= siblings(d, p).len(),
        forall|i: int| 0 <= i < siblings(d, p).len() ==> height(d.nodes, #[trigger] siblings(d, p)[i]) < h,
    ensures
        forest(d.nodes, siblings(d, p).take(k as int)).no_duplicates(),
        forall|i: int|
            0 <= i < forest(d.nodes, siblings(d, p).take(k as int)).len() ==> d.nodes.contains_key(
                (#[trigger] forest(d.nodes, siblings(d, p).take(k as int))[i]).0,
            ),
    decreases h, k,
{
    let line = siblings(d, p);
    if k > 0 {
        let before = line.take(k - 1);
        let last = line[k - 1];
        assert(line.take(k as int) =~= before.push(last));
        lemma_forest_push(d.nodes, before, last);
        lemma_forest_distinct(d, p, (k - 1) as nat, h);
        assert(line.contains(last));
        assert(height(d.nodes, line[k - 1]) < h);
        law_subtrees_hold_each_node_once(d, last);
        let a = forest(d.nodes, before);
        let b = preorder(d.nodes, last);
        assert forall|i: int, j: int| 0 <= i < a.len() && 0 <= j < b.len() implies a[i] != b[j] by {
            if a[i] == b[j] {
                assert(a.contains(a[i]));
                assert(b.contains(b[j]));
                lemma_forest_member(d.nodes, before, a[i]);
                let m = choose|m: int| 0 <= m < before.len() && reaches(
                    d.nodes,
                    #[trigger] before[m],
                    a[i],
                );
                assert(before[m] == line[m]);
                lemma_siblings_apart(d, p, m, k - 1, a[i]);
            }
        }
        let all = a + b;
        assert forall|i: int, j: int|
            0 <= i < all.len() && 0 <= j < all.len() && i != j implies all[i] != all[j] by {
            if i < a.len() {
                assert(all[i] == a[i]);
            } else {
                assert(all[i] == b[i - a.len()]);
            }
            if j < a.len() {
                assert(all[j] == a[j]);
            } else {
                assert(all[j] == b[j - a.len()]);
            }
        }
    } else {
        assert(line.take(0) =~= seq![]);
    }
}

/// In an orderly tree every node that can be reached from the top is reached once, and is live.
pub proof fn law_trees_hold_each_node_once(d: DomView)
    requires
        well_formed(d),
        orderly(d),
    ensures
        forest(d.nodes, d.roots).no_duplicates(),
        forall|i: int|
            0 <= i < forest(d.nodes, d.roots).len() ==> d.nodes.contains_key(
                (#[trigger] forest(d.nodes, d.roots)[i]).0,
            ),
{
    let top = NodeId(ROOT);
    assert(siblings(d, top) == d.roots);
    let h = lemma_height_bound(d.nodes, d.roots);
    assert(d.roots.take(d.roots.len() as int) =~= d.roots);
    lemma_forest_distinct(d, top, d.roots.len(), h);
}

/// Finitely many nodes stand below some height.
proof fn lemma_height_bound(nodes: Map<u64, NodeView>, ids: Seq<NodeId>) -> (h: nat)
    ensures
        forall|i: int| 0 <= i < ids.len() ==> height(nodes, #[trigger] ids[i]) < h,
    decreases ids.len(),
{
    if ids.len() == 0 {
        0
    } else {
        let b = lemma_height_bound(nodes, ids.drop_last());
        let t = height(nodes, ids.last());
        let h = if b > t {
            b
        } else {
            t + 1
        };
        assert forall|i: int| 0 <= i < ids.len() implies height(nodes, #[trigger] ids[i]) < h by {
            if i < ids.len() - 1 {
                assert(ids[i] == ids.drop_last()[i]);
            }
        }
        h
    }
}

// ---------------------------------------------------------------------------------------
// What exactly an op changes.
// ---------------------------------------------------------------------------------------

/// The node that an op writes to and the string that it writes, in this order; an op that writes no
/// string has none.
pub open spec fn written(op: OpView) -> Option<(NodeId, Option<StrId>)> {
    match op {
        OpView::SetText { node, text } => Some((node, Some(text))),
        OpView::SetAttribute { node, value, .. } => Some((node, Some(value))),
        OpView::SetInlineStyle { node, value, .. } => Some((node, Some(value))),
        OpView::SetClass { node, class } => Some((node, Some(class))),
        OpView::RemoveClass { node, class } => Some((node, Some(class))),
        OpView::SetTagName { node, name } => Some((node, Some(name))),
        OpView::AddListener { node, .. } => Some((node, None)),
        OpView::RemoveListener { node, .. } => Some((node, None)),
        _ => None,
    }
}

/// An op that writes to a node is accepted where the node is live and its string is known, and
/// nowhere else. A node is created under every handle but that of the root. Frames of a batch are
/// always accepted, and an event is never.
pub proof fn law_ops_are_accepted_where_they_make_sense(d: DomView, op: OpView)
    ensures
        ({
            let ok = apply_op(d, op).1 is Ok;
            &&& written(op) matches Some((n, None)) ==> (ok <==> d.nodes.contains_key(n.0))
            &&& written(op) matches Some((n, Some(s))) ==> (ok <==> d.nodes.contains_key(n.0)
                && d.strings.contains_key(s.0))
            &&& op matches OpView::CreateElement { node, .. } ==> (ok <==> node.0 != 0)
            &&& op matches OpView::CreateText { node, text } ==> (ok <==> node.0 != 0
                && d.strings.contains_key(text.0))
            &&& op matches OpView::RemoveNode { node } ==> (ok <==> d.nodes.contains_key(node.0))
            &&& op matches OpView::InternString { bytes, .. } ==> (ok <==> valid_utf8(bytes))
            &&& op is BeginBatch || op is EndBatch ==> ok && apply_op(d, op).0 == d
            &&& op is DispatchEvent ==> apply_op(d, op).1 == Err::<(), HostError>(HostError::Decode)
            &&& apply_op(d, op).1 matches Err(e) ==> {
                let unknown = match written(op) {
                    Some((_, Some(s))) => !d.strings.contains_key(s.0),
                    _ => op matches OpView::CreateText { text, .. } && !d.strings.contains_key(
                        text.0,
                    ),
                };
                e == HostError::Decode <==> unknown || op is InternString || op is DispatchEvent
            }
        }),
{
}

/// An accepted op that writes to a node changes the one thing that it is about and nothing else: a
/// value is replaced, a class and a subscription go to the end of their lists, and what is taken out
/// leaves the rest in order.
pub proof fn law_writes_change_one_thing(d: DomView, op: OpView)
    requires
        written(op) is Some,
        apply_op(d, op).1 is Ok,
    ensures
        ({
            let n = (written(op)->0).0;
            let after = apply_op(d, op).0;
            let old = d.nodes[n.0];
            let new = after.nodes[n.0];
            &&& after.roots == d.roots
            &&& after.strings == d.strings
            &&& after.nodes == d.nodes.insert(n.0, new)
            &&& op matches OpView::SetText { text, .. } ==> new == (NodeView {
                text: Some(d.strings[text.0]),
                ..old
            })
            &&& op matches OpView::SetTagName { name, .. } ==> new == (NodeView {
                tag_name: Some(d.strings[name.0]),
                ..old
            })
            &&& op matches OpView::SetAttribute { attr, value, .. } ==> new == (NodeView {
                attrs: old.attrs.insert(attr.0, d.strings[value.0]),
                ..old
            })
            &&& op matches OpView::SetInlineStyle { prop, value, .. } ==> new == (NodeView {
                styles: old.styles.insert(prop.0, d.strings[value.0]),
                ..old
            })
            &&& op matches OpView::SetClass { class, .. } ==> new == (NodeView {
                classes: new.classes,
                ..old
            }) && {
                let name = d.strings[class.0];
                &&& old.classes.contains(name) ==> new.classes == old.classes
                &&& !old.classes.contains(name) ==> new.classes == old.classes + seq![name]
            }
            &&& op matches OpView::RemoveClass { class, .. } ==> new == (NodeView {
                classes: new.classes,
                ..old
            }) && new.classes == old.classes.filter(|c: Seq<char>| c != d.strings[class.0])
            &&& op matches OpView::AddListener { event, handler, .. } ==> new == (NodeView {
                listeners: old.listeners + seq![(event, handler)],
                ..old
            })
            &&& op matches OpView::RemoveListener { event, .. } ==> new == (NodeView {
                listeners: new.listeners,
                ..old
            }) && new.listeners == old.listeners.filter(|l: (EventKind, HandlerId)| l.0 != event)
        }),
{
    let n = (written(op)->0).0;
    let after = apply_op(d, op).0;
    let old = d.nodes[n.0];
    let new = after.nodes[n.0];
    assert(after.nodes =~= d.nodes.insert(n.0, new));
    match op {
        OpView::SetClass { class, .. } => {
            let name = d.strings[class.0];
            assert(old.classes.push(name) =~= old.classes + seq![name]);
        },
        OpView::RemoveClass { class, .. } => {
            assert(other_class(d.strings[class.0]) =~= |c: Seq<char>| c != d.strings[class.0]);
        },
        OpView::AddListener { event, handler, .. } => {
            assert(old.listeners.push((event, handler)) =~= old.listeners + seq![(event, handler)]);
        },
        OpView::RemoveListener { event, .. } => {
            assert(other_event(event) =~= |l: (EventKind, HandlerId)| l.0 != event);
        },
        _ => {},
    }
}

/// A created node has what it is created with and nothing else: no parent, no children, no styles,
/// classes, attributes or subscriptions. Interning replaces one string and changes nothing else.
pub proof fn law_created_nodes_are_blank(d: DomView, op: OpView)
    requires
        op is CreateElement || op is CreateText || op is InternString,
        apply_op(d, op).1 is Ok,
    ensures
        ({
            let after = apply_op(d, op).0;
            let n = match op {
                OpView::CreateElement { node, .. } => node,
                OpView::CreateText { node, .. } => node,
                _ => NodeId(0),
            };
            let new = after.nodes[n.0];
            &&& after.roots == d.roots
            &&& op matches OpView::InternString { id, bytes } ==> after.nodes == d.nodes
                && after.strings == d.strings.insert(id.0, decode_utf8(bytes))
            &&& !(op is InternString) ==> {
                &&& after.strings == d.strings
                &&& after.nodes == d.nodes.insert(n.0, new)
                &&& new.parent is None
                &&& new.children.len() == 0
                &&& new.classes.len() == 0
                &&& new.listeners.len() == 0
                &&& new.tag_name is None
                &&& forall|k: u16| !(#[trigger] new.styles.contains_key(k))
                &&& forall|k: u16| !(#[trigger] new.attrs.contains_key(k))
            }
            &&& op matches OpView::CreateElement { tag, .. } ==> new.tag == Some(tag) && new.text is None
            &&& op matches OpView::CreateText { text, .. } ==> new.tag is None && new.text == Some(
                d.strings[text.0],
            )
        }),
{
    let after = apply_op(d, op).0;
    match op {
        OpView::CreateElement { node, .. } => {
            assert(after.nodes =~= d.nodes.insert(node.0, after.nodes[node.0]));
        },
        OpView::CreateText { node, .. } => {
            assert(after.nodes =~= d.nodes.insert(node.0, after.nodes[node.0]));
        },
        _ => {},
    }
}

/// An insertion is accepted where its nodes are live, the child is not above the parent, and the
/// anchor is another child of the parent or none; and nowhere else. The child then stands right
/// before its anchor, or last without one, and all other lists stay as they were, but for the child,
/// which is in no other. Where it stands is returned.
pub proof fn law_children_stand_before_their_anchor(
    d: DomView,
    parent: NodeId,
    child: NodeId,
    anchor: NodeId,
) -> (at: int)
    requires
        well_formed(d),
        orderly(d),
    ensures
        ({
            let (after, answer) = apply_op(d, (OpView::InsertBefore { parent, child, anchor }));
            let line = siblings(after, parent);
            let last = anchor.0 == 0xffff_ffff_ffff_ffff;
            &&& answer is Ok <==> {
                &&& d.nodes.contains_key(child.0)
                &&& parent.0 == 0 || d.nodes.contains_key(parent.0) && !reaches(
                    d.nodes,
                    child,
                    parent,
                )
                &&& last || anchor != child && siblings(d, parent).contains(anchor)
            }
            &&& answer is Err ==> answer == Err::<(), HostError>(HostError::BadHandle)
            &&& answer is Ok ==> {
                &&& 0 <= at < line.len()
                &&& line[at] == child
                &&& line.remove(at) == siblings(d, parent).filter(|c: NodeId| c != child)
                &&& last ==> at == line.len() - 1
                &&& !last ==> at + 1 < line.len() && line[at + 1] == anchor
                &&& forall|q: NodeId|
                    q != parent ==> #[trigger] siblings(after, q) == siblings(d, q).filter(
                        |c: NodeId| c != child,
                    )
                &&& forall|k: u64|
                    #![trigger after.nodes[k]]
                    d.nodes.contains_key(k) ==> after.nodes.contains_key(k) && after.nodes[k] == (
                    NodeView {
                        parent: after.nodes[k].parent,
                        children: after.nodes[k].children,
                        ..d.nodes[k]
                    }) && (k != child.0 ==> after.nodes[k].parent == d.nodes[k].parent)
                &&& after.strings == d.strings
            }
        }),
{
    let (after, answer) = apply_op(d, (OpView::InsertBefore { parent, child, anchor }));
    let line = siblings(adopted(detached(d, child), child, parent), parent);
    assert(other_than(child) =~= |c: NodeId| c != child);
    if d.nodes.contains_key(child.0) {
        lemma_detached_lists(d, child, parent);
        assert(line == siblings(detached(d, child), parent));
        line.index_of_first_ensures(anchor);
        assert(line.contains(anchor) <==> siblings(d, parent).contains(anchor) && anchor != child);
    }
    if answer is Ok {
        lemma_inserted_elsewhere(d, parent, child, anchor);
        lemma_inserted_here(d, parent, child, anchor)
    } else {
        0
    }
}

proof fn lemma_inserted_here(d: DomView, parent: NodeId, child: NodeId, anchor: NodeId) -> (at: int)
    requires
        well_formed(d),
        orderly(d),
        insert_before(d, parent, child, anchor).1 is Ok,
    ensures
        ({
            let line = siblings(insert_before(d, parent, child, anchor).0, parent);
            let last = anchor.0 == NodeId::NULL;
            &&& 0 <= at < line.len()
            &&& line[at] == child
            &&& line.remove(at) == without(siblings(d, parent), child)
            &&& last ==> at == line.len() - 1
            &&& !last ==> at + 1 < line.len() && line[at + 1] == anchor
        }),
{
    let after = insert_before(d, parent, child, anchor).0;
    let cut = detached(d, child);
    let line = siblings(adopted(cut, child, parent), parent);
    lemma_detached_lists(d, child, parent);
    assert(line == siblings(cut, parent));
    line.index_of_first_ensures(anchor);
    let at = if anchor.0 == NodeId::NULL {
        line.len() as int
    } else {
        line.index_of_first(anchor)->0
    };
    assert(line.push(child) =~= line.insert(line.len() as int, child));
    assert(siblings(after, parent) == line.insert(at, child));
    assert(siblings(after, parent).remove(at) =~= line);
    at
}

proof fn lemma_inserted_elsewhere(d: DomView, parent: NodeId, child: NodeId, anchor: NodeId)
    requires
        well_formed(d),
        orderly(d),
        insert_before(d, parent, child, anchor).1 is Ok,
    ensures
        ({
            let after = insert_before(d, parent, child, anchor).0;
            &&& forall|q: NodeId|
                q != parent ==> #[trigger] siblings(after, q) == without(siblings(d, q), child)
            &&& forall|k: u64|
                #![trigger after.nodes[k]]
                d.nodes.contains_key(k) ==> after.nodes.contains_key(k) && after.nodes[k] == (
                NodeView {
                    parent: after.nodes[k].parent,
                    children: after.nodes[k].children,
                    ..d.nodes[k]
                }) && (k != child.0 ==> after.nodes[k].parent == d.nodes[k].parent)
            &&& after.strings == d.strings
        }),
{
    let after = insert_before(d, parent, child, anchor).0;
    let cut = detached(d, child);
    assert forall|q: NodeId| q != parent implies #[trigger] siblings(after, q) == without(
        siblings(d, q),
        child,
    ) by {
        lemma_detached_lists(d, child, q);
        assert(siblings(after, q) == siblings(cut, q));
    }
}

/// A removed node is in no list any more; all lists stay as they were but for it, and so does every
/// node that is left.
pub proof fn law_removal_leaves_the_rest(d: DomView, n: NodeId)
    requires
        well_formed(d),
        orderly(d),
        d.nodes.contains_key(n.0),
    ensures
        ({
            let after = apply_op(d, (OpView::RemoveNode { node: n })).0;
            &&& after.roots == d.roots.filter(|c: NodeId| c != n)
            &&& after.strings == d.strings
            &&& forall|k: u64|
                #![trigger after.nodes[k]]
                after.nodes.contains_key(k) ==> after.nodes[k] == (NodeView {
                    children: d.nodes[k].children.filter(|c: NodeId| c != n),
                    ..d.nodes[k]
                })
        }),
{
    let after = apply_op(d, (OpView::RemoveNode { node: n })).0;
    let cut = detached(d, n);
    assert(other_than(n) =~= |c: NodeId| c != n);
    lemma_detached_lists(d, n, NodeId(ROOT));
    assert forall|k: u64|
        #![trigger after.nodes[k]]
        after.nodes.contains_key(k) implies after.nodes[k] == (NodeView {
        children: d.nodes[k].children.filter(|c: NodeId| c != n),
        ..d.nodes[k]
    }) by {
        lemma_detached_lists(d, n, NodeId(k));
        assert(after.nodes[k] == cut.nodes[k]);
        assert(kids(cut.nodes, NodeId(k)) == siblings(cut, NodeId(k)));
        assert(kids(d.nodes, NodeId(k)) == siblings(d, NodeId(k)));
    }
}

/// Setting a style of a live node sets that one value and changes nothing else; there is nothing to
/// set on any other handle.
pub proof fn law_setting_a_style_sets_one_value(d: DomView, n: NodeId, prop: PropId, value: Seq<char>)
    ensures
        ({
            let after = with_style(d, n, prop, value);
            &&& !d.nodes.contains_key(n.0) ==> after == d
            &&& d.nodes.contains_key(n.0) ==> {
                let old = d.nodes[n.0];
                after == (DomView {
                    nodes: d.nodes.insert(
                        n.0,
                        NodeView { styles: old.styles.insert(prop.0, value), ..old },
                    ),
                    ..d
                })
            }
        }),
{
}

/// The nodes of a forest are those of its trees, one tree after the other in order; a tree begins with
/// its top.
pub proof fn law_forests_run_in_order(nodes: Map<u64, NodeView>, a: Seq<NodeId>, b: Seq<NodeId>, n: NodeId)
    ensures
        forest(nodes, a + b) == forest(nodes, a) + forest(nodes, b),
        forest(nodes, seq![n]) == preorder(nodes, n),
        forest(nodes, seq![]) == Seq::<NodeId>::empty(),
        preorder(nodes, n).len() > 0 && preorder(nodes, n)[0] == n,
    decreases b.len(),
{
    if b.len() == 0 {
        assert(a + b =~= a);
        assert(forest(nodes, a) + forest(nodes, b) =~= forest(nodes, a));
    } else {
        let init = b.drop_last();
        law_forests_run_in_order(nodes, a, init, n);
        lemma_forest_push(nodes, init, b.last());
        lemma_forest_push(nodes, a + init, b.last());
        assert(init.push(b.last()) =~= b);
        assert((a + init).push(b.last()) =~= a + b);
        assert(forest(nodes, a) + forest(nodes, init) + preorder(nodes, b.last()) =~= forest(nodes, a)
            + (forest(nodes, init) + preorder(nodes, b.last())));
    }
    lemma_forest_push(nodes, seq![], n);
    assert(Seq::<NodeId>::empty().push(n) =~= seq![n]);
    assert(forest(nodes, seq![]) + preorder(nodes, n) =~= preorder(nodes, n));
}

/// A run of one op does what the op does, and an empty run nothing.
pub proof fn law_short_runs_do_what_they_say(d: DomView, op: OpView)
    ensures
        apply_ops(d, seq![op]) == apply_op(d, op),
        apply_ops(d, seq![]) == (d, Ok::<(), HostError>(())),
{
    assert(seq![op].drop_first() =~= seq![]);
    assert(apply_ops(apply_op(d, op).0, seq![]) == (apply_op(d, op).0, Ok::<(), HostError>(())));
}

} // verus!
