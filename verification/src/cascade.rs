//! The stylesheet cascade: which nodes a selector matcher is asked about, and what its answers
//! make of the tree.
//!
//! [`match_requests`] walks the tree from the top and describes every node to the matcher: what
//! it is, where it stands among its siblings, which node it stands below, and how the user
//! interacts with it. The matcher answers with the declarations of the rules that match.
//! [`styled`] folds the answers into a copy of the tree: what the guest set inline wins over
//! what a rule declares, and that wins over what flows down from the parent.
use crate::dom::{Dom, Node};
use crate::handles::{AttrId, NodeId, PropId, ROOT};
use crate::props::{inherits, FG, TEXT_ALIGN};
use crate::text::{opt_string, string_chars, strings_chars};
use crate::tree::{
    ancestors, forest, height, kids, law_below_is_having_above, law_preorder_unfolds,
    law_trees_hold_each_node_once, lemma_child_is_lower, lemma_forest_push, orderly, preorder, reaches,
    siblings, well_formed, with_style, DomView, NodeView,
};
use std::collections::BTreeMap;
use vstd::prelude::*;

verus! {

broadcast use vstd::std_specs::btree::group_btree_axioms;

/// The attribute that `:disabled` tests for.
pub const DISABLED_ATTR: u16 = 2;

/// The attribute that `:checked` tests for.
pub const CHECKED_ATTR: u16 = 3;

/// What a selector matches a node by.
#[derive(PartialEq, Eq, Debug)]
pub struct NodeIdentity {
    /// Its type name.
    pub element_name: Option<String>,
    /// Its id.
    pub id: Option<String>,
    /// Its classes, in the order they were added.
    pub classes: Vec<String>,
    /// Its attributes that have a CSS name, with their values.
    pub attrs: Vec<(String, String)>,
}

/// What a [`NodeIdentity`] says.
#[verifier::ext_equal]
pub ghost struct IdentityView {
    pub element_name: Option<Seq<char>>,
    pub id: Option<Seq<char>>,
    pub classes: Seq<Seq<char>>,
    pub attrs: Seq<(Seq<char>, Seq<char>)>,
}

/// What the pairs of a sequence say.
pub open spec fn pairs_view(s: Seq<(String, String)>) -> Seq<(Seq<char>, Seq<char>)> {
    Seq::new(s.len(), |i: int| (s[i].0@, s[i].1@))
}

impl View for NodeIdentity {
    type V = IdentityView;

    open spec fn view(&self) -> IdentityView {
        IdentityView {
            element_name: opt_string(self.element_name),
            id: opt_string(self.id),
            classes: strings_chars(self.classes@),
            attrs: pairs_view(self.attrs@),
        }
    }
}

/// The type name of an element: the one it declares, else the name of its tag, if that is known.
pub open spec fn element_name_of(n: NodeView) -> Option<Seq<char>> {
    match (n.tag_name, n.tag) {
        (Some(name), _) => Some(name),
        (None, Some(tag)) => if tag.0 == 1 {
            Some("div"@)
        } else if tag.0 == 2 {
            Some("row"@)
        } else if tag.0 == 3 {
            Some("button"@)
        } else if tag.0 == 4 {
            Some("input"@)
        } else {
            None
        },
        (None, None) => None,
    }
}

/// The type name of an element.
pub fn element_type_name(n: &Node) -> (r: Option<String>)
    ensures
        opt_string(r) == element_name_of(n@),
{
    if let Some(name) = &n.tag_name {
        return Some(name.clone());
    }
    match n.tag {
        Some(tag) => if tag.0 == 1 {
            Some("div".to_owned())
        } else if tag.0 == 2 {
            Some("row".to_owned())
        } else if tag.0 == 3 {
            Some("button".to_owned())
        } else if tag.0 == 4 {
            Some("input".to_owned())
        } else {
            None
        },
        None => None,
    }
}

/// The value of an attribute of a node, if it is set.
pub open spec fn attr_value(n: NodeView, attr: u16) -> Option<Seq<char>> {
    if n.attrs.contains_key(attr) {
        Some(n.attrs[attr])
    } else {
        None
    }
}

fn node_attr(n: &Node, attr: u16) -> (r: Option<String>)
    ensures
        opt_string(r) == attr_value(n@, attr),
{
    match n.attrs.get(&attr) {
        Some(v) => Some(v.clone()),
        None => None,
    }
}

/// An attribute under its CSS name, if it is set.
pub open spec fn named_attr(n: NodeView, attr: u16, name: Seq<char>) -> Seq<(Seq<char>, Seq<char>)> {
    match attr_value(n, attr) {
        Some(v) => seq![(name, v)],
        None => seq![],
    }
}

fn push_attr(n: &Node, attr: u16, name: &str, out: &mut Vec<(String, String)>)
    ensures
        pairs_view(final(out)@) == pairs_view(old(out)@) + named_attr(n@, attr, name@),
{
    if let Some(v) = node_attr(n, attr) {
        out.push((name.to_owned(), v));
    }
    assert(pairs_view(out@) =~= pairs_view(old(out)@) + named_attr(n@, attr, name@));
}

/// What a selector matches a node by.
pub open spec fn identity_of(n: NodeView) -> IdentityView {
    IdentityView {
        element_name: element_name_of(n),
        id: attr_value(n, AttrId::ID),
        classes: n.classes,
        attrs: named_attr(n, AttrId::ID, "id"@) + named_attr(n, DISABLED_ATTR, "disabled"@)
            + named_attr(n, CHECKED_ATTR, "checked"@),
    }
}

impl NodeIdentity {
    /// What a selector matches a node by.
    pub fn from_node(n: &Node) -> (r: NodeIdentity)
        ensures
            r@ == identity_of(n@),
    {
        let mut attrs: Vec<(String, String)> = Vec::new();
        assert(pairs_view(attrs@) =~= seq![]);
        push_attr(n, AttrId::ID, "id", &mut attrs);
        push_attr(n, DISABLED_ATTR, "disabled", &mut attrs);
        push_attr(n, CHECKED_ATTR, "checked", &mut attrs);
        let r = NodeIdentity {
            element_name: element_type_name(n),
            id: node_attr(n, AttrId::ID),
            classes: copy_strings(&n.classes),
            attrs,
        };
        assert(r@ =~= identity_of(n@));
        r
    }
}

fn copy_strings(v: &Vec<String>) -> (r: Vec<String>)
    ensures
        strings_chars(r@) == strings_chars(v@),
{
    let mut r: Vec<String> = Vec::new();
    let mut i: usize = 0;
    while i < v.len()
        invariant
            i <= v@.len(),
            r@.len() == i,
            forall|k: int| 0 <= k < i ==> (#[trigger] r@[k])@ == v@[k]@,
        decreases v@.len() - i,
    {
        r.push(v[i].clone());
        i += 1;
    }
    assert(strings_chars(r@) =~= strings_chars(v@));
    r
}

/// Whether there is anything about a node that a selector could match.
pub open spec fn matchable(i: IdentityView) -> bool {
    i.element_name is Some || i.id is Some || i.classes.len() > 0 || i.attrs.len() > 0
}

/// What the matcher is told about a node.
#[derive(PartialEq, Eq, Debug)]
pub struct MatchRequest {
    /// The node.
    pub node: NodeId,
    /// The request of the node that it stands below, by index; a top-level node has none.
    pub parent: Option<usize>,
    /// What selectors match it by.
    pub identity: NodeIdentity,
    /// Its position among its siblings, from zero.
    pub sibling_index: u32,
    /// How many siblings there are, itself included.
    pub sibling_count: u32,
    /// How many children it has.
    pub child_count: u32,
    /// Whether the pointer is over it or something below it.
    pub hover: bool,
    /// Whether it has the keyboard focus.
    pub focus: bool,
    /// Whether it is being pressed.
    pub active: bool,
    /// Whether the matcher is to be asked at all.
    pub matchable: bool,
}

/// What a [`MatchRequest`] says.
#[verifier::ext_equal]
pub ghost struct RequestView {
    pub node: NodeId,
    pub parent: Option<nat>,
    pub identity: IdentityView,
    pub sibling_index: u32,
    pub sibling_count: u32,
    pub child_count: u32,
    pub hover: bool,
    pub focus: bool,
    pub active: bool,
    pub matchable: bool,
}

impl View for MatchRequest {
    type V = RequestView;

    open spec fn view(&self) -> RequestView {
        RequestView {
            node: self.node,
            parent: match self.parent {
                Some(p) => Some(p as nat),
                None => None,
            },
            identity: self.identity@,
            sibling_index: self.sibling_index,
            sibling_count: self.sibling_count,
            child_count: self.child_count,
            hover: self.hover,
            focus: self.focus,
            active: self.active,
            matchable: self.matchable,
        }
    }
}

/// What the requests of a sequence say.
pub open spec fn requests_view(s: Seq<MatchRequest>) -> Seq<RequestView> {
    Seq::new(s.len(), |i: int| s[i]@)
}

/// How the user interacts with the tree.
#[verifier::ext_equal]
pub ghost struct Interaction {
    /// The nodes under the pointer, from the innermost up.
    pub hover_path: Seq<NodeId>,
    /// The node with the keyboard focus.
    pub focused: Option<NodeId>,
    /// The node being pressed.
    pub active: Option<NodeId>,
}

/// The low 32 bits of a count.
pub open spec fn count_u32(n: nat) -> u32 {
    (n % 0x1_0000_0000) as u32
}

fn low_u32(n: usize) -> (r: u32)
    ensures
        r == count_u32(n as nat),
{
    (n as u64 % 0x1_0000_0000) as u32
}

/// What the matcher is told about one node.
pub open spec fn request_of(
    nodes: Map<u64, NodeView>,
    how: Interaction,
    n: NodeId,
    parent: Option<nat>,
    index: nat,
    count: nat,
) -> RequestView {
    let identity = identity_of(nodes[n.0]);
    RequestView {
        node: n,
        parent,
        identity,
        sibling_index: count_u32(index),
        sibling_count: count_u32(count),
        child_count: count_u32(nodes[n.0].children.len()),
        hover: how.hover_path.contains(n),
        focus: how.focused == Some(n),
        active: how.active == Some(n),
        matchable: matchable(identity),
    }
}

/// The requests `sofar`, followed by those of a node and its descendants.
pub open spec fn visited(
    nodes: Map<u64, NodeView>,
    how: Interaction,
    n: NodeId,
    parent: Option<nat>,
    index: nat,
    count: nat,
    sofar: Seq<RequestView>,
) -> Seq<RequestView>
    decreases height(nodes, n), kids(nodes, n).len() + 1,
{
    if !nodes.contains_key(n.0) {
        sofar
    } else {
        visited_below(
            nodes,
            how,
            kids(nodes, n),
            height(nodes, n),
            Some(sofar.len()),
            kids(nodes, n).len(),
            sofar.push(request_of(nodes, how, n, parent, index, count)),
        )
    }
}

/// The requests `sofar`, followed by those of the first children of a node and of their
/// descendants. Only nodes lower than `h` are visited; in an acyclic tree all children are.
pub open spec fn visited_below(
    nodes: Map<u64, NodeView>,
    how: Interaction,
    ids: Seq<NodeId>,
    h: nat,
    parent: Option<nat>,
    count: nat,
    sofar: Seq<RequestView>,
) -> Seq<RequestView>
    decreases h, ids.len(),
{
    if ids.len() == 0 {
        sofar
    } else {
        let before = visited_below(nodes, how, ids.drop_last(), h, parent, count, sofar);
        if height(nodes, ids.last()) < h {
            visited(nodes, how, ids.last(), parent, (ids.len() - 1) as nat, count, before)
        } else {
            before
        }
    }
}

/// The requests of the first `n` top-level nodes and of their descendants.
pub open spec fn visited_roots(
    nodes: Map<u64, NodeView>,
    how: Interaction,
    roots: Seq<NodeId>,
    n: nat,
) -> Seq<RequestView>
    decreases n,
{
    if n == 0 {
        seq![]
    } else {
        visited(
            nodes,
            how,
            roots[n - 1],
            None,
            (n - 1) as nat,
            roots.len(),
            visited_roots(nodes, how, roots, (n - 1) as nat),
        )
    }
}

/// What the matcher is told about a tree: its nodes from the top down, each before its
/// children, siblings in order.
pub open spec fn requests_of(d: DomView, how: Interaction) -> Seq<RequestView> {
    visited_roots(d.nodes, how, d.roots, d.roots.len())
}

/// Whether a path holds a node.
fn path_contains(path: &Vec<NodeId>, n: NodeId) -> (r: bool)
    ensures
        r == path@.contains(n),
{
    let mut i: usize = 0;
    while i < path.len()
        invariant
            i <= path@.len(),
            forall|k: int| 0 <= k < i ==> path@[k] != n,
        decreases path@.len() - i,
    {
        if path[i] == n {
            return true;
        }
        i += 1;
    }
    false
}

fn same_node(a: Option<NodeId>, n: NodeId) -> (r: bool)
    ensures
        r == (a == Some(n)),
{
    match a {
        Some(m) => m == n,
        None => false,
    }
}

fn visit(
    dom: &Dom,
    path: &Vec<NodeId>,
    focused: Option<NodeId>,
    active: Option<NodeId>,
    id: NodeId,
    parent: Option<usize>,
    index: usize,
    count: usize,
    out: &mut Vec<MatchRequest>,
)
    requires
        dom.wf(),
    ensures
        requests_view(final(out)@) == visited(
            dom@.nodes,
            (Interaction { hover_path: path@, focused, active }),
            id,
            (match parent {
                Some(p) => Some(p as nat),
                None => None,
            }),
            index as nat,
            count as nat,
            requests_view(old(out)@),
        ),
    decreases height(dom@.nodes, id),
{
    let ghost nodes = dom@.nodes;
    let ghost how = Interaction { hover_path: path@, focused, active };
    let ghost up = match parent {
        Some(p) => Some(p as nat),
        None => None,
    };
    let ghost start = requests_view(out@);
    let node = match dom.node(id) {
        Some(n) => n,
        None => {
            return;
        },
    };
    let identity = NodeIdentity::from_node(node);
    let is_matchable = identity.element_name.is_some() || identity.id.is_some()
        || identity.classes.len() > 0 || identity.attrs.len() > 0;
    assert(is_matchable == matchable(identity@));
    let at: usize = out.len();
    let request = MatchRequest {
        node: id,
        parent,
        identity,
        sibling_index: low_u32(index),
        sibling_count: low_u32(count),
        child_count: low_u32(node.children.len()),
        hover: path_contains(path, id),
        focus: same_node(focused, id),
        active: same_node(active, id),
        matchable: is_matchable,
    };
    assert(request@ =~= request_of(nodes, how, id, up, index as nat, count as nat));
    out.push(request);
    let ghost begun = start.push(request@);
    assert(requests_view(out@) =~= begun);
    let ghost ids = kids(nodes, id);
    let ghost h = height(nodes, id);
    let mut i: usize = 0;
    assert(ids.take(0) =~= seq![]);
    while i < node.children.len()
        invariant
            dom.wf(),
            nodes == dom@.nodes,
            nodes.contains_key(id.0),
            node@ == nodes[id.0],
            how == (Interaction { hover_path: path@, focused, active }),
            ids == node.children@,
            ids == kids(nodes, id),
            h == height(nodes, id),
            at == start.len(),
            i <= ids.len(),
            requests_view(out@) == visited_below(
                nodes,
                how,
                ids.take(i as int),
                h,
                Some(at as nat),
                ids.len(),
                begun,
            ),
        decreases ids.len() - i,
    {
        proof {
            assert(ids.take(i + 1).drop_last() =~= ids.take(i as int));
            assert(ids.take(i + 1).last() == ids[i as int]);
            lemma_child_is_lower(nodes, id, i as int);
        }
        visit(
            dom,
            path,
            focused,
            active,
            node.children[i],
            Some(at),
            i,
            node.children.len(),
            out,
        );
        i += 1;
    }
    assert(ids.take(i as int) =~= ids);
}

/// Describe every node of a tree to the matcher, given which node is under the pointer, has the
/// focus, and is being pressed. A node is hovered when the pointer is over it or something
/// below it.
pub fn match_requests(
    dom: &Dom,
    hovered: Option<NodeId>,
    focused: Option<NodeId>,
    active: Option<NodeId>,
) -> (r: Vec<MatchRequest>)
    requires
        dom.wf(),
    ensures
        requests_view(r@) == requests_of(
            dom@,
            (Interaction { hover_path: hover_path_of(dom@.nodes, hovered), focused, active }),
        ),
{
    let path = hover_path(dom, hovered);
    let ghost how = Interaction { hover_path: path@, focused, active };
    let roots = dom.children(NodeId::root());
    let mut out: Vec<MatchRequest> = Vec::new();
    let mut i: usize = 0;
    assert(requests_view(out@) =~= seq![]);
    while i < roots.len()
        invariant
            dom.wf(),
            roots@ == dom@.roots,
            how == (Interaction { hover_path: path@, focused, active }),
            i <= roots@.len(),
            requests_view(out@) == visited_roots(dom@.nodes, how, roots@, i as nat),
        decreases roots@.len() - i,
    {
        visit(dom, &path, focused, active, roots[i], None, i, roots.len(), &mut out);
        i += 1;
    }
    out
}

/// The nodes under the pointer, from the innermost up.
pub open spec fn hover_path_of(nodes: Map<u64, NodeView>, hovered: Option<NodeId>) -> Seq<NodeId> {
    match hovered {
        Some(n) => ancestors(nodes, n),
        None => seq![],
    }
}

/// The nodes under the pointer, from the innermost up.
pub fn hover_path(dom: &Dom, hovered: Option<NodeId>) -> (r: Vec<NodeId>)
    requires
        dom.wf(),
    ensures
        r@ == hover_path_of(dom@.nodes, hovered),
{
    match hovered {
        Some(n) => dom.ancestors(n),
        None => {
            let r: Vec<NodeId> = Vec::new();
            assert(r@ =~= seq![]);
            r
        },
    }
}

/// The requests that a node stands below, nearest first.
pub open spec fn chain_of(rs: Seq<RequestView>, i: nat) -> Seq<nat>
    decreases i,
{
    match rs[i as int].parent {
        Some(p) => if p < i {
            seq![p] + chain_of(rs, p)
        } else {
            seq![]
        },
        None => seq![],
    }
}

/// Indices as mathematical numbers.
pub open spec fn as_nats(s: Seq<usize>) -> Seq<nat> {
    Seq::new(s.len(), |i: int| s[i] as nat)
}

/// The requests that a node stands below, nearest first.
pub fn ancestor_chain(requests: &Vec<MatchRequest>, i: usize) -> (r: Vec<usize>)
    requires
        i < requests@.len(),
    ensures
        as_nats(r@) == chain_of(requests_view(requests@), i as nat),
{
    let ghost rs = requests_view(requests@);
    let mut out: Vec<usize> = Vec::new();
    let mut at: usize = i;
    assert(as_nats(out@) + chain_of(rs, at as nat) =~= chain_of(rs, i as nat));
    loop
        invariant
            at < requests@.len(),
            rs == requests_view(requests@),
            as_nats(out@) + chain_of(rs, at as nat) == chain_of(rs, i as nat),
        decreases at,
    {
        match requests[at].parent {
            Some(p) => {
                assert(rs[at as int].parent == Some(p as nat));
                if p >= at {
                    assert(as_nats(out@) =~= chain_of(rs, i as nat));
                    return out;
                }
                let ghost before = as_nats(out@);
                out.push(p);
                assert(as_nats(out@) =~= before.push(p as nat));
                assert(as_nats(out@) + chain_of(rs, p as nat) =~= before + (seq![p as nat] + chain_of(
                    rs,
                    p as nat,
                )));
                at = p;
            },
            None => {
                assert(rs[at as int].parent is None);
                assert(as_nats(out@) =~= chain_of(rs, i as nat));
                return out;
            },
        }
    }
}

/// A declaration of a rule: a property and its value.
#[derive(PartialEq, Eq, Debug)]
pub struct Declaration {
    pub prop: PropId,
    pub value: String,
}

/// What the declarations of a sequence say.
pub open spec fn declarations_view(s: Seq<Declaration>) -> Seq<(u16, Seq<char>)> {
    Seq::new(s.len(), |i: int| (s[i].prop.0, s[i].value@))
}

/// What the answers of a sequence say.
pub open spec fn answers_view(s: Seq<Vec<Declaration>>) -> Seq<Seq<(u16, Seq<char>)>> {
    Seq::new(s.len(), |i: int| declarations_view(s[i]@))
}

/// The values that the rules give the properties which the guest did not set inline; of two
/// declarations of a property the later wins.
pub open spec fn rule_styles(inline: Map<u16, Seq<char>>, ds: Seq<(u16, Seq<char>)>) -> Map<
    u16,
    Seq<char>,
>
    decreases ds.len(),
{
    if ds.len() == 0 {
        Map::empty()
    } else {
        let before = rule_styles(inline, ds.drop_last());
        let (prop, value) = ds.last();
        if inline.contains_key(prop) {
            before
        } else {
            before.insert(prop, value)
        }
    }
}

/// The declarations for the request at `i`: none if the matcher is not to be asked.
pub open spec fn answer_at(rs: Seq<RequestView>, answers: Seq<Seq<(u16, Seq<char>)>>, i: int) -> Seq<
    (u16, Seq<char>),
> {
    if rs[i].matchable && i < answers.len() {
        answers[i]
    } else {
        seq![]
    }
}

/// The inline styles of a node; a node that is not there has none.
pub open spec fn inline_styles(nodes: Map<u64, NodeView>, n: NodeId) -> Map<u16, Seq<char>> {
    if nodes.contains_key(n.0) {
        nodes[n.0].styles
    } else {
        Map::empty()
    }
}

/// The part of a style map that flows down to children.
pub open spec fn flowing(styles: Map<u16, Seq<char>>) -> Map<u16, Seq<char>> {
    styles.restrict(Set::new(|p: u16| inherits(p)))
}

/// What a node takes from the node that it stands below: that one's resolved values of the
/// properties that flow down.
pub open spec fn inherited_at(
    nodes: Map<u64, NodeView>,
    rs: Seq<RequestView>,
    answers: Seq<Seq<(u16, Seq<char>)>>,
    i: nat,
) -> Map<u16, Seq<char>>
    decreases i, 0nat,
{
    match rs[i as int].parent {
        Some(p) => if p < i {
            flowing(resolved_at(nodes, rs, answers, p))
        } else {
            Map::empty()
        },
        None => Map::empty(),
    }
}

/// The resolved styles of a node: inline over rules over inherited.
pub open spec fn resolved_at(
    nodes: Map<u64, NodeView>,
    rs: Seq<RequestView>,
    answers: Seq<Seq<(u16, Seq<char>)>>,
    i: nat,
) -> Map<u16, Seq<char>>
    decreases i, 1nat,
{
    let inline = inline_styles(nodes, rs[i as int].node);
    inherited_at(nodes, rs, answers, i).union_prefer_right(
        rule_styles(inline, answer_at(rs, answers, i as int)),
    ).union_prefer_right(inline)
}

/// What the cascade adds to the inline styles of a node.
pub open spec fn added_at(
    nodes: Map<u64, NodeView>,
    rs: Seq<RequestView>,
    answers: Seq<Seq<(u16, Seq<char>)>>,
    i: nat,
) -> Map<u16, Seq<char>> {
    resolved_at(nodes, rs, answers, i).remove_keys(
        inline_styles(nodes, rs[i as int].node).dom(),
    )
}

/// The tree in which a node has more styles.
pub open spec fn with_styles(d: DomView, n: NodeId, added: Map<u16, Seq<char>>) -> DomView {
    if d.nodes.contains_key(n.0) {
        let node = d.nodes[n.0];
        DomView {
            nodes: d.nodes.insert(
                n.0,
                NodeView { styles: node.styles.union_prefer_right(added), ..node },
            ),
            ..d
        }
    } else {
        d
    }
}

/// The tree with the styles that the cascade adds to the nodes of the first `i` requests.
pub open spec fn styled_upto(
    d: DomView,
    rs: Seq<RequestView>,
    answers: Seq<Seq<(u16, Seq<char>)>>,
    i: nat,
) -> DomView
    decreases i,
{
    if i == 0 {
        d
    } else {
        with_styles(
            styled_upto(d, rs, answers, (i - 1) as nat),
            rs[i - 1].node,
            added_at(d.nodes, rs, answers, (i - 1) as nat),
        )
    }
}

/// The tree with the styles that the cascade adds.
pub open spec fn styled_of(
    d: DomView,
    rs: Seq<RequestView>,
    answers: Seq<Seq<(u16, Seq<char>)>>,
) -> DomView {
    styled_upto(d, rs, answers, rs.len())
}

/// What a style map says.
pub open spec fn styles_view(m: Map<u16, String>) -> Map<u16, Seq<char>> {
    m.map_values(string_chars())
}

proof fn lemma_styles_insert(m: Map<u16, String>, k: u16, v: String)
    ensures
        styles_view(m.insert(k, v)) == styles_view(m).insert(k, v@),
{
    assert(styles_view(m.insert(k, v)) =~= styles_view(m).insert(k, v@));
}

/// Collect the values that rules give the properties which are not set inline.
fn collect_rules(inline: &BTreeMap<u16, String>, ds: &Vec<Declaration>) -> (r: BTreeMap<u16, String>)
    ensures
        styles_view(r@) == rule_styles(styles_view(inline@), declarations_view(ds@)),
{
    let ghost all = declarations_view(ds@);
    let mut out: BTreeMap<u16, String> = BTreeMap::new();
    let mut i: usize = 0;
    assert(styles_view(out@) =~= Map::empty());
    assert(all.take(0) =~= seq![]);
    while i < ds.len()
        invariant
            i <= ds@.len(),
            all == declarations_view(ds@),
            styles_view(out@) == rule_styles(styles_view(inline@), all.take(i as int)),
        decreases ds@.len() - i,
    {
        proof {
            assert(all.take(i + 1).drop_last() =~= all.take(i as int));
            assert(all.take(i + 1).last() == all[i as int]);
            lemma_styles_insert(out@, ds@[i as int].prop.0, ds@[i as int].value);
        }
        if !inline.contains_key(&ds[i].prop.0) {
            let value = ds[i].value.clone();
            proof {
                lemma_styles_insert(out@, ds@[i as int].prop.0, value);
            }
            out.insert(ds[i].prop.0, value);
        }
        i += 1;
    }
    assert(all.take(i as int) =~= all);
    out
}

/// Insert the entry of `from` at `k`, if it has one.
fn copy_entry(from: &BTreeMap<u16, String>, k: u16, to: &mut BTreeMap<u16, String>)
    ensures
        styles_view(final(to)@) == (if from@.contains_key(k) {
            styles_view(old(to)@).insert(k, from@[k]@)
        } else {
            styles_view(old(to)@)
        }),
{
    if let Some(v) = from.get(&k) {
        let v = v.clone();
        proof {
            lemma_styles_insert(to@, k, v);
        }
        to.insert(k, v);
    }
}

/// The entries of a style map that flow down to children: the color and the alignment of text.
fn flow_down(styles: &BTreeMap<u16, String>) -> (r: BTreeMap<u16, String>)
    ensures
        styles_view(r@) == flowing(styles_view(styles@)),
{
    let mut out: BTreeMap<u16, String> = BTreeMap::new();
    assert(styles_view(out@) =~= Map::empty());
    copy_entry(styles, FG, &mut out);
    copy_entry(styles, TEXT_ALIGN, &mut out);
    assert(styles_view(out@) =~= flowing(styles_view(styles@)));
    out
}

/// Overlay the entries of `over` onto `to`.
fn overlay(over: &BTreeMap<u16, String>, to: &mut BTreeMap<u16, String>)
    ensures
        styles_view(final(to)@) == styles_view(old(to)@).union_prefer_right(styles_view(over@)),
{
    let ghost start = styles_view(to@);
    let ghost mut seen: Set<u16> = Set::empty();
    assert(styles_view(to@) =~= start.union_prefer_right(styles_view(over@).restrict(seen)));
    for kv in it: over.iter()
        invariant
            forall|k: u16| #[trigger] over@.contains_key(k) ==> it.seq().contains((&k, &over@[k])),
            forall|i: int|
                0 <= i < it.seq().len() ==> over@.contains_key(*(#[trigger] it.seq()[i]).0)
                    && over@[*it.seq()[i].0] == *it.seq()[i].1,
            forall|i: int| 0 <= i < it.index() ==> seen.contains(*(#[trigger] it.seq()[i]).0),
            styles_view(to@) == start.union_prefer_right(styles_view(over@).restrict(seen)),
    {
        let (k, v) = kv;
        let value = v.clone();
        proof {
            assert(it.seq()[it.index()] == kv);
            lemma_styles_insert(to@, *k, value);
        }
        let ghost before = seen;
        to.insert(*k, value);
        proof {
            seen = seen.insert(*k);
            assert(styles_view(to@) =~= start.union_prefer_right(
                styles_view(over@).restrict(seen),
            ));
        }
    }
    assert forall|k: u16| over@.contains_key(k) implies seen.contains(k) by {
        let s = (&k, &over@[k]);
    }
    assert(styles_view(over@).restrict(seen) =~= styles_view(over@));
}

proof fn lemma_with_styles_grow(d: DomView, n: NodeId, added: Map<u16, Seq<char>>, k: u16, v: Seq<char>)
    ensures
        with_style(with_styles(d, n, added), n, PropId(k), v) == with_styles(d, n, added.insert(k, v)),
{
    if d.nodes.contains_key(n.0) {
        let node = d.nodes[n.0];
        assert(node.styles.union_prefer_right(added).insert(k, v) =~= node.styles.union_prefer_right(
            added.insert(k, v),
        ));
        assert(with_style(with_styles(d, n, added), n, PropId(k), v).nodes =~= with_styles(
            d,
            n,
            added.insert(k, v),
        ).nodes);
    }
}

/// Set the styles of a node that are in `all` but not set inline.
fn set_added(out: &mut Dom, n: NodeId, all: &BTreeMap<u16, String>, inline: &BTreeMap<u16, String>)
    requires
        old(out).wf(),
    ensures
        final(out)@ == with_styles(
            old(out)@,
            n,
            styles_view(all@).remove_keys(styles_view(inline@).dom()),
        ),
        final(out).wf(),
{
    let ghost before = out@;
    let ghost added = styles_view(all@).remove_keys(styles_view(inline@).dom());
    let ghost mut seen: Set<u16> = Set::empty();
    proof {
        let none = added.restrict(seen);
        if before.nodes.contains_key(n.0) {
            let node = before.nodes[n.0];
            assert(node.styles.union_prefer_right(none) =~= node.styles);
            assert(with_styles(before, n, none).nodes =~= before.nodes);
        }
    }
    for kv in it: all.iter()
        invariant
            out.wf(),
            added == styles_view(all@).remove_keys(styles_view(inline@).dom()),
            forall|k: u16| #[trigger] all@.contains_key(k) ==> it.seq().contains((&k, &all@[k])),
            forall|i: int|
                0 <= i < it.seq().len() ==> all@.contains_key(*(#[trigger] it.seq()[i]).0)
                    && all@[*it.seq()[i].0] == *it.seq()[i].1,
            forall|i: int| 0 <= i < it.index() ==> seen.contains(*(#[trigger] it.seq()[i]).0),
            out@ == with_styles(before, n, added.restrict(seen)),
    {
        let (k, v) = kv;
        proof {
            assert(it.seq()[it.index()] == kv);
        }
        let ghost was = seen;
        if !inline.contains_key(k) {
            proof {
                lemma_with_styles_grow(before, n, added.restrict(was), *k, v@);
                assert(added.restrict(was).insert(*k, v@) =~= added.restrict(was.insert(*k)));
            }
            out.set_inline_style(n, PropId(*k), v.clone());
        } else {
            assert(added.restrict(was) =~= added.restrict(was.insert(*k)));
        }
        proof {
            seen = seen.insert(*k);
        }
    }
    assert forall|k: u16| all@.contains_key(k) implies seen.contains(k) by {
        let s = (&k, &all@[k]);
    }
    assert(added.restrict(seen) =~= added);
}

/// Fold the matcher's answers into a copy of the tree. The answer at an index belongs to the
/// request at that index; one that is missing is taken to be empty.
pub fn styled(dom: &Dom, requests: &Vec<MatchRequest>, answers: &Vec<Vec<Declaration>>) -> (r: Dom)
    requires
        dom.wf(),
    ensures
        r@ == styled_of(dom@, requests_view(requests@), answers_view(answers@)),
        r.wf(),
{
    let ghost nodes = dom@.nodes;
    let ghost rs = requests_view(requests@);
    let ghost all = answers_view(answers@);
    let no_styles: BTreeMap<u16, String> = BTreeMap::new();
    let no_rules: Vec<Declaration> = Vec::new();
    let mut handed: Vec<BTreeMap<u16, String>> = Vec::new();
    let mut out = dom.clone();
    let mut i: usize = 0;
    while i < requests.len()
        invariant
            dom.wf(),
            out.wf(),
            nodes == dom@.nodes,
            rs == requests_view(requests@),
            all == answers_view(answers@),
            no_styles@ == Map::<u16, String>::empty(),
            no_rules@.len() == 0,
            i <= requests@.len(),
            handed@.len() == i,
            forall|k: int|
                0 <= k < i ==> styles_view((#[trigger] handed@[k])@) == flowing(
                    resolved_at(nodes, rs, all, k as nat),
                ),
            out@ == styled_upto(dom@, rs, all, i as nat),
        decreases requests@.len() - i,
    {
        let request = &requests[i];
        assert(rs[i as int] == request@);
        let inline = match dom.node(request.node) {
            Some(n) => &n.styles,
            None => &no_styles,
        };
        assert(styles_view(inline@) =~= inline_styles(nodes, request.node));
        let answer = if request.matchable && i < answers.len() {
            &answers[i]
        } else {
            &no_rules
        };
        assert(declarations_view(answer@) =~= answer_at(rs, all, i as int));
        let rules = collect_rules(inline, answer);
        let mut resolved: BTreeMap<u16, String> = BTreeMap::new();
        assert(styles_view(resolved@) =~= Map::empty());
        if let Some(p) = request.parent {
            assert(rs[i as int].parent == Some(p as nat));
            if p < i {
                overlay(&handed[p], &mut resolved);
            }
        }
        assert(styles_view(resolved@) =~= inherited_at(nodes, rs, all, i as nat));
        overlay(&rules, &mut resolved);
        let ghost weaker = styles_view(resolved@);
        assert(weaker.remove_keys(styles_view(inline@).dom()) =~= added_at(nodes, rs, all, i as nat));
        set_added(&mut out, request.node, &resolved, inline);
        overlay(inline, &mut resolved);
        assert(styles_view(resolved@) == resolved_at(nodes, rs, all, i as nat));
        handed.push(flow_down(&resolved));
        i += 1;
    }
    out
}

/// What the guest set inline is kept.
pub proof fn law_inline_styles_win(
    nodes: Map<u64, NodeView>,
    rs: Seq<RequestView>,
    answers: Seq<Seq<(u16, Seq<char>)>>,
    i: nat,
    prop: u16,
)
    requires
        i < rs.len(),
        inline_styles(nodes, rs[i as int].node).contains_key(prop),
    ensures
        resolved_at(nodes, rs, answers, i).contains_key(prop),
        resolved_at(nodes, rs, answers, i)[prop] == inline_styles(nodes, rs[i as int].node)[prop],
{
}

/// A property that flows down and that nothing sets on a node has the value of the node above,
/// however far up it was set.
pub proof fn law_unset_properties_inherit(
    nodes: Map<u64, NodeView>,
    rs: Seq<RequestView>,
    answers: Seq<Seq<(u16, Seq<char>)>>,
    i: nat,
    p: nat,
    prop: u16,
)
    requires
        i < rs.len(),
        rs[i as int].parent == Some(p),
        p < i,
        inherits(prop),
        !inline_styles(nodes, rs[i as int].node).contains_key(prop),
        !rule_styles(
            inline_styles(nodes, rs[i as int].node),
            answer_at(rs, answers, i as int),
        ).contains_key(prop),
    ensures
        resolved_at(nodes, rs, answers, i).contains_key(prop) == resolved_at(
            nodes,
            rs,
            answers,
            p,
        ).contains_key(prop),
        resolved_at(nodes, rs, answers, i).contains_key(prop) ==> resolved_at(
            nodes,
            rs,
            answers,
            i,
        )[prop] == resolved_at(nodes, rs, answers, p)[prop],
{
}

/// A property that does not flow down and that nothing sets on a node is not set.
pub proof fn law_other_properties_do_not_leak(
    nodes: Map<u64, NodeView>,
    rs: Seq<RequestView>,
    answers: Seq<Seq<(u16, Seq<char>)>>,
    i: nat,
    prop: u16,
)
    requires
        i < rs.len(),
        !inherits(prop),
        !inline_styles(nodes, rs[i as int].node).contains_key(prop),
        !rule_styles(
            inline_styles(nodes, rs[i as int].node),
            answer_at(rs, answers, i as int),
        ).contains_key(prop),
    ensures
        !resolved_at(nodes, rs, answers, i).contains_key(prop),
{
}

/// The cascade changes nothing of a tree but inline styles: the nodes stay the same, and so does
/// everything else about them.
pub proof fn law_styling_keeps_the_tree(
    d: DomView,
    rs: Seq<RequestView>,
    answers: Seq<Seq<(u16, Seq<char>)>>,
    i: nat,
)
    requires
        i <= rs.len(),
    ensures
        ({
            let out = styled_upto(d, rs, answers, i);
            &&& out.roots == d.roots
            &&& out.strings == d.strings
            &&& out.nodes.dom() == d.nodes.dom()
            &&& forall|k: u64| #[trigger]
                d.nodes.contains_key(k) ==> out.nodes[k] == (NodeView {
                    styles: out.nodes[k].styles,
                    ..d.nodes[k]
                })
        }),
    decreases i,
{
    if i > 0 {
        law_styling_keeps_the_tree(d, rs, answers, (i - 1) as nat);
    }
    assert(styled_upto(d, rs, answers, i).nodes.dom() =~= d.nodes.dom());
}

/// Whether each request stands behind that of the node above.
pub open spec fn parents_first(rs: Seq<RequestView>) -> bool {
    forall|i: int| 0 <= i < rs.len() ==> ((#[trigger] rs[i]).parent matches Some(p) ==> p < i)
}

proof fn lemma_visited_parents_first(
    nodes: Map<u64, NodeView>,
    how: Interaction,
    n: NodeId,
    parent: Option<nat>,
    index: nat,
    count: nat,
    sofar: Seq<RequestView>,
)
    requires
        parents_first(sofar),
        parent matches Some(p) ==> p < sofar.len(),
    ensures
        parents_first(visited(nodes, how, n, parent, index, count, sofar)),
        visited(nodes, how, n, parent, index, count, sofar).len() >= sofar.len(),
    decreases height(nodes, n), kids(nodes, n).len() + 1,
{
    if nodes.contains_key(n.0) {
        lemma_below_parents_first(
            nodes,
            how,
            kids(nodes, n),
            height(nodes, n),
            Some(sofar.len()),
            kids(nodes, n).len(),
            sofar.push(request_of(nodes, how, n, parent, index, count)),
        );
    }
}

proof fn lemma_below_parents_first(
    nodes: Map<u64, NodeView>,
    how: Interaction,
    ids: Seq<NodeId>,
    h: nat,
    parent: Option<nat>,
    count: nat,
    sofar: Seq<RequestView>,
)
    requires
        parents_first(sofar),
        parent matches Some(p) ==> p < sofar.len(),
    ensures
        parents_first(visited_below(nodes, how, ids, h, parent, count, sofar)),
        visited_below(nodes, how, ids, h, parent, count, sofar).len() >= sofar.len(),
    decreases h, ids.len(),
{
    if ids.len() > 0 {
        lemma_below_parents_first(nodes, how, ids.drop_last(), h, parent, count, sofar);
        if height(nodes, ids.last()) < h {
            lemma_visited_parents_first(
                nodes,
                how,
                ids.last(),
                parent,
                (ids.len() - 1) as nat,
                count,
                visited_below(nodes, how, ids.drop_last(), h, parent, count, sofar),
            );
        }
    }
}

proof fn lemma_roots_parents_first(
    nodes: Map<u64, NodeView>,
    how: Interaction,
    roots: Seq<NodeId>,
    n: nat,
)
    ensures
        parents_first(visited_roots(nodes, how, roots, n)),
    decreases n,
{
    if n > 0 {
        lemma_roots_parents_first(nodes, how, roots, (n - 1) as nat);
        lemma_visited_parents_first(
            nodes,
            how,
            roots[n - 1],
            None,
            (n - 1) as nat,
            roots.len(),
            visited_roots(nodes, how, roots, (n - 1) as nat),
        );
    }
}

/// A tree is described from the top down: each node is described after the node above, so that
/// what flows down is known when it is needed.
pub proof fn law_nodes_are_described_from_the_top(d: DomView, how: Interaction)
    ensures
        parents_first(requests_of(d, how)),
{
    lemma_roots_parents_first(d.nodes, how, d.roots, d.roots.len());
}

// ---------------------------------------------------------------------------------------
// What the cascade makes of a whole tree.
// ---------------------------------------------------------------------------------------

/// The nodes of requests.
pub open spec fn asked(rs: Seq<RequestView>) -> Seq<NodeId> {
    Seq::new(rs.len(), |i: int| rs[i].node)
}

/// Whether a request has `n` at the right place: at `index` of `count` among the top-level nodes, or
/// among the children of the node of the earlier request `parent`.
pub open spec fn stands(
    d: DomView,
    rs: Seq<RequestView>,
    n: NodeId,
    parent: Option<nat>,
    index: nat,
    count: nat,
) -> bool {
    match parent {
        None => index < d.roots.len() && d.roots[index as int] == n && count == d.roots.len(),
        Some(p) => {
            &&& p < rs.len()
            &&& index < kids(d.nodes, rs[p as int].node).len()
            &&& kids(d.nodes, rs[p as int].node)[index as int] == n
            &&& count == kids(d.nodes, rs[p as int].node).len()
        },
    }
}

/// Whether the request at `i` tells the truth about its node: what it is, where it stands, and how
/// the user interacts with it.
pub open spec fn truthful(d: DomView, how: Interaction, rs: Seq<RequestView>, i: int) -> bool {
    let r = rs[i];
    &&& d.nodes.contains_key(r.node.0)
    &&& r.parent matches Some(p) ==> p < i
    &&& exists|index: nat, count: nat| #[trigger]
        stands(d, rs, r.node, r.parent, index, count) && r.sibling_index == index % 0x1_0000_0000
            && r.sibling_count == count % 0x1_0000_0000
    &&& r.child_count == d.nodes[r.node.0].children.len() % 0x1_0000_0000
    &&& r.hover <==> how.hover_path.contains(r.node)
    &&& r.focus <==> how.focused == Some(r.node)
    &&& r.active <==> how.active == Some(r.node)
    &&& tells_identity(d.nodes[r.node.0], r)
}

/// Whether a request tells what selectors match a node by: the id is attribute 1, `disabled`
/// attribute 2 and `checked` attribute 3; the type name is the declared one, or that of tag 1 to 4.
pub open spec fn tells_identity(node: NodeView, r: RequestView) -> bool {
    let id = r.identity;
    &&& id.classes == node.classes
    &&& id.id is Some <==> node.attrs.contains_key(1)
    &&& id.id is Some ==> id.id == Some(node.attrs[1])
    &&& node.tag_name is Some ==> id.element_name == node.tag_name
    &&& node.tag_name is None && node.tag is None ==> id.element_name is None
    &&& node.tag_name is None ==> (node.tag matches Some(t) ==> {
        &&& t.0 == 1 ==> id.element_name == Some("div"@)
        &&& t.0 == 2 ==> id.element_name == Some("row"@)
        &&& t.0 == 3 ==> id.element_name == Some("button"@)
        &&& t.0 == 4 ==> id.element_name == Some("input"@)
        &&& t.0 == 0 || t.0 > 4 ==> id.element_name is None
    })
    &&& forall|v: Seq<char>| #[trigger]
        id.attrs.contains(("id"@, v)) <==> node.attrs.contains_key(1) && node.attrs[1] == v
    &&& forall|v: Seq<char>| #[trigger]
        id.attrs.contains(("disabled"@, v)) <==> node.attrs.contains_key(2) && node.attrs[2] == v
    &&& forall|v: Seq<char>| #[trigger]
        id.attrs.contains(("checked"@, v)) <==> node.attrs.contains_key(3) && node.attrs[3] == v
    &&& r.matchable <==> id.element_name is Some || id.id is Some || id.classes.len() > 0
        || id.attrs.len() > 0
}

proof fn lemma_identity_told(node: NodeView, r: RequestView)
    requires
        r.identity == identity_of(node),
        r.matchable == matchable(r.identity),
    ensures
        tells_identity(node, r),
{
    reveal_strlit("id");
    reveal_strlit("disabled");
    reveal_strlit("checked");
    assert("id"@.len() == 2 && "disabled"@.len() == 8 && "checked"@.len() == 7);
    let a = named_attr(node, 1, "id"@);
    let b = named_attr(node, 2, "disabled"@);
    let c = named_attr(node, 3, "checked"@);
    let all = r.identity.attrs;
    assert(all == a + b + c);
    assert forall|x: (Seq<char>, Seq<char>)| #[trigger] all.contains(x) <==> a.contains(x)
        || b.contains(x) || c.contains(x) by {
        if a.contains(x) {
            let i = choose|i: int| 0 <= i < a.len() && a[i] == x;
            assert(all[i] == x);
        }
        if b.contains(x) {
            let i = choose|i: int| 0 <= i < b.len() && b[i] == x;
            assert(all[a.len() + i] == x);
        }
        if c.contains(x) {
            let i = choose|i: int| 0 <= i < c.len() && c[i] == x;
            assert(all[a.len() + b.len() + i] == x);
        }
        if all.contains(x) {
            let i = choose|i: int| 0 <= i < all.len() && all[i] == x;
            if i < a.len() {
                assert(a[i] == x);
            } else if i < a.len() + b.len() {
                assert(b[i - a.len()] == x);
            } else {
                assert(c[i - a.len() - b.len()] == x);
            }
        }
    }
    lemma_named(node, 1, "id"@);
    lemma_named(node, 2, "disabled"@);
    lemma_named(node, 3, "checked"@);
}

proof fn lemma_named(node: NodeView, attr: u16, name: Seq<char>)
    ensures
        forall|other: Seq<char>, v: Seq<char>| #[trigger]
            named_attr(node, attr, name).contains((other, v)) <==> other == name
                && node.attrs.contains_key(attr) && node.attrs[attr] == v,
{
    let one = named_attr(node, attr, name);
    assert forall|other: Seq<char>, v: Seq<char>| #[trigger] one.contains((other, v)) <==> other
        == name && node.attrs.contains_key(attr) && node.attrs[attr] == v by {
        if other == name && node.attrs.contains_key(attr) && node.attrs[attr] == v {
            assert(one[0] == (other, v));
        }
    }
}

/// Whether every request of `rs` tells the truth.
spec fn all_truthful(d: DomView, how: Interaction, rs: Seq<RequestView>) -> bool {
    forall|i: int| 0 <= i < rs.len() ==> #[trigger] truthful(d, how, rs, i)
}

proof fn lemma_truth_stays(d: DomView, how: Interaction, rs: Seq<RequestView>, r: RequestView)
    requires
        all_truthful(d, how, rs),
        r.parent matches Some(p) ==> p < rs.len(),
        truthful(d, how, rs.push(r), rs.len() as int),
    ensures
        all_truthful(d, how, rs.push(r)),
{
    let all = rs.push(r);
    assert forall|i: int| 0 <= i < all.len() implies #[trigger] truthful(d, how, all, i) by {
        if i < rs.len() {
            assert(truthful(d, how, rs, i));
            let (index, count) = choose|index: nat, count: nat| #[trigger]
                stands(d, rs, rs[i].node, rs[i].parent, index, count) && rs[i].sibling_index == index
                    % 0x1_0000_0000 && rs[i].sibling_count == count % 0x1_0000_0000;
            assert(stands(d, all, all[i].node, all[i].parent, index, count));
        }
    }
}

proof fn lemma_visited_truthful(
    d: DomView,
    how: Interaction,
    n: NodeId,
    parent: Option<nat>,
    index: nat,
    count: nat,
    sofar: Seq<RequestView>,
)
    requires
        well_formed(d),
        orderly(d),
        d.nodes.contains_key(n.0),
        all_truthful(d, how, sofar),
        stands(d, sofar, n, parent, index, count),
    ensures
        ({
            let out = visited(d.nodes, how, n, parent, index, count, sofar);
            &&& all_truthful(d, how, out)
            &&& sofar.is_prefix_of(out)
            &&& asked(out) == asked(sofar) + preorder(d.nodes, n)
        }),
    decreases height(d.nodes, n), kids(d.nodes, n).len() + 1,
{
    let r = request_of(d.nodes, how, n, parent, index, count);
    let begun = sofar.push(r);
    let ids = kids(d.nodes, n);
    let h = height(d.nodes, n);
    lemma_identity_told(d.nodes[n.0], r);
    assert(stands(d, begun, n, parent, index, count));
    assert(truthful(d, how, begun, sofar.len() as int));
    lemma_truth_stays(d, how, sofar, r);
    assert forall|i: int| 0 <= i < ids.len() implies d.nodes.contains_key((#[trigger] ids[i]).0)
        && height(d.nodes, ids[i]) < h by {
        lemma_child_is_lower(d.nodes, n, i);
        assert(siblings(d, n).contains(ids[i]));
    }
    assert(ids.take(ids.len() as int) =~= ids);
    lemma_below_truthful(d, how, n, ids.len(), h, sofar.len(), begun);
    law_preorder_unfolds(d.nodes, n);
    assert(asked(begun) =~= asked(sofar).push(n));
    assert(asked(sofar).push(n) + forest(d.nodes, ids) =~= asked(sofar) + (seq![n] + forest(
        d.nodes,
        ids,
    )));
}

proof fn lemma_below_truthful(
    d: DomView,
    how: Interaction,
    n: NodeId,
    k: nat,
    h: nat,
    parent: nat,
    sofar: Seq<RequestView>,
)
    requires
        well_formed(d),
        orderly(d),
        d.nodes.contains_key(n.0),
        k <= kids(d.nodes, n).len(),
        all_truthful(d, how, sofar),
        parent < sofar.len(),
        sofar[parent as int].node == n,
        forall|i: int|
            0 <= i < kids(d.nodes, n).len() ==> d.nodes.contains_key(
                (#[trigger] kids(d.nodes, n)[i]).0,
            ) && height(d.nodes, kids(d.nodes, n)[i]) < h,
    ensures
        ({
            let ids = kids(d.nodes, n);
            let out = visited_below(
                d.nodes,
                how,
                ids.take(k as int),
                h,
                Some(parent),
                ids.len(),
                sofar,
            );
            &&& all_truthful(d, how, out)
            &&& sofar.is_prefix_of(out)
            &&& asked(out) == asked(sofar) + forest(d.nodes, ids.take(k as int))
        }),
    decreases h, k,
{
    let ids = kids(d.nodes, n);
    if k == 0 {
        assert(ids.take(0) =~= seq![]);
        assert(asked(sofar) + forest(d.nodes, ids.take(0)) =~= asked(sofar));
    } else {
        let before = ids.take(k - 1);
        let last = ids[k - 1];
        assert(ids.take(k as int).drop_last() =~= before);
        assert(ids.take(k as int).last() == last);
        lemma_below_truthful(d, how, n, (k - 1) as nat, h, parent, sofar);
        let mid = visited_below(d.nodes, how, before, h, Some(parent), ids.len(), sofar);
        assert(mid[parent as int] == sofar[parent as int]);
        assert(stands(d, mid, last, Some(parent), (k - 1) as nat, ids.len()));
        assert(height(d.nodes, ids[k - 1]) < h);
        lemma_visited_truthful(d, how, last, Some(parent), (k - 1) as nat, ids.len(), mid);
        lemma_forest_push(d.nodes, before, last);
        assert(ids.take(k as int) =~= before.push(last));
        assert(asked(sofar) + forest(d.nodes, before) + preorder(d.nodes, last) =~= asked(sofar) + (
        forest(d.nodes, before) + preorder(d.nodes, last)));
    }
}

proof fn lemma_roots_truthful(d: DomView, how: Interaction, k: nat)
    requires
        well_formed(d),
        orderly(d),
        k <= d.roots.len(),
    ensures
        ({
            let out = visited_roots(d.nodes, how, d.roots, k);
            &&& all_truthful(d, how, out)
            &&& asked(out) == forest(d.nodes, d.roots.take(k as int))
        }),
    decreases k,
{
    if k == 0 {
        assert(d.roots.take(0) =~= seq![]);
        assert(asked(visited_roots(d.nodes, how, d.roots, 0)) =~= seq![]);
    } else {
        let before = d.roots.take(k - 1);
        let last = d.roots[k - 1];
        lemma_roots_truthful(d, how, (k - 1) as nat);
        assert(siblings(d, NodeId(ROOT)).contains(last));
        let mid = visited_roots(d.nodes, how, d.roots, (k - 1) as nat);
        lemma_visited_truthful(d, how, last, None, (k - 1) as nat, d.roots.len(), mid);
        lemma_forest_push(d.nodes, before, last);
        assert(d.roots.take(k as int) =~= before.push(last));
    }
}

/// The matcher is asked about every node of the tree, in document order, each once, and is told the
/// truth about each.
pub proof fn law_the_matcher_is_told_the_truth(d: DomView, how: Interaction, i: int)
    requires
        well_formed(d),
        orderly(d),
        0 <= i < requests_of(d, how).len(),
    ensures
        truthful(d, how, requests_of(d, how), i),
        asked(requests_of(d, how)) == forest(d.nodes, d.roots),
        asked(requests_of(d, how)).no_duplicates(),
{
    lemma_roots_truthful(d, how, d.roots.len());
    assert(d.roots.take(d.roots.len() as int) =~= d.roots);
    law_trees_hold_each_node_once(d);
}

/// A node is hovered when the pointer is over it or over something below it.
pub proof fn law_hover_covers_what_is_above_the_pointer(
    d: DomView,
    hovered: NodeId,
    focused: Option<NodeId>,
    active: Option<NodeId>,
    i: int,
)
    requires
        well_formed(d),
        orderly(d),
        ({
            let how = Interaction {
                hover_path: hover_path_of(d.nodes, Some(hovered)),
                focused,
                active,
            };
            0 <= i < requests_of(d, how).len()
        }),
    ensures
        ({
            let how = Interaction {
                hover_path: hover_path_of(d.nodes, Some(hovered)),
                focused,
                active,
            };
            let r = requests_of(d, how)[i];
            r.hover <==> reaches(d.nodes, r.node, hovered)
        }),
{
    let how = Interaction { hover_path: hover_path_of(d.nodes, Some(hovered)), focused, active };
    law_the_matcher_is_told_the_truth(d, how, i);
    law_below_is_having_above(d, requests_of(d, how)[i].node, hovered);
}

/// Whether `j` is where a property is declared last.
pub open spec fn declared_last(ds: Seq<(u16, Seq<char>)>, prop: u16, j: int) -> bool {
    &&& 0 <= j < ds.len()
    &&& ds[j].0 == prop
    &&& forall|k: int| j < k < ds.len() ==> (#[trigger] ds[k]).0 != prop
}

/// Whether a property is not declared at all.
pub open spec fn undeclared(ds: Seq<(u16, Seq<char>)>, prop: u16) -> bool {
    forall|k: int| 0 <= k < ds.len() ==> (#[trigger] ds[k]).0 != prop
}

proof fn lemma_rule_styles(inline: Map<u16, Seq<char>>, ds: Seq<(u16, Seq<char>)>, prop: u16)
    ensures
        inline.contains_key(prop) || undeclared(ds, prop) ==> !rule_styles(
            inline,
            ds,
        ).contains_key(prop),
        forall|j: int| #[trigger]
            declared_last(ds, prop, j) && !inline.contains_key(prop) ==> rule_styles(
                inline,
                ds,
            ).contains_key(prop) && rule_styles(inline, ds)[prop] == ds[j].1,
    decreases ds.len(),
{
    if ds.len() > 0 {
        let init = ds.drop_last();
        lemma_rule_styles(inline, init, prop);
        if undeclared(ds, prop) {
            assert(ds[ds.len() - 1].0 != prop);
            assert forall|k: int| 0 <= k < init.len() implies (#[trigger] init[k]).0 != prop by {
                assert(init[k] == ds[k]);
            }
            assert(undeclared(init, prop));
        }
        assert forall|j: int| #[trigger]
            declared_last(ds, prop, j) && !inline.contains_key(prop) implies rule_styles(
            inline,
            ds,
        ).contains_key(prop) && rule_styles(inline, ds)[prop] == ds[j].1 by {
            if j < ds.len() - 1 {
                assert(ds[ds.len() - 1].0 != prop);
                assert forall|k: int| j < k < init.len() implies (#[trigger] init[k]).0 != prop by {
                    assert(init[k] == ds[k]);
                }
                assert(declared_last(init, prop, j));
            }
        }
    }
}

proof fn lemma_styled_each(
    d: DomView,
    rs: Seq<RequestView>,
    answers: Seq<Seq<(u16, Seq<char>)>>,
    m: nat,
    i: int,
)
    requires
        m <= rs.len(),
        0 <= i < rs.len(),
        asked(rs).no_duplicates(),
        d.nodes.contains_key(rs[i].node.0),
    ensures
        ({
            let out = styled_upto(d, rs, answers, m);
            &&& out.nodes.contains_key(rs[i].node.0)
            &&& i < m ==> out.nodes[rs[i].node.0].styles == resolved_at(
                d.nodes,
                rs,
                answers,
                i as nat,
            )
            &&& i >= m ==> out.nodes[rs[i].node.0].styles == d.nodes[rs[i].node.0].styles
        }),
    decreases m,
{
    if m > 0 {
        let k = (m - 1) as nat;
        lemma_styled_each(d, rs, answers, k, i);
        let before = styled_upto(d, rs, answers, k);
        let out = styled_upto(d, rs, answers, m);
        let n = rs[i].node;
        if i == k {
            let inline = d.nodes[n.0].styles;
            let all = resolved_at(d.nodes, rs, answers, k);
            let added = added_at(d.nodes, rs, answers, k);
            assert(inline.union_prefer_right(added) =~= all);
        } else {
            assert(asked(rs)[i] != asked(rs)[k as int]);
            assert(rs[k as int].node.0 != n.0);
        }
    }
}

/// What a stylesheet makes of each node of a tree, property by property. What the guest set inline
/// stays. Else the last declaration that the matcher answered for the node decides. Else the color
/// and the alignment of text, and no other property, are those of the node above, in the styled tree
/// itself; at the top they are not set. Any other property is not set, whatever the nodes above set.
pub proof fn law_styles_resolve_as_declared(
    d: DomView,
    how: Interaction,
    answers: Seq<Seq<(u16, Seq<char>)>>,
    i: int,
    prop: u16,
)
    requires
        well_formed(d),
        orderly(d),
        0 <= i < requests_of(d, how).len(),
    ensures
        ({
            let rs = requests_of(d, how);
            let out = styled_of(d, rs, answers);
            let n = rs[i].node;
            let inline = d.nodes[n.0].styles;
            let styles = out.nodes[n.0].styles;
            let ds = if rs[i].matchable && i < answers.len() {
                answers[i]
            } else {
                seq![]
            };
            &&& inline.contains_key(prop) ==> styles.contains_key(prop) && styles[prop]
                == inline[prop]
            &&& !inline.contains_key(prop) ==> forall|j: int| #[trigger]
                declared_last(ds, prop, j) ==> styles.contains_key(prop) && styles[prop] == ds[j].1
            &&& !inline.contains_key(prop) && undeclared(ds, prop) && prop != 2 && prop != 14
                ==> !styles.contains_key(prop)
            &&& !inline.contains_key(prop) && undeclared(ds, prop) && (prop == 2 || prop == 14)
                ==> match rs[i].parent {
                None => !styles.contains_key(prop),
                Some(p) => {
                    let above = out.nodes[rs[p as int].node.0].styles;
                    &&& styles.contains_key(prop) <==> above.contains_key(prop)
                    &&& styles.contains_key(prop) ==> styles[prop] == above[prop]
                },
            }
        }),
{
    let rs = requests_of(d, how);
    law_the_matcher_is_told_the_truth(d, how, i);
    let n = rs[i].node;
    let inline = d.nodes[n.0].styles;
    let ds = if rs[i].matchable && i < answers.len() {
        answers[i]
    } else {
        seq![]
    };
    assert(ds =~= answer_at(rs, answers, i));
    lemma_styled_each(d, rs, answers, rs.len(), i);
    lemma_rule_styles(inline, ds, prop);
    if let Some(p) = rs[i].parent {
        law_the_matcher_is_told_the_truth(d, how, p as int);
        lemma_styled_each(d, rs, answers, rs.len(), p as int);
    }
    let styles = styled_of(d, rs, answers).nodes[n.0].styles;
    assert(styles == resolved_at(d.nodes, rs, answers, i as nat));
}

/// What a node stands below is its parent, then the parent of that, and so on up to a top-level node.
pub proof fn law_chains_climb_to_the_top(d: DomView, how: Interaction, i: int, j: int)
    requires
        well_formed(d),
        orderly(d),
        0 <= i < requests_of(d, how).len(),
    ensures
        ({
            let rs = requests_of(d, how);
            let chain = chain_of(rs, i as nat);
            &&& chain.len() == 0 <==> rs[i].parent is None
            &&& chain.len() > 0 ==> rs[i].parent == Some(chain[0])
            &&& 0 <= j < chain.len() ==> {
                &&& chain[j] < i
                &&& rs[chain[j] as int].parent == if j + 1 < chain.len() {
                    Some(chain[j + 1])
                } else {
                    None
                }
            }
        }),
    decreases i,
{
    let rs = requests_of(d, how);
    law_the_matcher_is_told_the_truth(d, how, i);
    if let Some(p) = rs[i].parent {
        let chain = chain_of(rs, i as nat);
        let rest = chain_of(rs, p);
        assert(chain == seq![p] + rest);
        law_chains_climb_to_the_top(d, how, p as int, j - 1);
        if 0 < j < chain.len() {
            assert(chain[j] == rest[j - 1]);
            if j + 1 < chain.len() {
                assert(chain[j + 1] == rest[j]);
            }
        }
        if j == 0 && rest.len() > 0 {
            assert(chain[1] == rest[0]);
        }
    }
}

} // verus!
