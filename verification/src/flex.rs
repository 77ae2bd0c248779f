//! Layout by a flexbox engine: what the engine is asked, and what is made of its answer.
//!
//! [`plan`] turns each top-level node into a tree of styled boxes for the engine. The engine
//! answers with the same tree, each box placed relative to its parent ([`PlacedBox`]).
//! [`assemble`] turns that into absolute boxes in tree order and into a scene, handing
//! inherited properties down on the way.
use crate::dom::Dom;
use crate::geometry::{
    items_view, Color, DisplayList, LayoutResult, Point, Rect, Size,
};
use crate::handles::{NodeId, PropId};
use crate::paint::{dim_or_zero, style_dim_or_zero};
use crate::props::{
    default_fg, default_ink, has_style, px_of, rgba_of, style_color_alpha, style_is, style_of, FG,
    HEIGHT, RADIUS, TEXT_ALIGN, WIDTH,
};
use crate::scalar::{Scalar, Whole};
use crate::scene::{
    border_items, build_display_list, clips_overflow, fill_items, hides_overflow,
    law_three_keywords_hide_overflow, lemma_paints_push, paints_view, scene_of, Clip, PaintNode,
    PaintView,
};
use crate::style::{
    display_of, element_style, element_style_of, opacity_of, resolve_root_dimension,
    root_dimension_value, style_display, style_opacity, style_translate, style_visible, style_z_index,
    text_size, text_size_of, translate_of, visible, z_index_of, Axes, Dimension, Display, ElementStyle,
};
use crate::tree::{kids, NodeView};
use vstd::prelude::*;

verus! {

/// How deep below a top-level node layout descends. A node at this depth is laid out without
/// its children, which bounds the recursion of everything that walks the result.
pub const MAX_TREE_DEPTH: usize = 256;

/// The style of one box.
#[derive(Clone, Copy, PartialEq, Eq, Debug)]
pub enum BoxStyle<S> {
    /// A text leaf of a fixed size.
    Text(Size<S>),
    /// An element.
    Element(ElementStyle<S>),
}

/// A box for the engine to lay out.
#[derive(PartialEq, Eq, Debug)]
pub struct PlanNode<S> {
    /// The node that the box is for.
    pub id: NodeId,
    /// Its style.
    pub style: BoxStyle<S>,
    /// The boxes of its children.
    pub children: Vec<PlanNode<S>>,
}

/// What a [`PlanNode`] says.
pub ghost struct PlanView<S> {
    pub id: NodeId,
    pub style: BoxStyle<S>,
    pub children: Seq<PlanView<S>>,
}

/// What a planned box says.
pub open spec fn plan_view<S>(p: PlanNode<S>) -> PlanView<S>
    decreases p,
{
    PlanView {
        id: p.id,
        style: p.style,
        children: Seq::new(
            p.children@.len(),
            |i: int|
                if 0 <= i < p.children@.len() {
                    plan_view(p.children@[i])
                } else {
                    arbitrary()
                },
        ),
    }
}

impl<S> View for PlanNode<S> {
    type V = PlanView<S>;

    open spec fn view(&self) -> PlanView<S> {
        plan_view(*self)
    }
}

/// What the planned boxes of a sequence say.
pub open spec fn plans_view<S>(s: Seq<PlanNode<S>>) -> Seq<PlanView<S>> {
    Seq::new(s.len(), |i: int| s[i]@)
}

/// A laid-out box, placed relative to its parent.
#[derive(PartialEq, Eq, Debug)]
pub struct PlacedBox<S> {
    /// The node that the box is for.
    pub id: NodeId,
    /// Where it begins within its parent.
    pub location: Point<S>,
    /// How large it is.
    pub size: Size<S>,
    /// The boxes of its children.
    pub children: Vec<PlacedBox<S>>,
}

/// What a [`PlacedBox`] says.
pub ghost struct PlacedView<S> {
    pub id: NodeId,
    pub location: Point<S>,
    pub size: Size<S>,
    pub children: Seq<PlacedView<S>>,
}

/// What a placed box says.
pub open spec fn placed_view<S>(p: PlacedBox<S>) -> PlacedView<S>
    decreases p,
{
    PlacedView {
        id: p.id,
        location: p.location,
        size: p.size,
        children: Seq::new(
            p.children@.len(),
            |i: int|
                if 0 <= i < p.children@.len() {
                    placed_view(p.children@[i])
                } else {
                    arbitrary()
                },
        ),
    }
}

impl<S> View for PlacedBox<S> {
    type V = PlacedView<S>;

    open spec fn view(&self) -> PlacedView<S> {
        placed_view(*self)
    }
}

/// What the placed boxes of a sequence say.
pub open spec fn boxes_view<S>(s: Seq<PlacedBox<S>>) -> Seq<PlacedView<S>> {
    Seq::new(s.len(), |i: int| s[i]@)
}

/// The style of the box of a node.
pub open spec fn box_style_of<S: Scalar>(nodes: Map<u64, NodeView>, n: NodeId) -> BoxStyle<S> {
    if nodes.contains_key(n.0) && nodes[n.0].text is Some {
        BoxStyle::Text(text_size_of(nodes, n, nodes[n.0].text->0))
    } else {
        BoxStyle::Element(element_style_of(nodes, n))
    }
}

/// The box of a node at a depth below its top-level node, with those of its descendants.
pub open spec fn planned<S: Scalar>(nodes: Map<u64, NodeView>, n: NodeId, depth: nat) -> PlanView<S>
    decreases MAX_TREE_DEPTH - depth,
{
    let style = box_style_of::<S>(nodes, n);
    PlanView {
        id: n,
        style,
        children: if style is Text || depth >= MAX_TREE_DEPTH {
            seq![]
        } else {
            Seq::new(kids(nodes, n).len(), |i: int| planned(nodes, kids(nodes, n)[i], depth + 1))
        },
    }
}

/// A top-level box whose set sizes are made definite against the viewport.
pub open spec fn pinned<S: Scalar>(
    nodes: Map<u64, NodeView>,
    p: PlanView<S>,
    viewport: Size<S>,
) -> PlanView<S> {
    let w = root_dimension_value(style_of(nodes, p.id, WIDTH), viewport.w);
    let h = root_dimension_value(style_of(nodes, p.id, HEIGHT), viewport.h);
    PlanView {
        style: match p.style {
            BoxStyle::Text(size) => BoxStyle::Text(
                Size {
                    w: match w {
                        Some(w) => w,
                        None => size.w,
                    },
                    h: match h {
                        Some(h) => h,
                        None => size.h,
                    },
                },
            ),
            BoxStyle::Element(style) => BoxStyle::Element(
                ElementStyle {
                    size: Axes {
                        width: match w {
                            Some(w) => Dimension::Length(w),
                            None => style.size.width,
                        },
                        height: match h {
                            Some(h) => Dimension::Length(h),
                            None => style.size.height,
                        },
                    },
                    ..style
                },
            ),
        },
        ..p
    }
}

/// What the engine is asked to lay out: a tree of boxes for each top-level node.
pub open spec fn plan_of<S: Scalar>(
    nodes: Map<u64, NodeView>,
    roots: Seq<NodeId>,
    viewport: Size<S>,
) -> Seq<PlanView<S>> {
    Seq::new(roots.len(), |i: int| pinned(nodes, planned(nodes, roots[i], 0), viewport))
}

/// Plan the box of a node and those of its descendants.
pub fn build_node<S: Scalar>(dom: &Dom, id: NodeId, depth: usize) -> (r: PlanNode<S>)
    requires
        depth <= MAX_TREE_DEPTH,
    ensures
        r@ == planned::<S>(dom@.nodes, id, depth as nat),
    decreases MAX_TREE_DEPTH - depth,
{
    let ghost nodes = dom@.nodes;
    let mut children: Vec<PlanNode<S>> = Vec::new();
    if let Some(text) = dom.text_of(id) {
        let r = PlanNode { id, style: BoxStyle::Text(text_size(dom, id, text)), children };
        assert(r@.children =~= seq![]);
        return r;
    }
    if let Some(node) = dom.node(id) {
        if depth < MAX_TREE_DEPTH {
            let ghost ids = kids(nodes, id);
            let mut i: usize = 0;
            while i < node.children.len()
                invariant
                    depth < MAX_TREE_DEPTH,
                    nodes == dom@.nodes,
                    ids == node.children@,
                    i <= ids.len(),
                    children@.len() == i,
                    forall|k: int|
                        0 <= k < i ==> (#[trigger] children@[k])@ == planned::<S>(
                            nodes,
                            ids[k],
                            depth as nat + 1,
                        ),
                decreases ids.len() - i,
            {
                children.push(build_node(dom, node.children[i], depth + 1));
                i += 1;
            }
        }
    }
    let r = PlanNode { id, style: BoxStyle::Element(element_style(dom, id)), children };
    assert(r@.children =~= planned::<S>(nodes, id, depth as nat).children);
    r
}

/// Plan what the engine is asked to lay out within `viewport`.
pub fn plan<S: Scalar>(dom: &Dom, viewport: Size<S>) -> (r: Vec<PlanNode<S>>)
    ensures
        plans_view(r@) == plan_of(dom@.nodes, dom@.roots, viewport),
{
    let roots = dom.children(NodeId::root());
    let mut out: Vec<PlanNode<S>> = Vec::new();
    let mut i: usize = 0;
    while i < roots.len()
        invariant
            roots@ == dom@.roots,
            i <= roots@.len(),
            out@.len() == i,
            forall|k: int|
                0 <= k < i ==> (#[trigger] out@[k])@ == pinned(
                    dom@.nodes,
                    planned(dom@.nodes, roots@[k], 0),
                    viewport,
                ),
        decreases roots@.len() - i,
    {
        let built = build_node::<S>(dom, roots[i], 0);
        let w = resolve_root_dimension(dom, roots[i], WIDTH, viewport.w);
        let h = resolve_root_dimension(dom, roots[i], HEIGHT, viewport.h);
        let style = match built.style {
            BoxStyle::Text(size) => BoxStyle::Text(
                Size {
                    w: match w {
                        Some(w) => w,
                        None => size.w,
                    },
                    h: match h {
                        Some(h) => h,
                        None => size.h,
                    },
                },
            ),
            BoxStyle::Element(style) => {
                let mut style = style;
                if let Some(w) = w {
                    style.size.width = Dimension::Length(w);
                }
                if let Some(h) = h {
                    style.size.height = Dimension::Length(h);
                }
                BoxStyle::Element(style)
            },
        };
        let ghost before = built@;
        let root = PlanNode { id: built.id, style, children: built.children };
        assert(root@.children =~= before.children);
        out.push(root);
        i += 1;
    }
    assert(plans_view(out@) =~= plan_of(dom@.nodes, dom@.roots, viewport));
    out
}

/// What a node hands down to its children.
#[derive(Clone, Copy, PartialEq, Eq, Debug)]
pub struct Inherited<S> {
    /// Paint offset, that of the ancestors included.
    pub translate: Point<S>,
    /// Opacity, that of the ancestors included.
    pub opacity: S,
    /// Color of text.
    pub fg: Color,
    /// Where text stands within its box, as a fraction.
    pub align: S,
}

/// What a top-level node inherits.
pub open spec fn initial<S: Scalar>() -> Inherited<S> {
    Inherited {
        translate: Point { x: S::s_whole(0), y: S::s_whole(0) },
        opacity: S::s_whole(1),
        fg: default_ink(),
        align: S::s_whole(0),
    }
}

/// Where the text of a node stands within its box, if the node says so.
pub open spec fn own_align<S: Scalar>(nodes: Map<u64, NodeView>, n: NodeId) -> Option<S> {
    match style_of(nodes, n, TEXT_ALIGN) {
        Some(s) => Some(
            if s == "center"@ {
                S::s_ratio(1, 2)
            } else if s == "right"@ {
                S::s_whole(1)
            } else {
                S::s_whole(0)
            },
        ),
        None => None,
    }
}

fn style_text_align_own<S: Scalar>(dom: &Dom, node: NodeId) -> (r: Option<S>)
    ensures
        r == own_align::<S>(dom@.nodes, node),
{
    match dom.style(node, PropId(TEXT_ALIGN)) {
        Some(_) => if has_style(dom, node, TEXT_ALIGN, "center") {
            Some(S::ratio(1, 2))
        } else if has_style(dom, node, TEXT_ALIGN, "right") {
            Some(S::whole(1))
        } else {
            Some(S::whole(0))
        },
        None => None,
    }
}

/// What a node hands down, given what it inherits: offsets add up and opacities multiply;
/// the color and the alignment of text are its own where it sets them.
pub open spec fn handed_down<S: Scalar>(
    nodes: Map<u64, NodeView>,
    n: NodeId,
    inherited: Inherited<S>,
) -> Inherited<S> {
    let own = translate_of::<S>(nodes, n);
    Inherited {
        translate: Point {
            x: inherited.translate.x.s_plus(own.x),
            y: inherited.translate.y.s_plus(own.y),
        },
        opacity: inherited.opacity.s_times(opacity_of(nodes, n)),
        fg: match rgba_of(nodes, n, FG) {
            Some(c) => c,
            None => inherited.fg,
        },
        align: match own_align::<S>(nodes, n) {
            Some(a) => a,
            None => inherited.align,
        },
    }
}

fn hand_down<S: Scalar>(dom: &Dom, node: NodeId, inherited: Inherited<S>) -> (r: Inherited<S>)
    ensures
        r == handed_down(dom@.nodes, node, inherited),
{
    let own = style_translate::<S>(dom, node);
    Inherited {
        translate: Point {
            x: inherited.translate.x.plus(own.x),
            y: inherited.translate.y.plus(own.y),
        },
        opacity: inherited.opacity.times(style_opacity(dom, node)),
        fg: match style_color_alpha(dom, node, FG) {
            Some(c) => c,
            None => inherited.fg,
        },
        align: match style_text_align_own(dom, node) {
            Some(a) => a,
            None => inherited.align,
        },
    }
}

/// Where a box begins, its parent beginning at `parent`.
pub open spec fn absolute<S: Scalar>(parent: Point<S>, location: Point<S>) -> Point<S> {
    Point { x: parent.x.s_plus(location.x), y: parent.y.s_plus(location.y) }
}

/// The masks for the children of a node.
pub open spec fn masks_below<S: Scalar>(
    nodes: Map<u64, NodeView>,
    n: NodeId,
    rect: Rect<S>,
    clips: Seq<Clip<S>>,
) -> Seq<Clip<S>> {
    if hides_overflow(nodes, n) {
        clips.push(Clip { rect, radius: dim_or_zero(nodes, n, RADIUS) })
    } else {
        clips
    }
}

/// A box and those below it, as laid-out nodes in tree order. What is taken out of layout is
/// left out, with everything below it.
pub open spec fn collected<S: Scalar>(
    nodes: Map<u64, NodeView>,
    b: PlacedView<S>,
    parent: Point<S>,
    inherited: Inherited<S>,
    clips: Seq<Clip<S>>,
) -> Seq<PaintView<S>>
    decreases b,
{
    if display_of(nodes, b.id) == Display::Gone {
        seq![]
    } else {
        let origin = absolute(parent, b.location);
        let down = handed_down(nodes, b.id, inherited);
        let rect = Rect { origin: absolute(origin, down.translate), size: b.size };
        seq![
            PaintView {
                id: b.id,
                rect,
                opacity: down.opacity,
                fg: down.fg,
                align: down.align,
                visible: visible(nodes, b.id),
                z_index: z_index_of::<S>(nodes, b.id),
                clips,
            },
        ] + collected_all(nodes, b.children, origin, down, masks_below(nodes, b.id, rect, clips))
    }
}

/// Sibling boxes and those below them, as laid-out nodes in tree order.
pub open spec fn collected_all<S: Scalar>(
    nodes: Map<u64, NodeView>,
    bs: Seq<PlacedView<S>>,
    parent: Point<S>,
    inherited: Inherited<S>,
    clips: Seq<Clip<S>>,
) -> Seq<PaintView<S>>
    decreases bs,
{
    if bs.len() == 0 {
        seq![]
    } else {
        collected_all(nodes, bs.drop_last(), parent, inherited, clips) + collected(
            nodes,
            bs.last(),
            parent,
            inherited,
            clips,
        )
    }
}

fn collect<S: Scalar>(
    dom: &Dom,
    b: &PlacedBox<S>,
    parent: Point<S>,
    inherited: Inherited<S>,
    clips: &Vec<Clip<S>>,
    out: &mut Vec<PaintNode<S>>,
)
    ensures
        paints_view(final(out)@) == paints_view(old(out)@) + collected(
            dom@.nodes,
            b@,
            parent,
            inherited,
            clips@,
        ),
    decreases *b,
{
    if let Display::Gone = style_display(dom, b.id) {
        assert(paints_view(out@) =~= paints_view(old(out)@) + Seq::<PaintView<S>>::empty());
        return;
    }
    let origin = Point { x: parent.x.plus(b.location.x), y: parent.y.plus(b.location.y) };
    let down = hand_down(dom, b.id, inherited);
    let rect = Rect {
        origin: Point { x: origin.x.plus(down.translate.x), y: origin.y.plus(down.translate.y) },
        size: b.size,
    };
    let mut own_clips: Vec<Clip<S>> = Vec::new();
    copy_clips(clips, &mut own_clips);
    assert(own_clips@ =~= clips@);
    let mut below: Vec<Clip<S>> = Vec::new();
    copy_clips(clips, &mut below);
    assert(below@ =~= clips@);
    if clips_overflow(dom, b.id) {
        below.push(Clip { rect, radius: style_dim_or_zero(dom, b.id, RADIUS) });
    }
    let entry = PaintNode {
        id: b.id,
        rect,
        opacity: down.opacity,
        fg: down.fg,
        align: down.align,
        visible: style_visible(dom, b.id),
        z_index: style_z_index::<S>(dom, b.id),
        clips: own_clips,
    };
    proof {
        lemma_paints_push(out@, entry);
        assert(b@.children =~= boxes_view(b.children@));
    }
    let ghost before = paints_view(out@);
    out.push(entry);
    collect_all(dom, &b.children, origin, down, &below, out);
    assert(paints_view(out@) =~= before + collected(dom@.nodes, b@, parent, inherited, clips@));
}

fn collect_all<S: Scalar>(
    dom: &Dom,
    bs: &Vec<PlacedBox<S>>,
    parent: Point<S>,
    inherited: Inherited<S>,
    clips: &Vec<Clip<S>>,
    out: &mut Vec<PaintNode<S>>,
)
    ensures
        paints_view(final(out)@) == paints_view(old(out)@) + collected_all(
            dom@.nodes,
            boxes_view(bs@),
            parent,
            inherited,
            clips@,
        ),
    decreases *bs,
{
    let ghost all = boxes_view(bs@);
    let ghost start = paints_view(out@);
    let mut i: usize = 0;
    assert(all.take(0) =~= seq![]);
    assert(start + collected_all(dom@.nodes, all.take(0), parent, inherited, clips@) =~= start);
    while i < bs.len()
        invariant
            i <= bs@.len(),
            all == boxes_view(bs@),
            paints_view(out@) == start + collected_all(
                dom@.nodes,
                all.take(i as int),
                parent,
                inherited,
                clips@,
            ),
        decreases bs@.len() - i,
    {
        proof {
            assert(all.take(i + 1).drop_last() =~= all.take(i as int));
            assert(all.take(i + 1).last() == bs@[i as int]@);
        }
        let ghost before = paints_view(out@);
        collect(dom, &bs[i], parent, inherited, clips, out);
        i += 1;
        assert(paints_view(out@) =~= start + collected_all(
            dom@.nodes,
            all.take(i as int),
            parent,
            inherited,
            clips@,
        ));
    }
    assert(all.take(i as int) =~= all);
}

fn copy_clips<S: Scalar>(from: &Vec<Clip<S>>, to: &mut Vec<Clip<S>>)
    ensures
        final(to)@ == old(to)@ + from@,
{
    let mut i: usize = 0;
    while i < from.len()
        invariant
            i <= from@.len(),
            to@ == old(to)@ + from@.take(i as int),
        decreases from@.len() - i,
    {
        to.push(from[i]);
        i += 1;
        assert(to@ =~= old(to)@ + from@.take(i as int));
    }
    assert(from@.take(i as int) =~= from@);
}

/// Top-level boxes stacked down the viewport, as laid-out nodes in tree order, and how far down
/// they reach.
pub open spec fn stacked_boxes<S: Scalar>(nodes: Map<u64, NodeView>, bs: Seq<PlacedView<S>>) -> (
    Seq<PaintView<S>>,
    S,
)
    decreases bs.len(),
{
    if bs.len() == 0 {
        (seq![], S::s_whole(0))
    } else {
        let (done, y) = stacked_boxes(nodes, bs.drop_last());
        (
            done + collected(
                nodes,
                bs.last(),
                Point { x: S::s_whole(0), y },
                initial(),
                seq![],
            ),
            y.s_plus(bs.last().size.h),
        )
    }
}

/// The nodes and boxes of laid-out nodes.
pub open spec fn rects_of<S>(ps: Seq<PaintView<S>>) -> Seq<(NodeId, Rect<S>)> {
    Seq::new(ps.len(), |i: int| (ps[i].id, ps[i].rect))
}

/// Turn placed boxes, one for each top-level node, into a scene and the absolute box of every
/// node in tree order.
pub fn assemble<S: Scalar>(dom: &Dom, boxes: &Vec<PlacedBox<S>>) -> (r: (
    DisplayList<S>,
    LayoutResult<S>,
))
    ensures
        ({
            let ps = stacked_boxes(dom@.nodes, boxes_view(boxes@)).0;
            &&& items_view(r.0.items@) == scene_of(dom@.nodes, ps)
            &&& r.1.rects@ == rects_of(ps)
        }),
{
    let ghost all = boxes_view(boxes@);
    let mut paints: Vec<PaintNode<S>> = Vec::new();
    let mut y = S::whole(0);
    let no_clips: Vec<Clip<S>> = Vec::new();
    let start = Inherited {
        translate: Point { x: S::whole(0), y: S::whole(0) },
        opacity: S::whole(1),
        fg: default_fg(),
        align: S::whole(0),
    };
    let mut i: usize = 0;
    assert(paints_view(paints@) =~= seq![]);
    assert(no_clips@ =~= seq![]);
    while i < boxes.len()
        invariant
            i <= boxes@.len(),
            all == boxes_view(boxes@),
            no_clips@ == Seq::<Clip<S>>::empty(),
            start == initial::<S>(),
            (paints_view(paints@), y) == stacked_boxes(dom@.nodes, all.take(i as int)),
        decreases boxes@.len() - i,
    {
        proof {
            assert(all.take(i + 1).drop_last() =~= all.take(i as int));
            assert(all.take(i + 1).last() == boxes@[i as int]@);
        }
        collect(dom, &boxes[i], Point { x: S::whole(0), y }, start, &no_clips, &mut paints);
        y = y.plus(boxes[i].size.h);
        i += 1;
    }
    assert(all.take(i as int) =~= all);
    let ghost ps = paints_view(paints@);
    let mut rects: Vec<(NodeId, Rect<S>)> = Vec::new();
    let mut i: usize = 0;
    while i < paints.len()
        invariant
            i <= paints@.len(),
            ps == paints_view(paints@),
            rects@ == rects_of(ps).take(i as int),
        decreases paints@.len() - i,
    {
        rects.push((paints[i].id, paints[i].rect));
        i += 1;
        assert(rects@ =~= rects_of(ps).take(i as int));
    }
    assert(rects@ =~= rects_of(ps));
    (DisplayList { items: build_display_list(dom, &paints) }, LayoutResult { rects })
}

/// A node taken out of layout contributes nothing, and neither does anything below it.
pub proof fn law_gone_subtrees_are_skipped<S: Scalar>(
    nodes: Map<u64, NodeView>,
    b: PlacedView<S>,
    parent: Point<S>,
    inherited: Inherited<S>,
    clips: Seq<Clip<S>>,
)
    requires
        display_of(nodes, b.id) == Display::Gone,
    ensures
        collected(nodes, b, parent, inherited, clips) == Seq::<PaintView<S>>::empty(),
{
}

/// Whether a planned tree has at most `levels` levels.
pub open spec fn at_most_deep<S>(p: PlanView<S>, levels: nat) -> bool
    decreases levels,
{
    &&& levels > 0
    &&& forall|i: int|
        0 <= i < p.children.len() ==> at_most_deep(#[trigger] p.children[i], (levels - 1) as nat)
}

/// However deep the tree of nodes is, what the engine is asked to lay out is at most
/// [`MAX_TREE_DEPTH`] levels deep below the top-level node.
pub proof fn law_plans_are_depth_capped<S: Scalar>(nodes: Map<u64, NodeView>, n: NodeId, depth: nat)
    requires
        depth <= MAX_TREE_DEPTH,
    ensures
        at_most_deep(planned::<S>(nodes, n, depth), (MAX_TREE_DEPTH - depth + 1) as nat),
    decreases MAX_TREE_DEPTH - depth,
{
    let p = planned::<S>(nodes, n, depth);
    assert forall|i: int| 0 <= i < p.children.len() implies at_most_deep(
        #[trigger] p.children[i],
        (MAX_TREE_DEPTH - depth) as nat,
    ) by {
        law_plans_are_depth_capped::<S>(nodes, kids(nodes, n)[i], depth + 1);
    }
}

/// A node that sets neither the color nor the alignment of text hands down what it inherits;
/// one that sets them hands down its own.
pub proof fn law_text_styles_inherit<S: Scalar>(
    nodes: Map<u64, NodeView>,
    n: NodeId,
    inherited: Inherited<S>,
)
    ensures
        ({
            let down = handed_down(nodes, n, inherited);
            &&& rgba_of(nodes, n, FG) is None ==> down.fg == inherited.fg
            &&& rgba_of(nodes, n, FG) is Some ==> Some(down.fg) == rgba_of(nodes, n, FG)
            &&& style_of(nodes, n, TEXT_ALIGN) is None ==> down.align == inherited.align
            &&& style_is(nodes, n, TEXT_ALIGN, "right"@) ==> down.align == S::s_whole(1)
        }),
{
    reveal_strlit("right");
    reveal_strlit("center");
    assert("right"@.len() != "center"@.len());
}

/// A node's background and border are painted exactly over the box that it is hit in.
pub proof fn law_boxes_are_painted_where_they_are_hit<S: Scalar>(
    nodes: Map<u64, NodeView>,
    ps: Seq<PaintView<S>>,
    i: int,
)
    requires
        0 <= i < ps.len(),
    ensures
        rects_of(ps)[i].0 == ps[i].id,
        forall|k: int|
            0 <= k < fill_items(nodes, ps[i].id, ps[i].rect, ps[i].opacity).len() ==> (
            #[trigger] fill_items(nodes, ps[i].id, ps[i].rect, ps[i].opacity)[k])->Rect_rect
                == rects_of(ps)[i].1,
        forall|k: int|
            0 <= k < border_items(nodes, ps[i].id, ps[i].rect, ps[i].opacity).len() ==> (
            #[trigger] border_items(nodes, ps[i].id, ps[i].rect, ps[i].opacity)[k])->Border_rect
                == rects_of(ps)[i].1,
{
}

// ---------------------------------------------------------------------------------------
// How a plan mirrors the tree, and how placed boxes relate to each other.
// ---------------------------------------------------------------------------------------

/// A plan mirrors the tree: a box for each node, with those of its children in order, down to 256
/// levels below a top-level node. Text is a leaf.
pub proof fn law_plans_mirror_the_tree<S: Scalar>(
    nodes: Map<u64, NodeView>,
    n: NodeId,
    depth: nat,
    i: int,
)
    requires
        depth <= 256,
    ensures
        ({
            let p = planned::<S>(nodes, n, depth);
            let is_text = nodes.contains_key(n.0) && nodes[n.0].text is Some;
            &&& p.id == n
            &&& p.style is Text <==> is_text
            &&& p.style matches BoxStyle::Element(style) ==> style == element_style_of::<S>(nodes, n)
            &&& p.style matches BoxStyle::Text(size) ==> size == text_size_of::<S>(
                nodes,
                n,
                nodes[n.0].text->0,
            )
            &&& is_text || depth == 256 ==> p.children.len() == 0
            &&& !is_text && depth < 256 ==> {
                &&& p.children.len() == kids(nodes, n).len()
                &&& 0 <= i < p.children.len() ==> p.children[i].id == kids(nodes, n)[i]
                    && p.children[i] == planned::<S>(nodes, kids(nodes, n)[i], depth + 1)
            }
        }),
{
}

/// Each top-level node has a plan of its own, which differs from that of a nested node only in its
/// size: where that is set, it is a length, percentages being those of the viewport.
pub proof fn law_top_level_sizes_are_definite<S: Scalar>(
    nodes: Map<u64, NodeView>,
    roots: Seq<NodeId>,
    viewport: Size<S>,
    i: int,
)
    requires
        0 <= i < roots.len(),
    ensures
        ({
            let all = plan_of(nodes, roots, viewport);
            let p = all[i];
            let nested = planned::<S>(nodes, roots[i], 0);
            let w = root_dimension_value(style_of(nodes, roots[i], 3), viewport.w);
            let h = root_dimension_value(style_of(nodes, roots[i], 4), viewport.h);
            &&& all.len() == roots.len()
            &&& p.id == roots[i]
            &&& p.children == nested.children
            &&& p.style is Text <==> nested.style is Text
            &&& w is None && h is None ==> p.style == nested.style
            &&& p.style matches BoxStyle::Element(s) ==> {
                let t = nested.style->Element_0;
                &&& s == (ElementStyle { size: s.size, ..t })
                &&& w matches Some(v) ==> s.size.width == Dimension::Length(v)
                &&& h matches Some(v) ==> s.size.height == Dimension::Length(v)
                &&& w is None ==> s.size.width == t.size.width
                &&& h is None ==> s.size.height == t.size.height
            }
            &&& p.style matches BoxStyle::Text(s) ==> {
                let t = nested.style->Text_0;
                &&& w matches Some(v) ==> s.w == v
                &&& h matches Some(v) ==> s.h == v
                &&& w is None ==> s.w == t.w
                &&& h is None ==> s.h == t.h
            }
        }),
{
}

/// Whether indices lead down through placed boxes, none of which is taken out of layout.
pub open spec fn leads<S>(nodes: Map<u64, NodeView>, bs: Seq<PlacedView<S>>, path: Seq<int>) -> bool
    decreases path.len(),
{
    &&& path.len() > 0
    &&& 0 <= path[0] < bs.len()
    &&& style_of(nodes, bs[path[0]].id, 31) != Some("none"@)
    &&& path.len() > 1 ==> leads(nodes, bs[path[0]].children, path.drop_first())
}

/// The box that indices lead to.
pub open spec fn reached<S>(bs: Seq<PlacedView<S>>, path: Seq<int>) -> PlacedView<S>
    decreases path.len(),
{
    if path.len() <= 1 {
        bs[path[0]]
    } else {
        reached(bs[path[0]].children, path.drop_first())
    }
}

/// Whether an entry is that of a placed box, with what its node says for itself.
pub open spec fn shows<S: Scalar>(nodes: Map<u64, NodeView>, b: PlacedView<S>, p: PaintView<S>) -> bool {
    &&& p.id == b.id
    &&& p.rect.size == b.size
    &&& p.visible <==> style_of(nodes, b.id, 32) != Some("hidden"@)
    &&& p.z_index == z_index_of::<S>(nodes, b.id)
    &&& rgba_of(nodes, b.id, 2) matches Some(c) ==> p.fg == c
    &&& style_of(nodes, b.id, 14) matches Some(s) ==> p.align == if s == "center"@ {
        S::s_ratio(1, 2)
    } else if s == "right"@ {
        S::s_whole(1)
    } else {
        S::s_whole(0)
    }
}

/// Whether the entry of a box relates as it should to that of the box around it, whose content begins
/// at `at` and is moved by `moved`: it stands where the engine put it, moved along with it and by its
/// own offset; opacities multiply; the color and the alignment of text flow down; and it is masked as
/// the box around it is, and by that too where it hides its overflow.
pub open spec fn nests<S: Scalar>(
    nodes: Map<u64, NodeView>,
    outer: PlacedView<S>,
    a: PaintView<S>,
    inner: PlacedView<S>,
    b: PaintView<S>,
    at: Point<S>,
    moved: Point<S>,
) -> bool {
    let own = translate_of::<S>(nodes, inner.id);
    let hides = style_of(nodes, outer.id, 47) == Some("hidden"@) || style_of(nodes, outer.id, 47)
        == Some("clip"@) || style_of(nodes, outer.id, 47) == Some("scroll"@);
    let radius = match px_of(nodes, outer.id, 8) {
        Some(v) => S::s_whole(v as u64),
        None => S::s_whole(0),
    };
    &&& a.rect.origin.x == at.x.s_plus(moved.x)
    &&& a.rect.origin.y == at.y.s_plus(moved.y)
    &&& b.rect.origin.x == at.x.s_plus(inner.location.x).s_plus(moved.x.s_plus(own.x))
    &&& b.rect.origin.y == at.y.s_plus(inner.location.y).s_plus(moved.y.s_plus(own.y))
    &&& b.opacity == a.opacity.s_times(opacity_of(nodes, inner.id))
    &&& rgba_of(nodes, inner.id, 2) is None ==> b.fg == a.fg
    &&& style_of(nodes, inner.id, 14) is None ==> b.align == a.align
    &&& !hides ==> b.clips == a.clips
    &&& hides ==> b.clips == a.clips.push(Clip { rect: a.rect, radius })
}

proof fn lemma_collected_part<S: Scalar>(
    nodes: Map<u64, NodeView>,
    bs: Seq<PlacedView<S>>,
    i: int,
    parent: Point<S>,
    inherited: Inherited<S>,
    clips: Seq<Clip<S>>,
)
    requires
        0 <= i < bs.len(),
    ensures
        forall|e: PaintView<S>|
            collected(nodes, bs[i], parent, inherited, clips).contains(e)
                ==> #[trigger] collected_all(nodes, bs, parent, inherited, clips).contains(e),
    decreases bs.len(),
{
    let all = collected_all(nodes, bs, parent, inherited, clips);
    let before = collected_all(nodes, bs.drop_last(), parent, inherited, clips);
    let last = collected(nodes, bs.last(), parent, inherited, clips);
    let part = collected(nodes, bs[i], parent, inherited, clips);
    if i < bs.len() - 1 {
        assert(bs.drop_last()[i] == bs[i]);
        lemma_collected_part(nodes, bs.drop_last(), i, parent, inherited, clips);
    }
    assert forall|e: PaintView<S>| part.contains(e) implies #[trigger] all.contains(e) by {
        if i < bs.len() - 1 {
            assert(before.contains(e));
            let k = choose|k: int| 0 <= k < before.len() && before[k] == e;
            assert(all[k] == e);
        } else {
            let k = choose|k: int| 0 <= k < last.len() && last[k] == e;
            assert(all[before.len() + k] == e);
        }
    }
}

proof fn lemma_stacked_part<S: Scalar>(
    nodes: Map<u64, NodeView>,
    bs: Seq<PlacedView<S>>,
    i: int,
) -> (y: S)
    requires
        0 <= i < bs.len(),
    ensures
        y == stacked_boxes(nodes, bs.take(i)).1,
        forall|e: PaintView<S>|
            collected(
                nodes,
                bs[i],
                Point { x: S::s_whole(0), y },
                initial(),
                seq![],
            ).contains(e) ==> #[trigger] stacked_boxes(nodes, bs).0.contains(e),
    decreases bs.len(),
{
    let init = bs.drop_last();
    let (done, down) = stacked_boxes(nodes, init);
    let all = stacked_boxes(nodes, bs).0;
    let last = collected(
        nodes,
        bs.last(),
        Point { x: S::s_whole(0), y: down },
        initial(),
        seq![],
    );
    if i < bs.len() - 1 {
        let y = lemma_stacked_part(nodes, init, i);
        assert(init.take(i) =~= bs.take(i));
        assert(init[i] == bs[i]);
        let part = collected(nodes, bs[i], Point { x: S::s_whole(0), y }, initial(), seq![]);
        assert forall|e: PaintView<S>| part.contains(e) implies #[trigger] all.contains(e) by {
            assert(done.contains(e));
            let k = choose|k: int| 0 <= k < done.len() && done[k] == e;
            assert(all[k] == e);
        }
        y
    } else {
        assert(bs.take(i) =~= init);
        assert forall|e: PaintView<S>| last.contains(e) implies #[trigger] all.contains(e) by {
            let k = choose|k: int| 0 <= k < last.len() && last[k] == e;
            assert(all[done.len() + k] == e);
        }
        down
    }
}

proof fn lemma_first_collected<S: Scalar>(
    nodes: Map<u64, NodeView>,
    b: PlacedView<S>,
    parent: Point<S>,
    inherited: Inherited<S>,
    clips: Seq<Clip<S>>,
) -> (p: PaintView<S>)
    requires
        style_of(nodes, b.id, 31) != Some("none"@),
    ensures
        collected(nodes, b, parent, inherited, clips).contains(p),
        p == collected(nodes, b, parent, inherited, clips)[0],
        shows(nodes, b, p),
        p.clips == clips,
        p.opacity == handed_down(nodes, b.id, inherited).opacity,
        p.fg == handed_down(nodes, b.id, inherited).fg,
        p.align == handed_down(nodes, b.id, inherited).align,
        p.rect.origin == absolute(
            absolute(parent, b.location),
            handed_down(nodes, b.id, inherited).translate,
        ),
{
    reveal_strlit("right");
    reveal_strlit("center");
    let all = collected(nodes, b, parent, inherited, clips);
    assert(all[0].id == b.id);
    assert(all.contains(all[0]));
    all[0]
}

proof fn lemma_nested_pair<S: Scalar>(
    nodes: Map<u64, NodeView>,
    bs: Seq<PlacedView<S>>,
    path: Seq<int>,
    parent: Point<S>,
    inherited: Inherited<S>,
    clips: Seq<Clip<S>>,
) -> (r: (PaintView<S>, PaintView<S>, Point<S>, Point<S>))
    requires
        path.len() >= 2,
        leads(nodes, bs, path),
    ensures
        ({
            let all = collected_all(nodes, bs, parent, inherited, clips);
            let outer = reached(bs, path.drop_last());
            let inner = reached(bs, path);
            &&& all.contains(r.0)
            &&& all.contains(r.1)
            &&& shows(nodes, outer, r.0)
            &&& shows(nodes, inner, r.1)
            &&& nests(nodes, outer, r.0, inner, r.1, r.2, r.3)
        }),
    decreases path.len(),
{
    let b = bs[path[0]];
    let at = absolute(parent, b.location);
    let down = handed_down(nodes, b.id, inherited);
    let rect = Rect { origin: absolute(at, down.translate), size: b.size };
    let below = masks_below(nodes, b.id, rect, clips);
    let rest = path.drop_first();
    let inside = collected_all(nodes, b.children, at, down, below);
    let mine = collected(nodes, b, parent, inherited, clips);
    assert(leads(nodes, b.children, rest));
    assert forall|e: PaintView<S>| inside.contains(e) implies #[trigger] mine.contains(e) by {
        let k = choose|k: int| 0 <= k < inside.len() && inside[k] == e;
        assert(mine[k + 1] == e);
    }
    lemma_collected_part(nodes, bs, path[0], parent, inherited, clips);
    assert(path.drop_last()[0] == path[0]);
    if path.len() == 2 {
        let c = b.children[rest[0]];
        let p = lemma_first_collected(nodes, b, parent, inherited, clips);
        let q = lemma_first_collected(nodes, c, at, down, below);
        lemma_collected_part(nodes, b.children, rest[0], at, down, below);
        assert(inside.contains(q));
        assert(mine.contains(q));
        law_three_keywords_hide_overflow(nodes, b.id);
        assert(reached(b.children, rest) == c);
        assert(reached(bs, path) == c);
        assert(reached(bs, path.drop_last()) == b);
        assert(p.rect == rect);
        (p, q, at, down.translate)
    } else {
        let r = lemma_nested_pair(nodes, b.children, rest, at, down, below);
        assert(rest.drop_last() =~= path.drop_last().drop_first());
        assert(reached(bs, path.drop_last()) == reached(b.children, rest.drop_last()));
        assert(mine.contains(r.0));
        assert(mine.contains(r.1));
        r
    }
}

/// Of two placed boxes, one directly within the other and neither taken out of layout, both are among
/// the laid-out nodes, and the inner one relates to the outer one as it should ([`nests`]). The two
/// entries are returned, with where the content of the outer box begins and by how much it is moved.
pub proof fn law_boxes_nest<S: Scalar>(
    nodes: Map<u64, NodeView>,
    bs: Seq<PlacedView<S>>,
    path: Seq<int>,
) -> (r: (PaintView<S>, PaintView<S>, Point<S>, Point<S>))
    requires
        path.len() >= 2,
        leads(nodes, bs, path),
    ensures
        ({
            let all = stacked_boxes(nodes, bs).0;
            let outer = reached(bs, path.drop_last());
            let inner = reached(bs, path);
            &&& all.contains(r.0)
            &&& all.contains(r.1)
            &&& shows(nodes, outer, r.0)
            &&& shows(nodes, inner, r.1)
            &&& nests(nodes, outer, r.0, inner, r.1, r.2, r.3)
        }),
{
    let y = lemma_stacked_part(nodes, bs, path[0]);
    let b = bs[path[0]];
    let one = seq![b];
    let same = seq![0int] + path.drop_first();
    assert(one[0] == b);
    assert(same.drop_first() =~= path.drop_first());
    assert(leads(nodes, b.children, path.drop_first()));
    assert(leads(nodes, one, same));
    let parent = Point { x: S::s_whole(0), y };
    let r = lemma_nested_pair(nodes, one, same, parent, initial(), seq![]);
    assert(same.drop_last()[0] == 0);
    assert(path.drop_last()[0] == path[0]);
    assert(same.drop_last().drop_first() =~= path.drop_last().drop_first());
    assert(reached(one, same) == reached(bs, path));
    assert(reached(one, same.drop_last()) == reached(bs, path.drop_last()));
    assert(one.drop_last() =~= seq![]);
    assert(one.last() == b);
    assert(collected_all(nodes, one.drop_last(), parent, initial(), seq![]) =~= seq![]);
    assert(collected_all(nodes, one, parent, initial(), seq![]) =~= collected(
        nodes,
        b,
        parent,
        initial(),
        seq![],
    ));
    r
}

/// In whole pixels, the box of a node stands where the engine put it within the box around it, moved
/// by its own offset; wherever the outer box is moved, it is moved along.
pub proof fn law_whole_boxes_move_along(
    nodes: Map<u64, NodeView>,
    bs: Seq<PlacedView<Whole>>,
    path: Seq<int>,
) -> (r: (PaintView<Whole>, PaintView<Whole>))
    requires
        path.len() >= 2,
        leads(nodes, bs, path),
    ensures
        ({
            let all = stacked_boxes(nodes, bs).0;
            let outer = reached(bs, path.drop_last());
            let inner = reached(bs, path);
            let own = translate_of::<Whole>(nodes, inner.id);
            &&& all.contains(r.0)
            &&& all.contains(r.1)
            &&& r.0.id == outer.id
            &&& r.1.id == inner.id
            &&& r.1.rect.origin.x == r.0.rect.origin.x.s_plus(inner.location.x).s_plus(own.x)
            &&& r.1.rect.origin.y == r.0.rect.origin.y.s_plus(inner.location.y).s_plus(own.y)
        }),
{
    let (p, q, at, moved) = law_boxes_nest(nodes, bs, path);
    let inner = reached(bs, path);
    let own = translate_of::<Whole>(nodes, inner.id);
    lemma_sums_commute(at.x, moved.x, inner.location.x, own.x);
    lemma_sums_commute(at.y, moved.y, inner.location.y, own.y);
    (p, q)
}

proof fn lemma_sums_commute(a: Whole, m: Whole, l: Whole, o: Whole)
    ensures
        a.s_plus(l).s_plus(m.s_plus(o)) == a.s_plus(m).s_plus(l).s_plus(o),
{
}

/// How high boxes are on top of each other.
pub open spec fn piled<S: Scalar>(bs: Seq<PlacedView<S>>) -> S
    decreases bs.len(),
{
    if bs.len() == 0 {
        S::s_whole(0)
    } else {
        piled(bs.drop_last()).s_plus(bs.last().size.h)
    }
}

proof fn lemma_piled<S: Scalar>(nodes: Map<u64, NodeView>, bs: Seq<PlacedView<S>>)
    ensures
        stacked_boxes(nodes, bs).1 == piled(bs),
    decreases bs.len(),
{
    if bs.len() > 0 {
        lemma_piled(nodes, bs.drop_last());
    }
}

/// A top-level box that is not taken out of layout stands below all before it, moved by its own
/// offset alone, with its own opacity, in light gray and at the left unless it says otherwise, and
/// without a mask. Its entry is returned.
pub proof fn law_top_level_boxes_pile_up<S: Scalar>(
    nodes: Map<u64, NodeView>,
    bs: Seq<PlacedView<S>>,
    i: int,
) -> (p: PaintView<S>)
    requires
        0 <= i < bs.len(),
        style_of(nodes, bs[i].id, 31) != Some("none"@),
    ensures
        ({
            let b = bs[i];
            let own = translate_of::<S>(nodes, b.id);
            let zero = S::s_whole(0);
            &&& stacked_boxes(nodes, bs).0.contains(p)
            &&& shows(nodes, b, p)
            &&& p.rect.origin.x == zero.s_plus(b.location.x).s_plus(zero.s_plus(own.x))
            &&& p.rect.origin.y == piled(bs.take(i)).s_plus(b.location.y).s_plus(zero.s_plus(own.y))
            &&& p.opacity == S::s_whole(1).s_times(opacity_of(nodes, b.id))
            &&& rgba_of(nodes, b.id, 2) is None ==> p.fg == (Color {
                r: 230,
                g: 230,
                b: 230,
                a: 255,
            })
            &&& style_of(nodes, b.id, 14) is None ==> p.align == zero
            &&& p.clips.len() == 0
        }),
{
    let y = lemma_stacked_part(nodes, bs, i);
    lemma_piled(nodes, bs.take(i));
    lemma_first_collected(nodes, bs[i], Point { x: S::s_whole(0), y }, initial(), seq![])
}

/// The nodes of placed boxes that are not taken out of layout, parents before children and siblings
/// in order.
pub open spec fn in_layout<S>(nodes: Map<u64, NodeView>, bs: Seq<PlacedView<S>>) -> Seq<NodeId>
    decreases bs,
{
    if bs.len() == 0 {
        seq![]
    } else {
        in_layout(nodes, bs.drop_last()) + in_layout_below(nodes, bs.last())
    }
}

/// The node of a placed box and those below it, unless it is taken out of layout.
pub open spec fn in_layout_below<S>(nodes: Map<u64, NodeView>, b: PlacedView<S>) -> Seq<NodeId>
    decreases b,
{
    if style_of(nodes, b.id, 31) == Some("none"@) {
        seq![]
    } else {
        seq![b.id] + in_layout(nodes, b.children)
    }
}

spec fn ids_of<S>(ps: Seq<PaintView<S>>) -> Seq<NodeId> {
    Seq::new(ps.len(), |i: int| ps[i].id)
}

proof fn lemma_ids_collected<S: Scalar>(
    nodes: Map<u64, NodeView>,
    b: PlacedView<S>,
    parent: Point<S>,
    inherited: Inherited<S>,
    clips: Seq<Clip<S>>,
)
    ensures
        ids_of(collected(nodes, b, parent, inherited, clips)) == in_layout_below(nodes, b),
    decreases b,
{
    let all = collected(nodes, b, parent, inherited, clips);
    if style_of(nodes, b.id, 31) == Some("none"@) {
        assert(ids_of(all) =~= seq![]);
    } else {
        let at = absolute(parent, b.location);
        let down = handed_down(nodes, b.id, inherited);
        let rect = Rect { origin: absolute(at, down.translate), size: b.size };
        let below = masks_below(nodes, b.id, rect, clips);
        lemma_ids_collected_all(nodes, b.children, at, down, below);
        assert(ids_of(all) =~= seq![b.id] + ids_of(
            collected_all(nodes, b.children, at, down, below),
        ));
    }
}

proof fn lemma_ids_collected_all<S: Scalar>(
    nodes: Map<u64, NodeView>,
    bs: Seq<PlacedView<S>>,
    parent: Point<S>,
    inherited: Inherited<S>,
    clips: Seq<Clip<S>>,
)
    ensures
        ids_of(collected_all(nodes, bs, parent, inherited, clips)) == in_layout(nodes, bs),
    decreases bs,
{
    let all = collected_all(nodes, bs, parent, inherited, clips);
    if bs.len() == 0 {
        assert(ids_of(all) =~= seq![]);
    } else {
        lemma_ids_collected_all(nodes, bs.drop_last(), parent, inherited, clips);
        lemma_ids_collected(nodes, bs.last(), parent, inherited, clips);
        assert(ids_of(all) =~= ids_of(
            collected_all(nodes, bs.drop_last(), parent, inherited, clips),
        ) + ids_of(collected(nodes, bs.last(), parent, inherited, clips)));
    }
}

/// The boxes that [`assemble`] returns are those of the nodes that are not taken out of layout, one
/// for each, in the order of the tree.
pub proof fn law_assembled_boxes_follow_the_tree<S: Scalar>(
    nodes: Map<u64, NodeView>,
    bs: Seq<PlacedView<S>>,
)
    ensures
        ({
            let rects = rects_of(stacked_boxes(nodes, bs).0);
            &&& rects.len() == in_layout(nodes, bs).len()
            &&& forall|i: int|
                0 <= i < rects.len() ==> (#[trigger] rects[i]).0 == in_layout(nodes, bs)[i]
        }),
    decreases bs.len(),
{
    lemma_ids_stacked(nodes, bs);
    let ps = stacked_boxes(nodes, bs).0;
    assert forall|i: int| 0 <= i < rects_of(ps).len() implies (#[trigger] rects_of(ps)[i]).0
        == in_layout(nodes, bs)[i] by {
        assert(ids_of(ps)[i] == ps[i].id);
    }
}

proof fn lemma_ids_stacked<S: Scalar>(nodes: Map<u64, NodeView>, bs: Seq<PlacedView<S>>)
    ensures
        ids_of(stacked_boxes(nodes, bs).0) == in_layout(nodes, bs),
    decreases bs.len(),
{
    let (all, _) = stacked_boxes(nodes, bs);
    if bs.len() == 0 {
        assert(ids_of(all) =~= seq![]);
    } else {
        let (done, y) = stacked_boxes(nodes, bs.drop_last());
        let parent = Point { x: S::s_whole(0), y };
        lemma_ids_stacked(nodes, bs.drop_last());
        lemma_ids_collected(nodes, bs.last(), parent, initial(), seq![]);
        assert(ids_of(all) =~= ids_of(done) + ids_of(
            collected(nodes, bs.last(), parent, initial(), seq![]),
        ));
    }
}

} // verus!
