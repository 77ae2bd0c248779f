//! The small built-in layout: children flow along one axis, text is a run of baked 8-pixel
//! cells.
//!
//! An element lays its children out in a row or a column, separated by the gap and inset by the
//! padding, and is as large as they need unless its own size is set. [`layout`] yields both the
//! scene, back to front, and the box of every node.
use crate::dom::Dom;
use crate::geometry::{
    items_view, lemma_items_push, Color, DisplayItem, DisplayList, ItemView, LayoutResult, Point, Rect,
    Size,
};
use crate::handles::{NodeId, PropId, ROOT};
use crate::props::{
    default_fg, default_ink, has_style, px_of, rgb_of, style_color, style_is, style_of, style_px, BG,
    DIRECTION, FG, GAP, HEIGHT, PADDING, RADIUS, TEXT_ALIGN, WIDTH,
};
use crate::scalar::{Scalar, Whole};
use crate::snapshot::texts_are_leaves;
use crate::text::str_eq;
use crate::tree::{
    forest, height, kids, law_preorder_unfolds, law_trees_hold_each_node_once, lemma_child_is_lower,
    lemma_forest_push, orderly, preorder, siblings, well_formed, DomView, NodeView,
};
use vstd::prelude::*;
use vstd::string::StrSliceExecFns;

verus! {

/// Main axis of an element.
#[derive(Clone, Copy, PartialEq, Eq, Debug, Structural)]
pub enum Direction {
    /// Children flow from top to bottom.
    Column,
    /// Children flow from left to right.
    Row,
}

/// The direction that a keyword names.
pub open spec fn direction_value(s: Seq<char>) -> Option<Direction> {
    if s == "row"@ {
        Some(Direction::Row)
    } else if s == "column"@ {
        Some(Direction::Column)
    } else {
        None
    }
}

/// The direction that a keyword names.
pub fn parse_direction(s: &str) -> (r: Option<Direction>)
    ensures
        r == direction_value(s@),
{
    if str_eq(s, "row") {
        Some(Direction::Row)
    } else if str_eq(s, "column") {
        Some(Direction::Column)
    } else {
        None
    }
}

/// The direction of an element: a column unless it says otherwise.
pub open spec fn direction_of(nodes: Map<u64, NodeView>, n: NodeId) -> Direction {
    match style_of(nodes, n, DIRECTION) {
        Some(s) => match direction_value(s) {
            Some(d) => d,
            None => Direction::Column,
        },
        None => Direction::Column,
    }
}

/// The direction of an element.
pub fn style_direction(dom: &Dom, node: NodeId) -> (r: Direction)
    ensures
        r == direction_of(dom@.nodes, node),
{
    match dom.style(node, PropId(DIRECTION)) {
        Some(s) => match parse_direction(s) {
            Some(d) => d,
            None => Direction::Column,
        },
        None => Direction::Column,
    }
}

/// The number of pixels that a property is set to.
pub open spec fn dim_of<S: Scalar>(nodes: Map<u64, NodeView>, n: NodeId, prop: u16) -> Option<S> {
    match px_of(nodes, n, prop) {
        Some(v) => Some(S::s_whole(v as u64)),
        None => None,
    }
}

/// The number of pixels that a property is set to, or zero.
pub open spec fn dim_or_zero<S: Scalar>(nodes: Map<u64, NodeView>, n: NodeId, prop: u16) -> S {
    match dim_of::<S>(nodes, n, prop) {
        Some(v) => v,
        None => S::s_whole(0),
    }
}

fn style_dim<S: Scalar>(dom: &Dom, node: NodeId, prop: u16) -> (r: Option<S>)
    ensures
        r == dim_of::<S>(dom@.nodes, node, prop),
{
    match style_px(dom, node, prop) {
        Some(v) => Some(S::whole(v as u64)),
        None => None,
    }
}

/// The number of pixels that a property is set to, or zero.
pub fn style_dim_or_zero<S: Scalar>(dom: &Dom, node: NodeId, prop: u16) -> (r: S)
    ensures
        r == dim_or_zero::<S>(dom@.nodes, node, prop),
{
    match style_dim::<S>(dom, node, prop) {
        Some(v) => v,
        None => S::whole(0),
    }
}

/// Where text stands within its box, as a fraction: 0 at the left, 1/2 in the middle, 1 at the
/// right.
pub open spec fn align_of<S: Scalar>(nodes: Map<u64, NodeView>, n: NodeId) -> S {
    if style_is(nodes, n, TEXT_ALIGN, "center"@) {
        S::s_ratio(1, 2)
    } else if style_is(nodes, n, TEXT_ALIGN, "right"@) {
        S::s_whole(1)
    } else {
        S::s_whole(0)
    }
}

fn style_text_align<S: Scalar>(dom: &Dom, node: NodeId) -> (r: S)
    ensures
        r == align_of::<S>(dom@.nodes, node),
{
    if has_style(dom, node, TEXT_ALIGN, "center") {
        S::ratio(1, 2)
    } else if has_style(dom, node, TEXT_ALIGN, "right") {
        S::whole(1)
    } else {
        S::whole(0)
    }
}

/// How many times larger than its 8-pixel cell the text of a node is drawn: the requested
/// height in cells, at least one.
pub open spec fn text_scale(nodes: Map<u64, NodeView>, n: NodeId) -> u32 {
    let requested = match px_of(nodes, n, HEIGHT) {
        Some(h) => h,
        None => 16,
    };
    if requested / 8 > 1 {
        requested / 8
    } else {
        1
    }
}

/// What laying a node out yields.
pub ghost struct Laid<S> {
    /// The size that the node takes up.
    pub size: Size<S>,
    /// The primitives of the node and its descendants, back to front.
    pub items: Seq<ItemView<S>>,
    /// The boxes of the node and its descendants, in tree order.
    pub rects: Seq<(NodeId, Rect<S>)>,
}

/// What laying out the first children of an element yields.
pub ghost struct Flowed<S> {
    /// How far the children reach along the main axis.
    pub main: S,
    /// How far the largest reaches across it.
    pub cross: S,
    /// Their primitives.
    pub items: Seq<ItemView<S>>,
    /// Their boxes.
    pub rects: Seq<(NodeId, Rect<S>)>,
}

/// What a node that is not there takes up.
pub open spec fn laid_nothing<S: Scalar>() -> Laid<S> {
    Laid { size: Size { w: S::s_whole(0), h: S::s_whole(0) }, items: seq![], rects: seq![] }
}

/// The background of a node over `rect`, if it has a background color.
pub open spec fn background<S: Scalar>(nodes: Map<u64, NodeView>, n: NodeId, rect: Rect<S>) -> Seq<
    ItemView<S>,
> {
    match rgb_of(nodes, n, BG) {
        Some(color) => seq![
            ItemView::Rect { rect, color, radius: dim_or_zero(nodes, n, RADIUS) },
        ],
        None => seq![],
    }
}

/// A text node: a run of cells, in a box as wide as the run unless its width is set.
pub open spec fn laid_text<S: Scalar>(
    nodes: Map<u64, NodeView>,
    n: NodeId,
    text: Seq<char>,
    origin: Point<S>,
) -> Laid<S> {
    let cell = S::s_whole(8).s_times(S::s_whole(text_scale(nodes, n) as u64));
    let w = match dim_of::<S>(nodes, n, WIDTH) {
        Some(w) => w,
        None => S::s_whole(text.len() as u64).s_times(cell),
    };
    let rect = Rect { origin, size: Size { w, h: cell } };
    let color = match rgb_of(nodes, n, FG) {
        Some(c) => c,
        None => default_ink(),
    };
    Laid {
        size: rect.size,
        items: background(nodes, n, rect).push(
            ItemView::Text {
                origin,
                text,
                color,
                size: cell,
                box_w: w,
                align: align_of::<S>(nodes, n),
            },
        ),
        rects: seq![(n, rect)],
    }
}

/// Twice the padding of an element.
pub open spec fn both_paddings<S: Scalar>(nodes: Map<u64, NodeView>, n: NodeId) -> S {
    S::s_whole(2).s_times(dim_or_zero::<S>(nodes, n, PADDING))
}

/// Where the content of an element begins.
pub open spec fn content_origin<S: Scalar>(
    nodes: Map<u64, NodeView>,
    n: NodeId,
    origin: Point<S>,
) -> Point<S> {
    let pad = dim_or_zero::<S>(nodes, n, PADDING);
    Point { x: origin.x.s_plus(pad), y: origin.y.s_plus(pad) }
}

/// The room that an element leaves to its children.
pub open spec fn content_room<S: Scalar>(
    nodes: Map<u64, NodeView>,
    n: NodeId,
    avail: Size<S>,
) -> Size<S> {
    let pads = both_paddings::<S>(nodes, n);
    Size {
        w: avail.w.s_minus(pads).s_larger(S::s_whole(0)),
        h: avail.h.s_minus(pads).s_larger(S::s_whole(0)),
    }
}

/// The size of an element whose children flowed so far: what is set wins, then what they need;
/// a top-level element without a width is at least as wide as the viewport.
pub open spec fn element_size<S: Scalar>(
    nodes: Map<u64, NodeView>,
    n: NodeId,
    main: S,
    cross: S,
    avail: Size<S>,
    stretch: bool,
) -> Size<S> {
    let pads = both_paddings::<S>(nodes, n);
    let along = main.s_plus(pads);
    let across = cross.s_plus(pads);
    let (content_w, content_h) = match direction_of(nodes, n) {
        Direction::Column => (across, along),
        Direction::Row => (along, across),
    };
    Size {
        w: match dim_of::<S>(nodes, n, WIDTH) {
            Some(w) => w,
            None => if stretch {
                content_w.s_larger(avail.w)
            } else {
                content_w
            },
        },
        h: match dim_of::<S>(nodes, n, HEIGHT) {
            Some(h) => h,
            None => content_h,
        },
    }
}

/// Lay a node out at `origin` within `avail`.
pub open spec fn laid<S: Scalar>(
    nodes: Map<u64, NodeView>,
    n: NodeId,
    origin: Point<S>,
    avail: Size<S>,
    stretch: bool,
) -> Laid<S>
    decreases height(nodes, n), kids(nodes, n).len() + 1,
{
    if !nodes.contains_key(n.0) {
        laid_nothing()
    } else if let Some(text) = nodes[n.0].text {
        laid_text(nodes, n, text, origin)
    } else {
        let inner = flowed(
            nodes,
            kids(nodes, n),
            height(nodes, n),
            direction_of(nodes, n),
            dim_or_zero::<S>(nodes, n, GAP),
            content_origin(nodes, n, origin),
            content_room(nodes, n, avail),
        );
        let rect = Rect {
            origin,
            size: element_size(nodes, n, inner.main, inner.cross, avail, stretch),
        };
        Laid {
            size: rect.size,
            items: background(nodes, n, rect) + inner.items,
            rects: seq![(n, rect)] + inner.rects,
        }
    }
}

/// Lay children out one after the other along `dir`, from `origin` on, with `gap` between them.
/// Only nodes lower than `h` are visited; in an acyclic tree all children are.
pub open spec fn flowed<S: Scalar>(
    nodes: Map<u64, NodeView>,
    ids: Seq<NodeId>,
    h: nat,
    dir: Direction,
    gap: S,
    origin: Point<S>,
    avail: Size<S>,
) -> Flowed<S>
    decreases h, ids.len(),
{
    if ids.len() == 0 {
        Flowed { main: S::s_whole(0), cross: S::s_whole(0), items: seq![], rects: seq![] }
    } else {
        let before = flowed(nodes, ids.drop_last(), h, dir, gap, origin, avail);
        let start = if ids.len() > 1 {
            before.main.s_plus(gap)
        } else {
            before.main
        };
        let child = if height(nodes, ids.last()) < h {
            laid(nodes, ids.last(), child_origin(dir, origin, start), avail, false)
        } else {
            laid_nothing()
        };
        let (along, across) = match dir {
            Direction::Column => (child.size.h, child.size.w),
            Direction::Row => (child.size.w, child.size.h),
        };
        Flowed {
            main: start.s_plus(along),
            cross: if before.cross.s_less(across) {
                across
            } else {
                before.cross
            },
            items: before.items + child.items,
            rects: before.rects + child.rects,
        }
    }
}

/// Where a child begins that starts `start` along the main axis.
pub open spec fn child_origin<S: Scalar>(dir: Direction, origin: Point<S>, start: S) -> Point<S> {
    match dir {
        Direction::Column => Point { x: origin.x, y: origin.y.s_plus(start) },
        Direction::Row => Point { x: origin.x.s_plus(start), y: origin.y },
    }
}

/// Stack top-level nodes down the viewport, each within the whole of it.
pub open spec fn stacked<S: Scalar>(
    nodes: Map<u64, NodeView>,
    ids: Seq<NodeId>,
    viewport: Size<S>,
) -> Flowed<S>
    decreases ids.len(),
{
    if ids.len() == 0 {
        Flowed { main: S::s_whole(0), cross: S::s_whole(0), items: seq![], rects: seq![] }
    } else {
        let before = stacked(nodes, ids.drop_last(), viewport);
        let child = laid(
            nodes,
            ids.last(),
            Point { x: S::s_whole(0), y: before.main },
            viewport,
            true,
        );
        Flowed {
            main: before.main.s_plus(child.size.h),
            cross: before.cross,
            items: before.items + child.items,
            rects: before.rects + child.rects,
        }
    }
}

/// The scene and the boxes of a whole tree within `viewport`.
pub fn layout<S: Scalar>(dom: &Dom, viewport: Size<S>) -> (r: (DisplayList<S>, LayoutResult<S>))
    requires
        dom.wf(),
    ensures
        items_view(r.0.items@) == stacked(dom@.nodes, dom@.roots, viewport).items,
        r.1.rects@ == stacked(dom@.nodes, dom@.roots, viewport).rects,
{
    let mut items: Vec<DisplayItem<S>> = Vec::new();
    let mut rects: Vec<(NodeId, Rect<S>)> = Vec::new();
    let mut y = S::whole(0);
    let roots = dom.children(NodeId::root());
    let mut i: usize = 0;
    assert(items_view(items@) =~= seq![]);
    while i < roots.len()
        invariant
            dom.wf(),
            roots@ == dom@.roots,
            i <= roots@.len(),
            ({
                let done = stacked(dom@.nodes, roots@.take(i as int), viewport);
                &&& items_view(items@) == done.items
                &&& rects@ == done.rects
                &&& y == done.main
            }),
        decreases roots@.len() - i,
    {
        proof {
            assert(roots@.take(i + 1).drop_last() =~= roots@.take(i as int));
            assert(roots@.take(i + 1).last() == roots@[i as int]);
        }
        let size = layout_node(
            dom,
            roots[i],
            Point { x: S::whole(0), y },
            viewport,
            true,
            &mut items,
            &mut rects,
        );
        y = y.plus(size.h);
        i += 1;
    }
    assert(roots@.take(i as int) =~= roots@);
    (DisplayList { items }, LayoutResult { rects })
}

/// The scene of a whole tree within `viewport`.
pub fn build_scene<S: Scalar>(dom: &Dom, viewport: Size<S>) -> (r: DisplayList<S>)
    requires
        dom.wf(),
    ensures
        items_view(r.items@) == stacked(dom@.nodes, dom@.roots, viewport).items,
{
    layout(dom, viewport).0
}

/// Append the background of a node over `rect`.
fn push_background<S: Scalar>(dom: &Dom, id: NodeId, rect: Rect<S>, out: &mut Vec<DisplayItem<S>>)
    ensures
        items_view(final(out)@) == items_view(old(out)@) + background(dom@.nodes, id, rect),
{
    if let Some(color) = style_color(dom, id, BG) {
        let item = DisplayItem::Rect { rect, color, radius: style_dim_or_zero(dom, id, RADIUS) };
        proof {
            lemma_items_push(out@, item);
        }
        out.push(item);
    }
    assert(items_view(out@) =~= items_view(old(out)@) + background(dom@.nodes, id, rect));
}

fn layout_text<S: Scalar>(
    dom: &Dom,
    id: NodeId,
    text: &String,
    origin: Point<S>,
    out: &mut Vec<DisplayItem<S>>,
    rects: &mut Vec<(NodeId, Rect<S>)>,
) -> (r: Size<S>)
    ensures
        ({
            let done = laid_text(dom@.nodes, id, text@, origin);
            &&& r == done.size
            &&& items_view(final(out)@) == items_view(old(out)@) + done.items
            &&& final(rects)@ == old(rects)@ + done.rects
        }),
{
    let requested: u32 = match style_px(dom, id, HEIGHT) {
        Some(h) => h,
        None => 16,
    };
    let scale: u32 = if requested / 8 > 1 {
        requested / 8
    } else {
        1
    };
    let cell = S::whole(8).times(S::whole(scale as u64));
    let w = match style_dim::<S>(dom, id, WIDTH) {
        Some(w) => w,
        None => S::whole(text.as_str().unicode_len() as u64).times(cell),
    };
    let rect = Rect { origin, size: Size { w, h: cell } };
    push_background(dom, id, rect, out);
    let color = match style_color(dom, id, FG) {
        Some(c) => c,
        None => default_fg(),
    };
    let item = DisplayItem::Text {
        origin,
        text: text.clone(),
        color,
        size: cell,
        box_w: w,
        align: style_text_align(dom, id),
    };
    proof {
        lemma_items_push(out@, item);
    }
    out.push(item);
    rects.push((id, rect));
    proof {
        let done = laid_text(dom@.nodes, id, text@, origin);
        assert(items_view(out@) =~= items_view(old(out)@) + done.items);
        assert(rects@ =~= old(rects)@ + done.rects);
    }
    rect.size
}

/// Lay one node out at `origin` within `avail`, appending its primitives to `out` and its boxes
/// to `rects`. The slots of an element's own background and box are reserved before its
/// children are laid out and filled in once its size is known.
fn layout_node<S: Scalar>(
    dom: &Dom,
    id: NodeId,
    origin: Point<S>,
    avail: Size<S>,
    stretch: bool,
    out: &mut Vec<DisplayItem<S>>,
    rects: &mut Vec<(NodeId, Rect<S>)>,
) -> (r: Size<S>)
    requires
        dom.wf(),
    ensures
        ({
            let done = laid(dom@.nodes, id, origin, avail, stretch);
            &&& r == done.size
            &&& items_view(final(out)@) == items_view(old(out)@) + done.items
            &&& final(rects)@ == old(rects)@ + done.rects
        }),
    decreases height(dom@.nodes, id),
{
    let node = match dom.node(id) {
        Some(n) => n,
        None => {
            assert(items_view(out@) =~= items_view(old(out)@) + laid_nothing::<S>().items);
            assert(rects@ =~= old(rects)@ + laid_nothing::<S>().rects);
            return Size { w: S::whole(0), h: S::whole(0) };
        },
    };
    if let Some(text) = &node.text {
        return layout_text(dom, id, text, origin, out, rects);
    }
    let dir = style_direction(dom, id);
    let gap: S = style_dim_or_zero(dom, id, GAP);
    let pad: S = style_dim_or_zero(dom, id, PADDING);
    let pads = S::whole(2).times(pad);
    let blank = Rect {
        origin: Point { x: S::whole(0), y: S::whole(0) },
        size: Size { w: S::whole(0), h: S::whole(0) },
    };
    let bg = style_color(dom, id, BG);
    let bg_index: usize = out.len();
    let ghost before_items = out@;
    let ghost before_rects = rects@;
    if let Some(color) = bg {
        let slot = DisplayItem::Rect { rect: blank, color, radius: S::whole(0) };
        proof {
            lemma_items_push(out@, slot);
        }
        out.push(slot);
    }
    let rect_index: usize = rects.len();
    rects.push((id, blank));
    let ghost slotted_items = out@;
    let ghost slotted_rects = rects@;
    let inner_origin = Point { x: origin.x.plus(pad), y: origin.y.plus(pad) };
    let room = Size {
        w: avail.w.minus(pads).larger(S::whole(0)),
        h: avail.h.minus(pads).larger(S::whole(0)),
    };
    let mut main = S::whole(0);
    let mut cross = S::whole(0);
    let ghost h = height(dom@.nodes, id);
    let ghost ids = kids(dom@.nodes, id);
    let mut i: usize = 0;
    assert(items_view(out@) =~= items_view(slotted_items) + Seq::<ItemView<S>>::empty());
    assert(rects@ =~= slotted_rects + Seq::<(NodeId, Rect<S>)>::empty());
    while i < node.children.len()
        invariant
            dom.wf(),
            dom@.nodes.contains_key(id.0),
            node@ == dom@.nodes[id.0],
            ids == node.children@,
            ids == kids(dom@.nodes, id),
            h == height(dom@.nodes, id),
            i <= ids.len(),
            ({
                let done = flowed(
                    dom@.nodes,
                    ids.take(i as int),
                    h,
                    dir,
                    gap,
                    inner_origin,
                    room,
                );
                &&& main == done.main
                &&& cross == done.cross
                &&& items_view(out@) == items_view(slotted_items) + done.items
                &&& rects@ == slotted_rects + done.rects
            }),
        decreases ids.len() - i,
    {
        proof {
            assert(ids.take(i + 1).drop_last() =~= ids.take(i as int));
            assert(ids.take(i + 1).last() == ids[i as int]);
            lemma_child_is_lower(dom@.nodes, id, i as int);
        }
        let ghost sofar = flowed(dom@.nodes, ids.take(i as int), h, dir, gap, inner_origin, room);
        if i > 0 {
            main = main.plus(gap);
        }
        let at = match dir {
            Direction::Column => Point { x: inner_origin.x, y: inner_origin.y.plus(main) },
            Direction::Row => Point { x: inner_origin.x.plus(main), y: inner_origin.y },
        };
        let size = layout_node(dom, node.children[i], at, room, false, out, rects);
        let along = match dir {
            Direction::Column => size.h,
            Direction::Row => size.w,
        };
        let across = match dir {
            Direction::Column => size.w,
            Direction::Row => size.h,
        };
        main = main.plus(along);
        if cross.less(across) {
            cross = across;
        }
        i += 1;
        proof {
            let done = flowed(dom@.nodes, ids.take(i as int), h, dir, gap, inner_origin, room);
            let child = laid(dom@.nodes, ids[i - 1], at, room, false);
            assert(items_view(slotted_items) + (sofar.items + child.items) =~= items_view(
                slotted_items,
            ) + sofar.items + child.items);
            assert(slotted_rects + (sofar.rects + child.rects) =~= slotted_rects + sofar.rects
                + child.rects);
        }
    }
    assert(ids.take(i as int) =~= ids);
    let along = main.plus(pads);
    let across = cross.plus(pads);
    let content_w = match dir {
        Direction::Column => across,
        Direction::Row => along,
    };
    let content_h = match dir {
        Direction::Column => along,
        Direction::Row => across,
    };
    let w = match style_dim::<S>(dom, id, WIDTH) {
        Some(w) => w,
        None => if stretch {
            content_w.larger(avail.w)
        } else {
            content_w
        },
    };
    let height = match style_dim::<S>(dom, id, HEIGHT) {
        Some(h) => h,
        None => content_h,
    };
    let rect = Rect { origin, size: Size { w, h: height } };
    let ghost inner = flowed(dom@.nodes, ids, h, dir, gap, inner_origin, room);
    let ghost flowed_items = out@;
    rects.set(rect_index, (id, rect));
    assert(rects@ =~= before_rects + (seq![(id, rect)] + inner.rects));
    if let Some(color) = bg {
        let item = DisplayItem::Rect { rect, color, radius: style_dim_or_zero(dom, id, RADIUS) };
        out.set(bg_index, item);
        assert(items_view(out@) =~= items_view(before_items) + (background(dom@.nodes, id, rect)
            + inner.items)) by {
            let whole = items_view(flowed_items);
            assert(whole == items_view(slotted_items) + inner.items);
            assert(items_view(out@) =~= whole.update(bg_index as int, item@));
        }
    } else {
        assert(items_view(out@) =~= items_view(before_items) + (background(dom@.nodes, id, rect)
            + inner.items));
    }
    rect.size
}

// ---------------------------------------------------------------------------------------
// How boxes lie in boxes.
// ---------------------------------------------------------------------------------------

/// The widths of boxes.
pub open spec fn widths<S>(boxes: Seq<Rect<S>>) -> Seq<S> {
    Seq::new(boxes.len(), |i: int| boxes[i].size.w)
}

/// The heights of boxes.
pub open spec fn heights<S>(boxes: Seq<Rect<S>>) -> Seq<S> {
    Seq::new(boxes.len(), |i: int| boxes[i].size.h)
}

/// How far lengths reach one after the other with `gap` between them.
pub open spec fn spread<S: Scalar>(lengths: Seq<S>, gap: S) -> S
    decreases lengths.len(),
{
    if lengths.len() == 0 {
        S::s_whole(0)
    } else if lengths.len() == 1 {
        S::s_whole(0).s_plus(lengths[0])
    } else {
        spread(lengths.drop_last(), gap).s_plus(gap).s_plus(lengths.last())
    }
}

/// The largest of lengths, zero where there are none that are larger.
pub open spec fn largest<S: Scalar>(lengths: Seq<S>) -> S
    decreases lengths.len(),
{
    if lengths.len() == 0 {
        S::s_whole(0)
    } else if largest(lengths.drop_last()).s_less(lengths.last()) {
        lengths.last()
    } else {
        largest(lengths.drop_last())
    }
}

/// Where the `j`-th of lengths begins.
pub open spec fn begins<S: Scalar>(lengths: Seq<S>, gap: S, j: int) -> S {
    if j == 0 {
        S::s_whole(0)
    } else {
        spread(lengths.take(j), gap).s_plus(gap)
    }
}

/// Whether a property holds a whole number of pixels, and which.
pub open spec fn pixels<S: Scalar>(nodes: Map<u64, NodeView>, n: NodeId, prop: u16) -> S {
    match px_of(nodes, n, prop) {
        Some(v) => S::s_whole(v as u64),
        None => S::s_whole(0),
    }
}

/// Whether the box of an element holds the boxes of its children as it should. In a row the children
/// stand side by side: their widths and the gaps add up, and the highest decides the height. In a
/// column it is the other way round. The padding goes round them on all sides. What is set goes
/// before what they need. A width that is not set is at least `least`, where there is such a bound.
pub open spec fn holds_children<S: Scalar>(
    nodes: Map<u64, NodeView>,
    n: NodeId,
    rect: Rect<S>,
    boxes: Seq<Rect<S>>,
    least: Option<S>,
) -> bool {
    let row = style_of(nodes, n, 7) == Some("row"@);
    let gap = pixels::<S>(nodes, n, 5);
    let pad = pixels::<S>(nodes, n, 6);
    let pads = S::s_whole(2).s_times(pad);
    let need_w = if row {
        spread(widths(boxes), gap)
    } else {
        largest(widths(boxes))
    };
    let need_h = if row {
        largest(heights(boxes))
    } else {
        spread(heights(boxes), gap)
    };
    &&& px_of(nodes, n, 3) matches Some(v) ==> rect.size.w == S::s_whole(v as u64)
    &&& px_of(nodes, n, 4) matches Some(v) ==> rect.size.h == S::s_whole(v as u64)
    &&& px_of(nodes, n, 3) is None ==> rect.size.w == match least {
        Some(l) => need_w.s_plus(pads).s_larger(l),
        None => need_w.s_plus(pads),
    }
    &&& px_of(nodes, n, 4) is None ==> rect.size.h == need_h.s_plus(pads)
    &&& forall|j: int|
        0 <= j < boxes.len() ==> if row {
            &&& (#[trigger] boxes[j]).origin.x == rect.origin.x.s_plus(pad).s_plus(
                begins(widths(boxes), gap, j),
            )
            &&& boxes[j].origin.y == rect.origin.y.s_plus(pad)
        } else {
            &&& boxes[j].origin.x == rect.origin.x.s_plus(pad)
            &&& boxes[j].origin.y == rect.origin.y.s_plus(pad).s_plus(
                begins(heights(boxes), gap, j),
            )
        }
}

/// The lengths of boxes along and across the axis of children.
spec fn lengths_along<S>(dir: Direction, boxes: Seq<Rect<S>>) -> Seq<S> {
    match dir {
        Direction::Row => widths(boxes),
        Direction::Column => heights(boxes),
    }
}

spec fn lengths_across<S>(dir: Direction, boxes: Seq<Rect<S>>) -> Seq<S> {
    match dir {
        Direction::Row => heights(boxes),
        Direction::Column => widths(boxes),
    }
}

proof fn lemma_begins_take<S: Scalar>(lengths: Seq<S>, gap: S, j: int)
    requires
        0 <= j < lengths.len() - 1,
    ensures
        begins(lengths.drop_last(), gap, j) == begins(lengths, gap, j),
{
    assert(lengths.drop_last().take(j) =~= lengths.take(j));
}

proof fn lemma_flow_measures<S: Scalar>(
    d: DomView,
    ids: Seq<NodeId>,
    h: nat,
    dir: Direction,
    gap: S,
    origin: Point<S>,
    avail: Size<S>,
) -> (boxes: Seq<Rect<S>>)
    requires
        forall|i: int|
            0 <= i < ids.len() ==> d.nodes.contains_key((#[trigger] ids[i]).0) && height(
                d.nodes,
                ids[i],
            ) < h,
    ensures
        ({
            let done = flowed(d.nodes, ids, h, dir, gap, origin, avail);
            &&& boxes.len() == ids.len()
            &&& forall|j: int|
                0 <= j < ids.len() ==> done.rects.contains((ids[j], #[trigger] boxes[j]))
            &&& done.main == spread(lengths_along(dir, boxes), gap)
            &&& done.cross == largest(lengths_across(dir, boxes))
            &&& forall|j: int|
                0 <= j < ids.len() ==> (#[trigger] boxes[j]).origin == child_origin(
                    dir,
                    origin,
                    begins(lengths_along(dir, boxes), gap, j),
                )
        }),
    decreases ids.len(),
{
    let done = flowed(d.nodes, ids, h, dir, gap, origin, avail);
    if ids.len() == 0 {
        assert(lengths_along::<S>(dir, seq![]) =~= seq![]);
        assert(lengths_across::<S>(dir, seq![]) =~= seq![]);
        seq![]
    } else {
        let init = ids.drop_last();
        assert forall|i: int| 0 <= i < init.len() implies d.nodes.contains_key(
            (#[trigger] init[i]).0,
        ) && height(d.nodes, init[i]) < h by {
            assert(init[i] == ids[i]);
        }
        let firsts = lemma_flow_measures(d, init, h, dir, gap, origin, avail);
        let before = flowed(d.nodes, init, h, dir, gap, origin, avail);
        let start = if ids.len() > 1 {
            before.main.s_plus(gap)
        } else {
            before.main
        };
        assert(ids[ids.len() - 1] == ids.last());
        let at = child_origin(dir, origin, start);
        let child = laid(d.nodes, ids.last(), at, avail, false);
        lemma_laid_first(d, ids.last(), at, avail, false);
        let rect = child.rects[0].1;
        let boxes = firsts.push(rect);
        let along = lengths_along(dir, boxes);
        let across = lengths_across(dir, boxes);
        assert(along.drop_last() =~= lengths_along(dir, firsts));
        assert(across.drop_last() =~= lengths_across(dir, firsts));
        assert(along.take(along.len() - 1) =~= along.drop_last());
        assert(done.rects =~= before.rects + child.rects);
        assert(start == begins(along, gap, along.len() - 1));
        assert forall|j: int| 0 <= j < ids.len() implies done.rects.contains(
            (ids[j], #[trigger] boxes[j]),
        ) && boxes[j].origin == child_origin(dir, origin, begins(along, gap, j)) by {
            if j < init.len() {
                assert(boxes[j] == firsts[j]);
                assert(init[j] == ids[j]);
                let k = choose|k: int|
                    0 <= k < before.rects.len() && before.rects[k] == (init[j], firsts[j]);
                assert(done.rects[k] == (ids[j], boxes[j]));
                lemma_begins_take(along, gap, j);
            } else {
                assert(done.rects[before.rects.len() as int] == (ids[j], boxes[j]));
            }
        }
        if ids.len() == 1 {
            assert(lengths_along(dir, firsts) =~= seq![]);
        }
        boxes
    }
}

proof fn lemma_laid_first<S: Scalar>(
    d: DomView,
    n: NodeId,
    origin: Point<S>,
    avail: Size<S>,
    stretch: bool,
)
    requires
        d.nodes.contains_key(n.0),
    ensures
        ({
            let done = laid(d.nodes, n, origin, avail, stretch);
            &&& done.rects.len() > 0
            &&& done.rects[0] == (n, Rect { origin, size: done.size })
        }),
{
}

proof fn lemma_kids_nested(d: DomView, n: NodeId)
    requires
        well_formed(d),
        orderly(d),
        d.nodes.contains_key(n.0),
    ensures
        forall|i: int|
            0 <= i < kids(d.nodes, n).len() ==> {
                let k = #[trigger] kids(d.nodes, n)[i];
                &&& d.nodes.contains_key(k.0)
                &&& height(d.nodes, k) < height(d.nodes, n)
                &&& !d.roots.contains(k)
            },
{
    assert forall|i: int| 0 <= i < kids(d.nodes, n).len() implies ({
        let k = #[trigger] kids(d.nodes, n)[i];
        &&& d.nodes.contains_key(k.0)
        &&& height(d.nodes, k) < height(d.nodes, n)
        &&& !d.roots.contains(k)
    }) by {
        let k = kids(d.nodes, n)[i];
        lemma_child_is_lower(d.nodes, n, i);
        assert(siblings(d, n).contains(k));
        if d.roots.contains(k) {
            assert(siblings(d, NodeId(ROOT)).contains(k));
        }
    }
}

proof fn lemma_boxes_laid<S: Scalar>(
    d: DomView,
    n: NodeId,
    origin: Point<S>,
    avail: Size<S>,
    viewport: Size<S>,
    i: int,
) -> (boxes: Seq<Rect<S>>)
    requires
        well_formed(d),
        orderly(d),
        d.nodes.contains_key(n.0),
        d.roots.contains(n) ==> avail == viewport,
        ({
            let rects = laid(d.nodes, n, origin, avail, d.roots.contains(n)).rects;
            &&& 0 <= i < rects.len()
            &&& d.nodes.contains_key(rects[i].0.0) ==> d.nodes[rects[i].0.0].text is None
        }),
    ensures
        rects_hold(
            d,
            laid(d.nodes, n, origin, avail, d.roots.contains(n)).rects,
            i,
            boxes,
            viewport,
        ),
    decreases height(d.nodes, n), kids(d.nodes, n).len() + 1,
{
    let stretch = d.roots.contains(n);
    let done = laid(d.nodes, n, origin, avail, stretch);
    lemma_kids_nested(d, n);
    if d.nodes[n.0].text is Some {
        assert(done.rects[i].0 == n);
        seq![]
    } else {
        let ids = kids(d.nodes, n);
        let h = height(d.nodes, n);
        let dir = direction_of(d.nodes, n);
        let gap = dim_or_zero::<S>(d.nodes, n, GAP);
        let at = content_origin(d.nodes, n, origin);
        let room = content_room(d.nodes, n, avail);
        let inner = flowed(d.nodes, ids, h, dir, gap, at, room);
        assert forall|j: int| 0 <= j < inner.rects.len() implies #[trigger] inner.rects[j]
            == done.rects[j + 1] by {}
        assert forall|e: (NodeId, Rect<S>)| inner.rects.contains(e) implies
            #[trigger] done.rects.contains(e) by {
            let k = choose|k: int| 0 <= k < inner.rects.len() && inner.rects[k] == e;
            assert(done.rects[k + 1] == e);
        }
        if i == 0 {
            let boxes = lemma_flow_measures(d, ids, h, dir, gap, at, room);
            lemma_row(d.nodes, n);
            assert(forall|j: int|
                0 <= j < boxes.len() ==> done.rects.contains((ids[j], #[trigger] boxes[j])));
            boxes
        } else {
            let boxes = lemma_boxes_flowed(d, ids, h, dir, gap, at, room, viewport, i - 1);
            let m = done.rects[i].0;
            assert(inner.rects[i - 1] == done.rects[i]);
            assert(forall|j: int|
                0 <= j < boxes.len() ==> done.rects.contains(
                    (kids(d.nodes, m)[j], #[trigger] boxes[j]),
                ));
            boxes
        }
    }
}

/// Whether the box of index `i` holds the boxes of the children of its node, which are `boxes`. At
/// the top a width that is not set is at least that of the viewport.
pub open spec fn rects_hold<S: Scalar>(
    d: DomView,
    rects: Seq<(NodeId, Rect<S>)>,
    i: int,
    boxes: Seq<Rect<S>>,
    viewport: Size<S>,
) -> bool {
    let n = rects[i].0;
    &&& boxes.len() == kids(d.nodes, n).len()
    &&& forall|j: int|
        0 <= j < boxes.len() ==> rects.contains((kids(d.nodes, n)[j], #[trigger] boxes[j]))
    &&& holds_children(
        d.nodes,
        n,
        rects[i].1,
        boxes,
        if d.roots.contains(n) {
            Some(viewport.w)
        } else {
            None
        },
    )
}

proof fn lemma_row(nodes: Map<u64, NodeView>, n: NodeId)
    ensures
        direction_of(nodes, n) == Direction::Row <==> style_of(nodes, n, 7) == Some("row"@),
{
    reveal_strlit("row");
    reveal_strlit("column");
    assert("row"@.len() == 3);
    assert("column"@.len() == 6);
}

proof fn lemma_boxes_flowed<S: Scalar>(
    d: DomView,
    ids: Seq<NodeId>,
    h: nat,
    dir: Direction,
    gap: S,
    origin: Point<S>,
    avail: Size<S>,
    viewport: Size<S>,
    i: int,
) -> (boxes: Seq<Rect<S>>)
    requires
        well_formed(d),
        orderly(d),
        forall|j: int|
            0 <= j < ids.len() ==> d.nodes.contains_key((#[trigger] ids[j]).0) && height(
                d.nodes,
                ids[j],
            ) < h && !d.roots.contains(ids[j]),
        ({
            let rects = flowed(d.nodes, ids, h, dir, gap, origin, avail).rects;
            &&& 0 <= i < rects.len()
            &&& d.nodes.contains_key(rects[i].0.0) ==> d.nodes[rects[i].0.0].text is None
        }),
    ensures
        rects_hold(d, flowed(d.nodes, ids, h, dir, gap, origin, avail).rects, i, boxes, viewport),
    decreases h, ids.len(),
{
    let done = flowed(d.nodes, ids, h, dir, gap, origin, avail);
    let init = ids.drop_last();
    let before = flowed(d.nodes, init, h, dir, gap, origin, avail);
    let start = if ids.len() > 1 {
        before.main.s_plus(gap)
    } else {
        before.main
    };
    assert(ids[ids.len() - 1] == ids.last());
    let at = child_origin(dir, origin, start);
    let child = laid(d.nodes, ids.last(), at, avail, false);
    assert(done.rects =~= before.rects + child.rects);
    assert forall|e: (NodeId, Rect<S>)| before.rects.contains(e) || child.rects.contains(e) implies
        #[trigger] done.rects.contains(e) by {
        if before.rects.contains(e) {
            let k = choose|k: int| 0 <= k < before.rects.len() && before.rects[k] == e;
            assert(done.rects[k] == e);
        } else {
            let k = choose|k: int| 0 <= k < child.rects.len() && child.rects[k] == e;
            assert(done.rects[before.rects.len() + k] == e);
        }
    }
    if i < before.rects.len() {
        assert forall|j: int| 0 <= j < init.len() implies d.nodes.contains_key(
            (#[trigger] init[j]).0,
        ) && height(d.nodes, init[j]) < h && !d.roots.contains(init[j]) by {
            assert(init[j] == ids[j]);
        }
        let boxes = lemma_boxes_flowed(d, init, h, dir, gap, origin, avail, viewport, i);
        boxes
    } else {
        let boxes = lemma_boxes_laid(
            d,
            ids.last(),
            at,
            avail,
            viewport,
            i - before.rects.len(),
        );
        boxes
    }
}

proof fn lemma_boxes_stacked<S: Scalar>(
    d: DomView,
    ids: Seq<NodeId>,
    viewport: Size<S>,
    i: int,
) -> (boxes: Seq<Rect<S>>)
    requires
        well_formed(d),
        orderly(d),
        forall|j: int|
            0 <= j < ids.len() ==> d.nodes.contains_key((#[trigger] ids[j]).0) && d.roots.contains(
                ids[j],
            ),
        ({
            let rects = stacked(d.nodes, ids, viewport).rects;
            &&& 0 <= i < rects.len()
            &&& d.nodes.contains_key(rects[i].0.0) ==> d.nodes[rects[i].0.0].text is None
        }),
    ensures
        rects_hold(d, stacked(d.nodes, ids, viewport).rects, i, boxes, viewport),
    decreases ids.len(),
{
    let done = stacked(d.nodes, ids, viewport);
    let init = ids.drop_last();
    let before = stacked(d.nodes, init, viewport);
    assert(ids[ids.len() - 1] == ids.last());
    let at = Point { x: S::s_whole(0), y: before.main };
    let child = laid(d.nodes, ids.last(), at, viewport, true);
    assert(done.rects =~= before.rects + child.rects);
    assert forall|e: (NodeId, Rect<S>)| before.rects.contains(e) || child.rects.contains(e) implies
        #[trigger] done.rects.contains(e) by {
        if before.rects.contains(e) {
            let k = choose|k: int| 0 <= k < before.rects.len() && before.rects[k] == e;
            assert(done.rects[k] == e);
        } else {
            let k = choose|k: int| 0 <= k < child.rects.len() && child.rects[k] == e;
            assert(done.rects[before.rects.len() + k] == e);
        }
    }
    if i < before.rects.len() {
        assert forall|j: int| 0 <= j < init.len() implies d.nodes.contains_key(
            (#[trigger] init[j]).0,
        ) && d.roots.contains(init[j]) by {
            assert(init[j] == ids[j]);
        }
        lemma_boxes_stacked(d, init, viewport, i)
    } else {
        lemma_boxes_laid(d, ids.last(), at, viewport, viewport, i - before.rects.len())
    }
}

/// In the boxes that [`layout`] returns for a tree, the box of every element holds those of its
/// children: each child has a box, they stand side by side in a row and on top of each other in a
/// column, and the element is as large as they, the gaps and the padding need, unless its size is
/// set. Only a top-level element is wider, to fill the viewport. The boxes of the children are
/// returned.
pub proof fn law_boxes_hold_their_children<S: Scalar>(
    d: DomView,
    viewport: Size<S>,
    i: int,
) -> (boxes: Seq<Rect<S>>)
    requires
        well_formed(d),
        orderly(d),
        ({
            let rects = stacked(d.nodes, d.roots, viewport).rects;
            &&& 0 <= i < rects.len()
            &&& d.nodes.contains_key(rects[i].0.0) ==> d.nodes[rects[i].0.0].text is None
        }),
    ensures
        rects_hold(d, stacked(d.nodes, d.roots, viewport).rects, i, boxes, viewport),
{
    assert forall|j: int| 0 <= j < d.roots.len() implies d.nodes.contains_key(
        (#[trigger] d.roots[j]).0,
    ) by {
        assert(siblings(d, NodeId(ROOT)).contains(d.roots[j]));
    }
    lemma_boxes_stacked(d, d.roots, viewport, i)
}

/// Whether lengths in whole pixels are small enough to be added without wrapping around.
pub open spec fn modest(lengths: Seq<Whole>) -> bool {
    &&& lengths.len() <= 0x10_0000
    &&& forall|i: int| 0 <= i < lengths.len() ==> 0 <= (#[trigger] lengths[i]).0 <= 0x1_0000_0000
}

proof fn lemma_spread_whole(lengths: Seq<Whole>, gap: Whole, j: int)
    requires
        modest(lengths),
        0 <= gap.0 <= 0x1_0000_0000,
        0 <= j < lengths.len(),
    ensures
        0 <= spread(lengths, gap).0 <= 0x2_0000_0000 * lengths.len(),
        0 <= begins(lengths, gap, j).0,
        begins(lengths, gap, j).0 + lengths[j].0 <= spread(lengths, gap).0,
        j == lengths.len() - 1 ==> begins(lengths, gap, j).0 + lengths[j].0 == spread(
            lengths,
            gap,
        ).0,
    decreases lengths.len(),
{
    let init = lengths.drop_last();
    let n = lengths.len() as int;
    assert(Whole::s_whole(0) == Whole(0));
    assert(lengths.take(n - 1) =~= init);
    assert(lengths[n - 1] == lengths.last());
    if n > 1 {
        assert forall|i: int| 0 <= i < init.len() implies 0 <= (#[trigger] init[i]).0
            <= 0x1_0000_0000 by {
            assert(init[i] == lengths[i]);
        }
        if j < n - 1 {
            lemma_spread_whole(init, gap, j);
            lemma_begins_take(lengths, gap, j);
            assert(init[j] == lengths[j]);
        } else {
            lemma_spread_whole(init, gap, n - 2);
        }
    }
}

proof fn lemma_largest_whole(lengths: Seq<Whole>, j: int)
    requires
        modest(lengths),
        0 <= j < lengths.len(),
    ensures
        lengths[j].0 <= largest(lengths).0 <= 0x1_0000_0000,
    decreases lengths.len(),
{
    let init = lengths.drop_last();
    assert forall|i: int| 0 <= i < init.len() implies 0 <= (#[trigger] init[i]).0
        <= 0x1_0000_0000 by {
        assert(init[i] == lengths[i]);
    }
    assert(Whole::s_whole(0) == Whole(0));
    if j < init.len() {
        lemma_largest_whole(init, j);
        assert(init[j] == lengths[j]);
    } else if init.len() > 0 {
        lemma_largest_whole(init, 0);
    }
}

proof fn lemma_sum(a: Whole, b: Whole)
    requires
        i64::MIN <= a.0 + b.0 <= i64::MAX,
    ensures
        a.s_plus(b).0 == a.0 + b.0,
{
}

#[verifier::spinoff_prover]
#[verifier::rlimit(60)]
proof fn lemma_inside(
    nodes: Map<u64, NodeView>,
    n: NodeId,
    outer: Rect<Whole>,
    boxes: Seq<Rect<Whole>>,
    least: Option<Whole>,
    j: int,
)
    requires
        holds_children(nodes, n, outer, boxes, least),
        px_of(nodes, n, 3) is None,
        px_of(nodes, n, 4) is None,
        0 <= j < boxes.len() <= 0x10_0000,
        forall|k: int|
            0 <= k < boxes.len() ==> 0 <= (#[trigger] boxes[k]).size.w.0 <= 0x1_0000_0000 && 0
                <= boxes[k].size.h.0 <= 0x1_0000_0000,
        -0x1000_0000_0000 <= outer.origin.x.0 <= 0x1000_0000_0000,
        -0x1000_0000_0000 <= outer.origin.y.0 <= 0x1000_0000_0000,
    ensures
        ({
            let pad = match px_of(nodes, n, 6) {
                Some(v) => v,
                None => 0,
            };
            &&& boxes[j].origin.x.0 >= outer.origin.x.0 + pad
            &&& boxes[j].origin.y.0 >= outer.origin.y.0 + pad
            &&& boxes[j].origin.x.0 + boxes[j].size.w.0 + pad <= outer.origin.x.0 + outer.size.w.0
            &&& boxes[j].origin.y.0 + boxes[j].size.h.0 + pad <= outer.origin.y.0 + outer.size.h.0
        }),
{
    let row = style_of(nodes, n, 7) == Some("row"@);
    let gap = pixels::<Whole>(nodes, n, 5);
    let pad = pixels::<Whole>(nodes, n, 6);
    assert(modest(widths(boxes)));
    assert(modest(heights(boxes)));
    assert(0 <= gap.0 <= 0xffff_ffff);
    assert(0 <= pad.0 <= 0xffff_ffff);
    assert(Whole::s_whole(2) == Whole(2));
    assert(Whole::s_whole(2).s_times(pad).0 == 2 * pad.0);
    lemma_spread_whole(widths(boxes), gap, j);
    lemma_spread_whole(heights(boxes), gap, j);
    lemma_largest_whole(widths(boxes), j);
    lemma_largest_whole(heights(boxes), j);
    assert(widths(boxes)[j] == boxes[j].size.w);
    assert(heights(boxes)[j] == boxes[j].size.h);
    let b = boxes[j];
    let pads = Whole::s_whole(2).s_times(pad);
    let x = outer.origin.x;
    let y = outer.origin.y;
    lemma_sum(x, pad);
    lemma_sum(y, pad);
    if row {
        lemma_sum(x.s_plus(pad), begins(widths(boxes), gap, j));
        lemma_sum(spread(widths(boxes), gap), pads);
        lemma_sum(largest(heights(boxes)), pads);
        assert(b.origin.x.0 == outer.origin.x.0 + pad.0 + begins(widths(boxes), gap, j).0);
        assert(b.origin.y.0 == outer.origin.y.0 + pad.0);
        assert(outer.size.w.0 >= spread(widths(boxes), gap).0 + 2 * pad.0);
        assert(outer.size.h.0 == largest(heights(boxes)).0 + 2 * pad.0);
    } else {
        lemma_sum(y.s_plus(pad), begins(heights(boxes), gap, j));
        lemma_sum(spread(heights(boxes), gap), pads);
        lemma_sum(largest(widths(boxes)), pads);
        assert(b.origin.y.0 == outer.origin.y.0 + pad.0 + begins(heights(boxes), gap, j).0);
        assert(b.origin.x.0 == outer.origin.x.0 + pad.0);
        assert(outer.size.h.0 == spread(heights(boxes), gap).0 + 2 * pad.0);
        assert(outer.size.w.0 >= largest(widths(boxes)).0 + 2 * pad.0);
    }
}

/// Whether a box in whole pixels lies within another.
pub open spec fn lies_within(inner: Rect<Whole>, outer: Rect<Whole>) -> bool {
    &&& outer.origin.x.0 <= inner.origin.x.0
    &&& outer.origin.y.0 <= inner.origin.y.0
    &&& inner.origin.x.0 + inner.size.w.0 <= outer.origin.x.0 + outer.size.w.0
    &&& inner.origin.y.0 + inner.size.h.0 <= outer.origin.y.0 + outer.size.h.0
}

/// In whole pixels, the boxes of the children of an element without a set size lie within its own,
/// and inside its padding, whatever its direction, as long as no number wraps around.
pub proof fn law_children_lie_within_their_parent(
    d: DomView,
    viewport: Size<Whole>,
    i: int,
    j: int,
) -> (boxes: Seq<Rect<Whole>>)
    requires
        well_formed(d),
        orderly(d),
        ({
            let rects = stacked(d.nodes, d.roots, viewport).rects;
            let n = rects[i].0;
            &&& 0 <= i < rects.len()
            &&& d.nodes.contains_key(n.0) ==> d.nodes[n.0].text is None
            &&& px_of(d.nodes, n, 3) is None
            &&& px_of(d.nodes, n, 4) is None
            &&& 0 <= j < kids(d.nodes, n).len() <= 0x10_0000
            &&& forall|k: int|
                0 <= k < rects.len() ==> 0 <= (#[trigger] rects[k]).1.size.w.0 <= 0x1_0000_0000
                    && 0 <= rects[k].1.size.h.0 <= 0x1_0000_0000
            &&& -0x1000_0000_0000 <= rects[i].1.origin.x.0 <= 0x1000_0000_0000
            &&& -0x1000_0000_0000 <= rects[i].1.origin.y.0 <= 0x1000_0000_0000
        }),
    ensures
        ({
            let rects = stacked(d.nodes, d.roots, viewport).rects;
            let n = rects[i].0;
            let outer = rects[i].1;
            let pad = match px_of(d.nodes, n, 6) {
                Some(v) => v,
                None => 0,
            };
            &&& boxes.len() == kids(d.nodes, n).len()
            &&& rects.contains((kids(d.nodes, n)[j], boxes[j]))
            &&& lies_within(boxes[j], outer)
            &&& boxes[j].origin.x.0 >= outer.origin.x.0 + pad
            &&& boxes[j].origin.y.0 >= outer.origin.y.0 + pad
            &&& boxes[j].origin.x.0 + boxes[j].size.w.0 + pad <= outer.origin.x.0 + outer.size.w.0
            &&& boxes[j].origin.y.0 + boxes[j].size.h.0 + pad <= outer.origin.y.0 + outer.size.h.0
        }),
{
    let rects = stacked(d.nodes, d.roots, viewport).rects;
    let boxes = law_boxes_hold_their_children(d, viewport, i);
    let n = rects[i].0;
    assert forall|k: int| 0 <= k < boxes.len() implies 0 <= (#[trigger] boxes[k]).size.w.0
        <= 0x1_0000_0000 && 0 <= boxes[k].size.h.0 <= 0x1_0000_0000 by {
        assert(rects.contains((kids(d.nodes, n)[k], boxes[k])));
        let at = choose|at: int|
            0 <= at < rects.len() && rects[at] == (kids(d.nodes, n)[k], boxes[k]);
        assert(0 <= rects[at].1.size.w.0);
    }
    let least = if d.roots.contains(n) {
        Some(viewport.w)
    } else {
        None
    };
    lemma_inside(d.nodes, n, rects[i].1, boxes, least, j);
    boxes
}

proof fn lemma_ids_laid<S: Scalar>(
    d: DomView,
    n: NodeId,
    origin: Point<S>,
    avail: Size<S>,
    stretch: bool,
)
    requires
        well_formed(d),
        orderly(d),
        texts_are_leaves(d),
        d.nodes.contains_key(n.0),
    ensures
        placed(laid(d.nodes, n, origin, avail, stretch).rects) == preorder(d.nodes, n),
    decreases height(d.nodes, n), kids(d.nodes, n).len() + 1,
{
    let done = laid(d.nodes, n, origin, avail, stretch);
    let ids = kids(d.nodes, n);
    law_preorder_unfolds(d.nodes, n);
    lemma_kids_nested(d, n);
    if d.nodes[n.0].text is Some {
        assert(ids =~= seq![]);
        assert(forest(d.nodes, ids) =~= seq![]);
        assert(placed(done.rects) =~= seq![n]);
        assert(seq![n] + forest(d.nodes, ids) =~= seq![n]);
    } else {
        let h = height(d.nodes, n);
        let dir = direction_of(d.nodes, n);
        let gap = dim_or_zero::<S>(d.nodes, n, GAP);
        let at = content_origin(d.nodes, n, origin);
        let room = content_room(d.nodes, n, avail);
        lemma_ids_flowed(d, ids, h, dir, gap, at, room);
        let inner = flowed(d.nodes, ids, h, dir, gap, at, room);
        assert(placed(done.rects) =~= seq![n] + placed(inner.rects));
    }
}

/// The nodes of boxes.
pub open spec fn placed<S>(rects: Seq<(NodeId, Rect<S>)>) -> Seq<NodeId> {
    Seq::new(rects.len(), |i: int| rects[i].0)
}

proof fn lemma_ids_flowed<S: Scalar>(
    d: DomView,
    ids: Seq<NodeId>,
    h: nat,
    dir: Direction,
    gap: S,
    origin: Point<S>,
    avail: Size<S>,
)
    requires
        well_formed(d),
        orderly(d),
        texts_are_leaves(d),
        forall|j: int|
            0 <= j < ids.len() ==> d.nodes.contains_key((#[trigger] ids[j]).0) && height(
                d.nodes,
                ids[j],
            ) < h,
    ensures
        placed(flowed(d.nodes, ids, h, dir, gap, origin, avail).rects) == forest(d.nodes, ids),
    decreases h, ids.len(),
{
    let done = flowed(d.nodes, ids, h, dir, gap, origin, avail);
    if ids.len() == 0 {
        assert(placed(done.rects) =~= forest(d.nodes, ids));
    } else {
        let init = ids.drop_last();
        assert forall|j: int| 0 <= j < init.len() implies d.nodes.contains_key(
            (#[trigger] init[j]).0,
        ) && height(d.nodes, init[j]) < h by {
            assert(init[j] == ids[j]);
        }
        lemma_ids_flowed(d, init, h, dir, gap, origin, avail);
        let before = flowed(d.nodes, init, h, dir, gap, origin, avail);
        let start = if ids.len() > 1 {
            before.main.s_plus(gap)
        } else {
            before.main
        };
        assert(ids[ids.len() - 1] == ids.last());
        let at = child_origin(dir, origin, start);
        lemma_ids_laid(d, ids.last(), at, avail, false);
        let child = laid(d.nodes, ids.last(), at, avail, false);
        assert(placed(done.rects) =~= placed(before.rects) + placed(child.rects));
        lemma_forest_push(d.nodes, init, ids.last());
        assert(init.push(ids.last()) =~= ids);
    }
}

proof fn lemma_ids_stacked<S: Scalar>(d: DomView, ids: Seq<NodeId>, viewport: Size<S>)
    requires
        well_formed(d),
        orderly(d),
        texts_are_leaves(d),
        forall|j: int| 0 <= j < ids.len() ==> d.nodes.contains_key((#[trigger] ids[j]).0),
    ensures
        placed(stacked(d.nodes, ids, viewport).rects) == forest(d.nodes, ids),
    decreases ids.len(),
{
    let done = stacked(d.nodes, ids, viewport);
    if ids.len() == 0 {
        assert(placed(done.rects) =~= forest(d.nodes, ids));
    } else {
        let init = ids.drop_last();
        assert forall|j: int| 0 <= j < init.len() implies d.nodes.contains_key(
            (#[trigger] init[j]).0,
        ) by {
            assert(init[j] == ids[j]);
        }
        lemma_ids_stacked(d, init, viewport);
        let before = stacked(d.nodes, init, viewport);
        assert(ids[ids.len() - 1] == ids.last());
        let at = Point { x: S::s_whole(0), y: before.main };
        lemma_ids_laid(d, ids.last(), at, viewport, true);
        let child = laid(d.nodes, ids.last(), at, viewport, true);
        assert(placed(done.rects) =~= placed(before.rects) + placed(child.rects));
        lemma_forest_push(d.nodes, init, ids.last());
        assert(init.push(ids.last()) =~= ids);
    }
}

/// Where only elements have children, [`layout`] gives each node of the tree one box, parents before
/// children and siblings in order.
pub proof fn law_each_node_has_one_box<S: Scalar>(d: DomView, viewport: Size<S>)
    requires
        well_formed(d),
        orderly(d),
        texts_are_leaves(d),
    ensures
        placed(stacked(d.nodes, d.roots, viewport).rects) == forest(d.nodes, d.roots),
        placed(stacked(d.nodes, d.roots, viewport).rects).no_duplicates(),
{
    assert forall|j: int| 0 <= j < d.roots.len() implies d.nodes.contains_key(
        (#[trigger] d.roots[j]).0,
    ) by {
        assert(siblings(d, NodeId(ROOT)).contains(d.roots[j]));
    }
    lemma_ids_stacked(d, d.roots, viewport);
    law_trees_hold_each_node_once(d);
}

/// How high heights reach on top of each other.
pub open spec fn pile<S: Scalar>(lengths: Seq<S>) -> S
    decreases lengths.len(),
{
    if lengths.len() == 0 {
        S::s_whole(0)
    } else {
        pile(lengths.drop_last()).s_plus(lengths.last())
    }
}

proof fn lemma_stack_measures<S: Scalar>(
    d: DomView,
    ids: Seq<NodeId>,
    viewport: Size<S>,
) -> (boxes: Seq<Rect<S>>)
    requires
        forall|j: int| 0 <= j < ids.len() ==> d.nodes.contains_key((#[trigger] ids[j]).0),
    ensures
        ({
            let done = stacked(d.nodes, ids, viewport);
            &&& boxes.len() == ids.len()
            &&& done.main == pile(heights(boxes))
            &&& forall|j: int|
                0 <= j < boxes.len() ==> {
                    &&& done.rects.contains((ids[j], #[trigger] boxes[j]))
                    &&& boxes[j].origin.x == S::s_whole(0)
                    &&& boxes[j].origin.y == pile(heights(boxes).take(j))
                }
        }),
    decreases ids.len(),
{
    let done = stacked(d.nodes, ids, viewport);
    if ids.len() == 0 {
        assert(heights::<S>(seq![]) =~= seq![]);
        seq![]
    } else {
        let init = ids.drop_last();
        assert forall|j: int| 0 <= j < init.len() implies d.nodes.contains_key(
            (#[trigger] init[j]).0,
        ) by {
            assert(init[j] == ids[j]);
        }
        let firsts = lemma_stack_measures(d, init, viewport);
        let before = stacked(d.nodes, init, viewport);
        assert(ids[ids.len() - 1] == ids.last());
        let at = Point { x: S::s_whole(0), y: before.main };
        let child = laid(d.nodes, ids.last(), at, viewport, true);
        lemma_laid_first(d, ids.last(), at, viewport, true);
        let boxes = firsts.push(child.rects[0].1);
        let all = heights(boxes);
        assert(all.drop_last() =~= heights(firsts));
        assert(all.take(all.len() - 1) =~= heights(firsts));
        assert(done.rects =~= before.rects + child.rects);
        assert forall|j: int| 0 <= j < boxes.len() implies ({
            &&& done.rects.contains((ids[j], #[trigger] boxes[j]))
            &&& boxes[j].origin.x == S::s_whole(0)
            &&& boxes[j].origin.y == pile(all.take(j))
        }) by {
            if j < init.len() {
                assert(boxes[j] == firsts[j]);
                assert(init[j] == ids[j]);
                let k = choose|k: int|
                    0 <= k < before.rects.len() && before.rects[k] == (init[j], firsts[j]);
                assert(done.rects[k] == (ids[j], boxes[j]));
                assert(all.take(j) =~= heights(firsts).take(j));
            } else {
                assert(done.rects[before.rects.len() as int] == (ids[j], boxes[j]));
            }
        }
        boxes
    }
}

/// The top-level nodes stand on top of each other at the left edge, each below all before it. Their
/// boxes are returned.
pub proof fn law_top_level_nodes_pile_up<S: Scalar>(
    d: DomView,
    viewport: Size<S>,
) -> (boxes: Seq<Rect<S>>)
    requires
        orderly(d),
    ensures
        ({
            let rects = stacked(d.nodes, d.roots, viewport).rects;
            &&& boxes.len() == d.roots.len()
            &&& forall|j: int|
                0 <= j < boxes.len() ==> {
                    &&& rects.contains((d.roots[j], #[trigger] boxes[j]))
                    &&& boxes[j].origin.x == S::s_whole(0)
                    &&& boxes[j].origin.y == pile(heights(boxes).take(j))
                }
        }),
{
    assert forall|j: int| 0 <= j < d.roots.len() implies d.nodes.contains_key(
        (#[trigger] d.roots[j]).0,
    ) by {
        assert(siblings(d, NodeId(ROOT)).contains(d.roots[j]));
    }
    lemma_stack_measures(d, d.roots, viewport)
}

/// What a node paints into its box: its background, which fills the box, and over it its text.
pub open spec fn painted_in<S: Scalar>(nodes: Map<u64, NodeView>, n: NodeId, rect: Rect<S>) -> Seq<
    ItemView<S>,
> {
    let fill = match rgb_of(nodes, n, 1) {
        Some(color) => seq![ItemView::Rect { rect, color, radius: pixels::<S>(nodes, n, 8) }],
        None => seq![],
    };
    let ink = match rgb_of(nodes, n, 2) {
        Some(color) => color,
        None => Color { r: 230, g: 230, b: 230, a: 255 },
    };
    let align = if style_of(nodes, n, 14) == Some("center"@) {
        S::s_ratio(1, 2)
    } else if style_of(nodes, n, 14) == Some("right"@) {
        S::s_whole(1)
    } else {
        S::s_whole(0)
    };
    match nodes[n.0].text {
        Some(text) => fill.push(
            ItemView::Text {
                origin: rect.origin,
                text,
                color: ink,
                size: rect.size.h,
                box_w: rect.size.w,
                align,
            },
        ),
        None => fill,
    }
}

/// What nodes paint into their boxes, one after the other.
pub open spec fn painted<S: Scalar>(nodes: Map<u64, NodeView>, rects: Seq<(NodeId, Rect<S>)>) -> Seq<
    ItemView<S>,
>
    decreases rects.len(),
{
    if rects.len() == 0 {
        seq![]
    } else {
        painted(nodes, rects.drop_last()) + painted_in(nodes, rects.last().0, rects.last().1)
    }
}

proof fn lemma_painted_add<S: Scalar>(
    nodes: Map<u64, NodeView>,
    a: Seq<(NodeId, Rect<S>)>,
    b: Seq<(NodeId, Rect<S>)>,
)
    ensures
        painted(nodes, a + b) == painted(nodes, a) + painted(nodes, b),
    decreases b.len(),
{
    if b.len() == 0 {
        assert(a + b =~= a);
        assert(painted(nodes, a) + painted(nodes, b) =~= painted(nodes, a));
    } else {
        assert((a + b).drop_last() =~= a + b.drop_last());
        assert((a + b).last() == b.last());
        lemma_painted_add(nodes, a, b.drop_last());
        let one = painted_in(nodes, b.last().0, b.last().1);
        assert(painted(nodes, a) + painted(nodes, b.drop_last()) + one =~= painted(nodes, a) + (
        painted(nodes, b.drop_last()) + one));
    }
}

proof fn lemma_painted_one<S: Scalar>(nodes: Map<u64, NodeView>, n: NodeId, rect: Rect<S>)
    ensures
        painted(nodes, seq![(n, rect)]) == painted_in(nodes, n, rect),
{
    let one = seq![(n, rect)];
    assert(one.drop_last() =~= seq![]);
    assert(painted(nodes, one.drop_last()) =~= seq![]);
    assert(painted(nodes, one) =~= painted_in(nodes, n, rect));
}

/// Whether the box of a text node is as it should be: as high as its cells, and as wide as its
/// characters unless a width is set. A cell is 8 pixels times the height that is asked for in
/// eights, which is 16 unless set, and at least 8 pixels.
pub open spec fn fits_text<S: Scalar>(nodes: Map<u64, NodeView>, n: NodeId, size: Size<S>) -> bool {
    let asked: u32 = match px_of(nodes, n, 4) {
        Some(v) => v,
        None => 16,
    };
    &&& asked < 16 ==> size.h == S::s_whole(8).s_times(S::s_whole(1))
    &&& asked >= 16 ==> size.h == S::s_whole(8).s_times(S::s_whole((asked / 8) as u64))
    &&& px_of(nodes, n, 3) matches Some(v) ==> size.w == S::s_whole(v as u64)
    &&& px_of(nodes, n, 3) is None ==> size.w == S::s_whole(
        nodes[n.0].text->0.len() as u64,
    ).s_times(size.h)
}

/// Whether the boxes of text nodes are as they should be.
spec fn texts_fit<S: Scalar>(nodes: Map<u64, NodeView>, rects: Seq<(NodeId, Rect<S>)>) -> bool {
    forall|i: int|
        0 <= i < rects.len() && nodes.contains_key((#[trigger] rects[i]).0.0)
            && nodes[rects[i].0.0].text is Some ==> fits_text(nodes, rects[i].0, rects[i].1.size)
}

proof fn lemma_texts_fit_add<S: Scalar>(
    nodes: Map<u64, NodeView>,
    a: Seq<(NodeId, Rect<S>)>,
    b: Seq<(NodeId, Rect<S>)>,
)
    requires
        texts_fit(nodes, a),
        texts_fit(nodes, b),
    ensures
        texts_fit(nodes, a + b),
{
    let all = a + b;
    assert forall|i: int|
        0 <= i < all.len() && nodes.contains_key((#[trigger] all[i]).0.0)
            && nodes[all[i].0.0].text is Some implies fits_text(nodes, all[i].0, all[i].1.size) by {
        if i < a.len() {
            assert(all[i] == a[i]);
        } else {
            assert(all[i] == b[i - a.len()]);
        }
    }
}

proof fn lemma_paint_laid<S: Scalar>(
    d: DomView,
    n: NodeId,
    origin: Point<S>,
    avail: Size<S>,
    stretch: bool,
)
    requires
        well_formed(d),
        d.nodes.contains_key(n.0),
    ensures
        ({
            let done = laid(d.nodes, n, origin, avail, stretch);
            &&& done.items == painted(d.nodes, done.rects)
            &&& texts_fit(d.nodes, done.rects)
        }),
    decreases height(d.nodes, n), kids(d.nodes, n).len() + 1,
{
    let done = laid(d.nodes, n, origin, avail, stretch);
    let rect = Rect { origin, size: done.size };
    lemma_painted_one(d.nodes, n, rect);
    if d.nodes[n.0].text is Some {
        assert(done.items =~= painted_in(d.nodes, n, rect));
        assert(done.rects =~= seq![(n, rect)]);
    } else {
        let ids = kids(d.nodes, n);
        let h = height(d.nodes, n);
        let dir = direction_of(d.nodes, n);
        let gap = dim_or_zero::<S>(d.nodes, n, GAP);
        let at = content_origin(d.nodes, n, origin);
        let room = content_room(d.nodes, n, avail);
        lemma_paint_flowed(d, ids, h, dir, gap, at, room);
        let inner = flowed(d.nodes, ids, h, dir, gap, at, room);
        assert(done.rects =~= seq![(n, rect)] + inner.rects);
        lemma_painted_add(d.nodes, seq![(n, rect)], inner.rects);
        lemma_texts_fit_add(d.nodes, seq![(n, rect)], inner.rects);
    }
}

proof fn lemma_paint_flowed<S: Scalar>(
    d: DomView,
    ids: Seq<NodeId>,
    h: nat,
    dir: Direction,
    gap: S,
    origin: Point<S>,
    avail: Size<S>,
)
    requires
        well_formed(d),
    ensures
        ({
            let done = flowed(d.nodes, ids, h, dir, gap, origin, avail);
            &&& done.items == painted(d.nodes, done.rects)
            &&& texts_fit(d.nodes, done.rects)
        }),
    decreases h, ids.len(),
{
    if ids.len() > 0 {
        let init = ids.drop_last();
        lemma_paint_flowed(d, init, h, dir, gap, origin, avail);
        let before = flowed(d.nodes, init, h, dir, gap, origin, avail);
        let start = if ids.len() > 1 {
            before.main.s_plus(gap)
        } else {
            before.main
        };
        let at = child_origin(dir, origin, start);
        let child = if height(d.nodes, ids.last()) < h {
            laid(d.nodes, ids.last(), at, avail, false)
        } else {
            laid_nothing()
        };
        if height(d.nodes, ids.last()) < h && d.nodes.contains_key(ids.last().0) {
            lemma_paint_laid(d, ids.last(), at, avail, false);
        }
        lemma_painted_add(d.nodes, before.rects, child.rects);
        lemma_texts_fit_add(d.nodes, before.rects, child.rects);
    }
}

/// What [`layout`] paints is what the nodes paint into the boxes that it returns, in the order of
/// those boxes, so that a node is painted over the nodes above it. The boxes of text nodes fit their
/// text.
pub proof fn law_nodes_paint_into_their_boxes<S: Scalar>(
    d: DomView,
    ids: Seq<NodeId>,
    viewport: Size<S>,
)
    requires
        well_formed(d),
    ensures
        ({
            let done = stacked(d.nodes, ids, viewport);
            &&& done.items == painted(d.nodes, done.rects)
            &&& forall|i: int|
                0 <= i < done.rects.len() && d.nodes.contains_key((#[trigger] done.rects[i]).0.0)
                    && d.nodes[done.rects[i].0.0].text is Some ==> fits_text(
                    d.nodes,
                    done.rects[i].0,
                    done.rects[i].1.size,
                )
        }),
{
    lemma_paint_stacked(d, ids, viewport);
}

proof fn lemma_paint_stacked<S: Scalar>(d: DomView, ids: Seq<NodeId>, viewport: Size<S>)
    requires
        well_formed(d),
    ensures
        ({
            let done = stacked(d.nodes, ids, viewport);
            &&& done.items == painted(d.nodes, done.rects)
            &&& texts_fit(d.nodes, done.rects)
        }),
    decreases ids.len(),
{
    if ids.len() > 0 {
        let init = ids.drop_last();
        lemma_paint_stacked(d, init, viewport);
        let before = stacked(d.nodes, init, viewport);
        let at = Point { x: S::s_whole(0), y: before.main };
        let child = laid(d.nodes, ids.last(), at, viewport, true);
        if d.nodes.contains_key(ids.last().0) {
            lemma_paint_laid(d, ids.last(), at, viewport, true);
        }
        lemma_painted_add(d.nodes, before.rects, child.rects);
        lemma_texts_fit_add(d.nodes, before.rects, child.rects);
    }
}

/// Two words name a direction.
pub proof fn law_two_words_name_a_direction(s: Seq<char>)
    ensures
        direction_value(s) == Some(Direction::Row) <==> s == "row"@,
        direction_value(s) == Some(Direction::Column) <==> s == "column"@,
{
    reveal_strlit("row");
    reveal_strlit("column");
    assert("row"@.len() == 3);
    assert("column"@.len() == 6);
}

} // verus!
