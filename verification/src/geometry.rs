//! Points, boxes, colors, and the primitives that a renderer paints.
use crate::handles::NodeId;
use crate::scalar::{Scalar, Whole};
use vstd::prelude::*;

verus! {

/// A straight-alpha RGBA color.
#[derive(Clone, Copy, PartialEq, Eq, Debug, Structural)]
pub struct Color {
    pub r: u8,
    pub g: u8,
    pub b: u8,
    pub a: u8,
}

/// A point in logical pixels.
#[derive(Clone, Copy, PartialEq, Eq, Debug)]
pub struct Point<S> {
    pub x: S,
    pub y: S,
}

/// A size in logical pixels.
#[derive(Clone, Copy, PartialEq, Eq, Debug)]
pub struct Size<S> {
    pub w: S,
    pub h: S,
}

/// A box in logical pixels.
#[derive(Clone, Copy, PartialEq, Eq, Debug)]
pub struct Rect<S> {
    pub origin: Point<S>,
    pub size: Size<S>,
}

/// A positioned glyph.
#[derive(Clone, Copy, PartialEq, Eq, Debug)]
pub struct Glyph<S> {
    pub id: u32,
    pub x: S,
    pub y: S,
}

/// A color at a position along a gradient.
#[derive(Clone, Copy, PartialEq, Eq, Debug)]
pub struct GradientStop<S> {
    pub color: Color,
    pub position: S,
}

/// The axis of a gradient.
#[derive(Clone, Copy, PartialEq, Eq, Debug, Structural)]
pub enum GradientDirection {
    /// Top to bottom.
    Vertical,
    /// Left to right.
    Horizontal,
}

/// One primitive of a scene.
#[derive(Clone, PartialEq, Eq, Debug)]
pub enum DisplayItem<S> {
    /// A filled, optionally rounded, box.
    Rect { rect: Rect<S>, color: Color, radius: S },
    /// A run of shaped glyphs.
    Glyphs { glyphs: Vec<Glyph<S>>, color: Color },
    /// A run of text in the baked font.
    Text { origin: Point<S>, text: String, color: Color, size: S, box_w: S, align: S },
    /// A stroked frame.
    Border { rect: Rect<S>, color: Color, width: S, radius: S },
    /// A linear-gradient fill.
    Gradient { rect: Rect<S>, stops: Vec<GradientStop<S>>, direction: GradientDirection },
    /// A drop shadow.
    Shadow { rect: Rect<S>, color: Color, blur: S, offset: Point<S> },
    /// Mask what follows to a box, until the matching [`DisplayItem::PopClip`].
    PushClip { rect: Rect<S>, radius: S },
    /// End the innermost mask.
    PopClip,
}

/// What a [`DisplayItem`] says.
pub ghost enum ItemView<S> {
    Rect { rect: Rect<S>, color: Color, radius: S },
    Glyphs { glyphs: Seq<Glyph<S>>, color: Color },
    Text { origin: Point<S>, text: Seq<char>, color: Color, size: S, box_w: S, align: S },
    Border { rect: Rect<S>, color: Color, width: S, radius: S },
    Gradient { rect: Rect<S>, stops: Seq<GradientStop<S>>, direction: GradientDirection },
    Shadow { rect: Rect<S>, color: Color, blur: S, offset: Point<S> },
    PushClip { rect: Rect<S>, radius: S },
    PopClip,
}

impl<S> View for DisplayItem<S> {
    type V = ItemView<S>;

    open spec fn view(&self) -> ItemView<S> {
        match *self {
            DisplayItem::Rect { rect, color, radius } => ItemView::Rect { rect, color, radius },
            DisplayItem::Glyphs { glyphs, color } => ItemView::Glyphs { glyphs: glyphs@, color },
            DisplayItem::Text { origin, text, color, size, box_w, align } => ItemView::Text {
                origin,
                text: text@,
                color,
                size,
                box_w,
                align,
            },
            DisplayItem::Border { rect, color, width, radius } => ItemView::Border {
                rect,
                color,
                width,
                radius,
            },
            DisplayItem::Gradient { rect, stops, direction } => ItemView::Gradient {
                rect,
                stops: stops@,
                direction,
            },
            DisplayItem::Shadow { rect, color, blur, offset } => ItemView::Shadow {
                rect,
                color,
                blur,
                offset,
            },
            DisplayItem::PushClip { rect, radius } => ItemView::PushClip { rect, radius },
            DisplayItem::PopClip => ItemView::PopClip,
        }
    }
}

/// What the items of a sequence say.
pub open spec fn items_view<S>(items: Seq<DisplayItem<S>>) -> Seq<ItemView<S>> {
    Seq::new(items.len(), |i: int| items[i]@)
}

/// What a list of items says when an item is appended.
pub proof fn lemma_items_push<S>(items: Seq<DisplayItem<S>>, item: DisplayItem<S>)
    ensures
        items_view(items.push(item)) == items_view(items).push(item@),
{
    assert(items_view(items.push(item)) =~= items_view(items).push(item@));
}

/// A scene: primitives, back to front.
#[derive(Clone, PartialEq, Eq, Debug)]
pub struct DisplayList<S> {
    pub items: Vec<DisplayItem<S>>,
}

/// Where each node was laid out, in tree order.
#[derive(Clone, PartialEq, Eq, Debug)]
pub struct LayoutResult<S> {
    pub rects: Vec<(NodeId, Rect<S>)>,
}

/// Whether a box contains a point: its top and left edges belong to it, its bottom and right
/// edges do not.
pub open spec fn contains_point<S: Scalar>(rect: Rect<S>, p: Point<S>) -> bool {
    &&& rect.origin.x.s_at_most(p.x)
    &&& rect.origin.y.s_at_most(p.y)
    &&& p.x.s_less(rect.origin.x.s_plus(rect.size.w))
    &&& p.y.s_less(rect.origin.y.s_plus(rect.size.h))
}

/// Whether a box contains a point.
pub fn rect_contains<S: Scalar>(rect: &Rect<S>, point: Point<S>) -> (r: bool)
    ensures
        r == contains_point(*rect, point),
{
    rect.origin.x.at_most(point.x) && rect.origin.y.at_most(point.y) && point.x.less(
        rect.origin.x.plus(rect.size.w),
    ) && point.y.less(rect.origin.y.plus(rect.size.h))
}

/// The node whose box contains the point and stands last in `rects`.
pub open spec fn topmost<S: Scalar>(rects: Seq<(NodeId, Rect<S>)>, p: Point<S>) -> Option<NodeId>
    decreases rects.len(),
{
    if rects.len() == 0 {
        None
    } else if contains_point(rects.last().1, p) {
        Some(rects.last().0)
    } else {
        topmost(rects.drop_last(), p)
    }
}

/// The topmost node at a point: boxes are in tree order, parents before children and earlier
/// siblings before later ones, so the last that contains the point is on top.
pub fn hit_test<S: Scalar>(layout: &LayoutResult<S>, point: Point<S>) -> (r: Option<NodeId>)
    ensures
        r == topmost(layout.rects@, point),
{
    let mut n: usize = layout.rects.len();
    assert(layout.rects@.take(n as int) =~= layout.rects@);
    while n > 0
        invariant
            n <= layout.rects@.len(),
            topmost(layout.rects@, point) == topmost(layout.rects@.take(n as int), point),
        decreases n,
    {
        let ghost seen = layout.rects@.take(n as int);
        let (id, rect) = layout.rects[n - 1];
        if rect_contains(&rect, point) {
            return Some(id);
        }
        n -= 1;
        assert(seen.drop_last() =~= layout.rects@.take(n as int));
    }
    None
}

/// A hit is a node whose box contains the point, and no later box does; a miss means that no
/// box does.
pub proof fn law_hit_is_topmost<S: Scalar>(rects: Seq<(NodeId, Rect<S>)>, p: Point<S>)
    ensures
        match topmost(rects, p) {
            Some(id) => exists|i: int|
                0 <= i < rects.len() && (#[trigger] rects[i]).0 == id && contains_point(
                    rects[i].1,
                    p,
                ) && forall|j: int|
                    i < j < rects.len() ==> !contains_point((#[trigger] rects[j]).1, p),
            None => forall|j: int|
                0 <= j < rects.len() ==> !contains_point((#[trigger] rects[j]).1, p),
        },
    decreases rects.len(),
{
    if rects.len() > 0 {
        let init = rects.drop_last();
        let last = rects.last();
        if contains_point(last.1, p) {
            let i = rects.len() - 1;
            assert(rects[i] == last);
        } else {
            law_hit_is_topmost(init, p);
            match topmost(init, p) {
                Some(id) => {
                    let i = choose|i: int|
                        0 <= i < init.len() && (#[trigger] init[i]).0 == id && contains_point(
                            init[i].1,
                            p,
                        ) && forall|j: int|
                            i < j < init.len() ==> !contains_point((#[trigger] init[j]).1, p);
                    assert(rects[i] == init[i]);
                    assert forall|j: int| i < j < rects.len() implies !contains_point(
                        (#[trigger] rects[j]).1,
                        p,
                    ) by {
                        if j < init.len() {
                            assert(rects[j] == init[j]);
                        }
                    }
                },
                None => {
                    assert forall|j: int| 0 <= j < rects.len() implies !contains_point(
                        (#[trigger] rects[j]).1,
                        p,
                    ) by {
                        if j < init.len() {
                            assert(rects[j] == init[j]);
                        }
                    }
                },
            }
        }
    }
}

/// In whole pixels, a box contains the points from its origin on, as many across as it is wide and as
/// many down as it is high: the edges at the right and at the bottom are outside.
pub proof fn law_whole_boxes_contain_their_pixels(rect: Rect<Whole>, p: Point<Whole>)
    requires
        i64::MIN <= rect.origin.x.0 + rect.size.w.0 <= i64::MAX,
        i64::MIN <= rect.origin.y.0 + rect.size.h.0 <= i64::MAX,
    ensures
        contains_point(rect, p) <==> {
            &&& 0 <= p.x.0 - rect.origin.x.0 < rect.size.w.0
            &&& 0 <= p.y.0 - rect.origin.y.0 < rect.size.h.0
        },
{
}

/// A box put on top decides where it contains the point, and changes nothing elsewhere.
pub proof fn law_later_boxes_are_on_top<S: Scalar>(
    rects: Seq<(NodeId, Rect<S>)>,
    id: NodeId,
    rect: Rect<S>,
    p: Point<S>,
)
    ensures
        topmost(rects.push((id, rect)), p) == if contains_point(rect, p) {
            Some(id)
        } else {
            topmost(rects, p)
        },
{
    assert(rects.push((id, rect)).drop_last() =~= rects);
}

} // verus!
