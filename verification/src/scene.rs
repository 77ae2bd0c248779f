//! From laid-out boxes to a scene: what each node paints, and in which order.
//!
//! A node paints, back to front: its drop shadow, its background color, its background
//! gradient, its border, its text and the line on it, and its outline. Nodes are painted in
//! the order of their z-index, and those of equal z-index in tree order. What a node paints is
//! masked to the boxes of those of its ancestors that hide their overflow.
use crate::chars::{
    after_prefix, before_suffix, i32_value, parse_i32, runs_view, split, split_at_char, split_words,
    strip_prefix, strip_suffix, to_chars, trim, trimmed, words,
};
use crate::dom::Dom;
use crate::geometry::{
    items_view, lemma_items_push, Color, DisplayItem, GradientDirection, GradientStop, ItemView, Point,
    Rect, Size,
};
use crate::handles::{NodeId, PropId};
use crate::paint::{dim_or_zero, style_dim_or_zero};
use crate::props::{
    default_fg, default_ink, has_style, parse_color_alpha, px_of, rgba_of, rgba_value,
    style_color_alpha, style_is, style_of, style_px, BACKGROUND_IMAGE, BG, BORDER_COLOR,
    BORDER_WIDTH, BOX_SHADOW, FG, OUTLINE_COLOR, OUTLINE_OFFSET, OUTLINE_WIDTH, OVERFLOW, RADIUS,
    TEXT_DECORATION,
};
use crate::scalar::{Scalar, Whole};
use crate::style::{signed_px, signed_value};
use crate::tree::NodeView;
use vstd::prelude::*;

verus! {

/// A mask: a box with rounded corners.
#[derive(Clone, Copy, PartialEq, Eq, Debug)]
pub struct Clip<S> {
    pub rect: Rect<S>,
    pub radius: S,
}

/// A laid-out node with what it has inherited.
#[derive(PartialEq, Eq, Debug)]
pub struct PaintNode<S> {
    /// The node.
    pub id: NodeId,
    /// Its absolute box.
    pub rect: Rect<S>,
    /// Its opacity, that of its ancestors included.
    pub opacity: S,
    /// The color of its text.
    pub fg: Color,
    /// Where its text stands within its box, as a fraction.
    pub align: S,
    /// Whether it paints anything of its own.
    pub visible: bool,
    /// Its paint order.
    pub z_index: i32,
    /// The masks of its ancestors, outermost first.
    pub clips: Vec<Clip<S>>,
}

/// What a [`PaintNode`] says.
#[verifier::ext_equal]
pub ghost struct PaintView<S> {
    pub id: NodeId,
    pub rect: Rect<S>,
    pub opacity: S,
    pub fg: Color,
    pub align: S,
    pub visible: bool,
    pub z_index: i32,
    pub clips: Seq<Clip<S>>,
}

impl<S> View for PaintNode<S> {
    type V = PaintView<S>;

    open spec fn view(&self) -> PaintView<S> {
        PaintView {
            id: self.id,
            rect: self.rect,
            opacity: self.opacity,
            fg: self.fg,
            align: self.align,
            visible: self.visible,
            z_index: self.z_index,
            clips: self.clips@,
        }
    }
}

/// What the entries of a sequence say.
pub open spec fn paints_view<S>(s: Seq<PaintNode<S>>) -> Seq<PaintView<S>> {
    Seq::new(s.len(), |i: int| s[i]@)
}

/// What a list of entries says when an entry is appended.
pub proof fn lemma_paints_push<S>(s: Seq<PaintNode<S>>, p: PaintNode<S>)
    ensures
        paints_view(s.push(p)) == paints_view(s).push(p@),
{
    assert(paints_view(s.push(p)) =~= paints_view(s).push(p@));
}

/// `alpha` scaled by an opacity and rounded to the nearest byte; full opacity keeps it.
pub open spec fn scaled_alpha<S: Scalar>(alpha: u8, opacity: S) -> u8 {
    if S::s_whole(1).s_at_most(opacity) {
        alpha
    } else {
        let scaled = S::s_whole(alpha as u64).s_times(opacity).s_plus(S::s_ratio(1, 2)).s_to_u32();
        if scaled > 255 {
            255
        } else {
            scaled as u8
        }
    }
}

/// `alpha` scaled by an opacity.
pub fn scale_alpha<S: Scalar>(alpha: u8, opacity: S) -> (r: u8)
    ensures
        r == scaled_alpha(alpha, opacity),
{
    if S::whole(1).at_most(opacity) {
        return alpha;
    }
    let scaled: u32 = S::whole(alpha as u64).times(opacity).plus(S::ratio(1, 2)).to_u32();
    if scaled > 255 {
        255
    } else {
        scaled as u8
    }
}

/// A color whose alpha is scaled by an opacity.
pub open spec fn faded<S: Scalar>(color: Color, opacity: S) -> Color {
    Color { a: scaled_alpha(color.a, opacity), ..color }
}

/// A color whose alpha is scaled by an opacity.
pub fn fade<S: Scalar>(color: Color, opacity: S) -> (r: Color)
    ensures
        r == faded(color, opacity),
{
    Color { r: color.r, g: color.g, b: color.b, a: scale_alpha(color.a, opacity) }
}

/// A drop shadow.
#[derive(Clone, Copy, PartialEq, Eq, Debug)]
pub struct Shadow<S> {
    pub offset: Point<S>,
    pub blur: S,
    pub color: Color,
}

/// The drop shadow that `s` spells: two offsets, the blur, and the color, between white space.
pub open spec fn shadow_value<S: Scalar>(s: Seq<char>) -> Option<Shadow<S>> {
    let w = words(s);
    if w.len() < 4 {
        None
    } else {
        match (
            signed_value::<S>(w[0]),
            signed_value::<S>(w[1]),
            signed_value::<S>(w[2]),
            rgba_value(w[3]),
        ) {
            (Some(x), Some(y), Some(blur), Some(color)) => Some(
                Shadow { offset: Point { x, y }, blur, color },
            ),
            _ => None,
        }
    }
}

/// Read a drop shadow.
pub fn parse_box_shadow<S: Scalar>(s: &str) -> (r: Option<Shadow<S>>)
    ensures
        r == shadow_value::<S>(s@),
{
    let chars = to_chars(s);
    let w = split_words(chars.as_slice());
    assert(runs_view(w@) == words(s@));
    assert(w@.len() == words(s@).len());
    if w.len() < 4 {
        return None;
    }
    assert(words(s@)[0] == w@[0]@);
    assert(words(s@)[1] == w@[1]@);
    assert(words(s@)[2] == w@[2]@);
    assert(words(s@)[3] == w@[3]@);
    match (
        signed_px::<S>(w[0].as_slice()),
        signed_px::<S>(w[1].as_slice()),
        signed_px::<S>(w[2].as_slice()),
        parse_color_alpha(w[3].as_slice()),
    ) {
        (Some(x), Some(y), Some(blur), Some(color)) => Some(
            Shadow { offset: Point { x, y }, blur, color },
        ),
        _ => None,
    }
}

/// The axis that an angle in degrees comes closest to.
pub open spec fn direction_at(deg: i32) -> GradientDirection {
    if deg <= 45 || 135 <= deg <= 225 || deg >= 315 {
        GradientDirection::Vertical
    } else {
        GradientDirection::Horizontal
    }
}

/// The axis that an angle in degrees comes closest to.
pub fn gradient_direction(deg: i32) -> (r: GradientDirection)
    ensures
        r == direction_at(deg),
{
    if deg <= 45 || (135 <= deg && deg <= 225) || deg >= 315 {
        GradientDirection::Vertical
    } else {
        GradientDirection::Horizontal
    }
}

/// The colors that the pieces spell; what spells none is left out.
pub open spec fn colors_of(pieces: Seq<Seq<char>>) -> Seq<Color>
    decreases pieces.len(),
{
    if pieces.len() == 0 {
        seq![]
    } else {
        match rgba_value(trimmed(pieces.last())) {
            Some(c) => colors_of(pieces.drop_last()).push(c),
            None => colors_of(pieces.drop_last()),
        }
    }
}

/// Colors at even distances from the start to the end.
pub open spec fn even_stops<S: Scalar>(colors: Seq<Color>) -> Seq<GradientStop<S>> {
    Seq::new(
        colors.len(),
        |i: int|
            GradientStop {
                color: colors[i],
                position: if colors.len() == 1 {
                    S::s_whole(0)
                } else {
                    S::s_whole(i as u64).s_over(S::s_whole((colors.len() - 1) as u64))
                },
            },
    )
}

/// The gradient that `s` spells: `linear-gradient(<degrees>, <color>, ..)` with at least one
/// color.
pub open spec fn gradient_value<S: Scalar>(s: Seq<char>) -> Option<
    (Seq<GradientStop<S>>, GradientDirection),
> {
    match after_prefix(trimmed(s), "linear-gradient("@) {
        Some(t) => match before_suffix(t, ")"@) {
            Some(inner) => {
                let pieces = split_at_char(inner, ',');
                let colors = colors_of(pieces.skip(1));
                match i32_value(trimmed(pieces[0])) {
                    Some(deg) => if colors.len() == 0 {
                        None
                    } else {
                        Some((even_stops::<S>(colors), direction_at(deg)))
                    },
                    None => None,
                }
            },
            None => None,
        },
        None => None,
    }
}

proof fn lemma_split_is_not_empty(s: Seq<char>, sep: char)
    ensures
        split_at_char(s, sep).len() > 0,
    decreases s.len(),
{
    if s.len() > 0 {
        lemma_split_is_not_empty(s.drop_last(), sep);
    }
}

fn parse_colors(pieces: &Vec<Vec<char>>) -> (r: Vec<Color>)
    requires
        pieces@.len() > 0,
    ensures
        r@ == colors_of(runs_view(pieces@).skip(1)),
        r@.len() <= pieces@.len(),
{
    let ghost rest = runs_view(pieces@).skip(1);
    let mut colors: Vec<Color> = Vec::new();
    let mut i: usize = 1;
    assert(rest.take(0) =~= seq![]);
    while i < pieces.len()
        invariant
            1 <= i <= pieces@.len(),
            rest == runs_view(pieces@).skip(1),
            colors@ == colors_of(rest.take(i - 1)),
            colors@.len() < i,
        decreases pieces@.len() - i,
    {
        proof {
            assert(rest.take(i as int).drop_last() =~= rest.take(i - 1));
            assert(rest.take(i as int).last() == pieces@[i as int]@);
        }
        if let Some(c) = parse_color_alpha(trim(pieces[i].as_slice())) {
            colors.push(c);
        }
        i += 1;
    }
    assert(rest.take(i - 1) =~= rest);
    colors
}

/// Read a gradient.
pub fn parse_linear_gradient<S: Scalar>(s: &str) -> (r: Option<
    (Vec<GradientStop<S>>, GradientDirection),
>)
    ensures
        match r {
            Some((stops, direction)) => gradient_value::<S>(s@) == Some((stops@, direction)),
            None => gradient_value::<S>(s@) is None,
        },
{
    let chars = to_chars(s);
    let inner = match strip_prefix(trim(chars.as_slice()), "linear-gradient(") {
        Some(t) => match strip_suffix(t, ")") {
            Some(inner) => inner,
            None => {
                return None;
            },
        },
        None => {
            return None;
        },
    };
    let pieces = split(inner, ',');
    proof {
        lemma_split_is_not_empty(inner@, ',');
        assert(pieces@.len() == split_at_char(inner@, ',').len());
        assert(split_at_char(inner@, ',')[0] == pieces@[0]@);
    }
    let deg: i32 = match parse_i32(trim(pieces[0].as_slice())) {
        Some(deg) => deg,
        None => {
            return None;
        },
    };
    let colors = parse_colors(&pieces);
    if colors.len() == 0 {
        return None;
    }
    let n: usize = colors.len();
    let mut stops: Vec<GradientStop<S>> = Vec::new();
    let mut i: usize = 0;
    while i < n
        invariant
            i <= n,
            n == colors@.len(),
            n > 0,
            stops@ == even_stops::<S>(colors@).take(i as int),
        decreases n - i,
    {
        let position = if n == 1 {
            S::whole(0)
        } else {
            S::whole(i as u64).over(S::whole((n - 1) as u64))
        };
        stops.push(GradientStop { color: colors[i], position });
        i += 1;
        assert(stops@ =~= even_stops::<S>(colors@).take(i as int));
    }
    assert(even_stops::<S>(colors@).take(n as int) =~= even_stops::<S>(colors@));
    Some((stops, gradient_direction(deg)))
}

/// Whether a node masks what its descendants paint to its own box.
pub open spec fn hides_overflow(nodes: Map<u64, NodeView>, n: NodeId) -> bool {
    ||| style_is(nodes, n, OVERFLOW, "hidden"@)
    ||| style_is(nodes, n, OVERFLOW, "clip"@)
    ||| style_is(nodes, n, OVERFLOW, "scroll"@)
}

/// Whether a node masks what its descendants paint to its own box.
pub fn clips_overflow(dom: &Dom, node: NodeId) -> (r: bool)
    ensures
        r == hides_overflow(dom@.nodes, node),
{
    has_style(dom, node, OVERFLOW, "hidden") || has_style(dom, node, OVERFLOW, "clip") || has_style(
        dom,
        node,
        OVERFLOW,
        "scroll",
    )
}

/// The drop shadow of a node.
pub open spec fn shadow_items<S: Scalar>(
    nodes: Map<u64, NodeView>,
    n: NodeId,
    rect: Rect<S>,
    opacity: S,
) -> Seq<ItemView<S>> {
    match style_of(nodes, n, BOX_SHADOW) {
        Some(s) => match shadow_value::<S>(s) {
            Some(shadow) => seq![
                ItemView::Shadow {
                    rect,
                    color: faded(shadow.color, opacity),
                    blur: shadow.blur,
                    offset: shadow.offset,
                },
            ],
            None => seq![],
        },
        None => seq![],
    }
}

fn push_shadow<S: Scalar>(
    dom: &Dom,
    id: NodeId,
    rect: Rect<S>,
    opacity: S,
    out: &mut Vec<DisplayItem<S>>,
)
    ensures
        items_view(final(out)@) == items_view(old(out)@) + shadow_items(dom@.nodes, id, rect, opacity),
{
    if let Some(s) = dom.style(id, PropId(BOX_SHADOW)) {
        if let Some(shadow) = parse_box_shadow::<S>(s) {
            let item = DisplayItem::Shadow {
                rect,
                color: fade(shadow.color, opacity),
                blur: shadow.blur,
                offset: shadow.offset,
            };
            proof {
                lemma_items_push(out@, item);
            }
            out.push(item);
        }
    }
    assert(items_view(out@) =~= items_view(old(out)@) + shadow_items(dom@.nodes, id, rect, opacity));
}

/// The background color of a node.
pub open spec fn fill_items<S: Scalar>(
    nodes: Map<u64, NodeView>,
    n: NodeId,
    rect: Rect<S>,
    opacity: S,
) -> Seq<ItemView<S>> {
    match rgba_of(nodes, n, BG) {
        Some(bg) => seq![
            ItemView::Rect {
                rect,
                color: faded(bg, opacity),
                radius: dim_or_zero(nodes, n, RADIUS),
            },
        ],
        None => seq![],
    }
}

fn push_fill<S: Scalar>(
    dom: &Dom,
    id: NodeId,
    rect: Rect<S>,
    opacity: S,
    out: &mut Vec<DisplayItem<S>>,
)
    ensures
        items_view(final(out)@) == items_view(old(out)@) + fill_items(dom@.nodes, id, rect, opacity),
{
    if let Some(bg) = style_color_alpha(dom, id, BG) {
        let item = DisplayItem::Rect {
            rect,
            color: fade(bg, opacity),
            radius: style_dim_or_zero(dom, id, RADIUS),
        };
        proof {
            lemma_items_push(out@, item);
        }
        out.push(item);
    }
    assert(items_view(out@) =~= items_view(old(out)@) + fill_items(dom@.nodes, id, rect, opacity));
}

/// Stops whose colors are faded.
pub open spec fn faded_stops<S: Scalar>(stops: Seq<GradientStop<S>>, opacity: S) -> Seq<
    GradientStop<S>,
> {
    Seq::new(
        stops.len(),
        |i: int| GradientStop { color: faded(stops[i].color, opacity), position: stops[i].position },
    )
}

/// The background gradient of a node.
pub open spec fn gradient_items<S: Scalar>(
    nodes: Map<u64, NodeView>,
    n: NodeId,
    rect: Rect<S>,
    opacity: S,
) -> Seq<ItemView<S>> {
    match style_of(nodes, n, BACKGROUND_IMAGE) {
        Some(s) => match gradient_value::<S>(s) {
            Some((stops, direction)) => seq![
                ItemView::Gradient { rect, stops: faded_stops(stops, opacity), direction },
            ],
            None => seq![],
        },
        None => seq![],
    }
}

fn push_gradient<S: Scalar>(
    dom: &Dom,
    id: NodeId,
    rect: Rect<S>,
    opacity: S,
    out: &mut Vec<DisplayItem<S>>,
)
    ensures
        items_view(final(out)@) == items_view(old(out)@) + gradient_items(
            dom@.nodes,
            id,
            rect,
            opacity,
        ),
{
    if let Some(s) = dom.style(id, PropId(BACKGROUND_IMAGE)) {
        if let Some((stops, direction)) = parse_linear_gradient::<S>(s) {
            let mut faint: Vec<GradientStop<S>> = Vec::new();
            let mut i: usize = 0;
            while i < stops.len()
                invariant
                    i <= stops@.len(),
                    faint@ == faded_stops(stops@, opacity).take(i as int),
                decreases stops@.len() - i,
            {
                faint.push(
                    GradientStop {
                        color: fade(stops[i].color, opacity),
                        position: stops[i].position,
                    },
                );
                i += 1;
                assert(faint@ =~= faded_stops(stops@, opacity).take(i as int));
            }
            assert(faint@ =~= faded_stops(stops@, opacity));
            let item = DisplayItem::Gradient { rect, stops: faint, direction };
            proof {
                lemma_items_push(out@, item);
            }
            out.push(item);
        }
    }
    assert(items_view(out@) =~= items_view(old(out)@) + gradient_items(
        dom@.nodes,
        id,
        rect,
        opacity,
    ));
}

/// The border of a node: it needs a width and a color.
pub open spec fn border_items<S: Scalar>(
    nodes: Map<u64, NodeView>,
    n: NodeId,
    rect: Rect<S>,
    opacity: S,
) -> Seq<ItemView<S>> {
    match (px_of(nodes, n, BORDER_WIDTH), rgba_of(nodes, n, BORDER_COLOR)) {
        (Some(width), Some(color)) => if width == 0 {
            seq![]
        } else {
            seq![
                ItemView::Border {
                    rect,
                    color: faded(color, opacity),
                    width: S::s_whole(width as u64),
                    radius: dim_or_zero(nodes, n, RADIUS),
                },
            ]
        },
        _ => seq![],
    }
}

fn push_border<S: Scalar>(
    dom: &Dom,
    id: NodeId,
    rect: Rect<S>,
    opacity: S,
    out: &mut Vec<DisplayItem<S>>,
)
    ensures
        items_view(final(out)@) == items_view(old(out)@) + border_items(dom@.nodes, id, rect, opacity),
{
    if let Some(width) = style_px(dom, id, BORDER_WIDTH) {
        if width != 0 {
            if let Some(color) = style_color_alpha(dom, id, BORDER_COLOR) {
                let item = DisplayItem::Border {
                    rect,
                    color: fade(color, opacity),
                    width: S::whole(width as u64),
                    radius: style_dim_or_zero(dom, id, RADIUS),
                };
                proof {
                    lemma_items_push(out@, item);
                }
                out.push(item);
            }
        }
    }
    assert(items_view(out@) =~= items_view(old(out)@) + border_items(dom@.nodes, id, rect, opacity));
}

/// How thick the line on a text of the given height is: a sixteenth of it, at least a pixel.
pub open spec fn line_thickness<S: Scalar>(font_size: S) -> S {
    let whole = font_size.s_over(S::s_whole(16)).s_to_u32();
    S::s_whole(
        (if whole < 1 {
            1
        } else {
            whole
        }) as u64,
    )
}

/// The line on a text: under it, or through its middle.
pub open spec fn decoration_items<S: Scalar>(
    nodes: Map<u64, NodeView>,
    n: NodeId,
    rect: Rect<S>,
    color: Color,
) -> Seq<ItemView<S>> {
    let under = style_is(nodes, n, TEXT_DECORATION, "underline"@);
    let through = style_is(nodes, n, TEXT_DECORATION, "line-through"@);
    let thickness = line_thickness(rect.size.h);
    let y = if under {
        rect.origin.y.s_plus(rect.size.h).s_minus(thickness)
    } else {
        rect.origin.y.s_plus(rect.size.h.s_minus(thickness).s_over(S::s_whole(2)))
    };
    if under || through {
        seq![
            ItemView::Rect {
                rect: Rect {
                    origin: Point { x: rect.origin.x, y },
                    size: Size { w: rect.size.w, h: thickness },
                },
                color,
                radius: S::s_whole(0),
            },
        ]
    } else {
        seq![]
    }
}

fn push_text_decoration<S: Scalar>(
    dom: &Dom,
    id: NodeId,
    rect: Rect<S>,
    color: Color,
    out: &mut Vec<DisplayItem<S>>,
)
    ensures
        items_view(final(out)@) == items_view(old(out)@) + decoration_items(
            dom@.nodes,
            id,
            rect,
            color,
        ),
{
    let under = has_style(dom, id, TEXT_DECORATION, "underline");
    let through = has_style(dom, id, TEXT_DECORATION, "line-through");
    if under || through {
        let font_size = rect.size.h;
        let whole: u32 = font_size.over(S::whole(16)).to_u32();
        let thickness = S::whole(
            (if whole < 1 {
                1
            } else {
                whole
            }) as u64,
        );
        let y = if under {
            rect.origin.y.plus(font_size).minus(thickness)
        } else {
            rect.origin.y.plus(font_size.minus(thickness).over(S::whole(2)))
        };
        let item = DisplayItem::Rect {
            rect: Rect {
                origin: Point { x: rect.origin.x, y },
                size: Size { w: rect.size.w, h: thickness },
            },
            color,
            radius: S::whole(0),
        };
        proof {
            lemma_items_push(out@, item);
        }
        out.push(item);
    }
    assert(items_view(out@) =~= items_view(old(out)@) + decoration_items(
        dom@.nodes,
        id,
        rect,
        color,
    ));
}

/// The text of a node and the line on it.
pub open spec fn text_items<S: Scalar>(nodes: Map<u64, NodeView>, p: PaintView<S>) -> Seq<ItemView<S>> {
    let color = faded(p.fg, p.opacity);
    match nodes[p.id.0].text {
        Some(text) => seq![
            ItemView::Text {
                origin: p.rect.origin,
                text,
                color,
                size: p.rect.size.h,
                box_w: p.rect.size.w,
                align: p.align,
            },
        ] + decoration_items(nodes, p.id, p.rect, color),
        None => seq![],
    }
}

/// The color of an outline: its own, else that of the text, else the default ink.
pub open spec fn outline_color(nodes: Map<u64, NodeView>, n: NodeId) -> Color {
    match rgba_of(nodes, n, OUTLINE_COLOR) {
        Some(c) => c,
        None => match rgba_of(nodes, n, FG) {
            Some(c) => c,
            None => default_ink(),
        },
    }
}

/// How far an outline stands off the box; negative is inward.
pub open spec fn outline_offset<S: Scalar>(nodes: Map<u64, NodeView>, n: NodeId) -> S {
    match style_of(nodes, n, OUTLINE_OFFSET) {
        Some(s) => match signed_value::<S>(s) {
            Some(v) => v,
            None => S::s_whole(0),
        },
        None => S::s_whole(0),
    }
}

/// A box grown by `d` on every side.
pub open spec fn inflated<S: Scalar>(rect: Rect<S>, d: S) -> Rect<S> {
    Rect {
        origin: Point { x: rect.origin.x.s_minus(d), y: rect.origin.y.s_minus(d) },
        size: Size {
            w: rect.size.w.s_plus(d.s_times(S::s_whole(2))),
            h: rect.size.h.s_plus(d.s_times(S::s_whole(2))),
        },
    }
}

/// The outline of a node: it needs a width.
pub open spec fn outline_items<S: Scalar>(
    nodes: Map<u64, NodeView>,
    n: NodeId,
    rect: Rect<S>,
    opacity: S,
) -> Seq<ItemView<S>> {
    match px_of(nodes, n, OUTLINE_WIDTH) {
        Some(width) => if width == 0 {
            seq![]
        } else {
            seq![
                ItemView::Border {
                    rect: inflated(rect, outline_offset::<S>(nodes, n)),
                    color: faded(outline_color(nodes, n), opacity),
                    width: S::s_whole(width as u64),
                    radius: dim_or_zero(nodes, n, RADIUS),
                },
            ]
        },
        None => seq![],
    }
}

fn push_outline<S: Scalar>(
    dom: &Dom,
    id: NodeId,
    rect: Rect<S>,
    opacity: S,
    out: &mut Vec<DisplayItem<S>>,
)
    ensures
        items_view(final(out)@) == items_view(old(out)@) + outline_items(dom@.nodes, id, rect, opacity),
{
    if let Some(width) = style_px(dom, id, OUTLINE_WIDTH) {
        if width != 0 {
            let color = match style_color_alpha(dom, id, OUTLINE_COLOR) {
                Some(c) => c,
                None => match style_color_alpha(dom, id, FG) {
                    Some(c) => c,
                    None => default_fg(),
                },
            };
            let offset = match dom.style(id, PropId(OUTLINE_OFFSET)) {
                Some(s) => {
                    let chars = to_chars(s);
                    match signed_px::<S>(chars.as_slice()) {
                        Some(v) => v,
                        None => S::whole(0),
                    }
                },
                None => S::whole(0),
            };
            let both = offset.times(S::whole(2));
            let item = DisplayItem::Border {
                rect: Rect {
                    origin: Point { x: rect.origin.x.minus(offset), y: rect.origin.y.minus(offset) },
                    size: Size { w: rect.size.w.plus(both), h: rect.size.h.plus(both) },
                },
                color: fade(color, opacity),
                width: S::whole(width as u64),
                radius: style_dim_or_zero(dom, id, RADIUS),
            };
            proof {
                lemma_items_push(out@, item);
            }
            out.push(item);
        }
    }
    assert(items_view(out@) =~= items_view(old(out)@) + outline_items(dom@.nodes, id, rect, opacity));
}

/// What a node paints itself, back to front.
pub open spec fn own_items<S: Scalar>(nodes: Map<u64, NodeView>, p: PaintView<S>) -> Seq<ItemView<S>> {
    shadow_items(nodes, p.id, p.rect, p.opacity) + fill_items(nodes, p.id, p.rect, p.opacity)
        + gradient_items(nodes, p.id, p.rect, p.opacity) + border_items(
        nodes,
        p.id,
        p.rect,
        p.opacity,
    ) + text_items(nodes, p) + outline_items(nodes, p.id, p.rect, p.opacity)
}

/// What begins the masks, outermost first.
pub open spec fn mask_begins<S>(clips: Seq<Clip<S>>) -> Seq<ItemView<S>> {
    Seq::new(
        clips.len(),
        |i: int| ItemView::PushClip { rect: clips[i].rect, radius: clips[i].radius },
    )
}

/// What ends `n` masks.
pub open spec fn mask_ends<S>(n: nat) -> Seq<ItemView<S>> {
    Seq::new(n, |i: int| ItemView::PopClip)
}

/// Items within masks; nothing stays nothing.
pub open spec fn masked<S>(clips: Seq<Clip<S>>, items: Seq<ItemView<S>>) -> Seq<ItemView<S>> {
    if items.len() == 0 {
        seq![]
    } else {
        mask_begins(clips) + items + mask_ends(clips.len())
    }
}

/// What a node adds to the scene.
pub open spec fn node_items<S: Scalar>(nodes: Map<u64, NodeView>, p: PaintView<S>) -> Seq<ItemView<S>> {
    if nodes.contains_key(p.id.0) && p.visible {
        masked(p.clips, own_items(nodes, p))
    } else {
        seq![]
    }
}

/// The indices `order` with `x` put behind the last that does not come after it.
pub open spec fn placed(order: Seq<int>, zs: Seq<i32>, x: int) -> Seq<int>
    decreases order.len(),
{
    if order.len() == 0 || zs[order.last()] <= zs[x] {
        order.push(x)
    } else {
        placed(order.drop_last(), zs, x).push(order.last())
    }
}

/// The first `n` indices in paint order: by z-index, and by index where it is equal.
pub open spec fn paint_order(zs: Seq<i32>, n: nat) -> Seq<int>
    decreases n,
{
    if n == 0 {
        seq![]
    } else {
        placed(paint_order(zs, (n - 1) as nat), zs, n - 1)
    }
}

/// Whether `order` holds each of the first `n` indices once, sorted by z-index and then by
/// index.
pub open spec fn is_paint_order(order: Seq<int>, zs: Seq<i32>, n: nat) -> bool {
    &&& order.len() == n
    &&& order.no_duplicates()
    &&& forall|k: int| 0 <= k < n ==> 0 <= #[trigger] order[k] < n
    &&& forall|k: int, l: int|
        0 <= k < l < n ==> {
            ||| zs[#[trigger] order[k]] < zs[#[trigger] order[l]]
            ||| zs[order[k]] == zs[order[l]] && order[k] < order[l]
        }
}

proof fn lemma_placed(order: Seq<int>, zs: Seq<i32>, x: int)
    requires
        order.no_duplicates(),
        forall|k: int| 0 <= k < order.len() ==> 0 <= #[trigger] order[k] < x,
        forall|k: int, l: int|
            0 <= k < l < order.len() ==> {
                ||| zs[#[trigger] order[k]] < zs[#[trigger] order[l]]
                ||| zs[order[k]] == zs[order[l]] && order[k] < order[l]
            },
    ensures
        ({
            let out = placed(order, zs, x);
            &&& out.len() == order.len() + 1
            &&& out.no_duplicates()
            &&& forall|k: int| 0 <= k < out.len() ==> #[trigger] out[k] == x || order.contains(out[k])
            &&& forall|k: int, l: int|
                0 <= k < l < out.len() ==> {
                    ||| zs[#[trigger] out[k]] < zs[#[trigger] out[l]]
                    ||| zs[out[k]] == zs[out[l]] && out[k] < out[l]
                }
        }),
    decreases order.len(),
{
    let out = placed(order, zs, x);
    if order.len() == 0 || zs[order.last()] <= zs[x] {
        assert forall|k: int| 0 <= k < out.len() implies #[trigger] out[k] == x || order.contains(
            out[k],
        ) by {
            if k < order.len() {
                assert(out[k] == order[k]);
            }
        }
        assert forall|k: int, l: int| 0 <= k < l < out.len() implies {
            ||| zs[#[trigger] out[k]] < zs[#[trigger] out[l]]
            ||| zs[out[k]] == zs[out[l]] && out[k] < out[l]
        } by {
            assert(out[k] == order[k]);
            if l < order.len() {
                assert(out[l] == order[l]);
            } else {
                assert(order.last() == order[order.len() - 1]);
            }
        }
    } else {
        let init = order.drop_last();
        assert forall|k: int| 0 <= k < init.len() implies 0 <= #[trigger] init[k] < x by {
            assert(init[k] == order[k]);
        }
        assert forall|k: int, l: int| 0 <= k < l < init.len() implies {
            ||| zs[#[trigger] init[k]] < zs[#[trigger] init[l]]
            ||| zs[init[k]] == zs[init[l]] && init[k] < init[l]
        } by {
            assert(init[k] == order[k]);
            assert(init[l] == order[l]);
        }
        lemma_placed(init, zs, x);
        let part = placed(init, zs, x);
        let last = order.last();
        assert(last == order[order.len() - 1]);
        assert forall|k: int| 0 <= k < out.len() implies #[trigger] out[k] == x || order.contains(
            out[k],
        ) by {
            if k < part.len() {
                assert(out[k] == part[k]);
                if part[k] != x {
                    let j = choose|j: int| 0 <= j < init.len() && init[j] == part[k];
                    assert(order[j] == part[k]);
                }
            } else {
                assert(out[k] == last);
            }
        }
        assert forall|k: int, l: int| 0 <= k < l < out.len() implies {
            ||| zs[#[trigger] out[k]] < zs[#[trigger] out[l]]
            ||| zs[out[k]] == zs[out[l]] && out[k] < out[l]
        } by {
            assert(out[k] == part[k]);
            if l < part.len() {
                assert(out[l] == part[l]);
            } else {
                assert(out[l] == last);
                if part[k] != x {
                    let j = choose|j: int| 0 <= j < init.len() && init[j] == part[k];
                    assert(order[j] == part[k]);
                }
            }
        }
    }
}

/// Nodes are painted in the order of their z-index, higher ones later, and those of equal
/// z-index in tree order; each is painted once.
pub proof fn law_paint_order_is_stable(zs: Seq<i32>, n: nat)
    ensures
        is_paint_order(paint_order(zs, n), zs, n),
    decreases n,
{
    if n > 0 {
        let m = (n - 1) as nat;
        law_paint_order_is_stable(zs, m);
        let order = paint_order(zs, m);
        lemma_placed(order, zs, n - 1);
        let out = paint_order(zs, n);
        assert forall|k: int| 0 <= k < n implies 0 <= #[trigger] out[k] < n by {
            if out[k] != n - 1 {
                let j = choose|j: int| 0 <= j < order.len() && order[j] == out[k];
                assert(0 <= order[j] < m);
            }
        }
    }
}

/// There is only one such order.
pub proof fn law_paint_order_is_unique(order: Seq<int>, zs: Seq<i32>, n: nat)
    requires
        is_paint_order(order, zs, n),
    ensures
        order == paint_order(zs, n),
    decreases n,
{
    law_paint_order_is_stable(zs, n);
    if n > 0 {
        let m = (n - 1) as nat;
        let at = order.index_of(n - 1);
        lemma_order_holds_all(order, zs, n, n - 1);
        let less = order.remove(at);
        lemma_remove_from_order(order, zs, n, at);
        law_paint_order_is_unique(less, zs, m);
        lemma_placed_at(less, zs, n - 1, at, order);
    } else {
        assert(order =~= paint_order(zs, n));
    }
}

proof fn lemma_order_holds_all(order: Seq<int>, zs: Seq<i32>, n: nat, x: int)
    requires
        is_paint_order(order, zs, n),
        0 <= x < n,
    ensures
        order.contains(x),
{
    let all = Set::<int>::range(0, n as int);
    vstd::set_lib::range_set_properties::<int>(0, n as int);
    order.unique_seq_to_set();
    let held = order.to_set();
    assert(held.subset_of(all)) by {
        assert forall|y: int| held.contains(y) implies all.contains(y) by {
            let k = choose|k: int| 0 <= k < order.len() && order[k] == y;
            assert(0 <= order[k] < n);
        }
    }
    vstd::set_lib::lemma_subset_equality(held, all);
    assert(all.contains(x));
}

proof fn lemma_remove_from_order(order: Seq<int>, zs: Seq<i32>, n: nat, at: int)
    requires
        n > 0,
        is_paint_order(order, zs, n),
        0 <= at < n,
        order[at] == n - 1,
    ensures
        is_paint_order(order.remove(at), zs, (n - 1) as nat),
{
    let less = order.remove(at);
    assert forall|k: int| 0 <= k < n - 1 implies 0 <= #[trigger] less[k] < n - 1 by {
        let j = if k < at {
            k
        } else {
            k + 1
        };
        assert(less[k] == order[j]);
        assert(order[j] != order[at]);
    }
    assert forall|k: int, l: int| 0 <= k < l < n - 1 implies {
        ||| zs[#[trigger] less[k]] < zs[#[trigger] less[l]]
        ||| zs[less[k]] == zs[less[l]] && less[k] < less[l]
    } by {
        let i = if k < at {
            k
        } else {
            k + 1
        };
        let j = if l < at {
            l
        } else {
            l + 1
        };
        assert(less[k] == order[i]);
        assert(less[l] == order[j]);
    }
    assert(less.no_duplicates()) by {
        assert forall|k: int, l: int| 0 <= k < less.len() && 0 <= l < less.len() && k != l implies less[k]
            != less[l] by {
            let i = if k < at {
                k
            } else {
                k + 1
            };
            let j = if l < at {
                l
            } else {
                l + 1
            };
            assert(less[k] == order[i]);
            assert(less[l] == order[j]);
        }
    }
}

proof fn lemma_placed_at(less: Seq<int>, zs: Seq<i32>, x: int, at: int, order: Seq<int>)
    requires
        order.len() == less.len() + 1,
        0 <= at < order.len(),
        order[at] == x,
        less == order.remove(at),
        forall|k: int| 0 <= k < order.len() && k != at ==> #[trigger] order[k] < x,
        forall|k: int, l: int|
            0 <= k < l < order.len() ==> {
                ||| zs[#[trigger] order[k]] < zs[#[trigger] order[l]]
                ||| zs[order[k]] == zs[order[l]] && order[k] < order[l]
            },
    ensures
        placed(less, zs, x) == order,
    decreases less.len(),
{
    if at == less.len() {
        assert(less =~= order.drop_last());
        assert(less.push(x) =~= order);
        if less.len() > 0 {
            let k = less.len() - 1;
            assert(order[k] == less.last());
            assert(order[at] == x);
        }
    } else {
        let k = less.len() as int;
        assert(less.last() == order[k]);
        assert(order[at] == x);
        assert(zs[order[at]] < zs[order[k]]);
        let shorter = order.drop_last();
        assert(less.drop_last() =~= shorter.remove(at));
        assert forall|k: int| 0 <= k < shorter.len() && k != at implies #[trigger] shorter[k] < x by {
            assert(shorter[k] == order[k]);
        }
        assert forall|k: int, l: int| 0 <= k < l < shorter.len() implies {
            ||| zs[#[trigger] shorter[k]] < zs[#[trigger] shorter[l]]
            ||| zs[shorter[k]] == zs[shorter[l]] && shorter[k] < shorter[l]
        } by {
            assert(shorter[k] == order[k]);
            assert(shorter[l] == order[l]);
        }
        lemma_placed_at(less.drop_last(), zs, x, at, shorter);
        assert(shorter.push(order.last()) =~= order);
    }
}

/// The z-indices of the entries.
pub open spec fn z_indices<S>(ps: Seq<PaintView<S>>) -> Seq<i32> {
    Seq::new(ps.len(), |i: int| ps[i].z_index)
}

/// What the entries at the given indices paint, one after the other.
pub open spec fn painted_in<S: Scalar>(
    nodes: Map<u64, NodeView>,
    ps: Seq<PaintView<S>>,
    order: Seq<int>,
) -> Seq<ItemView<S>>
    decreases order.len(),
{
    if order.len() == 0 {
        seq![]
    } else {
        painted_in(nodes, ps, order.drop_last()) + node_items(nodes, ps[order.last()])
    }
}

/// The scene of the given entries.
pub open spec fn scene_of<S: Scalar>(nodes: Map<u64, NodeView>, ps: Seq<PaintView<S>>) -> Seq<
    ItemView<S>,
> {
    painted_in(nodes, ps, paint_order(z_indices(ps), ps.len()))
}

/// Where the order stands, as mathematical indices.
pub open spec fn as_indices(s: Seq<usize>) -> Seq<int> {
    Seq::new(s.len(), |i: int| s[i] as int)
}

/// Put index `x` into `order`, behind the last that does not come after it.
fn place<S>(order: &mut Vec<usize>, paints: &Vec<PaintNode<S>>, x: usize)
    requires
        x < paints@.len(),
        forall|k: int| 0 <= k < old(order)@.len() ==> #[trigger] old(order)@[k] < paints@.len(),
    ensures
        as_indices(final(order)@) == placed(
            as_indices(old(order)@),
            z_indices(paints_view(paints@)),
            x as int,
        ),
        forall|k: int| 0 <= k < final(order)@.len() ==> #[trigger] final(order)@[k] < paints@.len(),
{
    let ghost zs = z_indices(paints_view(paints@));
    let ghost before = as_indices(order@);
    let mut at: usize = order.len();
    assert(before.take(at as int) =~= before);
    assert(placed(before, zs, x as int) =~= placed(before, zs, x as int) + before.skip(at as int));
    while at > 0 && paints[order[at - 1]].z_index > paints[x].z_index
        invariant
            at <= order@.len(),
            x < paints@.len(),
            before == as_indices(order@),
            zs == z_indices(paints_view(paints@)),
            forall|k: int| 0 <= k < order@.len() ==> #[trigger] order@[k] < paints@.len(),
            placed(before, zs, x as int) == placed(before.take(at as int), zs, x as int)
                + before.skip(at as int),
        decreases at,
    {
        proof {
            let head = before.take(at as int);
            assert(head.last() == order@[at - 1]);
            assert(head.drop_last() =~= before.take(at - 1));
            assert(placed(head, zs, x as int) + before.skip(at as int) =~= placed(
                head.drop_last(),
                zs,
                x as int,
            ) + before.skip(at - 1));
        }
        at -= 1;
    }
    proof {
        let head = before.take(at as int);
        if at > 0 {
            assert(head.last() == order@[at - 1]);
        }
        assert(placed(head, zs, x as int) == head.push(x as int));
    }
    order.insert(at, x);
    assert(as_indices(order@) =~= before.take(at as int).push(x as int) + before.skip(at as int));
}

fn sorted_by_z<S>(paints: &Vec<PaintNode<S>>) -> (r: Vec<usize>)
    ensures
        as_indices(r@) == paint_order(z_indices(paints_view(paints@)), paints@.len()),
        forall|k: int| 0 <= k < r@.len() ==> #[trigger] r@[k] < paints@.len(),
{
    let mut order: Vec<usize> = Vec::new();
    let mut i: usize = 0;
    assert(as_indices(order@) =~= seq![]);
    while i < paints.len()
        invariant
            i <= paints@.len(),
            as_indices(order@) == paint_order(z_indices(paints_view(paints@)), i as nat),
            forall|k: int| 0 <= k < order@.len() ==> #[trigger] order@[k] < paints@.len(),
        decreases paints@.len() - i,
    {
        place(&mut order, paints, i);
        i += 1;
    }
    order
}

proof fn lemma_six<A>(s: Seq<A>, a: Seq<A>, b: Seq<A>, c: Seq<A>, d: Seq<A>, e: Seq<A>, f: Seq<A>)
    ensures
        s + a + b + c + d + e + f == s + (a + b + c + d + e + f),
{
    assert(s + a + b + c + d + e + f =~= s + (a + b + c + d + e + f));
}

/// Append the text of a node and the line on it.
fn push_text<S: Scalar>(dom: &Dom, p: &PaintNode<S>, out: &mut Vec<DisplayItem<S>>)
    requires
        dom@.nodes.contains_key(p.id.0),
    ensures
        items_view(final(out)@) == items_view(old(out)@) + text_items(dom@.nodes, p@),
{
    if let Some(text) = dom.text_of(p.id) {
        let color = fade(p.fg, p.opacity);
        let item = DisplayItem::Text {
            origin: p.rect.origin,
            text: text.to_owned(),
            color,
            size: p.rect.size.h,
            box_w: p.rect.size.w,
            align: p.align,
        };
        proof {
            lemma_items_push(out@, item);
        }
        out.push(item);
        push_text_decoration(dom, p.id, p.rect, color, out);
    }
    assert(items_view(out@) =~= items_view(old(out)@) + text_items(dom@.nodes, p@));
}

/// Append what a node paints itself.
fn push_own<S: Scalar>(dom: &Dom, p: &PaintNode<S>, out: &mut Vec<DisplayItem<S>>)
    requires
        dom@.nodes.contains_key(p.id.0),
    ensures
        items_view(final(out)@) == items_view(old(out)@) + own_items(dom@.nodes, p@),
{
    proof {
        lemma_six(
            items_view(out@),
            shadow_items(dom@.nodes, p.id, p.rect, p.opacity),
            fill_items(dom@.nodes, p.id, p.rect, p.opacity),
            gradient_items(dom@.nodes, p.id, p.rect, p.opacity),
            border_items(dom@.nodes, p.id, p.rect, p.opacity),
            text_items(dom@.nodes, p@),
            outline_items(dom@.nodes, p.id, p.rect, p.opacity),
        );
    }
    push_shadow(dom, p.id, p.rect, p.opacity, out);
    push_fill(dom, p.id, p.rect, p.opacity, out);
    push_gradient(dom, p.id, p.rect, p.opacity, out);
    push_border(dom, p.id, p.rect, p.opacity, out);
    push_text(dom, p, out);
    push_outline(dom, p.id, p.rect, p.opacity, out);
}

/// Append items, within masks.
fn push_masked<S: Scalar>(
    clips: &Vec<Clip<S>>,
    items: &mut Vec<DisplayItem<S>>,
    out: &mut Vec<DisplayItem<S>>,
)
    ensures
        items_view(final(out)@) == items_view(old(out)@) + masked(clips@, items_view(old(items)@)),
        final(items)@.len() == 0,
{
    let ghost own = items_view(items@);
    if items.len() == 0 {
        assert(items_view(out@) =~= items_view(old(out)@) + masked(clips@, own));
        return;
    }
    let ghost start = items_view(out@);
    let mut i: usize = 0;
    assert(mask_begins(clips@).take(0) =~= seq![]);
    while i < clips.len()
        invariant
            i <= clips@.len(),
            items_view(out@) == start + mask_begins(clips@).take(i as int),
        decreases clips@.len() - i,
    {
        let item = DisplayItem::PushClip { rect: clips[i].rect, radius: clips[i].radius };
        proof {
            lemma_items_push(out@, item);
        }
        out.push(item);
        i += 1;
        assert(items_view(out@) =~= start + mask_begins(clips@).take(i as int));
    }
    assert(items_view(out@) =~= start + mask_begins(clips@));
    let ghost begun = out@;
    let ghost moved = items@;
    out.append(items);
    assert(items_view(out@) =~= items_view(begun) + items_view(moved));
    let ghost filled = items_view(out@);
    let mut i: usize = 0;
    assert(mask_ends::<S>(0) =~= seq![]);
    while i < clips.len()
        invariant
            i <= clips@.len(),
            items_view(out@) == filled + mask_ends(i as nat),
        decreases clips@.len() - i,
    {
        proof {
            lemma_items_push(out@, DisplayItem::PopClip);
        }
        out.push(DisplayItem::PopClip);
        i += 1;
        assert(items_view(out@) =~= filled + mask_ends(i as nat));
    }
    assert(items_view(out@) =~= start + masked(clips@, own));
}

/// Build the scene of laid-out nodes, given in tree order.
pub fn build_display_list<S: Scalar>(dom: &Dom, paints: &Vec<PaintNode<S>>) -> (r: Vec<DisplayItem<S>>)
    ensures
        items_view(r@) == scene_of(dom@.nodes, paints_view(paints@)),
{
    let order = sorted_by_z(paints);
    let ghost ps = paints_view(paints@);
    let ghost indices = as_indices(order@);
    let mut items: Vec<DisplayItem<S>> = Vec::new();
    let mut own: Vec<DisplayItem<S>> = Vec::new();
    let mut k: usize = 0;
    assert(indices.take(0) =~= seq![]);
    assert(items_view(items@) =~= seq![]);
    while k < order.len()
        invariant
            k <= order@.len(),
            indices == as_indices(order@),
            ps == paints_view(paints@),
            own@.len() == 0,
            forall|k: int| 0 <= k < order@.len() ==> #[trigger] order@[k] < paints@.len(),
            items_view(items@) == painted_in(dom@.nodes, ps, indices.take(k as int)),
        decreases order@.len() - k,
    {
        proof {
            assert(indices.take(k + 1).drop_last() =~= indices.take(k as int));
            assert(indices.take(k + 1).last() == order@[k as int]);
        }
        let ghost before = items_view(items@);
        let p = &paints[order[k]];
        if dom.contains(p.id) && p.visible {
            assert(items_view(own@) =~= seq![]);
            push_own(dom, p, &mut own);
            assert(items_view(own@) =~= own_items(dom@.nodes, p@));
            push_masked(&p.clips, &mut own, &mut items);
        }
        assert(items_view(items@) =~= before + node_items(dom@.nodes, p@));
        k += 1;
    }
    assert(indices.take(k as int) =~= indices);
    items
}

/// A hidden node paints nothing of its own; what others paint does not depend on it.
pub proof fn law_hidden_nodes_paint_nothing<S: Scalar>(nodes: Map<u64, NodeView>, p: PaintView<S>)
    requires
        !p.visible,
    ensures
        node_items(nodes, p) == Seq::<ItemView<S>>::empty(),
{
}

// ---------------------------------------------------------------------------------------
// What a scene looks like.
// ---------------------------------------------------------------------------------------

proof fn lemma_painted_split<S: Scalar>(
    nodes: Map<u64, NodeView>,
    ps: Seq<PaintView<S>>,
    order: Seq<int>,
    a: int,
) -> (rest: Seq<ItemView<S>>)
    requires
        0 <= a < order.len(),
    ensures
        painted_in(nodes, ps, order) == painted_in(nodes, ps, order.take(a)) + node_items(
            nodes,
            ps[order[a]],
        ) + rest,
        rest == painted_in(nodes, ps, order.skip(a + 1)),
    decreases order.len(),
{
    let init = order.drop_last();
    let last = order.last();
    let tail = order.skip(a + 1);
    if a == order.len() - 1 {
        assert(order.take(a) =~= init);
        assert(tail =~= seq![]);
        let rest = Seq::<ItemView<S>>::empty();
        assert(painted_in(nodes, ps, order) =~= painted_in(nodes, ps, init) + node_items(
            nodes,
            ps[last],
        ) + rest);
        rest
    } else {
        let part = lemma_painted_split(nodes, ps, init, a);
        assert(init.take(a) =~= order.take(a));
        assert(init[a] == order[a]);
        assert(tail.drop_last() =~= init.skip(a + 1));
        assert(tail.last() == last);
        let rest = part + node_items(nodes, ps[last]);
        assert(painted_in(nodes, ps, order) =~= painted_in(nodes, ps, order.take(a)) + node_items(
            nodes,
            ps[order[a]],
        ) + rest);
        rest
    }
}

proof fn lemma_regroup<A>(a: Seq<A>, b: Seq<A>, c: Seq<A>, d: Seq<A>, e: Seq<A>)
    ensures
        a + b + (c + d + e) == a + b + c + d + e,
{
    assert(a + b + (c + d + e) =~= a + b + c + d + e);
}

proof fn lemma_order_places<S>(ps: Seq<PaintView<S>>, i: int, j: int) -> (at: (int, int))
    requires
        0 <= i < ps.len(),
        0 <= j < ps.len(),
        ps[i].z_index < ps[j].z_index || ps[i].z_index == ps[j].z_index && i < j,
    ensures
        ({
            let order = paint_order(z_indices(ps), ps.len());
            &&& 0 <= at.0 < at.1 < order.len()
            &&& order[at.0] == i
            &&& order[at.1] == j
        }),
{
    let zs = z_indices(ps);
    let n = ps.len();
    let order = paint_order(zs, n);
    law_paint_order_is_stable(zs, n);
    lemma_order_holds_all(order, zs, n, i);
    lemma_order_holds_all(order, zs, n, j);
    let a = choose|a: int| 0 <= a < order.len() && order[a] == i;
    let b = choose|b: int| 0 <= b < order.len() && order[b] == j;
    if b < a {
        assert(zs[order[b]] < zs[order[a]] || zs[order[b]] == zs[order[a]] && order[b] < order[a]);
    }
    (a, b)
}

/// Of two nodes the one with the higher z-index is painted later, and where they are equal, the one
/// later in the tree. What is painted before both, between them and after both is returned.
pub proof fn law_higher_levels_are_painted_later<S: Scalar>(
    nodes: Map<u64, NodeView>,
    ps: Seq<PaintView<S>>,
    i: int,
    j: int,
) -> (around: (Seq<ItemView<S>>, Seq<ItemView<S>>, Seq<ItemView<S>>))
    requires
        0 <= i < ps.len(),
        0 <= j < ps.len(),
        ps[i].z_index < ps[j].z_index || ps[i].z_index == ps[j].z_index && i < j,
    ensures
        scene_of(nodes, ps) == around.0 + node_items(nodes, ps[i]) + around.1 + node_items(
            nodes,
            ps[j],
        ) + around.2,
{
    let order = paint_order(z_indices(ps), ps.len());
    let (a, b) = lemma_order_places(ps, i, j);
    let rest = lemma_painted_split(nodes, ps, order, a);
    let tail = order.skip(a + 1);
    let k = b - a - 1;
    assert(tail[k] == j);
    let last = lemma_painted_split(nodes, ps, tail, k);
    let first = painted_in(nodes, ps, order.take(a));
    let between = painted_in(nodes, ps, tail.take(k));
    lemma_regroup(first, node_items(nodes, ps[i]), between, node_items(nodes, ps[j]), last);
    (first, between, last)
}

/// A node that exists and is visible paints its own items within its masks, outermost first, and ends
/// as many masks as it began; without items it begins none. Others paint nothing.
pub proof fn law_masks_go_round_what_is_painted<S: Scalar>(nodes: Map<u64, NodeView>, p: PaintView<S>)
    ensures
        ({
            let all = node_items(nodes, p);
            let own = own_items(nodes, p);
            let m = p.clips.len() as int;
            let shown = nodes.contains_key(p.id.0) && p.visible && own.len() > 0;
            &&& !shown ==> all.len() == 0
            &&& shown ==> {
                &&& all.len() == m + own.len() + m
                &&& forall|k: int|
                    0 <= k < m ==> #[trigger] all[k] == (ItemView::PushClip {
                        rect: p.clips[k].rect,
                        radius: p.clips[k].radius,
                    })
                &&& all.subrange(m, m + own.len()) == own
                &&& forall|k: int|
                    m + own.len() <= k < all.len() ==> #[trigger] all[k] == ItemView::<S>::PopClip
            }
        }),
{
    let all = node_items(nodes, p);
    let own = own_items(nodes, p);
    let m = p.clips.len() as int;
    if nodes.contains_key(p.id.0) && p.visible && own.len() > 0 {
        assert(all.subrange(m, m + own.len()) =~= own);
    }
}

/// How many masks are begun and not ended after the first `n` items.
pub open spec fn masks_open<S>(items: Seq<ItemView<S>>, n: int) -> int
    decreases n,
{
    if n <= 0 {
        0
    } else {
        masks_open(items, n - 1) + match items[n - 1] {
            ItemView::PushClip { .. } => 1int,
            ItemView::PopClip => -1int,
            _ => 0int,
        }
    }
}

proof fn lemma_masks_open_add<S>(a: Seq<ItemView<S>>, b: Seq<ItemView<S>>, n: int)
    requires
        0 <= n <= a.len() + b.len(),
    ensures
        n <= a.len() ==> masks_open(a + b, n) == masks_open(a, n),
        n >= a.len() ==> masks_open(a + b, n) == masks_open(a, a.len() as int) + masks_open(
            b,
            n - a.len(),
        ),
    decreases n,
{
    if n > 0 {
        lemma_masks_open_add(a, b, n - 1);
        if n <= a.len() {
            assert((a + b)[n - 1] == a[n - 1]);
        } else {
            assert((a + b)[n - 1] == b[n - 1 - a.len()]);
        }
    }
}

proof fn lemma_own_unmasked<S: Scalar>(nodes: Map<u64, NodeView>, p: PaintView<S>)
    ensures
        forall|k: int|
            0 <= k < own_items(nodes, p).len() ==> !((#[trigger] own_items(nodes, p)[k]) is PushClip)
                && !(own_items(nodes, p)[k] is PopClip),
{
    let own = own_items(nodes, p);
    let a = shadow_items(nodes, p.id, p.rect, p.opacity);
    let b = fill_items(nodes, p.id, p.rect, p.opacity);
    let c = gradient_items(nodes, p.id, p.rect, p.opacity);
    let d = border_items(nodes, p.id, p.rect, p.opacity);
    let e = text_items(nodes, p);
    let f = outline_items(nodes, p.id, p.rect, p.opacity);
    lemma_join_unmasked(a, b);
    lemma_join_unmasked(a + b, c);
    lemma_join_unmasked(a + b + c, d);
    lemma_join_unmasked(a + b + c + d, e);
    lemma_join_unmasked(a + b + c + d + e, f);
    assert(unmasked(own));
}

spec fn unmasked<S>(items: Seq<ItemView<S>>) -> bool {
    forall|k: int|
        0 <= k < items.len() ==> !((#[trigger] items[k]) is PushClip) && !(items[k] is PopClip)
}

proof fn lemma_join_unmasked<S>(a: Seq<ItemView<S>>, b: Seq<ItemView<S>>)
    requires
        unmasked(a),
        unmasked(b),
    ensures
        unmasked(a + b),
{
}

proof fn lemma_masks_open_node<S: Scalar>(nodes: Map<u64, NodeView>, p: PaintView<S>, n: int)
    requires
        0 <= n <= node_items(nodes, p).len(),
    ensures
        masks_open(node_items(nodes, p), n) >= 0,
        n == node_items(nodes, p).len() ==> masks_open(node_items(nodes, p), n) == 0,
        ({
            let own = own_items(nodes, p).len();
            let m = p.clips.len() as int;
            node_items(nodes, p).len() > 0 ==> masks_open(node_items(nodes, p), n) == if n <= m {
                n
            } else if n <= m + own {
                m
            } else {
                m - (n - m - own)
            }
        }),
    decreases n,
{
    law_masks_go_round_what_is_painted(nodes, p);
    lemma_own_unmasked(nodes, p);
    let all = node_items(nodes, p);
    let own = own_items(nodes, p);
    let m = p.clips.len() as int;
    if n > 0 {
        lemma_masks_open_node(nodes, p, n - 1);
        let k = n - 1;
        if m <= k < m + own.len() {
            assert(all.subrange(m, m + own.len())[k - m] == all[k]);
            assert(own[k - m] == all[k]);
        }
    }
}

proof fn lemma_masks_open_painted<S: Scalar>(
    nodes: Map<u64, NodeView>,
    ps: Seq<PaintView<S>>,
    order: Seq<int>,
    n: int,
)
    requires
        0 <= n <= painted_in(nodes, ps, order).len(),
    ensures
        masks_open(painted_in(nodes, ps, order), n) >= 0,
        n == painted_in(nodes, ps, order).len() ==> masks_open(painted_in(nodes, ps, order), n) == 0,
    decreases order.len(),
{
    if order.len() > 0 {
        let a = painted_in(nodes, ps, order.drop_last());
        let b = node_items(nodes, ps[order.last()]);
        lemma_masks_open_painted(nodes, ps, order.drop_last(), a.len() as int);
        lemma_masks_open_add(a, b, n);
        if n <= a.len() {
            lemma_masks_open_painted(nodes, ps, order.drop_last(), n);
        }
        if n >= a.len() {
            lemma_masks_open_node(nodes, ps[order.last()], n - a.len());
        }
    }
}

/// In a scene no mask is ended that was not begun, and at its end all are ended.
pub proof fn law_scenes_balance_their_masks<S: Scalar>(
    nodes: Map<u64, NodeView>,
    ps: Seq<PaintView<S>>,
    n: int,
)
    requires
        0 <= n <= scene_of(nodes, ps).len(),
    ensures
        masks_open(scene_of(nodes, ps), n) >= 0,
        n == scene_of(nodes, ps).len() ==> masks_open(scene_of(nodes, ps), n) == 0,
{
    lemma_masks_open_painted(nodes, ps, paint_order(z_indices(ps), ps.len()), n);
}

/// Whether a node hides its overflow is said by three keywords of property 47.
pub proof fn law_three_keywords_hide_overflow(nodes: Map<u64, NodeView>, n: NodeId)
    ensures
        hides_overflow(nodes, n) <==> style_of(nodes, n, 47) == Some("hidden"@) || style_of(
            nodes,
            n,
            47,
        ) == Some("clip"@) || style_of(nodes, n, 47) == Some("scroll"@),
{
}

/// Fading a color leaves its hue, and at full opacity all of it. In whole numbers nothing is left of
/// it at no opacity.
pub proof fn law_fading_touches_alpha_alone<S: Scalar>(color: Color, opacity: S)
    ensures
        ({
            let c = faded(color, opacity);
            &&& c.r == color.r
            &&& c.g == color.g
            &&& c.b == color.b
            &&& S::s_whole(1).s_at_most(opacity) ==> c.a == color.a
            &&& !S::s_whole(1).s_at_most(opacity) ==> {
                let exact = S::s_whole(color.a as u64).s_times(opacity).s_plus(
                    S::s_ratio(1, 2),
                ).s_to_u32();
                &&& exact <= 255 ==> c.a == exact
                &&& exact > 255 ==> c.a == 255
            }
        }),
        faded(color, Whole(0)).a == 0,
        faded(color, Whole(1)) == color,
{
    assert(Whole::s_whole(color.a as u64).s_times(Whole(0)) == Whole(0));
    assert(Whole::s_ratio(1, 2) == Whole(0));
}

/// An angle turns a gradient by the axis that it is nearest to: straight up or down within 45 degrees
/// of 0, 180 and 360, sideways between.
pub proof fn law_angles_turn_to_the_nearest_axis(deg: i32)
    ensures
        direction_at(deg) == GradientDirection::Horizontal <==> 45 < deg < 135 || 225 < deg < 315,
        0 <= deg <= 360 ==> direction_at((360 - deg) as i32) == direction_at(deg),
        0 <= deg <= 180 ==> direction_at((180 + deg) as i32) == direction_at(deg),
{
}

/// The text of a gradient is read as it is written: an angle and colors between commas. The colors
/// keep their order and stand at even distances, the first at the start.
pub proof fn law_gradients_read_as_written<S: Scalar>(inner: Seq<char>)
    ensures
        ({
            let s = "linear-gradient("@ + inner + ")"@;
            let pieces = split_at_char(inner, ',');
            let colors = colors_of(pieces.skip(1));
            let angle = i32_value(trimmed(pieces[0]));
            let r = gradient_value::<S>(s);
            &&& r is Some <==> angle is Some && colors.len() > 0
            &&& r matches Some((stops, direction)) ==> {
                &&& direction == GradientDirection::Horizontal <==> 45 < angle->0 < 135 || 225
                    < angle->0 < 315
                &&& stops.len() == colors.len()
                &&& forall|i: int|
                    0 <= i < stops.len() ==> (#[trigger] stops[i]).color == colors[i]
                &&& stops.len() == 1 ==> stops[0].position == S::s_whole(0)
                &&& stops.len() > 1 ==> forall|i: int|
                    0 <= i < stops.len() ==> (#[trigger] stops[i]).position == S::s_whole(
                        i as u64,
                    ).s_over(S::s_whole((stops.len() - 1) as u64))
            }
        }),
{
    reveal_strlit("linear-gradient(");
    reveal_strlit(")");
    let head = "linear-gradient("@;
    let s = head + inner + ")"@;
    assert(head.len() == 16);
    assert(s[0] == 'l');
    assert(s.last() == ')');
    assert(trimmed(s) == s);
    assert(s.take(16) =~= head);
    let t = s.skip(16);
    assert(t =~= inner + ")"@);
    assert(t.skip(t.len() - 1) =~= ")"@);
    assert(t.take(t.len() - 1) =~= inner);
    assert(after_prefix(s, head) == Some(t));
    assert(before_suffix(t, ")"@) == Some(inner));
}

/// The colors of pieces are those that the pieces spell, in order; a piece that spells none adds none.
pub proof fn law_pieces_add_their_colors(a: Seq<Seq<char>>, piece: Seq<char>)
    ensures
        colors_of(a.push(piece)) == match rgba_value(trimmed(piece)) {
            Some(c) => colors_of(a).push(c),
            None => colors_of(a),
        },
        colors_of(seq![]) == Seq::<Color>::empty(),
{
    assert(a.push(piece).drop_last() =~= a);
}

/// A shadow is spelled by four words: how far it is moved across and down, how far it is blurred, and
/// its color.
pub proof fn law_shadows_are_four_words<S: Scalar>(s: Seq<char>)
    ensures
        ({
            let w = words(s);
            let r = shadow_value::<S>(s);
            &&& r is Some <==> {
                &&& w.len() >= 4
                &&& signed_value::<S>(w[0]) is Some
                &&& signed_value::<S>(w[1]) is Some
                &&& signed_value::<S>(w[2]) is Some
                &&& rgba_value(w[3]) is Some
            }
            &&& r matches Some(shadow) ==> {
                &&& signed_value::<S>(w[0]) == Some(shadow.offset.x)
                &&& signed_value::<S>(w[1]) == Some(shadow.offset.y)
                &&& signed_value::<S>(w[2]) == Some(shadow.blur)
                &&& rgba_value(w[3]) == Some(shadow.color)
            }
        }),
{
}

/// What a node paints at each of six steps, back to front: its shadow, its background, its gradient,
/// its border, its text with the line on it, and its outline. All fill or frame its own box, but for
/// the outline, which stands off it.
pub open spec fn steps<S: Scalar>(nodes: Map<u64, NodeView>, p: PaintView<S>, step: int) -> Seq<
    ItemView<S>,
> {
    let set = |prop: u16| style_of(nodes, p.id, prop);
    let radius = match px_of(nodes, p.id, 8) {
        Some(v) => S::s_whole(v as u64),
        None => S::s_whole(0),
    };
    if step == 0 && set(68) is Some && shadow_value::<S>(set(68)->0) is Some {
        let shadow = shadow_value::<S>(set(68)->0)->0;
        seq![
            ItemView::Shadow {
                rect: p.rect,
                color: faded(shadow.color, p.opacity),
                blur: shadow.blur,
                offset: shadow.offset,
            },
        ]
    } else if step == 1 && set(1) is Some && rgba_value(set(1)->0) is Some {
        seq![
            ItemView::Rect {
                rect: p.rect,
                color: faded(rgba_value(set(1)->0)->0, p.opacity),
                radius,
            },
        ]
    } else if step == 2 && set(69) is Some && gradient_value::<S>(set(69)->0) is Some {
        let (stops, direction) = gradient_value::<S>(set(69)->0)->0;
        seq![
            ItemView::Gradient {
                rect: p.rect,
                stops: Seq::new(
                    stops.len(),
                    |i: int|
                        GradientStop {
                            color: faded(stops[i].color, p.opacity),
                            position: stops[i].position,
                        },
                ),
                direction,
            },
        ]
    } else if step == 3 && px_of(nodes, p.id, 21) is Some && px_of(nodes, p.id, 21)->0 > 0 && set(
        22,
    ) is Some && rgba_value(set(22)->0) is Some {
        seq![
            ItemView::Border {
                rect: p.rect,
                color: faded(rgba_value(set(22)->0)->0, p.opacity),
                width: S::s_whole(px_of(nodes, p.id, 21)->0 as u64),
                radius,
            },
        ]
    } else if step == 4 && nodes[p.id.0].text is Some {
        seq![
            ItemView::Text {
                origin: p.rect.origin,
                text: nodes[p.id.0].text->0,
                color: faded(p.fg, p.opacity),
                size: p.rect.size.h,
                box_w: p.rect.size.w,
                align: p.align,
            },
        ] + decoration_items(nodes, p.id, p.rect, faded(p.fg, p.opacity))
    } else if step == 5 {
        outline_items(nodes, p.id, p.rect, p.opacity)
    } else {
        seq![]
    }
}

/// What a node paints itself is what it paints at each step, back to front.
pub proof fn law_nodes_paint_back_to_front<S: Scalar>(nodes: Map<u64, NodeView>, p: PaintView<S>)
    ensures
        own_items(nodes, p) == steps(nodes, p, 0) + steps(nodes, p, 1) + steps(nodes, p, 2) + steps(
            nodes,
            p,
            3,
        ) + steps(nodes, p, 4) + steps(nodes, p, 5),
{
    assert(shadow_items(nodes, p.id, p.rect, p.opacity) =~= steps(nodes, p, 0));
    assert(fill_items(nodes, p.id, p.rect, p.opacity) =~= steps(nodes, p, 1));
    if let Some(s) = style_of(nodes, p.id, 69) {
        if let Some((stops, direction)) = gradient_value::<S>(s) {
            assert(faded_stops(stops, p.opacity) =~= Seq::new(
                stops.len(),
                |i: int|
                    GradientStop {
                        color: faded(stops[i].color, p.opacity),
                        position: stops[i].position,
                    },
            ));
        }
    }
    assert(gradient_items(nodes, p.id, p.rect, p.opacity) =~= steps(nodes, p, 2));
    assert(border_items(nodes, p.id, p.rect, p.opacity) =~= steps(nodes, p, 3));
    assert(text_items(nodes, p) =~= steps(nodes, p, 4));
    assert(outline_items(nodes, p.id, p.rect, p.opacity) =~= steps(nodes, p, 5));
}

/// An outline needs a width. In whole pixels it goes round the box at its distance on every side, and
/// its color is its own, or that of the text, or light gray.
pub proof fn law_outlines_go_round_the_box(
    nodes: Map<u64, NodeView>,
    n: NodeId,
    rect: Rect<Whole>,
    opacity: Whole,
)
    requires
        -0x1_0000_0000 <= rect.origin.x.0 <= 0x1_0000_0000,
        -0x1_0000_0000 <= rect.origin.y.0 <= 0x1_0000_0000,
        -0x1_0000_0000 <= rect.size.w.0 <= 0x1_0000_0000,
        -0x1_0000_0000 <= rect.size.h.0 <= 0x1_0000_0000,
    ensures
        ({
            let items = outline_items(nodes, n, rect, opacity);
            let d: int = match style_of(nodes, n, 67) {
                Some(s) => match signed_value::<Whole>(s) {
                    Some(v) => v.0 as int,
                    None => 0,
                },
                None => 0,
            };
            let color = if rgba_of(nodes, n, 66) is Some {
                rgba_of(nodes, n, 66)->0
            } else if rgba_of(nodes, n, 2) is Some {
                rgba_of(nodes, n, 2)->0
            } else {
                Color { r: 230, g: 230, b: 230, a: 255 }
            };
            let needed = px_of(nodes, n, 65) is Some && px_of(nodes, n, 65)->0 > 0;
            &&& items.len() == if needed {
                1nat
            } else {
                0
            }
            &&& needed ==> {
                &&& items[0] is Border
                &&& items[0]->Border_rect.origin.x.0 == rect.origin.x.0 - d
                &&& items[0]->Border_rect.origin.y.0 == rect.origin.y.0 - d
                &&& items[0]->Border_rect.size.w.0 == rect.size.w.0 + 2 * d
                &&& items[0]->Border_rect.size.h.0 == rect.size.h.0 + 2 * d
                &&& items[0]->Border_color == faded(color, opacity)
                &&& items[0]->Border_width.0 == px_of(nodes, n, 65)->0
                &&& items[0]->Border_radius.0 == match px_of(nodes, n, 8) {
                    Some(v) => v,
                    None => 0,
                }
            }
        }),
{
    let d = outline_offset::<Whole>(nodes, n);
    assert(Whole::s_whole(2) == Whole(2));
    assert(i32::MIN <= d.0 <= i32::MAX);
    assert(d.s_times(Whole(2)).0 == d.0 * 2);
}

/// The line on a text is as wide as its box, in the color of the text and a sixteenth as thick as the
/// text is high, a pixel at least. In whole pixels, a line under the text ends where the box ends, and
/// one through it leaves as much above as below, but for a pixel.
pub proof fn law_lines_keep_to_the_text(
    nodes: Map<u64, NodeView>,
    n: NodeId,
    rect: Rect<Whole>,
    color: Color,
)
    requires
        0 < rect.size.h.0 <= 0x1_0000_0000,
        -0x1_0000_0000 <= rect.origin.y.0 <= 0x1_0000_0000,
    ensures
        ({
            let items = decoration_items(nodes, n, rect, color);
            let under = style_of(nodes, n, 64) == Some("underline"@);
            let through = style_of(nodes, n, 64) == Some("line-through"@);
            &&& items.len() == if under || through {
                1nat
            } else {
                0
            }
            &&& under || through ==> {
                let line = items[0]->Rect_rect;
                let above = line.origin.y.0 - rect.origin.y.0;
                let below = rect.origin.y.0 + rect.size.h.0 - (line.origin.y.0 + line.size.h.0);
                &&& items[0] is Rect
                &&& items[0]->Rect_color == color
                &&& items[0]->Rect_radius.0 == 0
                &&& line.origin.x == rect.origin.x
                &&& line.size.w == rect.size.w
                &&& line.size.h.0 == if rect.size.h.0 < 32 {
                    1
                } else {
                    rect.size.h.0 / 16
                }
                &&& above >= 0
                &&& under ==> below == 0
                &&& through ==> above <= below <= above + 1
            }
        }),
{
    reveal_strlit("underline");
    reveal_strlit("line-through");
    assert("underline"@.len() == 9);
    assert("line-through"@.len() == 12);
    let h = rect.size.h;
    assert(Whole::s_whole(16) == Whole(16));
    assert(Whole::s_whole(2) == Whole(2));
    assert(h.s_over(Whole(16)).0 == h.0 / 16);
    let t = line_thickness(h);
    assert(t.0 == if h.0 < 32 {
        1
    } else {
        h.0 / 16
    });
    assert(h.s_minus(t).0 == h.0 - t.0);
    assert(h.s_minus(t).s_over(Whole(2)).0 == (h.0 - t.0) / 2);
}

} // verus!
