//! The display-list wire format: a laid-out scene as bytes.
//!
//! The op-stream flows from the guest to the host to build the tree; this format flows from
//! the host to a renderer. A frame is
//!
//! ```text
//! version:u16  width:u32  height:u32  count:u32  item*count
//! ```
//!
//! Integers are little-endian, a float is its bit pattern as a `u32`, a color is its four
//! channels, and an item is a tag byte followed by its fields. What the bytes of a scene are is
//! [`frame_bytes`], what a buffer holds is [`parse_scene`], and the laws at the end say that the
//! second undoes the first.
use crate::geometry::{
    items_view, lemma_items_push, Color, DisplayItem, DisplayList, Glyph, GradientDirection,
    GradientStop, ItemView, Point, Rect, Size,
};
use crate::protocol::F32;
use crate::text::string_from_utf8;
use crate::wire::{
    copy_range, get_u16, get_u32, group_le_len, law_integers_are_little_endian,
    lemma_stands_at_concat, lemma_tag_fields2, lemma_tag_fields3, lemma_tag_fields4, lemma_u16_at,
    lemma_u32_at, lemma_u32_at_take, lemma_u8_at, push_bytes, push_u16, push_u32, stands_at, u16_at,
    u16_le, u32_at, u32_le, worth,
};
use vstd::prelude::*;
use vstd::utf8::{
    decode_utf8, encode_utf8, encode_utf8_decode_utf8, encode_utf8_valid_utf8, valid_utf8,
};

verus! {

broadcast use group_le_len;

/// Version of the format.
pub const DL_VERSION: u16 = 1;

/// A filled box: `rect color radius`.
pub const DL_RECT: u8 = 1;

/// Shaped glyphs: `color count (id x y)*`.
pub const DL_GLYPHS: u8 = 2;

/// Text: `origin color size box_w align length utf8`.
pub const DL_TEXT: u8 = 3;

/// A stroked frame: `rect color width radius`.
pub const DL_BORDER: u8 = 4;

/// A linear gradient: `rect direction count (color position)*`.
pub const DL_GRADIENT: u8 = 5;

/// A drop shadow: `rect color blur offset`.
pub const DL_SHADOW: u8 = 6;

/// Begin a mask: `rect radius`.
pub const DL_PUSH_CLIP: u8 = 7;

/// End the innermost mask.
pub const DL_POP_CLIP: u8 = 8;

/// From top to bottom.
pub const DL_DIR_VERTICAL: u8 = 0;

/// From left to right.
pub const DL_DIR_HORIZONTAL: u8 = 1;

/// The bytes of a color.
#[verifier::opaque]
pub open spec fn color_bytes(c: Color) -> Seq<u8> {
    seq![c.r, c.g, c.b, c.a]
}

/// The color at `p`.
#[verifier::opaque]
pub open spec fn color_at(b: Seq<u8>, p: int) -> Color {
    Color { r: b[p], g: b[p + 1], b: b[p + 2], a: b[p + 3] }
}

/// The bytes of a point.
#[verifier::opaque]
pub open spec fn point_bytes(v: Point<F32>) -> Seq<u8> {
    u32_le(v.x.0) + u32_le(v.y.0)
}

/// The point at `p`.
#[verifier::opaque]
pub open spec fn point_at(b: Seq<u8>, p: int) -> Point<F32> {
    Point { x: F32(u32_at(b, p)), y: F32(u32_at(b, p + 4)) }
}

/// The bytes of a box.
#[verifier::opaque]
pub open spec fn rect_bytes(v: Rect<F32>) -> Seq<u8> {
    point_bytes(v.origin) + u32_le(v.size.w.0) + u32_le(v.size.h.0)
}

/// The box at `p`.
#[verifier::opaque]
pub open spec fn rect_at(b: Seq<u8>, p: int) -> Rect<F32> {
    Rect {
        origin: point_at(b, p),
        size: Size { w: F32(u32_at(b, p + 8)), h: F32(u32_at(b, p + 12)) },
    }
}

/// The bytes of a glyph.
#[verifier::opaque]
pub open spec fn glyph_bytes(g: Glyph<F32>) -> Seq<u8> {
    u32_le(g.id) + u32_le(g.x.0) + u32_le(g.y.0)
}

/// The glyph at `p`.
#[verifier::opaque]
pub open spec fn glyph_at(b: Seq<u8>, p: int) -> Glyph<F32> {
    Glyph { id: u32_at(b, p), x: F32(u32_at(b, p + 4)), y: F32(u32_at(b, p + 8)) }
}

/// The bytes of glyphs, one after the other.
pub open spec fn glyphs_bytes(gs: Seq<Glyph<F32>>) -> Seq<u8>
    decreases gs.len(),
{
    if gs.len() == 0 {
        seq![]
    } else {
        glyphs_bytes(gs.drop_last()) + glyph_bytes(gs.last())
    }
}

/// The `n` glyphs from `p` on.
pub open spec fn glyphs_at(b: Seq<u8>, p: int, n: nat) -> Seq<Glyph<F32>> {
    Seq::new(n, |i: int| glyph_at(b, p + 12 * i))
}

/// The bytes of a gradient stop.
#[verifier::opaque]
pub open spec fn stop_bytes(s: GradientStop<F32>) -> Seq<u8> {
    color_bytes(s.color) + u32_le(s.position.0)
}

/// The gradient stop at `p`.
#[verifier::opaque]
pub open spec fn stop_at(b: Seq<u8>, p: int) -> GradientStop<F32> {
    GradientStop { color: color_at(b, p), position: F32(u32_at(b, p + 4)) }
}

/// The bytes of gradient stops, one after the other.
pub open spec fn stops_bytes(ss: Seq<GradientStop<F32>>) -> Seq<u8>
    decreases ss.len(),
{
    if ss.len() == 0 {
        seq![]
    } else {
        stops_bytes(ss.drop_last()) + stop_bytes(ss.last())
    }
}

/// The `n` gradient stops from `p` on.
pub open spec fn stops_at(b: Seq<u8>, p: int, n: nat) -> Seq<GradientStop<F32>> {
    Seq::new(n, |i: int| stop_at(b, p + 8 * i))
}

/// The byte of a direction.
pub open spec fn direction_byte(d: GradientDirection) -> u8 {
    match d {
        GradientDirection::Horizontal => DL_DIR_HORIZONTAL,
        GradientDirection::Vertical => DL_DIR_VERTICAL,
    }
}

/// The direction of a byte: what is not horizontal is vertical.
pub open spec fn direction_of_byte(v: u8) -> GradientDirection {
    if v == DL_DIR_HORIZONTAL {
        GradientDirection::Horizontal
    } else {
        GradientDirection::Vertical
    }
}

/// The low 32 bits of a length.
pub open spec fn length_u32(n: nat) -> u32 {
    (n % 0x1_0000_0000) as u32
}

/// The low 8 bits of a length.
pub open spec fn length_u8(n: nat) -> u8 {
    (n % 256) as u8
}

/// The bytes of an item: its tag, then its fields. Of a count, what its field holds is kept.
pub open spec fn item_bytes(v: ItemView<F32>) -> Seq<u8> {
    match v {
        ItemView::Rect { rect, color, radius } => seq![DL_RECT] + rect_bytes(rect) + color_bytes(color)
            + u32_le(radius.0),
        ItemView::Glyphs { glyphs, color } => seq![DL_GLYPHS] + color_bytes(color) + u32_le(
            length_u32(glyphs.len()),
        ) + glyphs_bytes(glyphs),
        ItemView::Text { origin, text, color, size, box_w, align } => seq![DL_TEXT] + point_bytes(
            origin,
        ) + color_bytes(color) + (u32_le(size.0) + u32_le(box_w.0) + u32_le(align.0)) + (u32_le(
            length_u32(encode_utf8(text).len()),
        ) + encode_utf8(text)),
        ItemView::Border { rect, color, width, radius } => seq![DL_BORDER] + rect_bytes(rect)
            + color_bytes(color) + u32_le(width.0) + u32_le(radius.0),
        ItemView::Gradient { rect, stops, direction } => seq![DL_GRADIENT] + rect_bytes(rect) + seq![
            direction_byte(direction),
        ] + seq![length_u8(stops.len())] + stops_bytes(stops),
        ItemView::Shadow { rect, color, blur, offset } => seq![DL_SHADOW] + rect_bytes(rect)
            + color_bytes(color) + u32_le(blur.0) + point_bytes(offset),
        ItemView::PushClip { rect, radius } => seq![DL_PUSH_CLIP] + rect_bytes(rect) + u32_le(
            radius.0,
        ),
        ItemView::PopClip => seq![DL_POP_CLIP],
    }
}

/// The bytes of items, one after the other.
pub open spec fn items_bytes(items: Seq<ItemView<F32>>) -> Seq<u8>
    decreases items.len(),
{
    if items.len() == 0 {
        seq![]
    } else {
        items_bytes(items.drop_last()) + item_bytes(items.last())
    }
}

/// The bytes of the frame of a scene.
pub open spec fn frame_bytes(items: Seq<ItemView<F32>>, width: u32, height: u32) -> Seq<u8> {
    u16_le(DL_VERSION) + u32_le(width) + u32_le(height) + u32_le(length_u32(items.len()))
        + items_bytes(items)
}

/// The item at `p`, and where it ends.
pub open spec fn parse_item(b: Seq<u8>, p: int) -> Option<(ItemView<F32>, int)> {
    let left = b.len() - p;
    if left < 1 {
        None
    } else if b[p] == DL_RECT {
        if left >= 25 {
            Some(
                (
                    ItemView::Rect {
                        rect: rect_at(b, p + 1),
                        color: color_at(b, p + 17),
                        radius: F32(u32_at(b, p + 21)),
                    },
                    p + 25,
                ),
            )
        } else {
            None
        }
    } else if b[p] == DL_GLYPHS {
        if left >= 9 && left - 9 >= 12 * u32_at(b, p + 5) {
            let n = u32_at(b, p + 5);
            Some(
                (
                    ItemView::Glyphs {
                        glyphs: glyphs_at(b, p + 9, n as nat),
                        color: color_at(b, p + 1),
                    },
                    p + 9 + 12 * n,
                ),
            )
        } else {
            None
        }
    } else if b[p] == DL_TEXT {
        if left >= 29 && left - 29 >= u32_at(b, p + 25) {
            let end = p + 29 + u32_at(b, p + 25);
            let utf8 = b.subrange(p + 29, end);
            if valid_utf8(utf8) {
                Some(
                    (
                        ItemView::Text {
                            origin: point_at(b, p + 1),
                            text: decode_utf8(utf8),
                            color: color_at(b, p + 9),
                            size: F32(u32_at(b, p + 13)),
                            box_w: F32(u32_at(b, p + 17)),
                            align: F32(u32_at(b, p + 21)),
                        },
                        end,
                    ),
                )
            } else {
                None
            }
        } else {
            None
        }
    } else if b[p] == DL_BORDER {
        if left >= 29 {
            Some(
                (
                    ItemView::Border {
                        rect: rect_at(b, p + 1),
                        color: color_at(b, p + 17),
                        width: F32(u32_at(b, p + 21)),
                        radius: F32(u32_at(b, p + 25)),
                    },
                    p + 29,
                ),
            )
        } else {
            None
        }
    } else if b[p] == DL_GRADIENT {
        if left >= 19 && left - 19 >= 8 * b[p + 18] {
            let n = b[p + 18];
            Some(
                (
                    ItemView::Gradient {
                        rect: rect_at(b, p + 1),
                        stops: stops_at(b, p + 19, n as nat),
                        direction: direction_of_byte(b[p + 17]),
                    },
                    p + 19 + 8 * n,
                ),
            )
        } else {
            None
        }
    } else if b[p] == DL_SHADOW {
        if left >= 33 {
            Some(
                (
                    ItemView::Shadow {
                        rect: rect_at(b, p + 1),
                        color: color_at(b, p + 17),
                        blur: F32(u32_at(b, p + 21)),
                        offset: point_at(b, p + 25),
                    },
                    p + 33,
                ),
            )
        } else {
            None
        }
    } else if b[p] == DL_PUSH_CLIP {
        if left >= 21 {
            Some(
                (
                    ItemView::PushClip { rect: rect_at(b, p + 1), radius: F32(u32_at(b, p + 17)) },
                    p + 21,
                ),
            )
        } else {
            None
        }
    } else if b[p] == DL_POP_CLIP {
        Some((ItemView::PopClip, p + 1))
    } else {
        None
    }
}

/// The `n` items from `p` on, and where the last ends.
pub open spec fn parse_items(b: Seq<u8>, p: int, n: nat) -> Option<(Seq<ItemView<F32>>, int)>
    decreases n,
{
    if n == 0 {
        Some((seq![], p))
    } else {
        match parse_items(b, p, (n - 1) as nat) {
            Some((items, q)) => match parse_item(b, q) {
                Some((item, end)) => Some((items.push(item), end)),
                None => None,
            },
            None => None,
        }
    }
}

/// A decoded frame: the size of the viewport that the scene was laid out for, and its items.
#[derive(Clone, PartialEq, Eq, Debug)]
pub struct Scene {
    /// Version of the format.
    pub version: u16,
    /// Width of the viewport.
    pub width: u32,
    /// Height of the viewport.
    pub height: u32,
    /// The items, back to front.
    pub items: Vec<DisplayItem<F32>>,
}

/// What a [`Scene`] says.
#[verifier::ext_equal]
pub ghost struct SceneView {
    pub version: u16,
    pub width: u32,
    pub height: u32,
    pub items: Seq<ItemView<F32>>,
}

impl View for Scene {
    type V = SceneView;

    open spec fn view(&self) -> SceneView {
        SceneView {
            version: self.version,
            width: self.width,
            height: self.height,
            items: items_view(self.items@),
        }
    }
}

/// The scene whose frame a buffer begins with.
pub open spec fn parse_scene(b: Seq<u8>) -> Option<SceneView> {
    if b.len() < 14 {
        None
    } else {
        match parse_items(b, 14, u32_at(b, 10) as nat) {
            Some((items, _)) => Some(
                SceneView { version: u16_at(b, 0), width: u32_at(b, 2), height: u32_at(b, 6), items },
            ),
            None => None,
        }
    }
}

fn push_color(out: &mut Vec<u8>, c: Color)
    ensures
        final(out)@ == old(out)@ + color_bytes(c),
{
    reveal(color_bytes);
    out.push(c.r);
    out.push(c.g);
    out.push(c.b);
    out.push(c.a);
    assert(out@ =~= old(out)@ + color_bytes(c));
}

fn push_point(out: &mut Vec<u8>, p: Point<F32>)
    ensures
        final(out)@ == old(out)@ + point_bytes(p),
{
    reveal(point_bytes);
    push_u32(out, p.x.0);
    push_u32(out, p.y.0);
    assert(out@ =~= old(out)@ + point_bytes(p));
}

fn push_rect(out: &mut Vec<u8>, r: Rect<F32>)
    ensures
        final(out)@ == old(out)@ + rect_bytes(r),
{
    reveal(rect_bytes);
    push_point(out, r.origin);
    push_u32(out, r.size.w.0);
    push_u32(out, r.size.h.0);
    assert(out@ =~= old(out)@ + rect_bytes(r));
}

fn push_glyphs(out: &mut Vec<u8>, glyphs: &Vec<Glyph<F32>>)
    ensures
        final(out)@ == old(out)@ + glyphs_bytes(glyphs@),
{
    let ghost start = out@;
    let mut i: usize = 0;
    assert(glyphs@.take(0) =~= seq![]);
    assert(start + glyphs_bytes(glyphs@.take(0)) =~= start);
    while i < glyphs.len()
        invariant
            i <= glyphs@.len(),
            out@ == start + glyphs_bytes(glyphs@.take(i as int)),
        decreases glyphs@.len() - i,
    {
        proof {
            reveal(glyph_bytes);
            assert(glyphs@.take(i + 1).drop_last() =~= glyphs@.take(i as int));
        }
        push_u32(out, glyphs[i].id);
        push_u32(out, glyphs[i].x.0);
        push_u32(out, glyphs[i].y.0);
        i += 1;
        assert(out@ =~= start + glyphs_bytes(glyphs@.take(i as int)));
    }
    assert(glyphs@.take(i as int) =~= glyphs@);
}

fn push_stops(out: &mut Vec<u8>, stops: &Vec<GradientStop<F32>>)
    ensures
        final(out)@ == old(out)@ + stops_bytes(stops@),
{
    let ghost start = out@;
    let mut i: usize = 0;
    assert(stops@.take(0) =~= seq![]);
    assert(start + stops_bytes(stops@.take(0)) =~= start);
    while i < stops.len()
        invariant
            i <= stops@.len(),
            out@ == start + stops_bytes(stops@.take(i as int)),
        decreases stops@.len() - i,
    {
        proof {
            reveal(stop_bytes);
            assert(stops@.take(i + 1).drop_last() =~= stops@.take(i as int));
        }
        push_color(out, stops[i].color);
        push_u32(out, stops[i].position.0);
        i += 1;
        assert(out@ =~= start + stops_bytes(stops@.take(i as int)));
    }
    assert(stops@.take(i as int) =~= stops@);
}

fn low_u32(n: usize) -> (r: u32)
    ensures
        r == length_u32(n as nat),
{
    (n as u64 % 0x1_0000_0000) as u32
}

/// Append the bytes of an item.
pub fn serialize_item(item: &DisplayItem<F32>, out: &mut Vec<u8>)
    ensures
        final(out)@ == old(out)@ + item_bytes(item@),
{
    match item {
        DisplayItem::Rect { rect, color, radius } => {
            out.push(DL_RECT);
            push_rect(out, *rect);
            push_color(out, *color);
            push_u32(out, radius.0);
        },
        DisplayItem::Glyphs { glyphs, color } => {
            out.push(DL_GLYPHS);
            push_color(out, *color);
            push_u32(out, low_u32(glyphs.len()));
            push_glyphs(out, glyphs);
        },
        DisplayItem::Text { origin, text, color, size, box_w, align } => {
            out.push(DL_TEXT);
            push_point(out, *origin);
            push_color(out, *color);
            push_u32(out, size.0);
            push_u32(out, box_w.0);
            push_u32(out, align.0);
            let utf8 = text.as_str().as_bytes();
            push_u32(out, low_u32(utf8.len()));
            push_bytes(out, utf8);
        },
        DisplayItem::Border { rect, color, width, radius } => {
            out.push(DL_BORDER);
            push_rect(out, *rect);
            push_color(out, *color);
            push_u32(out, width.0);
            push_u32(out, radius.0);
        },
        DisplayItem::Gradient { rect, stops, direction } => {
            out.push(DL_GRADIENT);
            push_rect(out, *rect);
            out.push(
                match direction {
                    GradientDirection::Horizontal => DL_DIR_HORIZONTAL,
                    GradientDirection::Vertical => DL_DIR_VERTICAL,
                },
            );
            out.push((stops.len() % 256) as u8);
            push_stops(out, stops);
        },
        DisplayItem::Shadow { rect, color, blur, offset } => {
            out.push(DL_SHADOW);
            push_rect(out, *rect);
            push_color(out, *color);
            push_u32(out, blur.0);
            push_point(out, *offset);
        },
        DisplayItem::PushClip { rect, radius } => {
            out.push(DL_PUSH_CLIP);
            push_rect(out, *rect);
            push_u32(out, radius.0);
        },
        DisplayItem::PopClip => {
            out.push(DL_POP_CLIP);
        },
    }
    assert(out@ =~= old(out)@ + item_bytes(item@));
}

/// The frame of a scene that was laid out for a viewport of the given size.
pub fn serialize(scene: &DisplayList<F32>, width: u32, height: u32) -> (r: Vec<u8>)
    ensures
        r@ == frame_bytes(items_view(scene.items@), width, height),
{
    let ghost items = items_view(scene.items@);
    let mut out: Vec<u8> = Vec::new();
    push_u16(&mut out, DL_VERSION);
    push_u32(&mut out, width);
    push_u32(&mut out, height);
    push_u32(&mut out, low_u32(scene.items.len()));
    let ghost header = out@;
    assert(header =~= u16_le(DL_VERSION) + u32_le(width) + u32_le(height) + u32_le(
        length_u32(items.len()),
    ));
    let mut i: usize = 0;
    assert(items.take(0) =~= seq![]);
    assert(header + items_bytes(items.take(0)) =~= header);
    while i < scene.items.len()
        invariant
            i <= scene.items@.len(),
            items == items_view(scene.items@),
            out@ == header + items_bytes(items.take(i as int)),
        decreases scene.items@.len() - i,
    {
        proof {
            assert(items.take(i + 1).drop_last() =~= items.take(i as int));
            assert(items.take(i + 1).last() == scene.items@[i as int]@);
        }
        serialize_item(&scene.items[i], &mut out);
        i += 1;
        assert(out@ =~= header + items_bytes(items.take(i as int)));
    }
    assert(items.take(i as int) =~= items);
    out
}

fn get_color(bytes: &[u8], p: usize) -> (r: Color)
    requires
        p + 4 <= bytes@.len(),
    ensures
        r == color_at(bytes@, p as int),
{
    reveal(color_at);
    Color { r: bytes[p], g: bytes[p + 1], b: bytes[p + 2], a: bytes[p + 3] }
}

fn get_f32(bytes: &[u8], p: usize) -> (r: F32)
    requires
        p + 4 <= bytes@.len(),
    ensures
        r == F32(u32_at(bytes@, p as int)),
{
    F32(get_u32(bytes, p))
}

fn get_point(bytes: &[u8], p: usize) -> (r: Point<F32>)
    requires
        p + 8 <= bytes@.len(),
    ensures
        r == point_at(bytes@, p as int),
{
    reveal(point_at);
    assert(bytes@.len() == bytes.len());
    Point { x: get_f32(bytes, p), y: get_f32(bytes, p + 4) }
}

fn get_rect(bytes: &[u8], p: usize) -> (r: Rect<F32>)
    requires
        p + 16 <= bytes@.len(),
    ensures
        r == rect_at(bytes@, p as int),
{
    reveal(rect_at);
    assert(bytes@.len() == bytes.len());
    Rect {
        origin: get_point(bytes, p),
        size: Size { w: get_f32(bytes, p + 8), h: get_f32(bytes, p + 12) },
    }
}

fn get_glyphs(bytes: &[u8], p: usize, n: usize) -> (r: Vec<Glyph<F32>>)
    requires
        p + 12 * n <= bytes@.len(),
    ensures
        r@ == glyphs_at(bytes@, p as int, n as nat),
{
    let mut out: Vec<Glyph<F32>> = Vec::new();
    let mut i: usize = 0;
    assert(bytes@.len() == bytes.len());
    while i < n
        invariant
            i <= n,
            p + 12 * n <= bytes@.len(),
            bytes@.len() == bytes.len(),
            out@ == glyphs_at(bytes@, p as int, i as nat),
        decreases n - i,
    {
        reveal(glyph_at);
        let at: usize = p + 12 * i;
        out.push(
            Glyph { id: get_u32(bytes, at), x: get_f32(bytes, at + 4), y: get_f32(bytes, at + 8) },
        );
        i += 1;
        assert(out@ =~= glyphs_at(bytes@, p as int, i as nat));
    }
    out
}

fn get_stops(bytes: &[u8], p: usize, n: usize) -> (r: Vec<GradientStop<F32>>)
    requires
        p + 8 * n <= bytes@.len(),
    ensures
        r@ == stops_at(bytes@, p as int, n as nat),
{
    let mut out: Vec<GradientStop<F32>> = Vec::new();
    let mut i: usize = 0;
    assert(bytes@.len() == bytes.len());
    while i < n
        invariant
            i <= n,
            p + 8 * n <= bytes@.len(),
            bytes@.len() == bytes.len(),
            out@ == stops_at(bytes@, p as int, i as nat),
        decreases n - i,
    {
        reveal(stop_at);
        let at: usize = p + 8 * i;
        out.push(GradientStop { color: get_color(bytes, at), position: get_f32(bytes, at + 4) });
        i += 1;
        assert(out@ =~= stops_at(bytes@, p as int, i as nat));
    }
    out
}

fn read_item(bytes: &[u8], p: usize) -> (r: Option<(DisplayItem<F32>, usize)>)
    requires
        p <= bytes@.len(),
    ensures
        match r {
            Some((item, end)) => parse_item(bytes@, p as int) == Some((item@, end as int)) && end
                <= bytes@.len(),
            None => parse_item(bytes@, p as int) is None,
        },
{
    let len: usize = bytes.len();
    let left: usize = len - p;
    if left < 1 {
        return None;
    }
    let tag = bytes[p];
    if tag == DL_RECT {
        if left < 25 {
            return None;
        }
        Some(
            (
                DisplayItem::Rect {
                    rect: get_rect(bytes, p + 1),
                    color: get_color(bytes, p + 17),
                    radius: get_f32(bytes, p + 21),
                },
                p + 25,
            ),
        )
    } else if tag == DL_GLYPHS {
        if left < 9 {
            return None;
        }
        let color = get_color(bytes, p + 1);
        let n: u32 = get_u32(bytes, p + 5);
        if ((left - 9) as u64) < 12 * n as u64 {
            return None;
        }
        let glyphs = get_glyphs(bytes, p + 9, n as usize);
        Some((DisplayItem::Glyphs { glyphs, color }, p + 9 + 12 * n as usize))
    } else if tag == DL_TEXT {
        if left < 29 {
            return None;
        }
        let n: u32 = get_u32(bytes, p + 25);
        if ((left - 29) as u64) < n as u64 {
            return None;
        }
        let end: usize = p + 29 + n as usize;
        match string_from_utf8(copy_range(bytes, p + 29, end)) {
            Some(text) => Some(
                (
                    DisplayItem::Text {
                        origin: get_point(bytes, p + 1),
                        text,
                        color: get_color(bytes, p + 9),
                        size: get_f32(bytes, p + 13),
                        box_w: get_f32(bytes, p + 17),
                        align: get_f32(bytes, p + 21),
                    },
                    end,
                ),
            ),
            None => None,
        }
    } else if tag == DL_BORDER {
        if left < 29 {
            return None;
        }
        Some(
            (
                DisplayItem::Border {
                    rect: get_rect(bytes, p + 1),
                    color: get_color(bytes, p + 17),
                    width: get_f32(bytes, p + 21),
                    radius: get_f32(bytes, p + 25),
                },
                p + 29,
            ),
        )
    } else if tag == DL_GRADIENT {
        if left < 19 {
            return None;
        }
        let rect = get_rect(bytes, p + 1);
        let direction = if bytes[p + 17] == DL_DIR_HORIZONTAL {
            GradientDirection::Horizontal
        } else {
            GradientDirection::Vertical
        };
        let n: usize = bytes[p + 18] as usize;
        if left - 19 < 8 * n {
            return None;
        }
        let stops = get_stops(bytes, p + 19, n);
        Some((DisplayItem::Gradient { rect, stops, direction }, p + 19 + 8 * n))
    } else if tag == DL_SHADOW {
        if left < 33 {
            return None;
        }
        Some(
            (
                DisplayItem::Shadow {
                    rect: get_rect(bytes, p + 1),
                    color: get_color(bytes, p + 17),
                    blur: get_f32(bytes, p + 21),
                    offset: get_point(bytes, p + 25),
                },
                p + 33,
            ),
        )
    } else if tag == DL_PUSH_CLIP {
        if left < 21 {
            return None;
        }
        Some(
            (
                DisplayItem::PushClip {
                    rect: get_rect(bytes, p + 1),
                    radius: get_f32(bytes, p + 17),
                },
                p + 21,
            ),
        )
    } else if tag == DL_POP_CLIP {
        Some((DisplayItem::PopClip, p + 1))
    } else {
        None
    }
}

proof fn lemma_parse_items_stop(b: Seq<u8>, p: int, k: nat, n: nat)
    requires
        k <= n,
        parse_items(b, p, k) is None,
    ensures
        parse_items(b, p, n) is None,
    decreases n,
{
    if k < n {
        lemma_parse_items_stop(b, p, k, (n - 1) as nat);
    }
}

/// Decode the frame that a buffer begins with: `None` if it is cut short, holds an unknown
/// item, or text that is not UTF-8.
pub fn deserialize(bytes: &[u8]) -> (r: Option<Scene>)
    ensures
        match r {
            Some(scene) => parse_scene(bytes@) == Some(scene@),
            None => parse_scene(bytes@) is None,
        },
{
    if bytes.len() < 14 {
        return None;
    }
    let version: u16 = get_u16(bytes, 0);
    let width: u32 = get_u32(bytes, 2);
    let height: u32 = get_u32(bytes, 6);
    let count: u32 = get_u32(bytes, 10);
    let mut items: Vec<DisplayItem<F32>> = Vec::new();
    let mut p: usize = 14;
    let mut i: u32 = 0;
    assert(items_view(items@) =~= seq![]);
    while i < count
        invariant
            i <= count,
            p <= bytes@.len(),
            bytes@.len() >= 14,
            count == u32_at(bytes@, 10),
            parse_items(bytes@, 14, i as nat) == Some((items_view(items@), p as int)),
        decreases count - i,
    {
        match read_item(bytes, p) {
            Some((item, end)) => {
                proof {
                    lemma_items_push(items@, item);
                }
                items.push(item);
                p = end;
            },
            None => {
                proof {
                    assert(parse_items(bytes@, 14, (i + 1) as nat) is None);
                    lemma_parse_items_stop(bytes@, 14, (i + 1) as nat, count as nat);
                }
                return None;
            },
        }
        i += 1;
    }
    Some(Scene { version, width, height, items })
}

proof fn lemma_color_at(b: Seq<u8>, p: int, c: Color)
    ensures
        stands_at(b, p, color_bytes(c)) <==> 0 <= p && p + 4 <= b.len() && color_at(b, p) == c,
        color_bytes(c).len() == 4,
{
    reveal(color_bytes);
    reveal(color_at);
    let w = color_bytes(c);
    if stands_at(b, p, w) {
        let s = b.subrange(p, p + 4);
        assert(s[0] == b[p] && s[1] == b[p + 1] && s[2] == b[p + 2] && s[3] == b[p + 3]);
    }
    if 0 <= p && p + 4 <= b.len() && color_at(b, p) == c {
        assert(b.subrange(p, p + 4) =~= w);
    }
}

proof fn lemma_point_at(b: Seq<u8>, p: int, v: Point<F32>)
    ensures
        stands_at(b, p, point_bytes(v)) <==> 0 <= p && p + 8 <= b.len() && point_at(b, p) == v,
        point_bytes(v).len() == 8,
{
    reveal(point_bytes);
    reveal(point_at);
    lemma_stands_at_concat(b, p, u32_le(v.x.0), u32_le(v.y.0));
    lemma_u32_at(b, p, v.x.0);
    lemma_u32_at(b, p + 4, v.y.0);
}

proof fn lemma_rect_at(b: Seq<u8>, p: int, v: Rect<F32>)
    ensures
        stands_at(b, p, rect_bytes(v)) <==> 0 <= p && p + 16 <= b.len() && rect_at(b, p) == v,
        rect_bytes(v).len() == 16,
{
    reveal(rect_bytes);
    reveal(rect_at);
    let o = point_bytes(v.origin);
    lemma_stands_at_concat(b, p, o + u32_le(v.size.w.0), u32_le(v.size.h.0));
    lemma_stands_at_concat(b, p, o, u32_le(v.size.w.0));
    lemma_point_at(b, p, v.origin);
    lemma_u32_at(b, p + 8, v.size.w.0);
    lemma_u32_at(b, p + 12, v.size.h.0);
}

proof fn lemma_glyphs_at(b: Seq<u8>, p: int, gs: Seq<Glyph<F32>>)
    requires
        stands_at(b, p, glyphs_bytes(gs)),
    ensures
        glyphs_bytes(gs).len() == 12 * gs.len(),
        glyphs_at(b, p, gs.len()) == gs,
    decreases gs.len(),
{
    if gs.len() > 0 {
        let init = gs.drop_last();
        let g = gs.last();
        lemma_stands_at_concat(b, p, glyphs_bytes(init), glyph_bytes(g));
        lemma_glyphs_at(b, p, init);
        reveal(glyph_bytes);
        reveal(glyph_at);
        let q = p + 12 * init.len();
        lemma_stands_at_concat(b, q, u32_le(g.id) + u32_le(g.x.0), u32_le(g.y.0));
        lemma_stands_at_concat(b, q, u32_le(g.id), u32_le(g.x.0));
        lemma_u32_at(b, q, g.id);
        lemma_u32_at(b, q + 4, g.x.0);
        lemma_u32_at(b, q + 8, g.y.0);
        let read = glyphs_at(b, p, gs.len());
        assert forall|i: int| 0 <= i < gs.len() implies read[i] == gs[i] by {
            if i < init.len() {
                assert(glyphs_at(b, p, init.len())[i] == init[i]);
            }
        }
    }
    assert(glyphs_at(b, p, gs.len()) =~= gs);
}

proof fn lemma_stops_at(b: Seq<u8>, p: int, ss: Seq<GradientStop<F32>>)
    requires
        stands_at(b, p, stops_bytes(ss)),
    ensures
        stops_bytes(ss).len() == 8 * ss.len(),
        stops_at(b, p, ss.len()) == ss,
    decreases ss.len(),
{
    if ss.len() > 0 {
        let init = ss.drop_last();
        let s = ss.last();
        lemma_stands_at_concat(b, p, stops_bytes(init), stop_bytes(s));
        lemma_stops_at(b, p, init);
        reveal(stop_bytes);
        reveal(stop_at);
        let q = p + 8 * init.len();
        lemma_color_at(b, q, s.color);
        lemma_stands_at_concat(b, q, color_bytes(s.color), u32_le(s.position.0));
        lemma_u32_at(b, q + 4, s.position.0);
        let read = stops_at(b, p, ss.len());
        assert forall|i: int| 0 <= i < ss.len() implies read[i] == ss[i] by {
            if i < init.len() {
                assert(stops_at(b, p, init.len())[i] == init[i]);
            }
        }
    }
    assert(stops_at(b, p, ss.len()) =~= ss);
}

/// Whether the counts of an item fit their fields.
pub open spec fn item_fits(v: ItemView<F32>) -> bool {
    match v {
        ItemView::Glyphs { glyphs, .. } => glyphs.len() <= 0xffff_ffff,
        ItemView::Text { text, .. } => encode_utf8(text).len() <= 0xffff_ffff,
        ItemView::Gradient { stops, .. } => stops.len() <= 255,
        _ => true,
    }
}

/// Whether the counts of a scene fit their fields.
pub open spec fn items_fit(items: Seq<ItemView<F32>>) -> bool {
    &&& items.len() <= 0xffff_ffff
    &&& forall|i: int| 0 <= i < items.len() ==> item_fits(#[trigger] items[i])
}

/// The bytes of an item are read back as that item, wherever in a buffer they stand.
pub proof fn law_item_round_trip(b: Seq<u8>, p: int, v: ItemView<F32>)
    requires
        item_fits(v),
        stands_at(b, p, item_bytes(v)),
    ensures
        parse_item(b, p) == Some((v, p + item_bytes(v).len())),
{
    match v {
        ItemView::Rect { rect, color, radius } => {
            lemma_tag_fields3(b, p, DL_RECT, rect_bytes(rect), color_bytes(color), u32_le(radius.0));
            lemma_rect_at(b, p + 1, rect);
            lemma_color_at(b, p + 17, color);
            lemma_u32_at(b, p + 21, radius.0);
        },
        ItemView::Glyphs { glyphs, color } => {
            let n = length_u32(glyphs.len());
            lemma_tag_fields3(
                b,
                p,
                DL_GLYPHS,
                color_bytes(color),
                u32_le(n),
                glyphs_bytes(glyphs),
            );
            lemma_color_at(b, p + 1, color);
            lemma_u32_at(b, p + 5, n);
            lemma_glyphs_at(b, p + 9, glyphs);
        },
        ItemView::Text { origin, text, color, size, box_w, align } => {
            let utf8 = encode_utf8(text);
            let n = length_u32(utf8.len());
            let sizes = u32_le(size.0) + u32_le(box_w.0) + u32_le(align.0);
            lemma_tag_fields4(
                b,
                p,
                DL_TEXT,
                point_bytes(origin),
                color_bytes(color),
                sizes,
                u32_le(n) + utf8,
            );
            lemma_point_at(b, p + 1, origin);
            lemma_color_at(b, p + 9, color);
            lemma_stands_at_concat(b, p + 13, u32_le(size.0) + u32_le(box_w.0), u32_le(align.0));
            lemma_stands_at_concat(b, p + 13, u32_le(size.0), u32_le(box_w.0));
            lemma_u32_at(b, p + 13, size.0);
            lemma_u32_at(b, p + 17, box_w.0);
            lemma_u32_at(b, p + 21, align.0);
            lemma_stands_at_concat(b, p + 25, u32_le(n), utf8);
            lemma_u32_at(b, p + 25, n);
            encode_utf8_valid_utf8(text);
            encode_utf8_decode_utf8(text);
            assert(b.subrange(p + 29, p + 29 + n) == utf8);
        },
        ItemView::Border { rect, color, width, radius } => {
            lemma_tag_fields4(
                b,
                p,
                DL_BORDER,
                rect_bytes(rect),
                color_bytes(color),
                u32_le(width.0),
                u32_le(radius.0),
            );
            lemma_rect_at(b, p + 1, rect);
            lemma_color_at(b, p + 17, color);
            lemma_u32_at(b, p + 21, width.0);
            lemma_u32_at(b, p + 25, radius.0);
        },
        ItemView::Gradient { rect, stops, direction } => {
            let d = direction_byte(direction);
            let n = length_u8(stops.len());
            lemma_tag_fields4(
                b,
                p,
                DL_GRADIENT,
                rect_bytes(rect),
                seq![d],
                seq![n],
                stops_bytes(stops),
            );
            lemma_rect_at(b, p + 1, rect);
            lemma_u8_at(b, p + 17, d);
            lemma_u8_at(b, p + 18, n);
            lemma_stops_at(b, p + 19, stops);
        },
        ItemView::Shadow { rect, color, blur, offset } => {
            lemma_tag_fields4(
                b,
                p,
                DL_SHADOW,
                rect_bytes(rect),
                color_bytes(color),
                u32_le(blur.0),
                point_bytes(offset),
            );
            lemma_rect_at(b, p + 1, rect);
            lemma_color_at(b, p + 17, color);
            lemma_u32_at(b, p + 21, blur.0);
            lemma_point_at(b, p + 25, offset);
        },
        ItemView::PushClip { rect, radius } => {
            lemma_tag_fields2(b, p, DL_PUSH_CLIP, rect_bytes(rect), u32_le(radius.0));
            lemma_rect_at(b, p + 1, rect);
            lemma_u32_at(b, p + 17, radius.0);
        },
        ItemView::PopClip => {
            lemma_u8_at(b, p, DL_POP_CLIP);
        },
    }
}

proof fn lemma_items_at(b: Seq<u8>, p: int, items: Seq<ItemView<F32>>)
    requires
        items_fit(items),
        stands_at(b, p, items_bytes(items)),
    ensures
        parse_items(b, p, items.len()) == Some((items, p + items_bytes(items).len())),
    decreases items.len(),
{
    if items.len() > 0 {
        let init = items.drop_last();
        let item = items.last();
        assert(items[items.len() - 1] == item);
        assert forall|i: int| 0 <= i < init.len() implies item_fits(#[trigger] init[i]) by {
            assert(init[i] == items[i]);
        }
        lemma_stands_at_concat(b, p, items_bytes(init), item_bytes(item));
        lemma_items_at(b, p, init);
        law_item_round_trip(b, p + items_bytes(init).len(), item);
        assert(init.push(item) =~= items);
    } else {
        assert(items =~= seq![]);
    }
}

proof fn lemma_frame_at(b: Seq<u8>, items: Seq<ItemView<F32>>, width: u32, height: u32)
    requires
        items_fit(items),
        stands_at(b, 0, frame_bytes(items, width, height)),
    ensures
        b.len() >= 14,
        u16_at(b, 0) == DL_VERSION,
        u32_at(b, 2) == width,
        u32_at(b, 6) == height,
        u32_at(b, 10) == items.len(),
        parse_items(b, 14, items.len()) == Some((items, frame_bytes(items, width, height).len() as int)),
{
    let n = length_u32(items.len());
    let v = u16_le(DL_VERSION);
    lemma_stands_at_concat(
        b,
        0,
        v + u32_le(width) + u32_le(height) + u32_le(n),
        items_bytes(items),
    );
    lemma_stands_at_concat(b, 0, v + u32_le(width) + u32_le(height), u32_le(n));
    lemma_stands_at_concat(b, 0, v + u32_le(width), u32_le(height));
    lemma_stands_at_concat(b, 0, v, u32_le(width));
    lemma_u16_at(b, 0, DL_VERSION);
    lemma_u32_at(b, 2, width);
    lemma_u32_at(b, 6, height);
    lemma_u32_at(b, 10, n);
    lemma_items_at(b, 14, items);
}

/// Decoding the frame of a scene yields that scene, also when more bytes follow the frame.
pub proof fn law_scene_round_trip(
    items: Seq<ItemView<F32>>,
    width: u32,
    height: u32,
    rest: Seq<u8>,
)
    requires
        items_fit(items),
    ensures
        parse_scene(frame_bytes(items, width, height) + rest) == Some(
            SceneView { version: DL_VERSION, width, height, items },
        ),
{
    let w = frame_bytes(items, width, height);
    let b = w + rest;
    assert(b.subrange(0, w.len() as int) =~= w);
    lemma_frame_at(b, items, width, height);
}

/// Equal bytes mean equal scenes.
pub proof fn law_equal_frames_mean_equal_scenes(
    items: Seq<ItemView<F32>>,
    width: u32,
    height: u32,
    other: Seq<ItemView<F32>>,
    other_width: u32,
    other_height: u32,
)
    requires
        items_fit(items),
        items_fit(other),
        frame_bytes(items, width, height) == frame_bytes(other, other_width, other_height),
    ensures
        items == other,
        width == other_width,
        height == other_height,
{
    law_scene_round_trip(items, width, height, seq![]);
    law_scene_round_trip(other, other_width, other_height, seq![]);
}

proof fn lemma_take_reads(b: Seq<u8>, k: int)
    requires
        0 <= k <= b.len(),
    ensures
        forall|p: int| 0 <= p && p + 4 <= k ==> #[trigger] color_at(b.take(k), p) == color_at(b, p),
        forall|p: int| 0 <= p && p + 4 <= k ==> #[trigger] u32_at(b.take(k), p) == u32_at(b, p),
        forall|p: int| 0 <= p && p + 8 <= k ==> #[trigger] point_at(b.take(k), p) == point_at(b, p),
        forall|p: int| 0 <= p && p + 16 <= k ==> #[trigger] rect_at(b.take(k), p) == rect_at(b, p),
        forall|p: int| 0 <= p && p + 12 <= k ==> #[trigger] glyph_at(b.take(k), p) == glyph_at(b, p),
        forall|p: int| 0 <= p && p + 8 <= k ==> #[trigger] stop_at(b.take(k), p) == stop_at(b, p),
{
    reveal(color_at);
    reveal(point_at);
    reveal(rect_at);
    reveal(glyph_at);
    reveal(stop_at);
    assert forall|p: int| 0 <= p && p + 4 <= k implies #[trigger] u32_at(b.take(k), p) == u32_at(b, p) by {
        lemma_u32_at_take(b, k, p);
    }
}

/// What is read within the first `k` bytes does not depend on what follows them.
proof fn lemma_parse_item_take(b: Seq<u8>, k: int, p: int)
    requires
        0 <= p,
        0 <= k <= b.len(),
        parse_item(b.take(k), p) is Some,
    ensures
        parse_item(b, p) == parse_item(b.take(k), p),
        p < (parse_item(b, p)->0).1 <= k,
{
    lemma_take_reads(b, k);
    let c = b.take(k);
    assert(c[p] == b[p]);
    if b[p] == DL_GLYPHS {
        let n = u32_at(c, p + 5) as nat;
        let read = glyphs_at(c, p + 9, n);
        let full = glyphs_at(b, p + 9, n);
        assert forall|i: int| 0 <= i < n implies #[trigger] read[i] == full[i] by {
            assert(glyph_at(c, p + 9 + 12 * i) == glyph_at(b, p + 9 + 12 * i));
        }
        assert(read =~= full);
    } else if b[p] == DL_TEXT {
        let n = u32_at(c, p + 25);
        assert(c.subrange(p + 29, p + 29 + n) =~= b.subrange(p + 29, p + 29 + n));
    } else if b[p] == DL_GRADIENT {
        let n = c[p + 18] as nat;
        let read = stops_at(c, p + 19, n);
        let full = stops_at(b, p + 19, n);
        assert forall|i: int| 0 <= i < n implies #[trigger] read[i] == full[i] by {
            assert(stop_at(c, p + 19 + 8 * i) == stop_at(b, p + 19 + 8 * i));
        }
        assert(read =~= full);
    }
}

proof fn lemma_parse_items_take(b: Seq<u8>, k: int, p: int, n: nat)
    requires
        0 <= p <= k <= b.len(),
        parse_items(b.take(k), p, n) is Some,
    ensures
        parse_items(b, p, n) == parse_items(b.take(k), p, n),
        p <= (parse_items(b, p, n)->0).1 <= k,
    decreases n,
{
    if n > 0 {
        lemma_parse_items_take(b, k, p, (n - 1) as nat);
        let q = (parse_items(b, p, (n - 1) as nat)->0).1;
        lemma_parse_item_take(b, k, q);
    }
}

/// A frame that is cut short decodes to nothing, wherever it is cut.
pub proof fn law_cut_frames_are_refused(
    items: Seq<ItemView<F32>>,
    width: u32,
    height: u32,
    k: int,
)
    requires
        items_fit(items),
        0 <= k < frame_bytes(items, width, height).len(),
    ensures
        parse_scene(frame_bytes(items, width, height).take(k)) is None,
{
    let b = frame_bytes(items, width, height);
    assert(b.subrange(0, b.len() as int) =~= b);
    lemma_frame_at(b, items, width, height);
    let c = b.take(k);
    if c.len() >= 14 {
        lemma_u32_at_take(b, k, 10);
        if parse_items(c, 14, items.len()) is Some {
            lemma_parse_items_take(b, k, 14, items.len());
        }
    }
}

/// Whether the bytes of a box stand at `p`: its left edge, its top edge, its width and its height.
pub open spec fn holds_rect(b: Seq<u8>, p: int, r: Rect<F32>) -> bool {
    &&& worth(b, p, 4) == r.origin.x.0
    &&& worth(b, p + 4, 4) == r.origin.y.0
    &&& worth(b, p + 8, 4) == r.size.w.0
    &&& worth(b, p + 12, 4) == r.size.h.0
}

/// Whether the bytes of a color stand at `p`: red, green, blue and how opaque it is.
pub open spec fn holds_color(b: Seq<u8>, p: int, c: Color) -> bool {
    b[p] == c.r && b[p + 1] == c.g && b[p + 2] == c.b && b[p + 3] == c.a
}

proof fn lemma_holds(b: Seq<u8>, p: int)
    ensures
        holds_rect(b, p, rect_at(b, p)),
        holds_color(b, p, color_at(b, p)),
        worth(b, p, 4) == u32_at(b, p),
        worth(b, p, 4) == point_at(b, p).x.0,
        worth(b, p + 4, 4) == point_at(b, p).y.0,
        worth(b, p, 4) == glyph_at(b, p).id,
        worth(b, p + 4, 4) == glyph_at(b, p).x.0,
        worth(b, p + 8, 4) == glyph_at(b, p).y.0,
        holds_color(b, p, stop_at(b, p).color),
        worth(b, p + 4, 4) == stop_at(b, p).position.0,
{
    reveal(rect_at);
    reveal(point_at);
    reveal(color_at);
    reveal(glyph_at);
    reveal(stop_at);
    law_integers_are_little_endian(b, p);
    law_integers_are_little_endian(b, p + 4);
    law_integers_are_little_endian(b, p + 8);
    law_integers_are_little_endian(b, p + 12);
}

/// The layout of every item: a tag, then its fields in order, numbers least significant byte first.
pub proof fn law_items_are_laid_out_in_order(v: ItemView<F32>)
    requires
        item_fits(v),
    ensures
        ({
            let b = item_bytes(v);
            match v {
                ItemView::Rect { rect, color, radius } => {
                    &&& b.len() == 25 && b[0] == 1
                    &&& holds_rect(b, 1, rect) && holds_color(b, 17, color)
                    &&& worth(b, 21, 4) == radius.0
                },
                ItemView::Glyphs { glyphs, color } => {
                    &&& b.len() == 9 + 12 * glyphs.len() && b[0] == 2
                    &&& holds_color(b, 1, color) && worth(b, 5, 4) == glyphs.len()
                    &&& forall|i: int|
                        0 <= i < glyphs.len() ==> worth(b, 9 + 12 * i, 4) == (
                        #[trigger] glyphs[i]).id && worth(b, 13 + 12 * i, 4) == glyphs[i].x.0
                            && worth(b, 17 + 12 * i, 4) == glyphs[i].y.0
                },
                ItemView::Text { origin, text, color, size, box_w, align } => {
                    &&& b.len() == 29 + encode_utf8(text).len() && b[0] == 3
                    &&& worth(b, 1, 4) == origin.x.0 && worth(b, 5, 4) == origin.y.0
                    &&& holds_color(b, 9, color)
                    &&& worth(b, 13, 4) == size.0 && worth(b, 17, 4) == box_w.0
                    &&& worth(b, 21, 4) == align.0
                    &&& worth(b, 25, 4) == encode_utf8(text).len()
                    &&& b.skip(29) == encode_utf8(text)
                },
                ItemView::Border { rect, color, width, radius } => {
                    &&& b.len() == 29 && b[0] == 4
                    &&& holds_rect(b, 1, rect) && holds_color(b, 17, color)
                    &&& worth(b, 21, 4) == width.0 && worth(b, 25, 4) == radius.0
                },
                ItemView::Gradient { rect, stops, direction } => {
                    &&& b.len() == 19 + 8 * stops.len() && b[0] == 5
                    &&& holds_rect(b, 1, rect)
                    &&& b[17] == if direction == GradientDirection::Horizontal {
                        1u8
                    } else {
                        0u8
                    }
                    &&& b[18] == stops.len()
                    &&& forall|i: int|
                        0 <= i < stops.len() ==> holds_color(
                            b,
                            19 + 8 * i,
                            (#[trigger] stops[i]).color,
                        ) && worth(b, 23 + 8 * i, 4) == stops[i].position.0
                },
                ItemView::Shadow { rect, color, blur, offset } => {
                    &&& b.len() == 33 && b[0] == 6
                    &&& holds_rect(b, 1, rect) && holds_color(b, 17, color)
                    &&& worth(b, 21, 4) == blur.0
                    &&& worth(b, 25, 4) == offset.x.0 && worth(b, 29, 4) == offset.y.0
                },
                ItemView::PushClip { rect, radius } => {
                    &&& b.len() == 21 && b[0] == 7
                    &&& holds_rect(b, 1, rect) && worth(b, 17, 4) == radius.0
                },
                ItemView::PopClip => b.len() == 1 && b[0] == 8,
            }
        }),
{
    let b = item_bytes(v);
    assert(b.subrange(0, b.len() as int) =~= b);
    law_item_round_trip(b, 0, v);
    lemma_holds(b, 1);
    lemma_holds(b, 5);
    lemma_holds(b, 9);
    lemma_holds(b, 13);
    lemma_holds(b, 17);
    lemma_holds(b, 21);
    lemma_holds(b, 25);
    if let ItemView::Glyphs { glyphs, .. } = v {
        assert forall|i: int| 0 <= i < glyphs.len() implies worth(b, 9 + 12 * i, 4) == (
        #[trigger] glyphs[i]).id && worth(b, 13 + 12 * i, 4) == glyphs[i].x.0 && worth(
            b,
            17 + 12 * i,
            4,
        ) == glyphs[i].y.0 by {
            lemma_holds(b, 9 + 12 * i);
            assert(glyphs[i] == glyph_at(b, 9 + 12 * i));
        }
    }
    if let ItemView::Text { text, .. } = v {
        reveal(point_bytes);
        reveal(color_bytes);
        assert(b.skip(29) =~= encode_utf8(text));
    }
    if let ItemView::Gradient { rect, stops, direction } = v {
        lemma_tag_fields4(
            b,
            0,
            DL_GRADIENT,
            rect_bytes(rect),
            seq![direction_byte(direction)],
            seq![length_u8(stops.len())],
            stops_bytes(stops),
        );
        lemma_rect_at(b, 1, rect);
        lemma_u8_at(b, 17, direction_byte(direction));
        assert forall|i: int| 0 <= i < stops.len() implies holds_color(
            b,
            19 + 8 * i,
            (#[trigger] stops[i]).color,
        ) && worth(b, 23 + 8 * i, 4) == stops[i].position.0 by {
            lemma_holds(b, 19 + 8 * i);
            assert(stops[i] == stop_at(b, 19 + 8 * i));
        }
    }
}

/// The layout of a frame: the version, the width and the height of the viewport, how many items there
/// are, and the items one after the other.
pub proof fn law_frames_begin_with_their_size(items: Seq<ItemView<F32>>, width: u32, height: u32)
    requires
        items.len() < 0x1_0000_0000,
    ensures
        ({
            let b = frame_bytes(items, width, height);
            &&& b.len() >= 14
            &&& worth(b, 0, 2) == 1
            &&& worth(b, 2, 4) == width
            &&& worth(b, 6, 4) == height
            &&& worth(b, 10, 4) == items.len()
            &&& b.skip(14) == items_bytes(items)
            &&& items.len() > 0 ==> items_bytes(items) == items_bytes(items.drop_last())
                + item_bytes(items.last())
        }),
{
    let b = frame_bytes(items, width, height);
    let n = length_u32(items.len());
    let head = u16_le(DL_VERSION) + u32_le(width) + u32_le(height) + u32_le(n);
    assert(b.subrange(0, b.len() as int) =~= b);
    lemma_stands_at_concat(b, 0, head, items_bytes(items));
    lemma_stands_at_concat(b, 0, u16_le(DL_VERSION) + u32_le(width) + u32_le(height), u32_le(n));
    lemma_stands_at_concat(b, 0, u16_le(DL_VERSION) + u32_le(width), u32_le(height));
    lemma_stands_at_concat(b, 0, u16_le(DL_VERSION), u32_le(width));
    lemma_u16_at(b, 0, DL_VERSION);
    lemma_u32_at(b, 2, width);
    lemma_u32_at(b, 6, height);
    lemma_u32_at(b, 10, n);
    law_integers_are_little_endian(b, 0);
    law_integers_are_little_endian(b, 2);
    law_integers_are_little_endian(b, 6);
    law_integers_are_little_endian(b, 10);
    assert(b.skip(14) =~= items_bytes(items));
}

} // verus!
