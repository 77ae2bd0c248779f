//! The inline style properties: their raw ids, and how their values are read.
use crate::chars::{hex_digit, hex_value, parse_u32, to_chars, u32_value};
use crate::dom::Dom;
use crate::geometry::Color;
use crate::handles::{NodeId, PropId};
use crate::text::str_eq;
use crate::tree::NodeView;
use vstd::prelude::*;

verus! {

/// Background color.
pub const BG: u16 = 1;

/// Text color. Inherited.
pub const FG: u16 = 2;

/// Width: a length, or a percentage.
pub const WIDTH: u16 = 3;

/// Height: a length, or a percentage.
pub const HEIGHT: u16 = 4;

/// Space between children, on both axes.
pub const GAP: u16 = 5;

/// Space inside the border, on all sides.
pub const PADDING: u16 = 6;

/// Main axis: `row` or `column`.
pub const DIRECTION: u16 = 7;

/// Corner radius.
pub const RADIUS: u16 = 8;

/// Opacity from 0 to 1, multiplied down the subtree.
pub const OPACITY: u16 = 9;

/// Horizontal paint offset of the subtree.
pub const TRANSLATE_X: u16 = 10;

/// Vertical paint offset of the subtree.
pub const TRANSLATE_Y: u16 = 11;

/// `align-items`.
pub const ALIGN: u16 = 12;

/// `justify-content`.
pub const JUSTIFY: u16 = 13;

/// `text-align`: `left`, `center` or `right`. Inherited.
pub const TEXT_ALIGN: u16 = 14;

/// Space outside the border, on all sides.
pub const MARGIN: u16 = 15;

/// `min-width`.
pub const MIN_WIDTH: u16 = 16;

/// `min-height`.
pub const MIN_HEIGHT: u16 = 17;

/// `max-width`.
pub const MAX_WIDTH: u16 = 18;

/// `max-height`.
pub const MAX_HEIGHT: u16 = 19;

/// `flex-grow`.
pub const FLEX_GROW: u16 = 20;

/// Width of the border, on all sides.
pub const BORDER_WIDTH: u16 = 21;

/// Color of the border.
pub const BORDER_COLOR: u16 = 22;

/// `margin-top`.
pub const MARGIN_TOP: u16 = 23;

/// `margin-right`.
pub const MARGIN_RIGHT: u16 = 24;

/// `margin-bottom`.
pub const MARGIN_BOTTOM: u16 = 25;

/// `margin-left`.
pub const MARGIN_LEFT: u16 = 26;

/// `padding-top`.
pub const PADDING_TOP: u16 = 27;

/// `padding-right`.
pub const PADDING_RIGHT: u16 = 28;

/// `padding-bottom`.
pub const PADDING_BOTTOM: u16 = 29;

/// `padding-left`.
pub const PADDING_LEFT: u16 = 30;

/// `none` takes the subtree out of layout.
pub const DISPLAY: u16 = 31;

/// `hidden` paints nothing of the node itself.
pub const VISIBILITY: u16 = 32;

/// `absolute`, or in flow.
pub const POSITION: u16 = 33;

/// `inset-top`.
pub const INSET_TOP: u16 = 34;

/// `inset-right`.
pub const INSET_RIGHT: u16 = 35;

/// `inset-bottom`.
pub const INSET_BOTTOM: u16 = 36;

/// `inset-left`.
pub const INSET_LEFT: u16 = 37;

/// Paint order: higher is later.
pub const Z_INDEX: u16 = 38;

/// `flex-wrap`.
pub const FLEX_WRAP: u16 = 39;

/// `flex-basis`.
pub const FLEX_BASIS: u16 = 40;

/// `flex-shrink`.
pub const FLEX_SHRINK: u16 = 41;

/// `align-self`.
pub const ALIGN_SELF: u16 = 42;

/// `aspect-ratio`.
pub const ASPECT_RATIO: u16 = 43;

/// `box-sizing`.
pub const BOX_SIZING: u16 = 44;

/// `row-gap`.
pub const ROW_GAP: u16 = 45;

/// `column-gap`.
pub const COLUMN_GAP: u16 = 46;

/// What happens to content past the box: `hidden`, `clip` and `scroll` mask it.
pub const OVERFLOW: u16 = 47;

/// `border-style`.
pub const BORDER_STYLE: u16 = 48;

/// `border-top-width`.
pub const BORDER_TOP_WIDTH: u16 = 49;

/// `border-right-width`.
pub const BORDER_RIGHT_WIDTH: u16 = 50;

/// `border-bottom-width`.
pub const BORDER_BOTTOM_WIDTH: u16 = 51;

/// `border-left-width`.
pub const BORDER_LEFT_WIDTH: u16 = 52;

/// `border-top-color`.
pub const BORDER_TOP_COLOR: u16 = 53;

/// `border-right-color`.
pub const BORDER_RIGHT_COLOR: u16 = 54;

/// `border-bottom-color`.
pub const BORDER_BOTTOM_COLOR: u16 = 55;

/// `border-left-color`.
pub const BORDER_LEFT_COLOR: u16 = 56;

/// `border-top-left-radius`.
pub const BORDER_TOP_LEFT_RADIUS: u16 = 57;

/// `border-top-right-radius`.
pub const BORDER_TOP_RIGHT_RADIUS: u16 = 58;

/// `border-bottom-right-radius`.
pub const BORDER_BOTTOM_RIGHT_RADIUS: u16 = 59;

/// `border-bottom-left-radius`.
pub const BORDER_BOTTOM_LEFT_RADIUS: u16 = 60;

/// `font-size`.
pub const FONT_SIZE: u16 = 61;

/// `font-weight`.
pub const FONT_WEIGHT: u16 = 62;

/// `line-height`.
pub const LINE_HEIGHT: u16 = 63;

/// `underline` or `line-through`.
pub const TEXT_DECORATION: u16 = 64;

/// `outline-width`.
pub const OUTLINE_WIDTH: u16 = 65;

/// `outline-color`.
pub const OUTLINE_COLOR: u16 = 66;

/// `outline-offset`.
pub const OUTLINE_OFFSET: u16 = 67;

/// Drop shadow: offsets, blur and color.
pub const BOX_SHADOW: u16 = 68;

/// A `linear-gradient(..)` over the background color.
pub const BACKGROUND_IMAGE: u16 = 69;

/// Whether a property flows from a node to the descendants that do not set it.
pub open spec fn inherits(prop: u16) -> bool {
    prop == FG || prop == TEXT_ALIGN
}

/// Whether a property flows from a node to the descendants that do not set it.
pub fn is_inherited(prop: PropId) -> (r: bool)
    ensures
        r == inherits(prop.0),
{
    prop.0 == FG || prop.0 == TEXT_ALIGN
}

/// The inline value of a property of a node, if it is set.
pub open spec fn style_of(nodes: Map<u64, NodeView>, n: NodeId, prop: u16) -> Option<Seq<char>> {
    if nodes.contains_key(n.0) && nodes[n.0].styles.contains_key(prop) {
        Some(nodes[n.0].styles[prop])
    } else {
        None
    }
}

/// Whether a property of a node is set to `value`.
pub open spec fn style_is(nodes: Map<u64, NodeView>, n: NodeId, prop: u16, value: Seq<char>) -> bool {
    style_of(nodes, n, prop) == Some(value)
}

/// Whether a property of a node is set to `value`.
pub fn has_style(dom: &Dom, node: NodeId, prop: u16, value: &str) -> (r: bool)
    ensures
        r == style_is(dom@.nodes, node, prop, value@),
{
    match dom.style(node, PropId(prop)) {
        Some(v) => str_eq(v, value),
        None => false,
    }
}

/// The whole number of pixels that a property of a node is set to.
pub open spec fn px_of(nodes: Map<u64, NodeView>, n: NodeId, prop: u16) -> Option<u32> {
    match style_of(nodes, n, prop) {
        Some(s) => u32_value(s),
        None => None,
    }
}

/// The whole number of pixels that a property of a node is set to.
pub fn style_px(dom: &Dom, node: NodeId, prop: u16) -> (r: Option<u32>)
    ensures
        r == px_of(dom@.nodes, node, prop),
{
    match dom.style(node, PropId(prop)) {
        Some(v) => {
            let chars = to_chars(v);
            parse_u32(chars.as_slice())
        },
        None => None,
    }
}

/// The value of two hexadecimal digits, or of one after a `+`.
pub open spec fn hex_pair(a: char, b: char) -> Option<u8> {
    match (hex_value(a), hex_value(b)) {
        (Some(hi), Some(lo)) => Some((16 * hi + lo) as u8),
        (None, Some(lo)) => if a == '+' {
            Some(lo as u8)
        } else {
            None
        },
        _ => None,
    }
}

fn parse_hex_pair(a: char, b: char) -> (r: Option<u8>)
    ensures
        r == hex_pair(a, b),
{
    match hex_digit(b) {
        Some(lo) => match hex_digit(a) {
            Some(hi) => Some(16 * hi + lo),
            None => if a == '+' {
                Some(lo)
            } else {
                None
            },
        },
        None => None,
    }
}

/// The color that `#rrggbb` spells.
pub open spec fn rgb_value(s: Seq<char>) -> Option<Color> {
    if s.len() == 7 && s[0] == '#' {
        match (hex_pair(s[1], s[2]), hex_pair(s[3], s[4]), hex_pair(s[5], s[6])) {
            (Some(r), Some(g), Some(b)) => Some(Color { r, g, b, a: 255 }),
            _ => None,
        }
    } else {
        None
    }
}

/// The color that `#rrggbb` or `#rrggbbaa` spells.
pub open spec fn rgba_value(s: Seq<char>) -> Option<Color> {
    if s.len() == 9 {
        match (rgb_value(s.take(7)), hex_pair(s[7], s[8])) {
            (Some(c), Some(a)) => Some(Color { a, ..c }),
            _ => None,
        }
    } else {
        rgb_value(s)
    }
}

fn parse_rgb(chars: &[char]) -> (r: Option<Color>)
    requires
        chars@.len() >= 7,
    ensures
        r == rgb_value(chars@.take(7)),
{
    if chars[0] != '#' {
        return None;
    }
    match (
        parse_hex_pair(chars[1], chars[2]),
        parse_hex_pair(chars[3], chars[4]),
        parse_hex_pair(chars[5], chars[6]),
    ) {
        (Some(r), Some(g), Some(b)) => Some(Color { r, g, b, a: 255 }),
        _ => None,
    }
}

/// Read a `#rrggbb` color.
pub fn parse_color(s: &str) -> (r: Option<Color>)
    ensures
        r == rgb_value(s@),
{
    let chars = to_chars(s);
    if chars.len() != 7 {
        return None;
    }
    assert(chars@.take(7) =~= s@);
    parse_rgb(chars.as_slice())
}

/// Read a `#rrggbb` or `#rrggbbaa` color.
pub fn parse_color_alpha(chars: &[char]) -> (r: Option<Color>)
    ensures
        r == rgba_value(chars@),
{
    if chars.len() == 7 {
        assert(chars@.take(7) =~= chars@);
        return parse_rgb(chars);
    }
    if chars.len() != 9 {
        return None;
    }
    match (parse_rgb(chars), parse_hex_pair(chars[7], chars[8])) {
        (Some(c), Some(a)) => Some(Color { r: c.r, g: c.g, b: c.b, a }),
        _ => None,
    }
}

/// The `#rrggbb` color that a property of a node is set to.
pub open spec fn rgb_of(nodes: Map<u64, NodeView>, n: NodeId, prop: u16) -> Option<Color> {
    match style_of(nodes, n, prop) {
        Some(s) => rgb_value(s),
        None => None,
    }
}

/// The `#rrggbb` color that a property of a node is set to.
pub fn style_color(dom: &Dom, node: NodeId, prop: u16) -> (r: Option<Color>)
    ensures
        r == rgb_of(dom@.nodes, node, prop),
{
    match dom.style(node, PropId(prop)) {
        Some(v) => parse_color(v),
        None => None,
    }
}

/// The `#rrggbb` or `#rrggbbaa` color that a property of a node is set to.
pub open spec fn rgba_of(nodes: Map<u64, NodeView>, n: NodeId, prop: u16) -> Option<Color> {
    match style_of(nodes, n, prop) {
        Some(s) => rgba_value(s),
        None => None,
    }
}

/// The `#rrggbb` or `#rrggbbaa` color that a property of a node is set to.
pub fn style_color_alpha(dom: &Dom, node: NodeId, prop: u16) -> (r: Option<Color>)
    ensures
        r == rgba_of(dom@.nodes, node, prop),
{
    match dom.style(node, PropId(prop)) {
        Some(v) => {
            let chars = to_chars(v);
            parse_color_alpha(chars.as_slice())
        },
        None => None,
    }
}

/// The text color where none is set: light gray.
pub open spec fn default_ink() -> Color {
    Color { r: 0xe6, g: 0xe6, b: 0xe6, a: 255 }
}

/// The text color where none is set.
pub fn default_fg() -> (r: Color)
    ensures
        r == default_ink(),
{
    Color { r: 0xe6, g: 0xe6, b: 0xe6, a: 255 }
}

/// The color and the alignment of text flow down, and no other property does.
pub proof fn law_only_text_properties_flow_down(prop: u16)
    ensures
        inherits(prop) <==> prop == 2 || prop == 14,
{
}

/// Two hexadecimal digits are worth what their positions say: the first sixteen times its digit. Small
/// and capital letters are the same digits.
pub proof fn law_hex_pairs_are_positional(a: char, b: char)
    ensures
        hex_value(a) is Some && hex_value(b) is Some ==> hex_pair(a, b) is Some && hex_pair(a, b)->0
            == 16 * hex_value(a)->0 + hex_value(b)->0,
        hex_value(b) is None ==> hex_pair(a, b) is None,
        hex_value(a) is None && a != '+' ==> hex_pair(a, b) is None,
        hex_value(a) is Some <==> '0' <= a <= '9' || 'a' <= a <= 'f' || 'A' <= a <= 'F',
        '0' <= a <= '9' ==> hex_value(a) == Some((a as u32 - 48) as nat),
        'a' <= a <= 'f' ==> hex_value(a) == Some((a as u32 - 87) as nat),
        'A' <= a <= 'F' ==> hex_value(a) == Some((a as u32 - 55) as nat),
        hex_value(a) matches Some(d) ==> d < 16,
{
}

/// A color is `#` and two digits each for red, green and blue, in this order; two more say how opaque
/// it is, and it is opaque without them. Nothing else spells a color.
pub proof fn law_colors_are_red_green_blue(s: Seq<char>)
    ensures
        rgb_value(s) is Some <==> {
            &&& s.len() == 7
            &&& s[0] == '#'
            &&& hex_pair(s[1], s[2]) is Some
            &&& hex_pair(s[3], s[4]) is Some
            &&& hex_pair(s[5], s[6]) is Some
        },
        rgb_value(s) matches Some(c) ==> {
            &&& c.r == hex_pair(s[1], s[2])->0
            &&& c.g == hex_pair(s[3], s[4])->0
            &&& c.b == hex_pair(s[5], s[6])->0
            &&& c.a == 255
        },
        rgba_value(s) is Some <==> rgb_value(s) is Some || s.len() == 9 && rgb_value(s.take(7)) is Some
            && hex_pair(s[7], s[8]) is Some,
        s.len() == 7 ==> rgba_value(s) == rgb_value(s),
        s.len() == 9 && rgba_value(s) is Some ==> ({
            let c = rgba_value(s)->0;
            let opaque = rgb_value(s.take(7))->0;
            &&& c.r == opaque.r
            &&& c.g == opaque.g
            &&& c.b == opaque.b
            &&& c.a == hex_pair(s[7], s[8])->0
        }),
{
}

/// What is set on a node is read back by the readers of properties; what is not set is read as
/// nothing, and so is what is set on other nodes.
pub proof fn law_properties_are_read_where_they_are_set(
    nodes: Map<u64, NodeView>,
    n: NodeId,
    prop: u16,
)
    ensures
        style_of(nodes, n, prop) is Some <==> nodes.contains_key(n.0)
            && nodes[n.0].styles.contains_key(prop),
        style_of(nodes, n, prop) matches Some(s) ==> s == nodes[n.0].styles[prop] && px_of(
            nodes,
            n,
            prop,
        ) == u32_value(s) && rgb_of(nodes, n, prop) == rgb_value(s) && rgba_of(nodes, n, prop)
            == rgba_value(s),
        style_of(nodes, n, prop) is None ==> px_of(nodes, n, prop) is None && rgb_of(
            nodes,
            n,
            prop,
        ) is None && rgba_of(nodes, n, prop) is None,
{
}

/// Where no color is set, text is light gray and opaque.
pub proof fn law_default_ink_is_light_gray()
    ensures
        default_ink().r == 230,
        default_ink().g == 230,
        default_ink().b == 230,
        default_ink().a == 255,
{
}

/// The numbers under which properties are sent.
pub proof fn law_properties_have_fixed_numbers()
    ensures
        (BG, FG, WIDTH, HEIGHT, GAP, PADDING) == (1u16, 2u16, 3u16, 4u16, 5u16, 6u16),
        (DIRECTION, RADIUS, OPACITY, TRANSLATE_X, TRANSLATE_Y) == (7u16, 8u16, 9u16, 10u16, 11u16),
        (ALIGN, JUSTIFY, TEXT_ALIGN, MARGIN) == (12u16, 13u16, 14u16, 15u16),
        (MIN_WIDTH, MIN_HEIGHT, MAX_WIDTH, MAX_HEIGHT) == (16u16, 17u16, 18u16, 19u16),
        (FLEX_GROW, BORDER_WIDTH, BORDER_COLOR) == (20u16, 21u16, 22u16),
        (MARGIN_TOP, MARGIN_RIGHT, MARGIN_BOTTOM, MARGIN_LEFT) == (23u16, 24u16, 25u16, 26u16),
        (PADDING_TOP, PADDING_RIGHT, PADDING_BOTTOM, PADDING_LEFT) == (27u16, 28u16, 29u16, 30u16),
        (DISPLAY, VISIBILITY, POSITION) == (31u16, 32u16, 33u16),
        (INSET_TOP, INSET_RIGHT, INSET_BOTTOM, INSET_LEFT) == (34u16, 35u16, 36u16, 37u16),
        (Z_INDEX, FLEX_WRAP, FLEX_BASIS, FLEX_SHRINK) == (38u16, 39u16, 40u16, 41u16),
        (ALIGN_SELF, ASPECT_RATIO, BOX_SIZING) == (42u16, 43u16, 44u16),
        (ROW_GAP, COLUMN_GAP, OVERFLOW, BORDER_STYLE) == (45u16, 46u16, 47u16, 48u16),
        (BORDER_TOP_WIDTH, BORDER_RIGHT_WIDTH, BORDER_BOTTOM_WIDTH, BORDER_LEFT_WIDTH) == (
            49u16,
            50u16,
            51u16,
            52u16,
        ),
        (BORDER_TOP_COLOR, BORDER_RIGHT_COLOR, BORDER_BOTTOM_COLOR, BORDER_LEFT_COLOR) == (
            53u16,
            54u16,
            55u16,
            56u16,
        ),
        (
            BORDER_TOP_LEFT_RADIUS,
            BORDER_TOP_RIGHT_RADIUS,
            BORDER_BOTTOM_RIGHT_RADIUS,
            BORDER_BOTTOM_LEFT_RADIUS,
        ) == (57u16, 58u16, 59u16, 60u16),
        (FONT_SIZE, FONT_WEIGHT, LINE_HEIGHT, TEXT_DECORATION) == (61u16, 62u16, 63u16, 64u16),
        (OUTLINE_WIDTH, OUTLINE_COLOR, OUTLINE_OFFSET) == (65u16, 66u16, 67u16),
        (BOX_SHADOW, BACKGROUND_IMAGE) == (68u16, 69u16),
{
}

} // verus!
