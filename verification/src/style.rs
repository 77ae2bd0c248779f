//! Box styles: what the inline properties of a node ask of the flexbox engine.
//!
//! Every property is read as text. A size is `50%`, `120px`, `120`, or anything else, which
//! leaves it automatic; margins and insets may also be negative, fractional or `auto`.
//! [`element_style`] gathers all of them for one element.
use crate::chars::{
    before_suffix, digits_value, from_chars, halves, is_white,
    law_halves_stand_round_the_first_separator, law_numbers_are_digits, parse_u32, split_once,
    strip_suffix, to_chars, trim, trimmed, u32_value,
};
use crate::dom::Dom;
use crate::handles::{ElementTag, NodeId, PropId};
use crate::paint::Direction;
use crate::props::{
    has_style, px_of, style_is, style_of, style_px, ALIGN, ALIGN_SELF, ASPECT_RATIO,
    BORDER_BOTTOM_WIDTH, BORDER_LEFT_WIDTH, BORDER_RIGHT_WIDTH, BORDER_TOP_WIDTH, BORDER_WIDTH,
    BOX_SIZING, COLUMN_GAP, DIRECTION, DISPLAY, FLEX_BASIS, FLEX_GROW, FLEX_SHRINK, FLEX_WRAP,
    FONT_SIZE, GAP, HEIGHT, INSET_BOTTOM, INSET_LEFT, INSET_RIGHT, INSET_TOP, JUSTIFY, MARGIN,
    MARGIN_BOTTOM, MARGIN_LEFT, MARGIN_RIGHT, MARGIN_TOP, MAX_HEIGHT, MAX_WIDTH, MIN_HEIGHT,
    MIN_WIDTH, OPACITY, PADDING, PADDING_BOTTOM, PADDING_LEFT, PADDING_RIGHT, PADDING_TOP, POSITION,
    ROW_GAP, TRANSLATE_X, TRANSLATE_Y, VISIBILITY, WIDTH, Z_INDEX,
};
use crate::geometry::{Point, Size};
use crate::scalar::{Scalar, Whole};
use crate::text::str_eq;
use crate::tree::NodeView;
use vstd::prelude::*;
use vstd::string::StrSliceExecFns;

verus! {

/// The tag of a button element.
pub const EL_BUTTON: u16 = 3;

/// The tag of a text field element.
pub const EL_INPUT: u16 = 4;

/// Default text height in pixels.
pub const TEXT_HEIGHT: u32 = 16;

/// Side of the baked font's square cell in pixels.
pub const BAKED_CELL_PX: u64 = 8;

/// A length along an axis.
#[derive(Clone, Copy, PartialEq, Eq, Debug)]
pub enum Dimension<S> {
    /// Left to the layout.
    Auto,
    /// A fraction of the container.
    Percent(S),
    /// Pixels.
    Length(S),
}

/// How children stand across the main axis.
#[derive(Clone, Copy, PartialEq, Eq, Debug, Structural)]
pub enum Align {
    Start,
    Center,
    End,
    Stretch,
}

/// How children are distributed along the main axis.
#[derive(Clone, Copy, PartialEq, Eq, Debug, Structural)]
pub enum Justify {
    Start,
    Center,
    End,
    SpaceBetween,
    SpaceAround,
    SpaceEvenly,
}

/// Whether a node takes part in layout.
#[derive(Clone, Copy, PartialEq, Eq, Debug, Structural)]
pub enum Display {
    /// A flex container.
    Flex,
    /// Not there, and nothing below it either.
    Gone,
}

/// Whether a node stands in the flow.
#[derive(Clone, Copy, PartialEq, Eq, Debug, Structural)]
pub enum Position {
    Relative,
    Absolute,
}

/// Whether children wrap onto new lines.
#[derive(Clone, Copy, PartialEq, Eq, Debug, Structural)]
pub enum FlexWrap {
    NoWrap,
    Wrap,
    WrapReverse,
}

/// What a set size measures.
#[derive(Clone, Copy, PartialEq, Eq, Debug, Structural)]
pub enum BoxSizing {
    BorderBox,
    ContentBox,
}

/// One value for each edge of a box.
#[derive(Clone, Copy, PartialEq, Eq, Debug)]
pub struct Edges<T> {
    pub left: T,
    pub right: T,
    pub top: T,
    pub bottom: T,
}

/// One value for each axis.
#[derive(Clone, Copy, PartialEq, Eq, Debug)]
pub struct Axes<T> {
    pub width: T,
    pub height: T,
}

/// What an element asks of the flexbox engine.
#[derive(Clone, Copy, PartialEq, Eq, Debug)]
pub struct ElementStyle<S> {
    pub display: Display,
    pub position: Position,
    pub box_sizing: BoxSizing,
    pub direction: Direction,
    pub wrap: FlexWrap,
    pub align_items: Option<Align>,
    pub align_self: Option<Align>,
    pub justify_content: Option<Justify>,
    pub grow: S,
    pub shrink: S,
    pub basis: Dimension<S>,
    /// Width over height.
    pub aspect_ratio: Option<S>,
    /// Gap between columns (`width`) and between rows (`height`).
    pub gap: Axes<S>,
    /// Never automatic.
    pub padding: Edges<Dimension<S>>,
    pub margin: Edges<Dimension<S>>,
    pub border: Edges<S>,
    pub inset: Edges<Dimension<S>>,
    pub size: Axes<Dimension<S>>,
    pub min_size: Axes<Dimension<S>>,
    pub max_size: Axes<Dimension<S>>,
}

/// A number without its unit `px`.
pub open spec fn without_unit(s: Seq<char>) -> Seq<char> {
    match before_suffix(s, "px"@) {
        Some(t) => trimmed(t),
        None => s,
    }
}

fn strip_unit(s: &[char]) -> (r: &[char])
    ensures
        r@ == without_unit(s@),
{
    match strip_suffix(s, "px") {
        Some(t) => trim(t),
        None => s,
    }
}

/// The whole percentage that `s` spells.
pub open spec fn percent_value(s: Seq<char>) -> Option<u32> {
    match before_suffix(s, "%"@) {
        Some(t) => u32_value(trimmed(t)),
        None => None,
    }
}

fn parse_percent(s: &[char]) -> (r: Option<u32>)
    ensures
        r == percent_value(s@),
{
    match strip_suffix(s, "%") {
        Some(t) => parse_u32(trim(t)),
        None => None,
    }
}

/// The signed, possibly fractional number of pixels that `s` spells.
pub open spec fn signed_value<S: Scalar>(s: Seq<char>) -> Option<S> {
    S::s_parse(without_unit(s))
}

/// Read a signed, possibly fractional number of pixels.
pub fn signed_px<S: Scalar>(s: &[char]) -> (r: Option<S>)
    ensures
        r == signed_value::<S>(s@),
{
    let number = from_chars(strip_unit(s));
    S::parse(number.as_str())
}

/// The size that a property value spells.
pub open spec fn dimension_value<S: Scalar>(s: Option<Seq<char>>) -> Dimension<S> {
    match s {
        Some(s) => match percent_value(s) {
            Some(n) => Dimension::Percent(S::s_ratio(n, 100)),
            None => match u32_value(without_unit(s)) {
                Some(n) => Dimension::Length(S::s_whole(n as u64)),
                None => Dimension::Auto,
            },
        },
        None => Dimension::Auto,
    }
}

fn parse_dimension<S: Scalar>(s: Option<&str>) -> (r: Dimension<S>)
    ensures
        r == dimension_value::<S>(
            match s {
                Some(s) => Some(s@),
                None => None,
            },
        ),
{
    match s {
        Some(s) => {
            let chars = to_chars(s);
            match parse_percent(chars.as_slice()) {
                Some(n) => Dimension::Percent(S::ratio(n, 100)),
                None => match parse_u32(strip_unit(chars.as_slice())) {
                    Some(n) => Dimension::Length(S::whole(n as u64)),
                    None => Dimension::Auto,
                },
            }
        },
        None => Dimension::Auto,
    }
}

fn style_dimension<S: Scalar>(dom: &Dom, node: NodeId, prop: u16) -> (r: Dimension<S>)
    ensures
        r == dimension_value::<S>(style_of(dom@.nodes, node, prop)),
{
    parse_dimension(dom.style(node, PropId(prop)))
}

/// The value of `prop`, or else of `fallback`.
pub open spec fn style_or(nodes: Map<u64, NodeView>, n: NodeId, prop: u16, fallback: u16) -> Option<
    Seq<char>,
> {
    match style_of(nodes, n, prop) {
        Some(s) => Some(s),
        None => style_of(nodes, n, fallback),
    }
}

/// One padding edge: its own property, else the one for all edges, else nothing.
pub open spec fn padding_value<S: Scalar>(nodes: Map<u64, NodeView>, n: NodeId, side: u16) -> Dimension<
    S,
> {
    match dimension_value::<S>(style_or(nodes, n, side, PADDING)) {
        Dimension::Auto => Dimension::Length(S::s_whole(0)),
        d => d,
    }
}

fn padding_edge<S: Scalar>(dom: &Dom, node: NodeId, side: u16) -> (r: Dimension<S>)
    ensures
        r == padding_value::<S>(dom@.nodes, node, side),
{
    let raw = match dom.style(node, PropId(side)) {
        Some(s) => Some(s),
        None => dom.style(node, PropId(PADDING)),
    };
    match parse_dimension(raw) {
        Dimension::Auto => Dimension::Length(S::whole(0)),
        d => d,
    }
}

/// One margin or inset edge: `auto`, a percentage, or signed pixels; `default` otherwise.
pub open spec fn edge_value<S: Scalar>(s: Option<Seq<char>>, default: Dimension<S>) -> Dimension<S> {
    match s {
        Some(s) => {
            let s = trimmed(s);
            if s == "auto"@ {
                Dimension::Auto
            } else {
                match percent_value(s) {
                    Some(n) => Dimension::Percent(S::s_ratio(n, 100)),
                    None => match signed_value::<S>(s) {
                        Some(v) => Dimension::Length(v),
                        None => default,
                    },
                }
            }
        },
        None => default,
    }
}

fn parse_edge<S: Scalar>(s: Option<&str>, default: Dimension<S>) -> (r: Dimension<S>)
    ensures
        r == edge_value::<S>(
            match s {
                Some(s) => Some(s@),
                None => None,
            },
            default,
        ),
{
    match s {
        Some(s) => {
            let chars = to_chars(s);
            let s = trim(chars.as_slice());
            let text = from_chars(s);
            if str_eq(text.as_str(), "auto") {
                return Dimension::Auto;
            }
            match parse_percent(s) {
                Some(n) => Dimension::Percent(S::ratio(n, 100)),
                None => match signed_px(s) {
                    Some(v) => Dimension::Length(v),
                    None => default,
                },
            }
        },
        None => default,
    }
}

/// One margin edge: its own property, else the one for all edges, else nothing.
pub open spec fn margin_value<S: Scalar>(nodes: Map<u64, NodeView>, n: NodeId, side: u16) -> Dimension<
    S,
> {
    edge_value(style_or(nodes, n, side, MARGIN), Dimension::Length(S::s_whole(0)))
}

fn margin_edge<S: Scalar>(dom: &Dom, node: NodeId, side: u16) -> (r: Dimension<S>)
    ensures
        r == margin_value::<S>(dom@.nodes, node, side),
{
    let raw = match dom.style(node, PropId(side)) {
        Some(s) => Some(s),
        None => dom.style(node, PropId(MARGIN)),
    };
    parse_edge(raw, Dimension::Length(S::whole(0)))
}

/// One inset edge. There is no property for all of them; an edge that is not set is automatic.
pub open spec fn inset_value<S: Scalar>(nodes: Map<u64, NodeView>, n: NodeId, side: u16) -> Dimension<
    S,
> {
    edge_value(style_of(nodes, n, side), Dimension::Auto)
}

fn inset_edge<S: Scalar>(dom: &Dom, node: NodeId, side: u16) -> (r: Dimension<S>)
    ensures
        r == inset_value::<S>(dom@.nodes, node, side),
{
    parse_edge(dom.style(node, PropId(side)), Dimension::Auto)
}

/// The pixels of `prop`, or else of `fallback`, or else `default`.
pub open spec fn px_or(
    nodes: Map<u64, NodeView>,
    n: NodeId,
    prop: u16,
    fallback: u16,
    default: u32,
) -> u32 {
    match px_of(nodes, n, prop) {
        Some(v) => v,
        None => match px_of(nodes, n, fallback) {
            Some(v) => v,
            None => default,
        },
    }
}

fn style_px_or(dom: &Dom, node: NodeId, prop: u16, fallback: u16, default: u32) -> (r: u32)
    ensures
        r == px_or(dom@.nodes, node, prop, fallback, default),
{
    match style_px(dom, node, prop) {
        Some(v) => v,
        None => match style_px(dom, node, fallback) {
            Some(v) => v,
            None => default,
        },
    }
}

/// Pixels with a fallback property, and zero in the end.
pub open spec fn length_or<S: Scalar>(
    nodes: Map<u64, NodeView>,
    n: NodeId,
    prop: u16,
    fallback: u16,
) -> S {
    S::s_whole(px_or(nodes, n, prop, fallback, 0) as u64)
}

fn style_length_or<S: Scalar>(dom: &Dom, node: NodeId, prop: u16, fallback: u16) -> (r: S)
    ensures
        r == length_or::<S>(dom@.nodes, node, prop, fallback),
{
    S::whole(style_px_or(dom, node, prop, fallback, 0) as u64)
}

/// The number that a property is set to, or `default`.
pub open spec fn number_of<S: Scalar>(
    nodes: Map<u64, NodeView>,
    n: NodeId,
    prop: u16,
    default: S,
) -> S {
    match style_of(nodes, n, prop) {
        Some(s) => match S::s_parse(s) {
            Some(v) => v,
            None => default,
        },
        None => default,
    }
}

fn style_number<S: Scalar>(dom: &Dom, node: NodeId, prop: u16, default: S) -> (r: S)
    ensures
        r == number_of(dom@.nodes, node, prop, default),
{
    match dom.style(node, PropId(prop)) {
        Some(s) => match S::parse(s) {
            Some(v) => v,
            None => default,
        },
        None => default,
    }
}

/// The paint offset of a node itself.
pub open spec fn translate_of<S: Scalar>(nodes: Map<u64, NodeView>, n: NodeId) -> Point<S> {
    Point {
        x: number_of(nodes, n, TRANSLATE_X, S::s_whole(0)),
        y: number_of(nodes, n, TRANSLATE_Y, S::s_whole(0)),
    }
}

/// The paint offset of a node itself.
pub fn style_translate<S: Scalar>(dom: &Dom, node: NodeId) -> (r: Point<S>)
    ensures
        r == translate_of::<S>(dom@.nodes, node),
{
    Point {
        x: style_number(dom, node, TRANSLATE_X, S::whole(0)),
        y: style_number(dom, node, TRANSLATE_Y, S::whole(0)),
    }
}

/// `v` brought between zero and one.
pub open spec fn clamped_unit<S: Scalar>(v: S) -> S {
    if v.s_less(S::s_whole(0)) {
        S::s_whole(0)
    } else if S::s_whole(1).s_less(v) {
        S::s_whole(1)
    } else {
        v
    }
}

/// The opacity of a node itself, between zero and one.
pub open spec fn opacity_of<S: Scalar>(nodes: Map<u64, NodeView>, n: NodeId) -> S {
    clamped_unit(number_of(nodes, n, OPACITY, S::s_whole(1)))
}

/// The opacity of a node itself, between zero and one.
pub fn style_opacity<S: Scalar>(dom: &Dom, node: NodeId) -> (r: S)
    ensures
        r == opacity_of::<S>(dom@.nodes, node),
{
    let v = style_number(dom, node, OPACITY, S::whole(1));
    if v.less(S::whole(0)) {
        S::whole(0)
    } else if S::whole(1).less(v) {
        S::whole(1)
    } else {
        v
    }
}

/// The alignment that a keyword names.
pub open spec fn align_value(s: Seq<char>) -> Option<Align> {
    if s == "start"@ || s == "flex-start"@ {
        Some(Align::Start)
    } else if s == "center"@ {
        Some(Align::Center)
    } else if s == "end"@ || s == "flex-end"@ {
        Some(Align::End)
    } else if s == "stretch"@ {
        Some(Align::Stretch)
    } else {
        None
    }
}

/// The alignment that a keyword names.
pub fn parse_align(s: &str) -> (r: Option<Align>)
    ensures
        r == align_value(s@),
{
    if str_eq(s, "start") || str_eq(s, "flex-start") {
        Some(Align::Start)
    } else if str_eq(s, "center") {
        Some(Align::Center)
    } else if str_eq(s, "end") || str_eq(s, "flex-end") {
        Some(Align::End)
    } else if str_eq(s, "stretch") {
        Some(Align::Stretch)
    } else {
        None
    }
}

/// The alignment that a property is set to.
pub open spec fn align_of(nodes: Map<u64, NodeView>, n: NodeId, prop: u16) -> Option<Align> {
    match style_of(nodes, n, prop) {
        Some(s) => align_value(s),
        None => None,
    }
}

fn style_align(dom: &Dom, node: NodeId, prop: u16) -> (r: Option<Align>)
    ensures
        r == align_of(dom@.nodes, node, prop),
{
    match dom.style(node, PropId(prop)) {
        Some(s) => parse_align(s),
        None => None,
    }
}

/// The distribution that a keyword names.
pub open spec fn justify_value(s: Seq<char>) -> Option<Justify> {
    if s == "start"@ || s == "flex-start"@ {
        Some(Justify::Start)
    } else if s == "center"@ {
        Some(Justify::Center)
    } else if s == "end"@ || s == "flex-end"@ {
        Some(Justify::End)
    } else if s == "space-between"@ {
        Some(Justify::SpaceBetween)
    } else if s == "space-around"@ {
        Some(Justify::SpaceAround)
    } else if s == "space-evenly"@ {
        Some(Justify::SpaceEvenly)
    } else {
        None
    }
}

/// The distribution that a keyword names.
pub fn parse_justify(s: &str) -> (r: Option<Justify>)
    ensures
        r == justify_value(s@),
{
    if str_eq(s, "start") || str_eq(s, "flex-start") {
        Some(Justify::Start)
    } else if str_eq(s, "center") {
        Some(Justify::Center)
    } else if str_eq(s, "end") || str_eq(s, "flex-end") {
        Some(Justify::End)
    } else if str_eq(s, "space-between") {
        Some(Justify::SpaceBetween)
    } else if str_eq(s, "space-around") {
        Some(Justify::SpaceAround)
    } else if str_eq(s, "space-evenly") {
        Some(Justify::SpaceEvenly)
    } else {
        None
    }
}

/// The distribution of an element's children.
pub open spec fn justify_of(nodes: Map<u64, NodeView>, n: NodeId) -> Option<Justify> {
    match style_of(nodes, n, JUSTIFY) {
        Some(s) => justify_value(s),
        None => None,
    }
}

fn style_justify(dom: &Dom, node: NodeId) -> (r: Option<Justify>)
    ensures
        r == justify_of(dom@.nodes, node),
{
    match dom.style(node, PropId(JUSTIFY)) {
        Some(s) => parse_justify(s),
        None => None,
    }
}

/// Whether a node takes part in layout.
pub open spec fn display_of(nodes: Map<u64, NodeView>, n: NodeId) -> Display {
    if style_is(nodes, n, DISPLAY, "none"@) {
        Display::Gone
    } else {
        Display::Flex
    }
}

/// Whether a node takes part in layout.
pub fn style_display(dom: &Dom, node: NodeId) -> (r: Display)
    ensures
        r == display_of(dom@.nodes, node),
{
    if has_style(dom, node, DISPLAY, "none") {
        Display::Gone
    } else {
        Display::Flex
    }
}

/// Whether a node paints anything of its own.
pub open spec fn visible(nodes: Map<u64, NodeView>, n: NodeId) -> bool {
    !style_is(nodes, n, VISIBILITY, "hidden"@)
}

/// Whether a node paints anything of its own.
pub fn style_visible(dom: &Dom, node: NodeId) -> (r: bool)
    ensures
        r == visible(dom@.nodes, node),
{
    !has_style(dom, node, VISIBILITY, "hidden")
}

/// Whether a node stands in the flow.
pub open spec fn position_of(nodes: Map<u64, NodeView>, n: NodeId) -> Position {
    if style_is(nodes, n, POSITION, "absolute"@) {
        Position::Absolute
    } else {
        Position::Relative
    }
}

/// Whether the children of an element wrap.
pub open spec fn wrap_of(nodes: Map<u64, NodeView>, n: NodeId) -> FlexWrap {
    if style_is(nodes, n, FLEX_WRAP, "wrap"@) {
        FlexWrap::Wrap
    } else if style_is(nodes, n, FLEX_WRAP, "wrap-reverse"@) {
        FlexWrap::WrapReverse
    } else {
        FlexWrap::NoWrap
    }
}

fn style_flex_wrap(dom: &Dom, node: NodeId) -> (r: FlexWrap)
    ensures
        r == wrap_of(dom@.nodes, node),
{
    if has_style(dom, node, FLEX_WRAP, "wrap") {
        FlexWrap::Wrap
    } else if has_style(dom, node, FLEX_WRAP, "wrap-reverse") {
        FlexWrap::WrapReverse
    } else {
        FlexWrap::NoWrap
    }
}

/// What the set size of an element measures.
pub open spec fn box_sizing_of(nodes: Map<u64, NodeView>, n: NodeId) -> BoxSizing {
    if style_is(nodes, n, BOX_SIZING, "content-box"@) {
        BoxSizing::ContentBox
    } else {
        BoxSizing::BorderBox
    }
}

/// The main axis of an element: a column unless it is set to be a row.
pub open spec fn flex_direction_of(nodes: Map<u64, NodeView>, n: NodeId) -> Direction {
    if style_is(nodes, n, DIRECTION, "row"@) {
        Direction::Row
    } else {
        Direction::Column
    }
}

/// Whether a number is zero.
pub open spec fn is_zero<S: Scalar>(v: S) -> bool {
    v.s_at_most(S::s_whole(0)) && S::s_whole(0).s_at_most(v)
}

/// The width over the height that `s` spells: a number, or a quotient `w/h` whose `h` is not
/// zero.
pub open spec fn ratio_value<S: Scalar>(s: Seq<char>) -> Option<S> {
    match halves(trimmed(s), '/') {
        Some((w, h)) => match (S::s_parse(trimmed(w)), S::s_parse(trimmed(h))) {
            (Some(w), Some(h)) => if is_zero(h) {
                None
            } else {
                Some(w.s_over(h))
            },
            _ => None,
        },
        None => S::s_parse(trimmed(s)),
    }
}

/// Read a width over a height.
pub fn parse_aspect_ratio<S: Scalar>(s: &str) -> (r: Option<S>)
    ensures
        r == ratio_value::<S>(s@),
{
    let chars = to_chars(s);
    let s = trim(chars.as_slice());
    match split_once(s, '/') {
        Some((w, h)) => {
            let w = from_chars(trim(w));
            let h = from_chars(trim(h));
            match (S::parse(w.as_str()), S::parse(h.as_str())) {
                (Some(w), Some(h)) => if h.at_most(S::whole(0)) && S::whole(0).at_most(h) {
                    None
                } else {
                    Some(w.over(h))
                },
                _ => None,
            }
        },
        None => {
            let s = from_chars(s);
            S::parse(s.as_str())
        },
    }
}

/// The aspect ratio of an element.
pub open spec fn aspect_ratio_of<S: Scalar>(nodes: Map<u64, NodeView>, n: NodeId) -> Option<S> {
    match style_of(nodes, n, ASPECT_RATIO) {
        Some(s) => ratio_value(s),
        None => None,
    }
}

fn style_aspect_ratio<S: Scalar>(dom: &Dom, node: NodeId) -> (r: Option<S>)
    ensures
        r == aspect_ratio_of::<S>(dom@.nodes, node),
{
    match dom.style(node, PropId(ASPECT_RATIO)) {
        Some(s) => parse_aspect_ratio(s),
        None => None,
    }
}

/// The paint order of a node: the whole part of its z-index.
pub open spec fn z_index_of<S: Scalar>(nodes: Map<u64, NodeView>, n: NodeId) -> i32 {
    match style_of(nodes, n, Z_INDEX) {
        Some(s) => match signed_value::<S>(s) {
            Some(v) => v.s_to_i32(),
            None => 0,
        },
        None => 0,
    }
}

/// The paint order of a node.
pub fn style_z_index<S: Scalar>(dom: &Dom, node: NodeId) -> (r: i32)
    ensures
        r == z_index_of::<S>(dom@.nodes, node),
{
    match dom.style(node, PropId(Z_INDEX)) {
        Some(s) => {
            let chars = to_chars(s);
            match signed_px::<S>(chars.as_slice()) {
                Some(v) => v.to_i32(),
                None => 0,
            }
        },
        None => 0,
    }
}

/// The size of a text leaf. Its height is the font size, else the height, else the default; its
/// width is the width, else that of its glyphs in the baked font, which has a square cell and
/// is drawn at a whole scale.
pub open spec fn text_size_of<S: Scalar>(
    nodes: Map<u64, NodeView>,
    n: NodeId,
    text: Seq<char>,
) -> Size<S> {
    let h = S::s_whole(px_or(nodes, n, FONT_SIZE, HEIGHT, TEXT_HEIGHT) as u64);
    let cells = h.s_over(S::s_whole(BAKED_CELL_PX)).s_to_u32();
    let scale = if cells < 1 {
        1
    } else {
        cells
    };
    let advance = S::s_whole(BAKED_CELL_PX).s_times(S::s_whole(scale as u64));
    Size {
        w: match px_of(nodes, n, WIDTH) {
            Some(w) => S::s_whole(w as u64),
            None => S::s_whole(text.len() as u64).s_times(advance),
        },
        h,
    }
}

/// The size of a text leaf.
pub fn text_size<S: Scalar>(dom: &Dom, node: NodeId, text: &str) -> (r: Size<S>)
    ensures
        r == text_size_of::<S>(dom@.nodes, node, text@),
{
    let h = S::whole(style_px_or(dom, node, FONT_SIZE, HEIGHT, TEXT_HEIGHT) as u64);
    let cells: u32 = h.over(S::whole(BAKED_CELL_PX)).to_u32();
    let scale: u32 = if cells < 1 {
        1
    } else {
        cells
    };
    let advance = S::whole(BAKED_CELL_PX).times(S::whole(scale as u64));
    let w = match style_px(dom, node, WIDTH) {
        Some(w) => S::whole(w as u64),
        None => S::whole(text.unicode_len() as u64).times(advance),
    };
    Size { w, h }
}

/// What the set size of a top-level node comes to within a viewport that extends `extent`
/// along the axis.
pub open spec fn root_dimension_value<S: Scalar>(s: Option<Seq<char>>, extent: S) -> Option<S> {
    match s {
        Some(s) => match before_suffix(s, "%"@) {
            Some(t) => match u32_value(trimmed(t)) {
                Some(n) => Some(extent.s_times(S::s_ratio(n, 100))),
                None => None,
            },
            None => match u32_value(without_unit(s)) {
                Some(n) => Some(S::s_whole(n as u64)),
                None => None,
            },
        },
        None => None,
    }
}

/// What the set size of a top-level node comes to within the viewport: a percentage of it, or
/// pixels; `None` leaves the axis to the layout.
pub fn resolve_root_dimension<S: Scalar>(dom: &Dom, node: NodeId, prop: u16, extent: S) -> (r:
    Option<S>)
    ensures
        r == root_dimension_value(style_of(dom@.nodes, node, prop), extent),
{
    match dom.style(node, PropId(prop)) {
        Some(s) => {
            let chars = to_chars(s);
            match strip_suffix(chars.as_slice(), "%") {
                Some(t) => match parse_u32(trim(t)) {
                    Some(n) => Some(extent.times(S::ratio(n, 100))),
                    None => None,
                },
                None => match parse_u32(strip_unit(chars.as_slice())) {
                    Some(n) => Some(S::whole(n as u64)),
                    None => None,
                },
            }
        },
        None => None,
    }
}

/// Whether a node is a button or a text field, which center their content unless told
/// otherwise.
pub open spec fn centers_content(nodes: Map<u64, NodeView>, n: NodeId) -> bool {
    nodes.contains_key(n.0) && (nodes[n.0].tag == Some(ElementTag(EL_BUTTON)) || nodes[n.0].tag
        == Some(ElementTag(EL_INPUT)))
}

fn tag_centers_content(dom: &Dom, node: NodeId) -> (r: bool)
    ensures
        r == centers_content(dom@.nodes, node),
{
    match dom.node(node) {
        Some(n) => match n.tag {
            Some(tag) => tag.0 == EL_BUTTON || tag.0 == EL_INPUT,
            None => false,
        },
        None => false,
    }
}

/// What the properties of an element ask of the flexbox engine.
pub open spec fn element_style_of<S: Scalar>(nodes: Map<u64, NodeView>, n: NodeId) -> ElementStyle<S> {
    ElementStyle {
        display: display_of(nodes, n),
        position: position_of(nodes, n),
        box_sizing: box_sizing_of(nodes, n),
        direction: flex_direction_of(nodes, n),
        wrap: wrap_of(nodes, n),
        align_items: match align_of(nodes, n, ALIGN) {
            Some(a) => Some(a),
            None => if centers_content(nodes, n) {
                Some(Align::Center)
            } else {
                None
            },
        },
        align_self: align_of(nodes, n, ALIGN_SELF),
        justify_content: match justify_of(nodes, n) {
            Some(j) => Some(j),
            None => if centers_content(nodes, n) {
                Some(Justify::Center)
            } else {
                None
            },
        },
        grow: number_of(nodes, n, FLEX_GROW, S::s_whole(0)),
        shrink: number_of(nodes, n, FLEX_SHRINK, S::s_whole(1)),
        basis: dimension_value(style_of(nodes, n, FLEX_BASIS)),
        aspect_ratio: aspect_ratio_of(nodes, n),
        gap: Axes {
            width: length_or(nodes, n, COLUMN_GAP, GAP),
            height: length_or(nodes, n, ROW_GAP, GAP),
        },
        padding: Edges {
            left: padding_value(nodes, n, PADDING_LEFT),
            right: padding_value(nodes, n, PADDING_RIGHT),
            top: padding_value(nodes, n, PADDING_TOP),
            bottom: padding_value(nodes, n, PADDING_BOTTOM),
        },
        margin: Edges {
            left: margin_value(nodes, n, MARGIN_LEFT),
            right: margin_value(nodes, n, MARGIN_RIGHT),
            top: margin_value(nodes, n, MARGIN_TOP),
            bottom: margin_value(nodes, n, MARGIN_BOTTOM),
        },
        border: Edges {
            left: length_or(nodes, n, BORDER_LEFT_WIDTH, BORDER_WIDTH),
            right: length_or(nodes, n, BORDER_RIGHT_WIDTH, BORDER_WIDTH),
            top: length_or(nodes, n, BORDER_TOP_WIDTH, BORDER_WIDTH),
            bottom: length_or(nodes, n, BORDER_BOTTOM_WIDTH, BORDER_WIDTH),
        },
        inset: Edges {
            left: inset_value(nodes, n, INSET_LEFT),
            right: inset_value(nodes, n, INSET_RIGHT),
            top: inset_value(nodes, n, INSET_TOP),
            bottom: inset_value(nodes, n, INSET_BOTTOM),
        },
        size: Axes {
            width: dimension_value(style_of(nodes, n, WIDTH)),
            height: dimension_value(style_of(nodes, n, HEIGHT)),
        },
        min_size: Axes {
            width: dimension_value(style_of(nodes, n, MIN_WIDTH)),
            height: dimension_value(style_of(nodes, n, MIN_HEIGHT)),
        },
        max_size: Axes {
            width: dimension_value(style_of(nodes, n, MAX_WIDTH)),
            height: dimension_value(style_of(nodes, n, MAX_HEIGHT)),
        },
    }
}

/// Gather what the properties of an element ask of the flexbox engine.
pub fn element_style<S: Scalar>(dom: &Dom, node: NodeId) -> (r: ElementStyle<S>)
    ensures
        r == element_style_of::<S>(dom@.nodes, node),
{
    let direction = if has_style(dom, node, DIRECTION, "row") {
        Direction::Row
    } else {
        Direction::Column
    };
    let position = if has_style(dom, node, POSITION, "absolute") {
        Position::Absolute
    } else {
        Position::Relative
    };
    let box_sizing = if has_style(dom, node, BOX_SIZING, "content-box") {
        BoxSizing::ContentBox
    } else {
        BoxSizing::BorderBox
    };
    let centers = tag_centers_content(dom, node);
    let align_items = match style_align(dom, node, ALIGN) {
        Some(a) => Some(a),
        None => if centers {
            Some(Align::Center)
        } else {
            None
        },
    };
    let justify_content = match style_justify(dom, node) {
        Some(j) => Some(j),
        None => if centers {
            Some(Justify::Center)
        } else {
            None
        },
    };
    ElementStyle {
        display: style_display(dom, node),
        position,
        box_sizing,
        direction,
        wrap: style_flex_wrap(dom, node),
        align_items,
        align_self: style_align(dom, node, ALIGN_SELF),
        justify_content,
        grow: style_number(dom, node, FLEX_GROW, S::whole(0)),
        shrink: style_number(dom, node, FLEX_SHRINK, S::whole(1)),
        basis: style_dimension(dom, node, FLEX_BASIS),
        aspect_ratio: style_aspect_ratio(dom, node),
        gap: Axes {
            width: style_length_or(dom, node, COLUMN_GAP, GAP),
            height: style_length_or(dom, node, ROW_GAP, GAP),
        },
        padding: Edges {
            left: padding_edge(dom, node, PADDING_LEFT),
            right: padding_edge(dom, node, PADDING_RIGHT),
            top: padding_edge(dom, node, PADDING_TOP),
            bottom: padding_edge(dom, node, PADDING_BOTTOM),
        },
        margin: Edges {
            left: margin_edge(dom, node, MARGIN_LEFT),
            right: margin_edge(dom, node, MARGIN_RIGHT),
            top: margin_edge(dom, node, MARGIN_TOP),
            bottom: margin_edge(dom, node, MARGIN_BOTTOM),
        },
        border: Edges {
            left: style_length_or(dom, node, BORDER_LEFT_WIDTH, BORDER_WIDTH),
            right: style_length_or(dom, node, BORDER_RIGHT_WIDTH, BORDER_WIDTH),
            top: style_length_or(dom, node, BORDER_TOP_WIDTH, BORDER_WIDTH),
            bottom: style_length_or(dom, node, BORDER_BOTTOM_WIDTH, BORDER_WIDTH),
        },
        inset: Edges {
            left: inset_edge(dom, node, INSET_LEFT),
            right: inset_edge(dom, node, INSET_RIGHT),
            top: inset_edge(dom, node, INSET_TOP),
            bottom: inset_edge(dom, node, INSET_BOTTOM),
        },
        size: Axes {
            width: style_dimension(dom, node, WIDTH),
            height: style_dimension(dom, node, HEIGHT),
        },
        min_size: Axes {
            width: style_dimension(dom, node, MIN_WIDTH),
            height: style_dimension(dom, node, MIN_HEIGHT),
        },
        max_size: Axes {
            width: style_dimension(dom, node, MAX_WIDTH),
            height: style_dimension(dom, node, MAX_HEIGHT),
        },
    }
}

/// Padding is always a length or a percentage.
pub proof fn law_padding_is_never_automatic<S: Scalar>(nodes: Map<u64, NodeView>, n: NodeId)
    ensures
        ({
            let padding = element_style_of::<S>(nodes, n).padding;
            &&& !(padding.left is Auto)
            &&& !(padding.right is Auto)
            &&& !(padding.top is Auto)
            &&& !(padding.bottom is Auto)
        }),
{
}

// ---------------------------------------------------------------------------------------
// What sizes and keywords say.
// ---------------------------------------------------------------------------------------

proof fn lemma_digits_plain(d: Seq<char>)
    requires
        digits_value(d) is Some,
    ensures
        trimmed(d) == d,
        before_suffix(d, "%"@) is None,
        before_suffix(d, "px"@) is None,
        before_suffix(d + "px"@, "%"@) is None,
        before_suffix(d + "px"@, "px"@) == Some(d),
        before_suffix(d + "%"@, "%"@) == Some(d),
        trimmed(d + "%"@) == d + "%"@,
        trimmed(d + "px"@) == d + "px"@,
        u32_value(d) == if digits_value(d)->0 <= u32::MAX {
            Some(digits_value(d)->0 as u32)
        } else {
            None
        },
        d + "%"@ != "auto"@,
{
    law_numbers_are_digits(d);
    reveal_strlit("%");
    reveal_strlit("px");
    reveal_strlit("auto");
    let n = d.len() as int;
    assert('0' <= d[0] <= '9');
    assert('0' <= d[n - 1] <= '9');
    lemma_untrimmed(d);
    let pc = d + "%"@;
    let px = d + "px"@;
    assert(pc[n] == '%');
    assert(px[n] == 'p' && px[n + 1] == 'x');
    lemma_untrimmed(pc);
    lemma_untrimmed(px);
    assert(pc.skip(n) =~= "%"@);
    assert(pc.take(n) =~= d);
    assert(px.skip(n) =~= "px"@);
    assert(px.take(n) =~= d);
    if d.skip(n - 1) == "%"@ {
        assert(d.skip(n - 1)[0] == d[n - 1]);
    }
    if n >= 2 && d.skip(n - 2) == "px"@ {
        assert(d.skip(n - 2)[1] == d[n - 1]);
    }
    if px.skip(n + 1) == "%"@ {
        assert(px.skip(n + 1)[0] == px[n + 1]);
    }
    if pc == "auto"@ {
        assert(pc[0] == 'a');
    }
}

proof fn lemma_untrimmed(s: Seq<char>)
    requires
        s.len() > 0,
        !is_white(s[0]),
        !is_white(s.last()),
    ensures
        trimmed(s) == s,
{
}

/// A whole number is a length in pixels, with `px` behind it or without; with `%` behind it, it is
/// that many hundredths of the container, which for a top-level node is the viewport. What is not
/// set is automatic.
pub proof fn law_sizes_mean_what_they_say<S: Scalar>(d: Seq<char>, n: u32, extent: S)
    requires
        digits_value(d) == Some(n as nat),
    ensures
        dimension_value::<S>(Some(d)) == Dimension::Length(S::s_whole(n as u64)),
        dimension_value::<S>(Some(d + "px"@)) == Dimension::Length(S::s_whole(n as u64)),
        dimension_value::<S>(Some(d + "%"@)) == Dimension::Percent(S::s_ratio(n, 100)),
        dimension_value::<S>(None) == Dimension::<S>::Auto,
        root_dimension_value(Some(d), extent) == Some(S::s_whole(n as u64)),
        root_dimension_value(Some(d + "px"@), extent) == Some(S::s_whole(n as u64)),
        root_dimension_value(Some(d + "%"@), extent) == Some(extent.s_times(S::s_ratio(n, 100))),
        root_dimension_value(None, extent) is None,
        edge_value::<S>(Some(d + "%"@), Dimension::Auto) == Dimension::Percent(S::s_ratio(n, 100)),
{
    lemma_digits_plain(d);
}

/// Margins and insets are signed: what spells a number is that many pixels, with `px` behind it or
/// without. `auto` is automatic, and what says nothing is what it is by default.
pub proof fn law_edges_are_signed<S: Scalar>(d: Seq<char>, v: S, default: Dimension<S>)
    requires
        digits_value(d) is Some,
        S::s_parse(d) == Some(v),
    ensures
        edge_value::<S>(Some(d), default) == Dimension::Length(v),
        edge_value::<S>(Some(d + "px"@), default) == Dimension::Length(v),
        edge_value::<S>(Some("auto"@), default) == Dimension::<S>::Auto,
        edge_value::<S>(None, default) == default,
        signed_value::<S>(d) == Some(v),
        signed_value::<S>(d + "px"@) == Some(v),
{
    lemma_digits_plain(d);
    law_numbers_are_digits(d);
    reveal_strlit("auto");
    reveal_strlit("px");
    assert('0' <= d[0] <= '9');
    assert((d + "px"@)[0] == d[0]);
    assert("auto"@[0] == 'a' && "auto"@.last() == 'o');
    lemma_untrimmed("auto"@);
    assert(d != "auto"@);
    assert(d + "px"@ != "auto"@);
}

/// The value of the first property, or of the second where the first is not set.
pub open spec fn first_set(nodes: Map<u64, NodeView>, n: NodeId, a: u16, b: u16) -> Option<Seq<char>> {
    if style_of(nodes, n, a) is Some {
        style_of(nodes, n, a)
    } else {
        style_of(nodes, n, b)
    }
}

/// A padding edge that a value spells: nothing where it is automatic.
pub open spec fn padded<S: Scalar>(s: Option<Seq<char>>) -> Dimension<S> {
    if dimension_value::<S>(s) is Auto {
        Dimension::Length(S::s_whole(0))
    } else {
        dimension_value::<S>(s)
    }
}

/// Each edge of a box has a property of its own, and where that is not set, the one for all edges;
/// insets have none for all edges. Sizes have one property for each axis.
pub proof fn law_edges_have_their_own_properties<S: Scalar>(nodes: Map<u64, NodeView>, n: NodeId)
    ensures
        ({
            let s = element_style_of::<S>(nodes, n);
            let zero = Dimension::Length(S::s_whole(0));
            &&& s.padding.top == padded::<S>(first_set(nodes, n, 27, 6))
            &&& s.padding.right == padded::<S>(first_set(nodes, n, 28, 6))
            &&& s.padding.bottom == padded::<S>(first_set(nodes, n, 29, 6))
            &&& s.padding.left == padded::<S>(first_set(nodes, n, 30, 6))
            &&& s.margin.top == edge_value::<S>(first_set(nodes, n, 23, 15), zero)
            &&& s.margin.right == edge_value::<S>(first_set(nodes, n, 24, 15), zero)
            &&& s.margin.bottom == edge_value::<S>(first_set(nodes, n, 25, 15), zero)
            &&& s.margin.left == edge_value::<S>(first_set(nodes, n, 26, 15), zero)
            &&& s.inset.top == edge_value::<S>(style_of(nodes, n, 34), Dimension::Auto)
            &&& s.inset.right == edge_value::<S>(style_of(nodes, n, 35), Dimension::Auto)
            &&& s.inset.bottom == edge_value::<S>(style_of(nodes, n, 36), Dimension::Auto)
            &&& s.inset.left == edge_value::<S>(style_of(nodes, n, 37), Dimension::Auto)
            &&& s.size.width == dimension_value::<S>(style_of(nodes, n, 3))
            &&& s.size.height == dimension_value::<S>(style_of(nodes, n, 4))
            &&& s.min_size.width == dimension_value::<S>(style_of(nodes, n, 16))
            &&& s.min_size.height == dimension_value::<S>(style_of(nodes, n, 17))
            &&& s.max_size.width == dimension_value::<S>(style_of(nodes, n, 18))
            &&& s.max_size.height == dimension_value::<S>(style_of(nodes, n, 19))
            &&& s.basis == dimension_value::<S>(style_of(nodes, n, 40))
        }),
{
}

/// Pixels of the first property that holds a whole number, zero where none does.
pub open spec fn first_pixels<S: Scalar>(nodes: Map<u64, NodeView>, n: NodeId, a: u16, b: u16) -> S {
    if px_of(nodes, n, a) is Some {
        S::s_whole(px_of(nodes, n, a)->0 as u64)
    } else if px_of(nodes, n, b) is Some {
        S::s_whole(px_of(nodes, n, b)->0 as u64)
    } else {
        S::s_whole(0)
    }
}

/// Borders have a width for each edge, and gaps one for each axis, columns standing side by side. An
/// element grows not at all and shrinks at rate one unless it says otherwise.
pub proof fn law_borders_and_gaps_fall_back<S: Scalar>(nodes: Map<u64, NodeView>, n: NodeId)
    ensures
        ({
            let s = element_style_of::<S>(nodes, n);
            &&& s.border.top == first_pixels::<S>(nodes, n, 49, 21)
            &&& s.border.right == first_pixels::<S>(nodes, n, 50, 21)
            &&& s.border.bottom == first_pixels::<S>(nodes, n, 51, 21)
            &&& s.border.left == first_pixels::<S>(nodes, n, 52, 21)
            &&& s.gap.height == first_pixels::<S>(nodes, n, 45, 5)
            &&& s.gap.width == first_pixels::<S>(nodes, n, 46, 5)
            &&& style_of(nodes, n, 20) is None ==> s.grow == S::s_whole(0)
            &&& style_of(nodes, n, 20) matches Some(t) ==> (S::s_parse(t) matches Some(v) ==> s.grow
                == v)
            &&& style_of(nodes, n, 41) is None ==> s.shrink == S::s_whole(1)
            &&& style_of(nodes, n, 41) matches Some(t) ==> (S::s_parse(t) matches Some(v) ==> s.shrink
                == v)
            &&& style_of(nodes, n, 43) is None ==> s.aspect_ratio is None
        }),
{
}

/// The keywords of an element: each says one thing, and what is no keyword says nothing. Buttons and
/// text fields, which have tags 3 and 4, center their content unless they say otherwise.
pub proof fn law_keywords_say_one_thing<S: Scalar>(nodes: Map<u64, NodeView>, n: NodeId)
    ensures
        ({
            let s = element_style_of::<S>(nodes, n);
            let says = |prop: u16, word: Seq<char>| style_of(nodes, n, prop) == Some(word);
            let centers = nodes.contains_key(n.0) && (nodes[n.0].tag matches Some(t) && (t.0 == 3
                || t.0 == 4));
            &&& s.display == Display::Gone <==> says(31, "none"@)
            &&& s.position == Position::Absolute <==> says(33, "absolute"@)
            &&& s.box_sizing == BoxSizing::ContentBox <==> says(44, "content-box"@)
            &&& s.direction == Direction::Row <==> says(7, "row"@)
            &&& s.wrap == FlexWrap::Wrap <==> says(39, "wrap"@)
            &&& s.wrap == FlexWrap::WrapReverse <==> says(39, "wrap-reverse"@)
            &&& s.align_items == Some(Align::Start) <==> says(12, "start"@) || says(
                12,
                "flex-start"@,
            )
            &&& s.align_items == Some(Align::End) <==> says(12, "end"@) || says(12, "flex-end"@)
            &&& s.align_items == Some(Align::Stretch) <==> says(12, "stretch"@)
            &&& s.align_items is None ==> !says(12, "center"@) && !centers
            &&& !centers && s.align_items == Some(Align::Center) ==> says(12, "center"@)
            &&& s.align_self == Some(Align::Start) <==> says(42, "start"@) || says(42, "flex-start"@)
            &&& s.align_self == Some(Align::End) <==> says(42, "end"@) || says(42, "flex-end"@)
            &&& s.align_self == Some(Align::Stretch) <==> says(42, "stretch"@)
            &&& s.align_self == Some(Align::Center) <==> says(42, "center"@)
            &&& s.justify_content == Some(Justify::Start) <==> says(13, "start"@) || says(
                13,
                "flex-start"@,
            )
            &&& s.justify_content == Some(Justify::End) <==> says(13, "end"@) || says(
                13,
                "flex-end"@,
            )
            &&& s.justify_content == Some(Justify::SpaceBetween) <==> says(13, "space-between"@)
            &&& s.justify_content == Some(Justify::SpaceAround) <==> says(13, "space-around"@)
            &&& s.justify_content == Some(Justify::SpaceEvenly) <==> says(13, "space-evenly"@)
            &&& s.justify_content is None ==> !says(13, "center"@) && !centers
            &&& !centers && s.justify_content == Some(Justify::Center) ==> says(13, "center"@)
            &&& !visible(nodes, n) <==> says(32, "hidden"@)
        }),
{
    lemma_keywords_differ();
}

proof fn lemma_keywords_differ()
    ensures
        "start"@.len() == 5 && "start"@[0] == 's',
        "flex-start"@.len() == 10,
        "center"@.len() == 6,
        "end"@.len() == 3,
        "flex-end"@.len() == 8,
        "stretch"@.len() == 7,
        "space-between"@.len() == 13,
        "space-around"@.len() == 12 && "space-around"@[6] == 'a',
        "space-evenly"@.len() == 12 && "space-evenly"@[6] == 'e',
        "wrap"@.len() == 4,
        "wrap-reverse"@.len() == 12,
{
    reveal_strlit("start");
    reveal_strlit("flex-start");
    reveal_strlit("center");
    reveal_strlit("end");
    reveal_strlit("flex-end");
    reveal_strlit("stretch");
    reveal_strlit("space-between");
    reveal_strlit("space-around");
    reveal_strlit("space-evenly");
    reveal_strlit("wrap");
    reveal_strlit("wrap-reverse");
}

/// Opacity is between zero and one, and one where it is not set or says no number; within those
/// bounds it is what it says.
pub proof fn law_opacity_stays_within_bounds<S: Scalar>(nodes: Map<u64, NodeView>, n: NodeId, v: S)
    ensures
        ({
            let zero = S::s_whole(0);
            let one = S::s_whole(1);
            let plain = !one.s_less(one) && !one.s_less(zero);
            &&& style_of(nodes, n, 9) is None && plain ==> opacity_of::<S>(nodes, n) == one
            &&& style_of(nodes, n, 9) matches Some(s) ==> {
                &&& S::s_parse(s) is None && plain ==> opacity_of::<S>(nodes, n) == one
                &&& S::s_parse(s) == Some(v) ==> {
                    &&& v.s_less(zero) ==> opacity_of::<S>(nodes, n) == zero
                    &&& !v.s_less(zero) && one.s_less(v) ==> opacity_of::<S>(nodes, n) == one
                    &&& !v.s_less(zero) && !one.s_less(v) ==> opacity_of::<S>(nodes, n) == v
                }
            }
        }),
{
}

/// A node is moved by what it says along each axis, and not at all where it says nothing; it is
/// painted at the level that it says, and at level zero where it says none.
pub proof fn law_offsets_and_levels_default_to_zero<S: Scalar>(nodes: Map<u64, NodeView>, n: NodeId)
    ensures
        ({
            let t = translate_of::<S>(nodes, n);
            &&& style_of(nodes, n, 10) is None ==> t.x == S::s_whole(0)
            &&& style_of(nodes, n, 11) is None ==> t.y == S::s_whole(0)
            &&& style_of(nodes, n, 10) matches Some(s) ==> t.x == (if S::s_parse(s) is Some {
                S::s_parse(s)->0
            } else {
                S::s_whole(0)
            })
            &&& style_of(nodes, n, 11) matches Some(s) ==> t.y == (if S::s_parse(s) is Some {
                S::s_parse(s)->0
            } else {
                S::s_whole(0)
            })
            &&& style_of(nodes, n, 38) is None ==> z_index_of::<S>(nodes, n) == 0
            &&& style_of(nodes, n, 38) matches Some(s) ==> (signed_value::<S>(s) matches Some(v)
                ==> z_index_of::<S>(nodes, n) == v.s_to_i32())
        }),
{
}

/// In whole pixels, a text leaf is as high as its font size, or its height, or 16 pixels; its
/// characters are square cells of 8 pixels, drawn as many times larger as cells fit into its height,
/// once at least; and it is as wide as they are unless its width is set.
pub proof fn law_whole_text_fits_its_cells(nodes: Map<u64, NodeView>, n: NodeId, text: Seq<char>)
    requires
        text.len() <= 0x1000_0000,
    ensures
        ({
            let size = text_size_of::<Whole>(nodes, n, text);
            let h: int = if px_of(nodes, n, 61) is Some {
                px_of(nodes, n, 61)->0 as int
            } else if px_of(nodes, n, 4) is Some {
                px_of(nodes, n, 4)->0 as int
            } else {
                16
            };
            &&& size.h.0 == h
            &&& px_of(nodes, n, 3) matches Some(w) ==> size.w.0 == w
            &&& px_of(nodes, n, 3) is None && h >= 8 ==> size.w.0 == text.len() * (8 * (h / 8))
            &&& px_of(nodes, n, 3) is None && h < 8 ==> size.w.0 == text.len() * 8
        }),
{
    let h: int = px_or(nodes, n, 61, 4, 16) as int;
    let scale: int = if h >= 8 {
        h / 8
    } else {
        1
    };
    assert(0 <= text.len() * (8 * scale) <= 0x1000_0000 * 0x1_0000_0000) by (nonlinear_arith)
        requires
            0 <= text.len() <= 0x1000_0000,
            0 <= 8 * scale <= 0x1_0000_0000,
    ;
}

/// A ratio is a number, or the quotient of two with `/` between them; there is none over zero.
pub proof fn law_ratios_are_quotients<S: Scalar>(w: Seq<char>, h: Seq<char>, a: S, b: S)
    requires
        digits_value(w) is Some,
        digits_value(h) is Some,
        S::s_parse(w) == Some(a),
        S::s_parse(h) == Some(b),
    ensures
        ratio_value::<S>(w) == Some(a),
        ({
            let zero = S::s_whole(0);
            let none = b.s_at_most(zero) && zero.s_at_most(b);
            &&& none ==> ratio_value::<S>(w.push('/') + h) is None
            &&& !none ==> ratio_value::<S>(w.push('/') + h) == Some(a.s_over(b))
        }),
{
    lemma_digits_plain(w);
    lemma_digits_plain(h);
    law_numbers_are_digits(w);
    law_numbers_are_digits(h);
    let s = w.push('/') + h;
    assert('0' <= w[0] <= '9');
    assert('0' <= h[h.len() - 1] <= '9');
    assert(s[0] == w[0]);
    assert(s.last() == h[h.len() - 1]);
    lemma_untrimmed(s);
    assert(!w.contains('/')) by {
        if w.contains('/') {
            let k = choose|k: int| 0 <= k < w.len() && w[k] == '/';
            assert('0' <= w[k] <= '9');
        }
    }
    law_halves_stand_round_the_first_separator(w, '/');
    law_halves_stand_round_the_first_separator(s, '/');
    if let Some((x, y)) = halves(w, '/') {
        assert((x.push('/') + y)[x.len() as int] == '/');
    }
    assert(s[w.len() as int] == '/');
    let (x, y) = halves(s, '/')->0;
    assert(x.len() == w.len()) by {
        assert((x.push('/') + y)[x.len() as int] == '/');
        if x.len() < w.len() {
            assert(s[x.len() as int] == w[x.len() as int]);
        }
        if x.len() > w.len() {
            assert((x.push('/') + y)[w.len() as int] == x[w.len() as int]);
        }
    }
    assert(x =~= s.take(w.len() as int));
    assert(x =~= w);
    assert(y =~= s.skip(w.len() as int + 1));
    assert(y =~= h);
}

} // verus!
