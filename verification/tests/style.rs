//! Reading style values, and the texts and numbers that they are made of.
use canopy::chars::{
    chars_eq, from_chars, hex_digit, parse_i32, parse_u32, split, split_once, split_words, strip_prefix,
    strip_suffix, to_chars, trim,
};
use canopy::dom::Dom;
use canopy::emitter::Emitter;
use canopy::flex::{build_node, BoxStyle, PlanNode, MAX_TREE_DEPTH};
use canopy::geometry::{Color, DisplayItem, GradientDirection, Point, Rect, Size};
use canopy::handles::{ElementTag, NodeId, PropId};
use canopy::paint::{parse_direction, style_dim_or_zero, style_direction, Direction};
use canopy::props::{
    default_fg, has_style, parse_color_alpha, style_color, style_color_alpha, style_px, ALIGN,
    ASPECT_RATIO, BG, DIRECTION, DISPLAY, FG, HEIGHT, MARGIN, OPACITY, OVERFLOW, PADDING, RADIUS,
    TRANSLATE_X, VISIBILITY, WIDTH, Z_INDEX,
};
use canopy::scalar::{Scalar, Whole};
use canopy::scene::{
    build_display_list, clips_overflow, fade, gradient_direction, parse_box_shadow, parse_linear_gradient,
    scale_alpha, Clip, PaintNode, Shadow,
};
use canopy::style::{
    element_style, parse_align, parse_aspect_ratio, parse_justify, resolve_root_dimension, signed_px,
    style_display, style_opacity, style_translate, style_visible, style_z_index, text_size, Align,
    Dimension, Display, Justify,
};
use canopy::text::{push_decimal, push_hex_byte};

#[derive(Clone, Copy, PartialEq, Debug)]
struct Px(f32);

impl Scalar for Px {
    fn whole(n: u64) -> Px {
        Px(n as f32)
    }
    fn ratio(n: u32, d: u32) -> Px {
        Px(n as f32 / d as f32)
    }
    fn plus(self, other: Px) -> Px {
        Px(self.0 + other.0)
    }
    fn minus(self, other: Px) -> Px {
        Px(self.0 - other.0)
    }
    fn times(self, other: Px) -> Px {
        Px(self.0 * other.0)
    }
    fn over(self, other: Px) -> Px {
        Px(self.0 / other.0)
    }
    fn less(self, other: Px) -> bool {
        self.0 < other.0
    }
    fn at_most(self, other: Px) -> bool {
        self.0 <= other.0
    }
    fn larger(self, other: Px) -> Px {
        Px(self.0.max(other.0))
    }
    fn to_u32(self) -> u32 {
        self.0 as u32
    }
    fn to_i32(self) -> i32 {
        self.0 as i32
    }
    fn wrap(self, period: Px) -> Px {
        let mut x = self.0;
        while x >= period.0 {
            x -= period.0;
        }
        Px(x)
    }
    fn parse(s: &str) -> Option<Px> {
        s.parse::<f32>().ok().map(Px)
    }
}

fn chars(s: &str) -> Vec<char> {
    to_chars(s)
}

/// A tree of one element with the given inline styles.
fn styled(tag: u16, styles: &[(u16, &str)]) -> (Dom, NodeId) {
    let mut e = Emitter::new();
    let n = e.create_element(ElementTag::new(tag));
    e.append(NodeId::root(), n);
    for (prop, value) in styles {
        e.set_inline_style(n, PropId::new(*prop), value);
    }
    let mut dom = Dom::new();
    dom.apply(&e.take_batch(0)).unwrap();
    (dom, n)
}

#[test]
fn text_is_taken_apart_and_put_together() {
    let text = " \u{a0}a b,c ";
    assert_eq!(from_chars(&chars(text)), text);
    assert_eq!(from_chars(trim(&chars(text))), "a b,c");
    assert_eq!(from_chars(trim(&chars(" \t"))), "");
    assert_eq!(from_chars(strip_suffix(&chars("12px"), "px").unwrap()), "12");
    assert!(strip_suffix(&chars("12p"), "px").is_none());
    assert_eq!(from_chars(strip_prefix(&chars("#fff"), "#").unwrap()), "fff");
    assert!(strip_prefix(&chars("fff"), "#").is_none());
    let pieces: Vec<String> = split(&chars("a,,b"), ',').iter().map(|p| from_chars(p)).collect();
    assert_eq!(pieces, vec!["a", "", "b"]);
    assert_eq!(split(&chars(""), ',').len(), 1);
    let words: Vec<String> =
        split_words(&chars("  4  -2\n6 ")).iter().map(|p| from_chars(p)).collect();
    assert_eq!(words, vec!["4", "-2", "6"]);
    assert!(split_words(&chars(" ")).is_empty());
    let (w, h) = (chars("16/9/2"), chars("none"));
    let (before, after) = split_once(&w, '/').unwrap();
    assert_eq!((from_chars(before), from_chars(after)), ("16".to_string(), "9/2".to_string()));
    assert!(split_once(&h, '/').is_none());
    assert!(chars_eq(&chars("ab"), &chars("ab")));
    assert!(!chars_eq(&chars("ab"), &chars("abc")));
}

#[test]
fn whole_numbers_are_read_as_std_reads_them() {
    for s in ["", "+", "-", "0", "7", "+7", "-7", "-0", "4294967295", "4294967296", "007", "1 ", "a",
        "2147483647", "2147483648", "-2147483648", "-2147483649", "+-1", "99999999999999999999"]
    {
        assert_eq!(parse_u32(&chars(s)), s.parse::<u32>().ok(), "{s}");
        assert_eq!(parse_i32(&chars(s)), s.parse::<i32>().ok(), "{s}");
    }
    assert_eq!(hex_digit('f'), Some(15));
    assert_eq!(hex_digit('A'), Some(10));
    assert_eq!(hex_digit('g'), None);
    let mut out = String::new();
    push_decimal(&mut out, 0);
    push_decimal(&mut out, u64::MAX);
    push_hex_byte(&mut out, 0x0a);
    push_hex_byte(&mut out, 0xff);
    assert_eq!(out, "0184467440737095516150aff");
}

#[test]
fn keywords_are_read() {
    assert_eq!(parse_align("flex-start"), Some(Align::Start));
    assert_eq!(parse_align("start"), Some(Align::Start));
    assert_eq!(parse_align("center"), Some(Align::Center));
    assert_eq!(parse_align("end"), Some(Align::End));
    assert_eq!(parse_align("flex-end"), Some(Align::End));
    assert_eq!(parse_align("stretch"), Some(Align::Stretch));
    assert_eq!(parse_align("middle"), None);
    assert_eq!(parse_justify("space-between"), Some(Justify::SpaceBetween));
    assert_eq!(parse_justify("space-around"), Some(Justify::SpaceAround));
    assert_eq!(parse_justify("space-evenly"), Some(Justify::SpaceEvenly));
    assert_eq!(parse_justify("flex-end"), Some(Justify::End));
    assert_eq!(parse_justify("stretch"), None);
    assert_eq!(parse_direction("row"), Some(Direction::Row));
    assert_eq!(parse_direction("column"), Some(Direction::Column));
    assert_eq!(parse_direction("Row"), None);
}

#[test]
fn pixels_may_be_signed_and_fractional() {
    assert_eq!(signed_px::<Px>(&chars("-12.5px")), Some(Px(-12.5)));
    assert_eq!(signed_px::<Px>(&chars("24")), Some(Px(24.0)));
    assert_eq!(signed_px::<Px>(&chars("24 px")), Some(Px(24.0)));
    assert_eq!(signed_px::<Px>(&chars("px")), None);
    assert_eq!(signed_px::<Whole>(&chars("-3px")), Some(Whole(-3)));
    assert_eq!(parse_aspect_ratio::<Px>(" 16 / 9 "), Some(Px(16.0 / 9.0)));
    assert_eq!(parse_aspect_ratio::<Px>("1.5"), Some(Px(1.5)));
    assert_eq!(parse_aspect_ratio::<Px>("1/0"), None);
    assert_eq!(parse_aspect_ratio::<Px>("1/x"), None);
}

#[test]
fn colors_may_be_translucent() {
    assert_eq!(parse_color_alpha(&chars("#11223344")), Some(Color { r: 17, g: 34, b: 51, a: 68 }));
    assert_eq!(parse_color_alpha(&chars("#112233")), Some(Color { r: 17, g: 34, b: 51, a: 255 }));
    assert_eq!(parse_color_alpha(&chars("#1122334")), None);
    assert_eq!(scale_alpha(255, Px(0.5)), 128);
    assert_eq!(scale_alpha(200, Px(1.0)), 200);
    assert_eq!(scale_alpha(255, Px(0.0)), 0);
    let c = Color { r: 1, g: 2, b: 3, a: 100 };
    assert_eq!(fade(c, Px(0.25)), Color { a: 25, ..c });
}

#[test]
fn shadows_and_gradients_are_read() {
    assert_eq!(
        parse_box_shadow::<Px>("4 -2px 6 #00000080"),
        Some(Shadow {
            offset: Point { x: Px(4.0), y: Px(-2.0) },
            blur: Px(6.0),
            color: Color { r: 0, g: 0, b: 0, a: 0x80 },
        })
    );
    assert_eq!(parse_box_shadow::<Px>("4 -2 6"), None);
    assert_eq!(parse_box_shadow::<Px>("4 -2 6 black"), None);
    let (stops, direction) =
        parse_linear_gradient::<Px>(" linear-gradient(90, #ff0000, oops, #0000ff) ").unwrap();
    assert_eq!(direction, GradientDirection::Horizontal);
    assert_eq!(stops.len(), 2);
    assert_eq!((stops[0].position, stops[1].position), (Px(0.0), Px(1.0)));
    assert!(parse_linear_gradient::<Px>("linear-gradient(90)").is_none());
    assert!(parse_linear_gradient::<Px>("linear-gradient(up, #ff0000)").is_none());
    assert!(parse_linear_gradient::<Px>("radial-gradient(90, #ff0000)").is_none());
    let vertical = [-10, 0, 45, 135, 225, 315, 400];
    let horizontal = [46, 134, 226, 314];
    assert!(vertical.iter().all(|d| gradient_direction(*d) == GradientDirection::Vertical));
    assert!(horizontal.iter().all(|d| gradient_direction(*d) == GradientDirection::Horizontal));
}

#[test]
fn styles_of_a_node_are_read_with_their_defaults() {
    let (dom, n) = styled(1, &[]);
    assert_eq!(style_px(&dom, n, WIDTH), None);
    assert_eq!(style_opacity::<Px>(&dom, n), Px(1.0));
    assert_eq!(style_translate::<Px>(&dom, n), Point { x: Px(0.0), y: Px(0.0) });
    assert_eq!(style_z_index::<Px>(&dom, n), 0);
    assert_eq!(style_display(&dom, n), Display::Flex);
    assert!(style_visible(&dom, n));
    assert!(!clips_overflow(&dom, n));
    assert_eq!(style_direction(&dom, n), Direction::Column);
    assert_eq!(style_dim_or_zero::<Px>(&dom, n, RADIUS), Px(0.0));
    assert_eq!(style_color(&dom, n, FG), None);
    assert_eq!(default_fg().a, 255);

    let (dom, n) = styled(
        1,
        &[
            (WIDTH, "40"),
            (OPACITY, "1.5"),
            (TRANSLATE_X, "-2.5"),
            (Z_INDEX, "-7px"),
            (DISPLAY, "none"),
            (VISIBILITY, "hidden"),
            (OVERFLOW, "scroll"),
            (DIRECTION, "row"),
            (RADIUS, "3"),
            (FG, "#01020304"),
        ],
    );
    assert_eq!(style_px(&dom, n, WIDTH), Some(40));
    assert_eq!(style_opacity::<Px>(&dom, n), Px(1.0));
    assert_eq!(style_translate::<Px>(&dom, n).x, Px(-2.5));
    assert_eq!(style_z_index::<Px>(&dom, n), -7);
    assert_eq!(style_display(&dom, n), Display::Gone);
    assert!(!style_visible(&dom, n));
    assert!(clips_overflow(&dom, n));
    assert_eq!(style_direction(&dom, n), Direction::Row);
    assert_eq!(style_dim_or_zero::<Px>(&dom, n, RADIUS), Px(3.0));
    assert_eq!(style_color(&dom, n, FG), None);
    assert_eq!(style_color_alpha(&dom, n, FG), Some(Color { r: 1, g: 2, b: 3, a: 4 }));
    assert!(has_style(&dom, n, DISPLAY, "none"));
    assert!(!has_style(&dom, n, DISPLAY, "flex"));
}

#[test]
fn sizes_of_elements_and_texts_are_read() {
    let (dom, n) = styled(3, &[(PADDING, "-5"), (MARGIN, "-5"), (ASPECT_RATIO, "2"), (HEIGHT, "50%")]);
    let s = element_style::<Px>(&dom, n);
    assert_eq!(s.padding.left, Dimension::Length(Px(0.0)));
    assert_eq!(s.margin.left, Dimension::Length(Px(-5.0)));
    assert_eq!(s.aspect_ratio, Some(Px(2.0)));
    assert_eq!(s.size.height, Dimension::Percent(Px(0.5)));
    assert_eq!(s.align_items, Some(Align::Center));
    assert_eq!(s.justify_content, Some(Justify::Center));
    assert_eq!(resolve_root_dimension(&dom, n, HEIGHT, Px(300.0)), Some(Px(150.0)));
    assert_eq!(resolve_root_dimension(&dom, n, WIDTH, Px(300.0)), None);
    assert_eq!(text_size::<Px>(&dom, NodeId::new(99), "abcd"), Size { w: Px(64.0), h: Px(16.0) });

    let (dom, n) = styled(3, &[(ALIGN, "flex-end"), (HEIGHT, "4")]);
    assert_eq!(element_style::<Px>(&dom, n).align_items, Some(Align::End));
    assert_eq!(text_size::<Px>(&dom, n, "ab"), Size { w: Px(16.0), h: Px(4.0) });
}

#[test]
fn a_node_at_the_depth_limit_is_planned_without_children() {
    let mut e = Emitter::new();
    let a = e.create_element(ElementTag::new(1));
    e.append(NodeId::root(), a);
    let b = e.create_element(ElementTag::new(1));
    e.append(a, b);
    let mut dom = Dom::new();
    dom.apply(&e.take_batch(0)).unwrap();
    let above: PlanNode<Px> = build_node(&dom, a, MAX_TREE_DEPTH - 1);
    assert_eq!(above.children.len(), 1);
    let at: PlanNode<Px> = build_node(&dom, a, MAX_TREE_DEPTH);
    assert!(at.children.is_empty());
    assert!(matches!(at.style, BoxStyle::Element(_)));
}

fn paint_node(id: NodeId, z: i32, visible: bool, clips: Vec<Clip<Px>>) -> PaintNode<Px> {
    PaintNode {
        id,
        rect: Rect {
            origin: Point { x: Px(0.0), y: Px(0.0) },
            size: Size { w: Px(4.0), h: Px(4.0) },
        },
        opacity: Px(1.0),
        fg: default_fg(),
        align: Px(0.0),
        visible,
        z_index: z,
        clips,
    }
}

#[test]
fn paint_order_goes_by_z_index_and_then_by_tree_order() {
    let mut e = Emitter::new();
    let mut nodes = Vec::new();
    for color in ["#000001", "#000002", "#000003", "#000004"] {
        let n = e.create_element(ElementTag::new(1));
        e.append(NodeId::root(), n);
        e.set_inline_style(n, PropId::new(BG), color);
        nodes.push(n);
    }
    let mut dom = Dom::new();
    dom.apply(&e.take_batch(0)).unwrap();
    let paints = vec![
        paint_node(nodes[0], 5, true, vec![]),
        paint_node(nodes[1], -1, true, vec![]),
        paint_node(nodes[2], 5, true, vec![]),
        paint_node(nodes[3], 0, false, vec![]),
    ];
    let blues: Vec<u8> = build_display_list(&dom, &paints)
        .iter()
        .map(|i| match i {
            DisplayItem::Rect { color, .. } => color.b,
            _ => 0,
        })
        .collect();
    assert_eq!(blues, vec![2, 1, 3]);
}
