//! The small built-in layout, in floating-point pixels.
use canopy::dom::Dom;
use canopy::emitter::Emitter;
use canopy::geometry::{hit_test, rect_contains, Color, DisplayItem, Point, Rect, Size};
use canopy::handles::{ElementTag, NodeId, PropId};
use canopy::paint::{build_scene, layout};
use canopy::props::{
    is_inherited, parse_color, ALIGN, BG, DIRECTION, FG, GAP, HEIGHT, JUSTIFY, OPACITY, PADDING, RADIUS,
    TEXT_ALIGN, TRANSLATE_X, TRANSLATE_Y, WIDTH,
};
use canopy::scalar::{Scalar, Whole};

#[derive(Clone, Copy, PartialEq, Debug)]
struct Px(f32);

impl Scalar for Px {
    fn whole(n: u64) -> Px {
        Px(n as f32)
    }
    fn ratio(n: u32, d: u32) -> Px {
        Px(n as f32 / d as f32)
    }
    fn plus(self, other: Px) -> Px {
        Px(self.0 + other.0)
    }
    fn minus(self, other: Px) -> Px {
        Px(self.0 - other.0)
    }
    fn times(self, other: Px) -> Px {
        Px(self.0 * other.0)
    }
    fn over(self, other: Px) -> Px {
        Px(self.0 / other.0)
    }
    fn less(self, other: Px) -> bool {
        self.0 < other.0
    }
    fn at_most(self, other: Px) -> bool {
        self.0 <= other.0
    }
    fn larger(self, other: Px) -> Px {
        Px(self.0.max(other.0))
    }
    fn to_u32(self) -> u32 {
        self.0 as u32
    }
    fn to_i32(self) -> i32 {
        self.0 as i32
    }
    fn wrap(self, period: Px) -> Px {
        let mut x = self.0;
        while x >= period.0 {
            x -= period.0;
        }
        Px(x)
    }
    fn parse(s: &str) -> Option<Px> {
        s.parse::<f32>().ok().map(Px)
    }
}

fn root() -> NodeId {
    NodeId::root()
}

fn size(w: f32, h: f32) -> Size<Px> {
    Size { w: Px(w), h: Px(h) }
}

fn point(x: f32, y: f32) -> Point<Px> {
    Point { x: Px(x), y: Px(y) }
}

fn style(e: &mut Emitter, n: NodeId, prop: u16, value: &str) {
    e.set_inline_style(n, PropId::new(prop), value);
}

fn dom_from(mut e: Emitter) -> Dom {
    let mut dom = Dom::new();
    dom.apply(&e.take_batch(0)).unwrap();
    dom
}

#[test]
fn animation_prop_ids_are_the_next_free_distinct_slots() {
    assert_eq!(OPACITY, 9);
    assert_eq!(TRANSLATE_X, 10);
    assert_eq!(TRANSLATE_Y, 11);
    assert_eq!(ALIGN, 12);
    assert_eq!(JUSTIFY, 13);
    assert_eq!(TEXT_ALIGN, 14);
    let all = [
        BG,
        FG,
        WIDTH,
        HEIGHT,
        GAP,
        PADDING,
        DIRECTION,
        RADIUS,
        OPACITY,
        TRANSLATE_X,
        TRANSLATE_Y,
        ALIGN,
        JUSTIFY,
        TEXT_ALIGN,
    ];
    for (i, a) in all.iter().enumerate() {
        for b in &all[i + 1..] {
            assert_ne!(a, b, "PropId ids must be unique");
        }
    }
}

#[test]
fn stacks_children_and_colors_from_styles() {
    let mut e = Emitter::new();
    let col = e.create_element(ElementTag::new(1));
    e.append(root(), col);
    style(&mut e, col, BG, "#202830");
    let a = e.create_text("ab");
    e.append(col, a);
    style(&mut e, a, HEIGHT, "20");
    style(&mut e, a, FG, "#ffd040");

    let dom = dom_from(e);

    let (scene, lay) = layout(&dom, size(100.0, 50.0));
    match &scene.items[0] {
        DisplayItem::Rect { rect, color, .. } => {
            assert_eq!(*color, Color { r: 0x20, g: 0x28, b: 0x30, a: 255 });
            assert_eq!(rect.size.w, Px(100.0));
            assert_eq!(rect.size.h, Px(16.0));
        }
        _ => panic!("expected the column background rect first"),
    }
    let fg = Color { r: 0xff, g: 0xd0, b: 0x40, a: 255 };
    let text_item = scene
        .items
        .iter()
        .find_map(|i| match i {
            DisplayItem::Text { origin, text, color, size, box_w, align } => {
                Some((*origin, text.clone(), *color, *size, *box_w, *align))
            }
            _ => None,
        })
        .expect("text run");
    assert_eq!(text_item.1, "ab");
    assert_eq!(text_item.2, fg);
    assert_eq!(text_item.3, Px(16.0));
    assert_eq!(text_item.4, Px(32.0));
    assert_eq!(text_item.5, Px(0.0));
    assert!(
        !scene.items.iter().any(|i| matches!(i, DisplayItem::Rect { color, .. } if *color == fg)),
        "text must not emit a foreground placeholder rect"
    );

    assert_eq!(lay.rects.len(), 2);
    assert_eq!(lay.rects[0].0, col);
    assert_eq!(lay.rects[0].1.origin, point(0.0, 0.0));
    assert_eq!(lay.rects[1].0, a);
    assert_eq!(lay.rects[1].1.size, size(32.0, 16.0));
}

#[test]
fn row_places_children_left_to_right() {
    let mut e = Emitter::new();
    let row = e.create_element(ElementTag::new(1));
    e.append(root(), row);
    style(&mut e, row, DIRECTION, "row");
    style(&mut e, row, GAP, "10");
    let a = e.create_element(ElementTag::new(2));
    e.append(row, a);
    style(&mut e, a, WIDTH, "30");
    style(&mut e, a, HEIGHT, "20");
    let b = e.create_element(ElementTag::new(2));
    e.append(row, b);
    style(&mut e, b, WIDTH, "40");
    style(&mut e, b, HEIGHT, "20");

    let dom = dom_from(e);
    let (_, lay) = layout(&dom, size(200.0, 100.0));

    let a_rect = lay.rects.iter().find(|(id, _)| *id == a).unwrap().1;
    let b_rect = lay.rects.iter().find(|(id, _)| *id == b).unwrap().1;
    assert_eq!(a_rect.origin.x, Px(0.0));
    assert_eq!(b_rect.origin.x, Px(a_rect.size.w.0 + 10.0));
    assert_eq!(b_rect.origin.x, Px(40.0));
    assert_eq!(a_rect.origin.y, Px(0.0));
    assert_eq!(b_rect.origin.y, Px(0.0));
}

#[test]
fn padding_insets_children_and_grows_the_box() {
    let mut e = Emitter::new();
    let col = e.create_element(ElementTag::new(1));
    e.append(root(), col);
    style(&mut e, col, PADDING, "5");
    let child = e.create_element(ElementTag::new(2));
    e.append(col, child);
    style(&mut e, child, WIDTH, "20");
    style(&mut e, child, HEIGHT, "10");

    let dom = dom_from(e);
    let (_, lay) = layout(&dom, size(100.0, 100.0));

    let child_rect = lay.rects.iter().find(|(id, _)| *id == child).unwrap().1;
    assert_eq!(child_rect.origin, point(5.0, 5.0));
    let col_rect = lay.rects.iter().find(|(id, _)| *id == col).unwrap().1;
    assert_eq!(col_rect.size.h, Px(20.0));
}

#[test]
fn lib_hit_test_finds_deepest_node_and_misses_outside() {
    let mut e = Emitter::new();
    let col = e.create_element(ElementTag::new(1));
    e.append(root(), col);
    style(&mut e, col, BG, "#202830");
    let child = e.create_element(ElementTag::new(2));
    e.append(col, child);
    style(&mut e, child, WIDTH, "30");
    style(&mut e, child, HEIGHT, "20");
    style(&mut e, child, BG, "#ffffff");

    let dom = dom_from(e);
    let (_, lay) = layout(&dom, size(100.0, 100.0));

    assert_eq!(hit_test(&lay, point(10.0, 10.0)), Some(child));
    assert_eq!(hit_test(&lay, point(80.0, 10.0)), Some(col));
    assert_eq!(hit_test(&lay, point(500.0, 500.0)), None);
}

#[test]
fn lib_radius_style_flows_onto_the_emitted_rect() {
    let mut e = Emitter::new();
    let card = e.create_element(ElementTag::new(1));
    e.append(root(), card);
    style(&mut e, card, BG, "#313244");
    style(&mut e, card, WIDTH, "40");
    style(&mut e, card, HEIGHT, "40");
    style(&mut e, card, RADIUS, "8");

    let dom = dom_from(e);
    let (scene, _) = layout(&dom, size(100.0, 100.0));

    let radius = scene
        .items
        .iter()
        .find_map(|i| match i {
            DisplayItem::Rect { radius, .. } => Some(*radius),
            _ => None,
        })
        .expect("background rect");
    assert_eq!(radius, Px(8.0));
}

#[test]
fn no_radius_style_means_square() {
    let mut e = Emitter::new();
    let card = e.create_element(ElementTag::new(1));
    e.append(root(), card);
    style(&mut e, card, BG, "#313244");
    style(&mut e, card, WIDTH, "40");
    style(&mut e, card, HEIGHT, "40");

    let dom = dom_from(e);
    let (scene, _) = layout(&dom, size(100.0, 100.0));

    match &scene.items[0] {
        DisplayItem::Rect { radius, .. } => assert_eq!(*radius, Px(0.0)),
        other => panic!("expected a background rect, got {other:?}"),
    }
}

#[test]
fn whole_pixels_lay_out_the_same_boxes() {
    let mut e = Emitter::new();
    let col = e.create_element(ElementTag::new(1));
    e.append(root(), col);
    style(&mut e, col, PADDING, "5");
    style(&mut e, col, GAP, "3");
    let a = e.create_text("abc");
    e.append(col, a);
    let b = e.create_element(ElementTag::new(2));
    e.append(col, b);
    style(&mut e, b, WIDTH, "20");
    style(&mut e, b, HEIGHT, "10");
    let second = e.create_element(ElementTag::new(2));
    e.append(root(), second);
    style(&mut e, second, HEIGHT, "7");
    let dom = dom_from(e);

    let (scene, lay) = layout(&dom, Size { w: Whole(100), h: Whole(100) });
    let rect = |x: i64, y: i64, w: i64, h: i64| Rect {
        origin: Point { x: Whole(x), y: Whole(y) },
        size: Size { w: Whole(w), h: Whole(h) },
    };
    assert_eq!(
        lay.rects,
        vec![
            (col, rect(0, 0, 100, 39)),
            (a, rect(5, 5, 48, 16)),
            (b, rect(5, 24, 20, 10)),
            (second, rect(0, 39, 100, 7)),
        ]
    );
    assert_eq!(scene.items.len(), 1);
    assert_eq!(build_scene(&dom, Size { w: Whole(100), h: Whole(100) }), scene);

    let (_, floats) = layout(&dom, size(100.0, 100.0));
    for (whole, float) in lay.rects.iter().zip(floats.rects.iter()) {
        assert_eq!(whole.0, float.0);
        assert_eq!(whole.1.origin.y.0 as f32, float.1.origin.y.0);
        assert_eq!(whole.1.size.w.0 as f32, float.1.size.w.0);
    }
}

#[test]
fn boxes_own_their_top_and_left_edges_only() {
    let r = Rect { origin: point(1.0, 2.0), size: size(3.0, 4.0) };
    assert!(rect_contains(&r, point(1.0, 2.0)));
    assert!(rect_contains(&r, point(3.5, 5.5)));
    assert!(!rect_contains(&r, point(4.0, 2.0)));
    assert!(!rect_contains(&r, point(1.0, 6.0)));
    assert!(!rect_contains(&r, point(0.5, 2.0)));
}

#[test]
fn colors_are_six_hex_digits() {
    assert_eq!(parse_color("#0aF010"), Some(Color { r: 10, g: 240, b: 16, a: 255 }));
    assert_eq!(parse_color("#+1+2+f"), Some(Color { r: 1, g: 2, b: 15, a: 255 }));
    for bad in ["", "#", "#+++1+1", "#1\u{e9}234", "0af010", "#0af01", "#0af0100", "#0af01g", "#0af010ff"] {
        assert_eq!(parse_color(bad), None, "{bad}");
    }
    assert!(is_inherited(PropId::new(FG)));
    assert!(is_inherited(PropId::new(TEXT_ALIGN)));
    assert!(!is_inherited(PropId::new(BG)));
}
