//! Layout by the flexbox engine, from inline styles to boxes and a scene.
use canopy::dom::Dom;
use canopy::emitter::Emitter;
use canopy::flex::{assemble, plan, BoxStyle, PlacedBox, PlanNode, MAX_TREE_DEPTH};
use canopy::geometry::{
    Color, DisplayItem, DisplayList, GradientDirection, GradientStop, LayoutResult, Point, Rect, Size,
};
use canopy::handles::{ElementTag, NodeId, PropId};
use canopy::paint::Direction;
use canopy::panel::{composite, copy_into, panel_size, Buffer};
use canopy::props::{
    parse_color_alpha, ALIGN, ALIGN_SELF, ASPECT_RATIO, BACKGROUND_IMAGE, BG, BORDER_COLOR,
    BORDER_WIDTH, BOX_SHADOW, COLUMN_GAP, DIRECTION, DISPLAY, FG, FLEX_BASIS, FLEX_GROW, FLEX_WRAP,
    FONT_SIZE, GAP, HEIGHT, INSET_LEFT, INSET_TOP, JUSTIFY, MARGIN, MARGIN_LEFT, MARGIN_RIGHT,
    MAX_WIDTH, MIN_WIDTH, OPACITY, OUTLINE_COLOR, OUTLINE_OFFSET, OUTLINE_WIDTH, OVERFLOW, PADDING,
    PADDING_BOTTOM, PADDING_LEFT, PADDING_RIGHT, PADDING_TOP, POSITION, RADIUS, ROW_GAP, TEXT_ALIGN,
    TEXT_DECORATION, TRANSLATE_X, TRANSLATE_Y, VISIBILITY, WIDTH, Z_INDEX,
};
use canopy::scalar::{Scalar, Whole};
use canopy::style::{
    Align, Axes, BoxSizing, Dimension, Display, Edges, FlexWrap, Justify, Position,
};

#[derive(Clone, Copy, PartialEq, Debug)]
struct Px(f32);

impl Scalar for Px {
    fn whole(n: u64) -> Px {
        Px(n as f32)
    }
    fn ratio(n: u32, d: u32) -> Px {
        Px(n as f32 / d as f32)
    }
    fn plus(self, other: Px) -> Px {
        Px(self.0 + other.0)
    }
    fn minus(self, other: Px) -> Px {
        Px(self.0 - other.0)
    }
    fn times(self, other: Px) -> Px {
        Px(self.0 * other.0)
    }
    fn over(self, other: Px) -> Px {
        Px(self.0 / other.0)
    }
    fn less(self, other: Px) -> bool {
        self.0 < other.0
    }
    fn at_most(self, other: Px) -> bool {
        self.0 <= other.0
    }
    fn larger(self, other: Px) -> Px {
        Px(self.0.max(other.0))
    }
    fn to_u32(self) -> u32 {
        self.0 as u32
    }
    fn to_i32(self) -> i32 {
        self.0 as i32
    }
    fn wrap(self, period: Px) -> Px {
        let mut x = self.0;
        while x >= period.0 {
            x -= period.0;
        }
        Px(x)
    }
    fn parse(s: &str) -> Option<Px> {
        s.parse::<f32>().ok().map(Px)
    }
}

/// Items in plain floats, to compare with.
fn plain(item: &DisplayItem<Px>) -> DisplayItem<f32> {
    match item {
        DisplayItem::Rect { rect, color, radius } => {
            DisplayItem::Rect { rect: plain_rect(rect), color: *color, radius: radius.0 }
        }
        DisplayItem::Glyphs { color, .. } => DisplayItem::Glyphs { glyphs: vec![], color: *color },
        DisplayItem::Text { origin, text, color, size, box_w, align } => DisplayItem::Text {
            origin: plain_point(origin),
            text: text.clone(),
            color: *color,
            size: size.0,
            box_w: box_w.0,
            align: align.0,
        },
        DisplayItem::Border { rect, color, width, radius } => DisplayItem::Border {
            rect: plain_rect(rect),
            color: *color,
            width: width.0,
            radius: radius.0,
        },
        DisplayItem::Gradient { rect, stops, direction } => DisplayItem::Gradient {
            rect: plain_rect(rect),
            stops: stops
                .iter()
                .map(|s| GradientStop { color: s.color, position: s.position.0 })
                .collect(),
            direction: *direction,
        },
        DisplayItem::Shadow { rect, color, blur, offset } => DisplayItem::Shadow {
            rect: plain_rect(rect),
            color: *color,
            blur: blur.0,
            offset: plain_point(offset),
        },
        DisplayItem::PushClip { rect, radius } => {
            DisplayItem::PushClip { rect: plain_rect(rect), radius: radius.0 }
        }
        DisplayItem::PopClip => DisplayItem::PopClip,
    }
}

fn plain_point(p: &Point<Px>) -> Point<f32> {
    Point { x: p.x.0, y: p.y.0 }
}

fn plain_rect(r: &Rect<Px>) -> Rect<f32> {
    Rect { origin: plain_point(&r.origin), size: Size { w: r.size.w.0, h: r.size.h.0 } }
}

fn dimension(d: Dimension<Px>) -> taffy::style::Dimension {
    match d {
        Dimension::Auto => taffy::style::Dimension::auto(),
        Dimension::Percent(p) => taffy::style::Dimension::percent(p.0),
        Dimension::Length(l) => taffy::style::Dimension::length(l.0),
    }
}

fn edge(d: Dimension<Px>) -> taffy::style::LengthPercentageAuto {
    match d {
        Dimension::Auto => taffy::style::LengthPercentageAuto::auto(),
        Dimension::Percent(p) => taffy::style::LengthPercentageAuto::percent(p.0),
        Dimension::Length(l) => taffy::style::LengthPercentageAuto::length(l.0),
    }
}

fn inner_edge(d: Dimension<Px>) -> taffy::style::LengthPercentage {
    match d {
        Dimension::Auto => taffy::style::LengthPercentage::length(0.0),
        Dimension::Percent(p) => taffy::style::LengthPercentage::percent(p.0),
        Dimension::Length(l) => taffy::style::LengthPercentage::length(l.0),
    }
}

fn align(a: Align) -> taffy::style::AlignItems {
    match a {
        Align::Start => taffy::style::AlignItems::FLEX_START,
        Align::Center => taffy::style::AlignItems::CENTER,
        Align::End => taffy::style::AlignItems::FLEX_END,
        Align::Stretch => taffy::style::AlignItems::STRETCH,
    }
}

fn justify(j: Justify) -> taffy::style::JustifyContent {
    match j {
        Justify::Start => taffy::style::JustifyContent::FLEX_START,
        Justify::Center => taffy::style::JustifyContent::CENTER,
        Justify::End => taffy::style::JustifyContent::FLEX_END,
        Justify::SpaceBetween => taffy::style::JustifyContent::SPACE_BETWEEN,
        Justify::SpaceAround => taffy::style::JustifyContent::SPACE_AROUND,
        Justify::SpaceEvenly => taffy::style::JustifyContent::SPACE_EVENLY,
    }
}

fn edges<T, U>(e: &Edges<T>, f: fn(T) -> U) -> taffy::geometry::Rect<U>
where
    T: Copy,
{
    taffy::geometry::Rect { left: f(e.left), right: f(e.right), top: f(e.top), bottom: f(e.bottom) }
}

fn axes<T, U>(a: &Axes<T>, f: fn(T) -> U) -> taffy::geometry::Size<U>
where
    T: Copy,
{
    taffy::geometry::Size { width: f(a.width), height: f(a.height) }
}

fn engine_style(style: &BoxStyle<Px>) -> taffy::style::Style {
    let s = match style {
        BoxStyle::Text(size) => {
            return taffy::style::Style {
                size: taffy::geometry::Size {
                    width: taffy::style::Dimension::length(size.w.0),
                    height: taffy::style::Dimension::length(size.h.0),
                },
                ..Default::default()
            };
        }
        BoxStyle::Element(s) => s,
    };
    taffy::style::Style {
        display: match s.display {
            Display::Flex => taffy::style::Display::Flex,
            Display::Gone => taffy::style::Display::None,
        },
        position: match s.position {
            Position::Relative => taffy::style::Position::Relative,
            Position::Absolute => taffy::style::Position::Absolute,
        },
        box_sizing: match s.box_sizing {
            BoxSizing::BorderBox => taffy::style::BoxSizing::BorderBox,
            BoxSizing::ContentBox => taffy::style::BoxSizing::ContentBox,
        },
        flex_direction: match s.direction {
            Direction::Row => taffy::style::FlexDirection::Row,
            Direction::Column => taffy::style::FlexDirection::Column,
        },
        flex_wrap: match s.wrap {
            FlexWrap::NoWrap => taffy::style::FlexWrap::NoWrap,
            FlexWrap::Wrap => taffy::style::FlexWrap::Wrap,
            FlexWrap::WrapReverse => taffy::style::FlexWrap::WrapReverse,
        },
        align_items: s.align_items.map(align),
        align_self: s.align_self.map(align),
        justify_content: s.justify_content.map(justify),
        flex_grow: s.grow.0,
        flex_shrink: s.shrink.0,
        flex_basis: dimension(s.basis),
        aspect_ratio: s.aspect_ratio.map(|r| r.0),
        gap: axes(&s.gap, |g| taffy::style::LengthPercentage::length(g.0)),
        padding: edges(&s.padding, inner_edge),
        margin: edges(&s.margin, edge),
        border: edges(&s.border, |b| taffy::style::LengthPercentage::length(b.0)),
        inset: edges(&s.inset, edge),
        size: axes(&s.size, dimension),
        min_size: axes(&s.min_size, dimension),
        max_size: axes(&s.max_size, dimension),
        ..Default::default()
    }
}

fn grow_tree(tree: &mut taffy::TaffyTree<()>, node: &PlanNode<Px>) -> taffy::NodeId {
    let children: Vec<taffy::NodeId> = node.children.iter().map(|c| grow_tree(tree, c)).collect();
    let key = tree.new_leaf(engine_style(&node.style)).unwrap();
    if !children.is_empty() {
        tree.set_children(key, &children).unwrap();
    }
    key
}

fn read_tree(tree: &taffy::TaffyTree<()>, key: taffy::NodeId, node: &PlanNode<Px>) -> PlacedBox<Px> {
    let placed = tree.layout(key).unwrap();
    let keys = tree.children(key).unwrap();
    PlacedBox {
        id: node.id,
        location: Point { x: Px(placed.location.x), y: Px(placed.location.y) },
        size: Size { w: Px(placed.size.width), h: Px(placed.size.height) },
        children: keys.iter().zip(node.children.iter()).map(|(k, c)| read_tree(tree, *k, c)).collect(),
    }
}

fn place(dom: &Dom, viewport: Size<f32>) -> Vec<PlacedBox<Px>> {
    let plans = plan(dom, Size { w: Px(viewport.w), h: Px(viewport.h) });
    plans
        .iter()
        .map(|p| {
            let mut tree: taffy::TaffyTree<()> = taffy::TaffyTree::new();
            let key = grow_tree(&mut tree, p);
            tree.compute_layout(
                key,
                taffy::geometry::Size {
                    width: taffy::style::AvailableSpace::Definite(viewport.w),
                    height: taffy::style::AvailableSpace::Definite(viewport.h),
                },
            )
            .unwrap();
            read_tree(&tree, key, p)
        })
        .collect()
}

fn layout(dom: &Dom, viewport: Size<f32>) -> (DisplayList<f32>, LayoutResult<f32>) {
    let (scene, lay) = assemble(dom, &place(dom, viewport));
    (
        DisplayList { items: scene.items.iter().map(plain).collect() },
        LayoutResult { rects: lay.rects.iter().map(|(id, r)| (*id, plain_rect(r))).collect() },
    )
}

fn hit_test(lay: &LayoutResult<f32>, point: Point<f32>) -> Option<NodeId> {
    let px = |r: &Rect<f32>| Rect {
        origin: Point { x: Px(r.origin.x), y: Px(r.origin.y) },
        size: Size { w: Px(r.size.w), h: Px(r.size.h) },
    };
    let lay = LayoutResult { rects: lay.rects.iter().map(|(id, r)| (*id, px(r))).collect() };
    canopy::geometry::hit_test(&lay, Point { x: Px(point.x), y: Px(point.y) })
}

fn p(prop: u16) -> PropId {
    PropId::new(prop)
}

fn alpha_color(s: &str) -> Option<Color> {
    let chars: Vec<char> = s.chars().collect();
    parse_color_alpha(&chars)
}

fn dom_from(e: Emitter) -> Dom {
    let mut e = e;
    let mut dom = Dom::new();
    dom.apply(&e.take_batch(0)).unwrap();
    dom
}

#[test]
fn deep_tree_is_depth_capped_not_stack_overflowed() {
    let depth = MAX_TREE_DEPTH * 2;
    let mut e = Emitter::new();
    let mut prev = e.create_element(ElementTag::new(1));
    e.append(NodeId::root(), prev);
    for _ in 1..depth {
        let next = e.create_element(ElementTag::new(1));
        e.append(prev, next);
        prev = next;
    }
    let dom = dom_from(e);

    let (_scene, lay) = layout(&dom, Size { w: 100.0, h: 100.0 });
    assert!(
        lay.rects.len() <= MAX_TREE_DEPTH + 1,
        "descent stops at the cap: {} rects for a {}-deep chain",
        lay.rects.len(),
        depth
    );
    assert!(
        lay.rects.len() < depth,
        "the deep tail was truncated, not laid out"
    );
}

#[test]
fn a_button_centers_its_label_by_default() {
    let mut e = Emitter::new();
    let btn = e.create_element(ElementTag::new(3));
    e.append(NodeId::root(), btn);
    e.set_inline_style(btn, p(WIDTH), "100");
    e.set_inline_style(btn, p(HEIGHT), "60");
    let label = e.create_text("ok");
    e.append(btn, label);
    let dom = dom_from(e);

    let (_scene, lay) = layout(&dom, Size { w: 200.0, h: 100.0 });
    let btn_r = lay.rects.iter().find(|(id, _)| *id == btn).unwrap().1;
    let lbl_r = lay.rects.iter().find(|(id, _)| *id == label).unwrap().1;
    let lbl_cx = lbl_r.origin.x + lbl_r.size.w / 2.0;
    let lbl_cy = lbl_r.origin.y + lbl_r.size.h / 2.0;
    let btn_cx = btn_r.origin.x + btn_r.size.w / 2.0;
    let btn_cy = btn_r.origin.y + btn_r.size.h / 2.0;
    assert!(
        (lbl_cx - btn_cx).abs() < 0.5,
        "label centered horizontally ({lbl_cx} vs {btn_cx})"
    );
    assert!(
        (lbl_cy - btn_cy).abs() < 0.5,
        "label centered vertically ({lbl_cy} vs {btn_cy})"
    );
}

#[test]
fn a_plain_column_leaves_its_child_at_the_start() {
    let mut e = Emitter::new();
    let col = e.create_element(ElementTag::new(1));
    e.append(NodeId::root(), col);
    e.set_inline_style(col, p(WIDTH), "100");
    e.set_inline_style(col, p(HEIGHT), "60");
    let label = e.create_text("ok");
    e.append(col, label);
    let dom = dom_from(e);

    let (_scene, lay) = layout(&dom, Size { w: 200.0, h: 100.0 });
    let lbl_r = lay.rects.iter().find(|(id, _)| *id == label).unwrap().1;
    assert_eq!(
        lbl_r.origin,
        Point { x: 0.0, y: 0.0 },
        "plain column: child at the start"
    );
}

#[test]
fn align_items_center_centers_a_child_on_the_cross_axis() {
    let mut e = Emitter::new();
    let col = e.create_element(ElementTag::new(1));
    e.append(NodeId::root(), col);
    e.set_inline_style(col, p(WIDTH), "200");
    e.set_inline_style(col, p(HEIGHT), "100");
    e.set_inline_style(col, p(ALIGN), "center");
    let child = e.create_element(ElementTag::new(2));
    e.set_inline_style(child, p(WIDTH), "40");
    e.set_inline_style(child, p(HEIGHT), "20");
    e.append(col, child);
    let dom = dom_from(e);

    let (_scene, lay) = layout(&dom, Size { w: 200.0, h: 100.0 });
    let child_rect = lay.rects.iter().find(|(id, _)| *id == child).unwrap().1;
    assert_eq!(
        child_rect.origin.x, 80.0,
        "child centered on the cross axis"
    );
}

#[test]
fn percent_root_fills_the_viewport_and_percent_child_is_resolved() {
    let mut e = Emitter::new();
    let root = e.create_element(ElementTag::new(1));
    e.append(NodeId::root(), root);
    e.set_inline_style(root, p(WIDTH), "100%");
    e.set_inline_style(root, p(HEIGHT), "100%");
    let child = e.create_element(ElementTag::new(2));
    e.append(root, child);
    e.set_inline_style(child, p(WIDTH), "50%");
    e.set_inline_style(child, p(HEIGHT), "100%");
    let dom = dom_from(e);

    let (_scene, lay) = layout(&dom, Size { w: 800.0, h: 600.0 });
    let root_rect = lay.rects.iter().find(|(id, _)| *id == root).unwrap().1;
    assert_eq!(
        root_rect.size,
        Size { w: 800.0, h: 600.0 },
        "100% x 100% root fills the viewport"
    );
    let child_rect = lay.rects.iter().find(|(id, _)| *id == child).unwrap().1;
    assert_eq!(
        child_rect.size.w, 400.0,
        "50% child is half the filled root"
    );
    assert_eq!(
        child_rect.size.h, 600.0,
        "100% child matches the root height"
    );
}

#[test]
fn half_percent_root_takes_half_the_viewport() {
    let mut e = Emitter::new();
    let root = e.create_element(ElementTag::new(1));
    e.append(NodeId::root(), root);
    e.set_inline_style(root, p(WIDTH), "50%");
    e.set_inline_style(root, p(HEIGHT), "50%");
    let dom = dom_from(e);

    let (_scene, lay) = layout(&dom, Size { w: 800.0, h: 600.0 });
    let root_rect = lay.rects.iter().find(|(id, _)| *id == root).unwrap().1;
    assert_eq!(root_rect.size, Size { w: 400.0, h: 300.0 });
}

#[test]
fn auto_root_still_content_sizes_and_stacks() {
    let mut e = Emitter::new();
    let root = e.create_element(ElementTag::new(1));
    e.append(NodeId::root(), root);
    let child = e.create_element(ElementTag::new(2));
    e.append(root, child);
    e.set_inline_style(child, p(WIDTH), "30");
    e.set_inline_style(child, p(HEIGHT), "20");
    let dom = dom_from(e);

    let (_scene, lay) = layout(&dom, Size { w: 800.0, h: 600.0 });
    let root_rect = lay.rects.iter().find(|(id, _)| *id == root).unwrap().1;
    assert_eq!(
        root_rect.size,
        Size { w: 30.0, h: 20.0 },
        "auto root content-sizes to its child, not the viewport"
    );
}

#[test]
fn text_align_center_rides_onto_the_display_item() {
    let mut e = Emitter::new();
    let col = e.create_element(ElementTag::new(1));
    e.append(NodeId::root(), col);
    e.set_inline_style(col, p(WIDTH), "200");
    let t = e.create_text("ab");
    e.append(col, t);
    e.set_inline_style(t, p(WIDTH), "160");
    e.set_inline_style(t, p(HEIGHT), "16");
    e.set_inline_style(t, p(TEXT_ALIGN), "center");
    let dom = dom_from(e);

    let (scene, _lay) = layout(&dom, Size { w: 200.0, h: 100.0 });
    let (box_w, align) = scene
        .items
        .iter()
        .find_map(|i| match i {
            DisplayItem::Text { box_w, align, .. } => Some((*box_w, *align)),
            _ => None,
        })
        .expect("text run");
    assert_eq!(align, 0.5, "text-align: center -> 0.5");
    assert_eq!(box_w, 160.0, "box_w is the text node's laid-out width");
}

#[test]
fn no_text_align_is_left_on_the_display_item() {
    let mut e = Emitter::new();
    let col = e.create_element(ElementTag::new(1));
    e.append(NodeId::root(), col);
    let t = e.create_text("ab");
    e.append(col, t);
    e.set_inline_style(t, p(HEIGHT), "16");
    let dom = dom_from(e);

    let (scene, _lay) = layout(&dom, Size { w: 200.0, h: 100.0 });
    let align = scene
        .items
        .iter()
        .find_map(|i| match i {
            DisplayItem::Text { align, .. } => Some(*align),
            _ => None,
        })
        .expect("text run");
    assert_eq!(align, 0.0, "no text-align -> left (0.0)");
}

#[test]
fn color_inherits_from_an_ancestor() {
    let mut e = Emitter::new();
    let col = e.create_element(ElementTag::new(1));
    e.append(NodeId::root(), col);
    e.set_inline_style(col, p(FG), "#ffd040");
    let wrap = e.create_element(ElementTag::new(1));
    e.append(col, wrap);
    let t = e.create_text("hi");
    e.append(wrap, t);
    e.set_inline_style(t, p(HEIGHT), "16");
    let dom = dom_from(e);

    let (scene, _lay) = layout(&dom, Size { w: 100.0, h: 50.0 });
    let color = scene
        .items
        .iter()
        .find_map(|i| match i {
            DisplayItem::Text { color, .. } => Some(*color),
            _ => None,
        })
        .expect("text run");
    assert_eq!(
        color,
        Color {
            r: 0xff,
            g: 0xd0,
            b: 0x40,
            a: 255
        },
        "text with no color of its own inherits the ancestor's yellow"
    );
}

#[test]
fn own_color_wins_over_inherited() {
    let mut e = Emitter::new();
    let col = e.create_element(ElementTag::new(1));
    e.append(NodeId::root(), col);
    e.set_inline_style(col, p(FG), "#ffd040");
    let t = e.create_text("hi");
    e.append(col, t);
    e.set_inline_style(t, p(HEIGHT), "16");
    e.set_inline_style(t, p(FG), "#89b4fa");
    let dom = dom_from(e);

    let (scene, _lay) = layout(&dom, Size { w: 100.0, h: 50.0 });
    let color = scene
        .items
        .iter()
        .find_map(|i| match i {
            DisplayItem::Text { color, .. } => Some(*color),
            _ => None,
        })
        .expect("text run");
    assert_eq!(
        color,
        Color {
            r: 0x89,
            g: 0xb4,
            b: 0xfa,
            a: 255
        },
        "the node's own color overrides the inherited one"
    );
}

#[test]
fn text_align_inherits_from_an_ancestor() {
    let mut e = Emitter::new();
    let col = e.create_element(ElementTag::new(1));
    e.append(NodeId::root(), col);
    e.set_inline_style(col, p(WIDTH), "200");
    e.set_inline_style(col, p(TEXT_ALIGN), "center");
    let t = e.create_text("ab");
    e.append(col, t);
    e.set_inline_style(t, p(WIDTH), "160");
    e.set_inline_style(t, p(HEIGHT), "16");
    let dom = dom_from(e);

    let (scene, _lay) = layout(&dom, Size { w: 200.0, h: 100.0 });
    let align = scene
        .items
        .iter()
        .find_map(|i| match i {
            DisplayItem::Text { align, .. } => Some(*align),
            _ => None,
        })
        .expect("text run");
    assert_eq!(
        align, 0.5,
        "text-align: center inherits onto the descendant"
    );
}

#[test]
fn background_does_not_inherit() {
    let mut e = Emitter::new();
    let parent = e.create_element(ElementTag::new(1));
    e.append(NodeId::root(), parent);
    e.set_inline_style(parent, p(WIDTH), "100");
    e.set_inline_style(parent, p(HEIGHT), "100");
    e.set_inline_style(parent, p(BG), "#202020");
    let child = e.create_element(ElementTag::new(2));
    e.append(parent, child);
    e.set_inline_style(child, p(WIDTH), "40");
    e.set_inline_style(child, p(HEIGHT), "20");
    let dom = dom_from(e);

    let (scene, _lay) = layout(&dom, Size { w: 100.0, h: 100.0 });
    let rects = scene
        .items
        .iter()
        .filter(|i| matches!(i, DisplayItem::Rect { .. }))
        .count();
    assert_eq!(
        rects, 1,
        "only the parent's background paints; bg never inherits"
    );
}

#[test]
fn row_places_second_child_at_first_width_plus_gap() {
    let mut e = Emitter::new();
    let col = e.create_element(ElementTag::new(1));
    e.append(NodeId::root(), col);
    let row = e.create_element(ElementTag::new(1));
    e.append(col, row);
    e.set_inline_style(row, p(DIRECTION), "row");
    e.set_inline_style(row, p(GAP), "10");
    let a = e.create_element(ElementTag::new(2));
    e.append(row, a);
    e.set_inline_style(a, p(WIDTH), "30");
    e.set_inline_style(a, p(HEIGHT), "20");
    let b = e.create_element(ElementTag::new(2));
    e.append(row, b);
    e.set_inline_style(b, p(WIDTH), "40");
    e.set_inline_style(b, p(HEIGHT), "20");

    let dom = dom_from(e);
    let (_, lay) = layout(&dom, Size { w: 200.0, h: 100.0 });

    let a_rect = lay.rects.iter().find(|(id, _)| *id == a).unwrap().1;
    let b_rect = lay.rects.iter().find(|(id, _)| *id == b).unwrap().1;
    assert_eq!(a_rect.size.w, 30.0);
    assert_eq!(b_rect.origin.x, a_rect.size.w + 10.0);
    assert_eq!(b_rect.origin.x, 40.0);
    assert_eq!(a_rect.origin.y, 0.0);
    assert_eq!(b_rect.origin.y, 0.0);
}

#[test]
fn padding_insets_a_child() {
    let mut e = Emitter::new();
    let col = e.create_element(ElementTag::new(1));
    e.append(NodeId::root(), col);
    e.set_inline_style(col, p(PADDING), "5");
    let child = e.create_element(ElementTag::new(2));
    e.append(col, child);
    e.set_inline_style(child, p(WIDTH), "20");
    e.set_inline_style(child, p(HEIGHT), "10");

    let dom = dom_from(e);
    let (_, lay) = layout(&dom, Size { w: 100.0, h: 100.0 });

    let child_rect = lay.rects.iter().find(|(id, _)| *id == child).unwrap().1;
    assert_eq!(child_rect.origin, Point { x: 5.0, y: 5.0 });
}

#[test]
fn text_node_gets_baked_font_size() {
    let mut e = Emitter::new();
    let col = e.create_element(ElementTag::new(1));
    e.append(NodeId::root(), col);
    let t = e.create_text("ab");
    e.append(col, t);
    e.set_inline_style(t, p(HEIGHT), "20");
    e.set_inline_style(t, p(FG), "#ffd040");

    let dom = dom_from(e);
    let (scene, lay) = layout(&dom, Size { w: 100.0, h: 50.0 });

    let t_rect = lay.rects.iter().find(|(id, _)| *id == t).unwrap().1;
    assert_eq!(t_rect.size, Size { w: 32.0, h: 20.0 });

    let text_item = scene
        .items
        .iter()
        .find_map(|i| match i {
            DisplayItem::Text {
                text, color, size, ..
            } => Some((text.clone(), *color, *size)),
            _ => None,
        })
        .expect("text run");
    assert_eq!(text_item.0, "ab");
    assert_eq!(
        text_item.1,
        Color {
            r: 0xff,
            g: 0xd0,
            b: 0x40,
            a: 255
        }
    );
    assert_eq!(text_item.2, 20.0, "the run's size is the requested 20px");
}

#[test]
fn background_paints_behind_children() {
    let mut e = Emitter::new();
    let col = e.create_element(ElementTag::new(1));
    e.append(NodeId::root(), col);
    e.set_inline_style(col, p(BG), "#202830");
    let child = e.create_element(ElementTag::new(2));
    e.append(col, child);
    e.set_inline_style(child, p(WIDTH), "30");
    e.set_inline_style(child, p(HEIGHT), "20");
    e.set_inline_style(child, p(BG), "#ffffff");

    let dom = dom_from(e);
    let (scene, _) = layout(&dom, Size { w: 100.0, h: 100.0 });

    let col_bg = Color {
        r: 0x20,
        g: 0x28,
        b: 0x30,
        a: 255,
    };
    let child_bg = Color {
        r: 0xff,
        g: 0xff,
        b: 0xff,
        a: 255,
    };
    let col_idx = scene
        .items
        .iter()
        .position(|i| matches!(i, DisplayItem::Rect { color, .. } if *color == col_bg))
        .unwrap();
    let child_idx = scene
        .items
        .iter()
        .position(|i| matches!(i, DisplayItem::Rect { color, .. } if *color == child_bg))
        .unwrap();
    assert!(col_idx < child_idx, "parent background must paint first");
}

#[test]
fn radius_style_flows_onto_the_emitted_rect() {
    let mut e = Emitter::new();
    let card = e.create_element(ElementTag::new(1));
    e.append(NodeId::root(), card);
    e.set_inline_style(card, p(BG), "#313244");
    e.set_inline_style(card, p(WIDTH), "40");
    e.set_inline_style(card, p(HEIGHT), "40");
    e.set_inline_style(card, p(RADIUS), "8");

    let dom = dom_from(e);
    let (scene, _) = layout(&dom, Size { w: 100.0, h: 100.0 });

    let radius = scene
        .items
        .iter()
        .find_map(|i| match i {
            DisplayItem::Rect { radius, .. } => Some(*radius),
            _ => None,
        })
        .expect("background rect");
    assert_eq!(radius, 8.0);
}

#[test]
fn hit_test_finds_deepest_node_and_misses_outside() {
    let mut e = Emitter::new();
    let col = e.create_element(ElementTag::new(1));
    e.append(NodeId::root(), col);
    e.set_inline_style(col, p(WIDTH), "100");
    e.set_inline_style(col, p(HEIGHT), "100");
    let child = e.create_element(ElementTag::new(2));
    e.append(col, child);
    e.set_inline_style(child, p(WIDTH), "30");
    e.set_inline_style(child, p(HEIGHT), "20");

    let dom = dom_from(e);
    let (_, lay) = layout(&dom, Size { w: 100.0, h: 100.0 });

    assert_eq!(hit_test(&lay, Point { x: 10.0, y: 10.0 }), Some(child));
    assert_eq!(hit_test(&lay, Point { x: 80.0, y: 80.0 }), Some(col));
    assert_eq!(hit_test(&lay, Point { x: 500.0, y: 500.0 }), None);
}

#[test]
fn translate_y_shifts_node_and_child_rects_and_hit_test() {
    let mut e = Emitter::new();
    let col = e.create_element(ElementTag::new(1));
    e.append(NodeId::root(), col);
    e.set_inline_style(col, p(WIDTH), "100");
    e.set_inline_style(col, p(HEIGHT), "100");
    e.set_inline_style(col, p(PADDING), "5");
    e.set_inline_style(col, p(TRANSLATE_Y), "10");
    let child = e.create_element(ElementTag::new(2));
    e.append(col, child);
    e.set_inline_style(child, p(WIDTH), "30");
    e.set_inline_style(child, p(HEIGHT), "20");

    let dom = dom_from(e);
    let (_, lay) = layout(&dom, Size { w: 200.0, h: 200.0 });

    let col_rect = lay.rects.iter().find(|(id, _)| *id == col).unwrap().1;
    let child_rect = lay.rects.iter().find(|(id, _)| *id == child).unwrap().1;
    assert_eq!(
        col_rect.origin.y, 10.0,
        "parent rect shifted by translate-y"
    );
    assert_eq!(
        child_rect.origin.y, 15.0,
        "child inherits the parent's translate (5 padding + 10 translate)"
    );
    assert_eq!(child_rect.size, Size { w: 30.0, h: 20.0 });

    assert_eq!(hit_test(&lay, Point { x: 10.0, y: 16.0 }), Some(child));
    assert_ne!(hit_test(&lay, Point { x: 10.0, y: 6.0 }), Some(child));
}

#[test]
fn translate_x_is_signed_and_subtree_relative() {
    let mut e = Emitter::new();
    let col = e.create_element(ElementTag::new(1));
    e.append(NodeId::root(), col);
    e.set_inline_style(col, p(WIDTH), "100");
    e.set_inline_style(col, p(HEIGHT), "40");
    e.set_inline_style(col, p(TRANSLATE_X), "-24");
    let child = e.create_element(ElementTag::new(2));
    e.append(col, child);
    e.set_inline_style(child, p(WIDTH), "20");
    e.set_inline_style(child, p(HEIGHT), "20");

    let dom = dom_from(e);
    let (_, lay) = layout(&dom, Size { w: 200.0, h: 200.0 });

    let col_rect = lay.rects.iter().find(|(id, _)| *id == col).unwrap().1;
    let child_rect = lay.rects.iter().find(|(id, _)| *id == child).unwrap().1;
    assert_eq!(col_rect.origin.x, -24.0);
    assert_eq!(child_rect.origin.x, -24.0);
}

#[test]
fn opacity_half_fades_the_emitted_rect_alpha() {
    let mut e = Emitter::new();
    let card = e.create_element(ElementTag::new(1));
    e.append(NodeId::root(), card);
    e.set_inline_style(card, p(BG), "#313244");
    e.set_inline_style(card, p(WIDTH), "40");
    e.set_inline_style(card, p(HEIGHT), "40");
    e.set_inline_style(card, p(OPACITY), "0.5");

    let dom = dom_from(e);
    let (scene, _) = layout(&dom, Size { w: 100.0, h: 100.0 });

    let color = scene
        .items
        .iter()
        .find_map(|i| match i {
            DisplayItem::Rect { color, .. } => Some(*color),
            _ => None,
        })
        .expect("background rect");
    assert_eq!(color.a, 128, "alpha is scaled to ~half");
    assert_eq!((color.r, color.g, color.b), (0x31, 0x32, 0x44));
}

#[test]
fn opacity_multiplies_down_the_subtree() {
    let mut e = Emitter::new();
    let col = e.create_element(ElementTag::new(1));
    e.append(NodeId::root(), col);
    e.set_inline_style(col, p(OPACITY), "0.5");
    let child = e.create_element(ElementTag::new(2));
    e.append(col, child);
    e.set_inline_style(child, p(BG), "#ffffff");
    e.set_inline_style(child, p(WIDTH), "20");
    e.set_inline_style(child, p(HEIGHT), "20");
    e.set_inline_style(child, p(OPACITY), "0.5");

    let dom = dom_from(e);
    let (scene, _) = layout(&dom, Size { w: 100.0, h: 100.0 });

    let color = scene
        .items
        .iter()
        .find_map(|i| match i {
            DisplayItem::Rect { color, .. } => Some(*color),
            _ => None,
        })
        .expect("child background rect");
    assert_eq!(color.a, 64, "nested opacity multiplies to ~quarter alpha");
}

#[test]
fn margin_offsets_a_node_and_its_sibling() {
    let mut e = Emitter::new();
    let row = e.create_element(ElementTag::new(1));
    e.append(NodeId::root(), row);
    e.set_inline_style(row, p(DIRECTION), "row");
    let a = e.create_element(ElementTag::new(2));
    e.append(row, a);
    e.set_inline_style(a, p(WIDTH), "30");
    e.set_inline_style(a, p(HEIGHT), "20");
    e.set_inline_style(a, p(MARGIN), "10");
    let b = e.create_element(ElementTag::new(2));
    e.append(row, b);
    e.set_inline_style(b, p(WIDTH), "40");
    e.set_inline_style(b, p(HEIGHT), "20");

    let dom = dom_from(e);
    let (_, lay) = layout(&dom, Size { w: 300.0, h: 100.0 });

    let a_rect = lay.rects.iter().find(|(id, _)| *id == a).unwrap().1;
    let b_rect = lay.rects.iter().find(|(id, _)| *id == b).unwrap().1;
    assert_eq!(
        a_rect.origin,
        Point { x: 10.0, y: 10.0 },
        "margin insets the node from the container edge"
    );
    assert_eq!(
        b_rect.origin.x, 50.0,
        "the margin pushes the sibling further along the main axis"
    );
}

#[test]
fn min_and_max_width_clamp_the_box() {
    let mut e = Emitter::new();
    let col = e.create_element(ElementTag::new(1));
    e.append(NodeId::root(), col);
    let small = e.create_element(ElementTag::new(2));
    e.append(col, small);
    e.set_inline_style(small, p(WIDTH), "20");
    e.set_inline_style(small, p(HEIGHT), "10");
    e.set_inline_style(small, p(MIN_WIDTH), "50");
    let big = e.create_element(ElementTag::new(2));
    e.append(col, big);
    e.set_inline_style(big, p(WIDTH), "200");
    e.set_inline_style(big, p(HEIGHT), "10");
    e.set_inline_style(big, p(MAX_WIDTH), "80");

    let dom = dom_from(e);
    let (_, lay) = layout(&dom, Size { w: 400.0, h: 200.0 });

    let small_rect = lay.rects.iter().find(|(id, _)| *id == small).unwrap().1;
    let big_rect = lay.rects.iter().find(|(id, _)| *id == big).unwrap().1;
    assert_eq!(
        small_rect.size.w, 50.0,
        "min-width clamps a smaller box up to the floor"
    );
    assert_eq!(
        big_rect.size.w, 80.0,
        "max-width clamps a larger box down to the ceiling"
    );
}

#[test]
fn flex_grow_splits_free_main_axis_space() {
    let mut e = Emitter::new();
    let row = e.create_element(ElementTag::new(1));
    e.append(NodeId::root(), row);
    e.set_inline_style(row, p(DIRECTION), "row");
    e.set_inline_style(row, p(WIDTH), "200");
    e.set_inline_style(row, p(HEIGHT), "20");
    let a = e.create_element(ElementTag::new(2));
    e.append(row, a);
    e.set_inline_style(a, p(HEIGHT), "20");
    e.set_inline_style(a, p(FLEX_GROW), "1");
    let b = e.create_element(ElementTag::new(2));
    e.append(row, b);
    e.set_inline_style(b, p(HEIGHT), "20");
    e.set_inline_style(b, p(FLEX_GROW), "1");

    let dom = dom_from(e);
    let (_, lay) = layout(&dom, Size { w: 200.0, h: 100.0 });

    let a_rect = lay.rects.iter().find(|(id, _)| *id == a).unwrap().1;
    let b_rect = lay.rects.iter().find(|(id, _)| *id == b).unwrap().1;
    assert_eq!(
        a_rect.size.w, 100.0,
        "first grow:1 child takes half the row"
    );
    assert_eq!(
        b_rect.size.w, 100.0,
        "second grow:1 child takes the other half"
    );
    assert_eq!(b_rect.origin.x, 100.0);
}

#[test]
fn border_width_and_color_emit_a_border_item() {
    let mut e = Emitter::new();
    let card = e.create_element(ElementTag::new(1));
    e.append(NodeId::root(), card);
    e.set_inline_style(card, p(BG), "#202020");
    e.set_inline_style(card, p(WIDTH), "40");
    e.set_inline_style(card, p(HEIGHT), "40");
    e.set_inline_style(card, p(RADIUS), "6");
    e.set_inline_style(card, p(BORDER_WIDTH), "3");
    e.set_inline_style(card, p(BORDER_COLOR), "#89b4fa");

    let dom = dom_from(e);
    let (scene, _) = layout(&dom, Size { w: 100.0, h: 100.0 });

    let border = scene.items.iter().find_map(|i| match i {
        DisplayItem::Border {
            width,
            color,
            radius,
            ..
        } => Some((*width, *color, *radius)),
        _ => None,
    });
    let (width, color, radius) = border.expect("a Border item is in the scene");
    assert_eq!(width, 3.0, "border width rides onto the Border item");
    assert_eq!(
        color,
        Color {
            r: 0x89,
            g: 0xb4,
            b: 0xfa,
            a: 255
        },
        "border color is the parsed #rrggbb"
    );
    assert_eq!(
        radius, 6.0,
        "border radius matches the node's corner radius"
    );

    let bg_idx = scene
        .items
        .iter()
        .position(|i| matches!(i, DisplayItem::Rect { .. }))
        .unwrap();
    let border_idx = scene
        .items
        .iter()
        .position(|i| matches!(i, DisplayItem::Border { .. }))
        .unwrap();
    assert!(
        bg_idx < border_idx,
        "the border frame paints on top of the fill"
    );
}

#[test]
fn border_with_zero_width_or_no_color_emits_nothing() {
    let mut e = Emitter::new();
    let a = e.create_element(ElementTag::new(1));
    e.append(NodeId::root(), a);
    e.set_inline_style(a, p(WIDTH), "20");
    e.set_inline_style(a, p(HEIGHT), "20");
    e.set_inline_style(a, p(BORDER_WIDTH), "0");
    e.set_inline_style(a, p(BORDER_COLOR), "#ffffff");
    let b = e.create_element(ElementTag::new(1));
    e.append(NodeId::root(), b);
    e.set_inline_style(b, p(WIDTH), "20");
    e.set_inline_style(b, p(HEIGHT), "20");
    e.set_inline_style(b, p(BORDER_WIDTH), "2");

    let dom = dom_from(e);
    let (scene, _) = layout(&dom, Size { w: 100.0, h: 100.0 });
    let borders = scene
        .items
        .iter()
        .filter(|i| matches!(i, DisplayItem::Border { .. }))
        .count();
    assert_eq!(borders, 0, "no border without both a width and a color");
}

#[test]
fn border_color_fades_with_opacity() {
    let mut e = Emitter::new();
    let card = e.create_element(ElementTag::new(1));
    e.append(NodeId::root(), card);
    e.set_inline_style(card, p(WIDTH), "40");
    e.set_inline_style(card, p(HEIGHT), "40");
    e.set_inline_style(card, p(OPACITY), "0.5");
    e.set_inline_style(card, p(BORDER_WIDTH), "2");
    e.set_inline_style(card, p(BORDER_COLOR), "#ffffff");

    let dom = dom_from(e);
    let (scene, _) = layout(&dom, Size { w: 100.0, h: 100.0 });
    let color = scene
        .items
        .iter()
        .find_map(|i| match i {
            DisplayItem::Border { color, .. } => Some(*color),
            _ => None,
        })
        .expect("a Border item");
    assert_eq!(
        color.a, 128,
        "the border alpha is scaled by the node opacity"
    );
    assert_eq!((color.r, color.g, color.b), (0xff, 0xff, 0xff));
}

#[test]
fn full_opacity_leaves_alpha_untouched() {
    let mut e = Emitter::new();
    let card = e.create_element(ElementTag::new(1));
    e.append(NodeId::root(), card);
    e.set_inline_style(card, p(BG), "#313244");
    e.set_inline_style(card, p(WIDTH), "10");
    e.set_inline_style(card, p(HEIGHT), "10");

    let dom = dom_from(e);
    let (scene, _) = layout(&dom, Size { w: 50.0, h: 50.0 });
    let color = scene
        .items
        .iter()
        .find_map(|i| match i {
            DisplayItem::Rect { color, .. } => Some(*color),
            _ => None,
        })
        .expect("background rect");
    assert_eq!(color.a, 255);
}

#[test]
fn per_side_padding_insets_each_edge_independently() {
    let mut e = Emitter::new();
    let col = e.create_element(ElementTag::new(1));
    e.append(NodeId::root(), col);
    e.set_inline_style(col, p(WIDTH), "100");
    e.set_inline_style(col, p(HEIGHT), "100");
    e.set_inline_style(col, p(PADDING_LEFT), "7");
    e.set_inline_style(col, p(PADDING_TOP), "11");
    e.set_inline_style(col, p(PADDING_RIGHT), "3");
    e.set_inline_style(col, p(PADDING_BOTTOM), "5");
    let child = e.create_element(ElementTag::new(2));
    e.append(col, child);
    e.set_inline_style(child, p(WIDTH), "20");
    e.set_inline_style(child, p(HEIGHT), "10");

    let dom = dom_from(e);
    let (_, lay) = layout(&dom, Size { w: 200.0, h: 200.0 });
    let child_rect = lay.rects.iter().find(|(id, _)| *id == child).unwrap().1;
    assert_eq!(
        child_rect.origin,
        Point { x: 7.0, y: 11.0 },
        "child is inset by the top/left padding longhands, not the uniform value"
    );
}

#[test]
fn per_side_longhand_overrides_uniform_shorthand() {
    let mut e = Emitter::new();
    let col = e.create_element(ElementTag::new(1));
    e.append(NodeId::root(), col);
    e.set_inline_style(col, p(WIDTH), "100");
    e.set_inline_style(col, p(HEIGHT), "100");
    e.set_inline_style(col, p(PADDING), "4");
    e.set_inline_style(col, p(PADDING_LEFT), "12");
    let child = e.create_element(ElementTag::new(2));
    e.append(col, child);
    e.set_inline_style(child, p(WIDTH), "10");
    e.set_inline_style(child, p(HEIGHT), "10");

    let dom = dom_from(e);
    let (_, lay) = layout(&dom, Size { w: 200.0, h: 200.0 });
    let child_rect = lay.rects.iter().find(|(id, _)| *id == child).unwrap().1;
    assert_eq!(child_rect.origin, Point { x: 12.0, y: 4.0 });
}

#[test]
fn per_side_margin_offsets_one_edge() {
    let mut e = Emitter::new();
    let row = e.create_element(ElementTag::new(1));
    e.append(NodeId::root(), row);
    e.set_inline_style(row, p(DIRECTION), "row");
    let a = e.create_element(ElementTag::new(2));
    e.append(row, a);
    e.set_inline_style(a, p(WIDTH), "20");
    e.set_inline_style(a, p(HEIGHT), "20");
    e.set_inline_style(a, p(MARGIN_LEFT), "15");

    let dom = dom_from(e);
    let (_, lay) = layout(&dom, Size { w: 200.0, h: 100.0 });
    let a_rect = lay.rects.iter().find(|(id, _)| *id == a).unwrap().1;
    assert_eq!(
        a_rect.origin,
        Point { x: 15.0, y: 0.0 },
        "margin-left longhand pushes the box right; top is untouched"
    );
}

#[test]
fn margin_auto_centers_a_box_horizontally() {
    let mut e = Emitter::new();
    let col = e.create_element(ElementTag::new(1));
    e.append(NodeId::root(), col);
    e.set_inline_style(col, p(WIDTH), "200");
    e.set_inline_style(col, p(HEIGHT), "100");
    let box_ = e.create_element(ElementTag::new(2));
    e.append(col, box_);
    e.set_inline_style(box_, p(WIDTH), "40");
    e.set_inline_style(box_, p(HEIGHT), "20");
    e.set_inline_style(box_, p(MARGIN_LEFT), "auto");
    e.set_inline_style(box_, p(MARGIN_RIGHT), "auto");

    let dom = dom_from(e);
    let (_, lay) = layout(&dom, Size { w: 200.0, h: 100.0 });
    let box_rect = lay.rects.iter().find(|(id, _)| *id == box_).unwrap().1;
    assert_eq!(
        box_rect.origin.x, 80.0,
        "auto left+right margins center the box in its container"
    );
}

#[test]
fn negative_margin_pulls_a_box_left() {
    let mut e = Emitter::new();
    let col = e.create_element(ElementTag::new(1));
    e.append(NodeId::root(), col);
    e.set_inline_style(col, p(DIRECTION), "row");
    e.set_inline_style(col, p(WIDTH), "200");
    e.set_inline_style(col, p(HEIGHT), "40");
    let box_ = e.create_element(ElementTag::new(2));
    e.append(col, box_);
    e.set_inline_style(box_, p(WIDTH), "20");
    e.set_inline_style(box_, p(HEIGHT), "20");
    e.set_inline_style(box_, p(MARGIN_LEFT), "-10");

    let dom = dom_from(e);
    let (_, lay) = layout(&dom, Size { w: 200.0, h: 100.0 });
    let box_rect = lay.rects.iter().find(|(id, _)| *id == box_).unwrap().1;
    assert_eq!(box_rect.origin.x, -10.0, "negative margin-left pulls left");
}

#[test]
fn display_none_zero_sizes_and_skips_the_subtree() {
    let mut e = Emitter::new();
    let gone = e.create_element(ElementTag::new(1));
    e.append(NodeId::root(), gone);
    e.set_inline_style(gone, p(WIDTH), "50");
    e.set_inline_style(gone, p(HEIGHT), "50");
    e.set_inline_style(gone, p(DISPLAY), "none");
    e.set_inline_style(gone, p(BG), "#ff0000");
    let child = e.create_element(ElementTag::new(2));
    e.append(gone, child);
    e.set_inline_style(child, p(WIDTH), "30");
    e.set_inline_style(child, p(HEIGHT), "30");

    let dom = dom_from(e);
    let (scene, lay) = layout(&dom, Size { w: 200.0, h: 200.0 });
    assert!(
        lay.rects.iter().all(|(id, _)| *id != gone),
        "display:none prunes the node from paint/hit-test"
    );
    assert!(
        lay.rects.iter().all(|(id, _)| *id != child),
        "display:none skips the subtree (the child is not laid out either)"
    );
    let has_red = scene.items.iter().any(|i| {
        matches!(i, DisplayItem::Rect { color, .. }
            if (color.r, color.g, color.b) == (0xff, 0x00, 0x00))
    });
    assert!(!has_red, "display:none emits no background");
}

#[test]
fn visibility_hidden_lays_out_but_paints_nothing_itself() {
    let mut e = Emitter::new();
    let col = e.create_element(ElementTag::new(1));
    e.append(NodeId::root(), col);
    e.set_inline_style(col, p(WIDTH), "100");
    e.set_inline_style(col, p(HEIGHT), "100");
    let hidden = e.create_element(ElementTag::new(2));
    e.append(col, hidden);
    e.set_inline_style(hidden, p(WIDTH), "40");
    e.set_inline_style(hidden, p(HEIGHT), "40");
    e.set_inline_style(hidden, p(VISIBILITY), "hidden");
    e.set_inline_style(hidden, p(BG), "#ff0000");
    let kid = e.create_element(ElementTag::new(3));
    e.append(hidden, kid);
    e.set_inline_style(kid, p(WIDTH), "10");
    e.set_inline_style(kid, p(HEIGHT), "10");
    e.set_inline_style(kid, p(BG), "#00ff00");

    let dom = dom_from(e);
    let (scene, lay) = layout(&dom, Size { w: 200.0, h: 200.0 });
    let hidden_rect = lay.rects.iter().find(|(id, _)| *id == hidden).unwrap().1;
    assert_eq!(
        hidden_rect.size,
        Size { w: 40.0, h: 40.0 },
        "visibility:hidden still lays the node out"
    );
    let has_red = scene.items.iter().any(|i| {
        matches!(i, DisplayItem::Rect { color, .. }
            if (color.r, color.g, color.b) == (0xff, 0x00, 0x00))
    });
    assert!(!has_red, "the hidden node's own background is not emitted");
    let has_green = scene.items.iter().any(|i| {
        matches!(i, DisplayItem::Rect { color, .. }
            if (color.r, color.g, color.b) == (0x00, 0xff, 0x00))
    });
    assert!(has_green, "children of a hidden node still paint");
}

#[test]
fn position_absolute_with_inset_offsets_from_the_container() {
    let mut e = Emitter::new();
    let container = e.create_element(ElementTag::new(1));
    e.append(NodeId::root(), container);
    e.set_inline_style(container, p(WIDTH), "200");
    e.set_inline_style(container, p(HEIGHT), "200");
    e.set_inline_style(container, p(POSITION), "relative");
    let abs = e.create_element(ElementTag::new(2));
    e.append(container, abs);
    e.set_inline_style(abs, p(WIDTH), "30");
    e.set_inline_style(abs, p(HEIGHT), "30");
    e.set_inline_style(abs, p(POSITION), "absolute");
    e.set_inline_style(abs, p(INSET_LEFT), "25");
    e.set_inline_style(abs, p(INSET_TOP), "40");

    let dom = dom_from(e);
    let (_, lay) = layout(&dom, Size { w: 400.0, h: 400.0 });
    let abs_rect = lay.rects.iter().find(|(id, _)| *id == abs).unwrap().1;
    assert_eq!(
        abs_rect.origin,
        Point { x: 25.0, y: 40.0 },
        "absolute + inset places the box at top/left within the container"
    );
    assert_eq!(abs_rect.size, Size { w: 30.0, h: 30.0 });
}

#[test]
fn flex_wrap_pushes_overflowing_items_to_a_second_line() {
    let mut e = Emitter::new();
    let row = e.create_element(ElementTag::new(1));
    e.append(NodeId::root(), row);
    e.set_inline_style(row, p(DIRECTION), "row");
    e.set_inline_style(row, p(FLEX_WRAP), "wrap");
    e.set_inline_style(row, p(WIDTH), "100");
    e.set_inline_style(row, p(HEIGHT), "100");
    let mut ids = Vec::new();
    for _ in 0..3 {
        let b = e.create_element(ElementTag::new(2));
        e.append(row, b);
        e.set_inline_style(b, p(WIDTH), "40");
        e.set_inline_style(b, p(HEIGHT), "20");
        ids.push(b);
    }
    let dom = dom_from(e);
    let (_, lay) = layout(&dom, Size { w: 200.0, h: 200.0 });
    let r0 = lay.rects.iter().find(|(id, _)| *id == ids[0]).unwrap().1;
    let r1 = lay.rects.iter().find(|(id, _)| *id == ids[1]).unwrap().1;
    let r2 = lay.rects.iter().find(|(id, _)| *id == ids[2]).unwrap().1;
    assert_eq!(r0.origin.x, 0.0);
    assert_eq!(r1.origin.x, 40.0);
    assert_eq!(r2.origin.x, 0.0, "the third item wraps to the next line");
    assert!(
        r2.origin.y > r0.origin.y,
        "the wrapped item is below the first row"
    );
}

#[test]
fn flex_basis_sets_the_main_axis_size() {
    let mut e = Emitter::new();
    let row = e.create_element(ElementTag::new(1));
    e.append(NodeId::root(), row);
    e.set_inline_style(row, p(DIRECTION), "row");
    e.set_inline_style(row, p(WIDTH), "200");
    e.set_inline_style(row, p(HEIGHT), "40");
    let a = e.create_element(ElementTag::new(2));
    e.append(row, a);
    e.set_inline_style(a, p(HEIGHT), "20");
    e.set_inline_style(a, p(FLEX_BASIS), "70");

    let dom = dom_from(e);
    let (_, lay) = layout(&dom, Size { w: 400.0, h: 100.0 });
    let a_rect = lay.rects.iter().find(|(id, _)| *id == a).unwrap().1;
    assert_eq!(
        a_rect.size.w, 70.0,
        "flex-basis sets the item's main-axis size"
    );
}

#[test]
fn align_self_overrides_the_containers_align_items() {
    let mut e = Emitter::new();
    let col = e.create_element(ElementTag::new(1));
    e.append(NodeId::root(), col);
    e.set_inline_style(col, p(WIDTH), "200");
    e.set_inline_style(col, p(HEIGHT), "100");
    e.set_inline_style(col, p(ALIGN), "flex-start");
    let child = e.create_element(ElementTag::new(2));
    e.append(col, child);
    e.set_inline_style(child, p(WIDTH), "40");
    e.set_inline_style(child, p(HEIGHT), "20");
    e.set_inline_style(child, p(ALIGN_SELF), "flex-end");

    let dom = dom_from(e);
    let (_, lay) = layout(&dom, Size { w: 400.0, h: 200.0 });
    let child_rect = lay.rects.iter().find(|(id, _)| *id == child).unwrap().1;
    assert_eq!(
        child_rect.origin.x, 160.0,
        "align-self: flex-end pushes the child to the cross-axis end (200 - 40)"
    );
}

#[test]
fn aspect_ratio_derives_height_from_width() {
    for value in ["2", "2/1"] {
        let mut e = Emitter::new();
        let col = e.create_element(ElementTag::new(1));
        e.append(NodeId::root(), col);
        let box_ = e.create_element(ElementTag::new(2));
        e.append(col, box_);
        e.set_inline_style(box_, p(WIDTH), "60");
        e.set_inline_style(box_, p(ASPECT_RATIO), value);

        let dom = dom_from(e);
        let (_, lay) = layout(&dom, Size { w: 400.0, h: 400.0 });
        let box_rect = lay.rects.iter().find(|(id, _)| *id == box_).unwrap().1;
        assert_eq!(
            box_rect.size,
            Size { w: 60.0, h: 30.0 },
            "aspect-ratio {value:?} -> height = width / 2"
        );
    }
}

#[test]
fn column_gap_spaces_items_on_the_main_axis() {
    let mut e = Emitter::new();
    let row = e.create_element(ElementTag::new(1));
    e.append(NodeId::root(), row);
    e.set_inline_style(row, p(DIRECTION), "row");
    e.set_inline_style(row, p(COLUMN_GAP), "8");
    let a = e.create_element(ElementTag::new(2));
    e.append(row, a);
    e.set_inline_style(a, p(WIDTH), "40");
    e.set_inline_style(a, p(HEIGHT), "20");
    let b = e.create_element(ElementTag::new(2));
    e.append(row, b);
    e.set_inline_style(b, p(WIDTH), "20");
    e.set_inline_style(b, p(HEIGHT), "20");

    let dom = dom_from(e);
    let (_, lay) = layout(&dom, Size { w: 200.0, h: 100.0 });
    let b_rect = lay.rects.iter().find(|(id, _)| *id == b).unwrap().1;
    assert_eq!(
        b_rect.origin.x, 48.0,
        "column-gap (40 width + 8 gap) spaces items on the main axis"
    );
}

#[test]
fn row_gap_spaces_wrapped_lines_on_the_cross_axis() {
    let mut e = Emitter::new();
    let row = e.create_element(ElementTag::new(1));
    e.append(NodeId::root(), row);
    e.set_inline_style(row, p(DIRECTION), "row");
    e.set_inline_style(row, p(FLEX_WRAP), "wrap");
    e.set_inline_style(row, p(WIDTH), "100");
    e.set_inline_style(row, p(ROW_GAP), "12");
    let mut ids = Vec::new();
    for _ in 0..3 {
        let b = e.create_element(ElementTag::new(2));
        e.append(row, b);
        e.set_inline_style(b, p(WIDTH), "40");
        e.set_inline_style(b, p(HEIGHT), "20");
        ids.push(b);
    }
    let dom = dom_from(e);
    let (_, lay) = layout(&dom, Size { w: 200.0, h: 300.0 });
    let r0 = lay.rects.iter().find(|(id, _)| *id == ids[0]).unwrap().1;
    let r2 = lay.rects.iter().find(|(id, _)| *id == ids[2]).unwrap().1;
    assert_eq!(
        r2.origin.x, 0.0,
        "the third item wraps back to the left edge"
    );
    assert_eq!(
        r2.origin.y - r0.origin.y,
        32.0,
        "row-gap (12) plus the first line height (20) places the wrapped line"
    );
}

#[test]
fn uniform_gap_still_fills_both_axes_when_no_per_axis_set() {
    let mut e = Emitter::new();
    let row = e.create_element(ElementTag::new(1));
    e.append(NodeId::root(), row);
    e.set_inline_style(row, p(DIRECTION), "row");
    e.set_inline_style(row, p(GAP), "10");
    let a = e.create_element(ElementTag::new(2));
    e.append(row, a);
    e.set_inline_style(a, p(WIDTH), "20");
    e.set_inline_style(a, p(HEIGHT), "20");
    let b = e.create_element(ElementTag::new(2));
    e.append(row, b);
    e.set_inline_style(b, p(WIDTH), "20");
    e.set_inline_style(b, p(HEIGHT), "20");

    let dom = dom_from(e);
    let (_, lay) = layout(&dom, Size { w: 200.0, h: 100.0 });
    let b_rect = lay.rects.iter().find(|(id, _)| *id == b).unwrap().1;
    assert_eq!(
        b_rect.origin.x, 30.0,
        "uniform gap (20 width + 10 gap) still applies"
    );
}

#[test]
fn font_size_sizes_a_text_cell_independent_of_height() {
    let mut e = Emitter::new();
    let col = e.create_element(ElementTag::new(1));
    e.append(NodeId::root(), col);
    let t = e.create_text("ab");
    e.append(col, t);
    e.set_inline_style(t, p(FONT_SIZE), "24");

    let dom = dom_from(e);
    let (scene, lay) = layout(&dom, Size { w: 200.0, h: 100.0 });
    let t_rect = lay.rects.iter().find(|(id, _)| *id == t).unwrap().1;
    assert_eq!(
        t_rect.size,
        Size { w: 48.0, h: 24.0 },
        "font-size drives the text cell size when height is absent"
    );
    let size = scene
        .items
        .iter()
        .find_map(|i| match i {
            DisplayItem::Text { size, .. } => Some(*size),
            _ => None,
        })
        .expect("text run");
    assert_eq!(size, 24.0, "the run's size is the font-size");
}

#[test]
fn font_size_wins_over_height_for_text_cell() {
    let mut e = Emitter::new();
    let col = e.create_element(ElementTag::new(1));
    e.append(NodeId::root(), col);
    let t = e.create_text("x");
    e.append(col, t);
    e.set_inline_style(t, p(HEIGHT), "40");
    e.set_inline_style(t, p(FONT_SIZE), "16");

    let dom = dom_from(e);
    let (_, lay) = layout(&dom, Size { w: 200.0, h: 100.0 });
    let t_rect = lay.rects.iter().find(|(id, _)| *id == t).unwrap().1;
    assert_eq!(
        t_rect.size.h, 16.0,
        "font-size, not height, drives the text cell height"
    );
}

#[test]
fn border_insets_content_via_the_box_model() {
    let mut e = Emitter::new();
    let col = e.create_element(ElementTag::new(1));
    e.append(NodeId::root(), col);
    e.set_inline_style(col, p(WIDTH), "100");
    e.set_inline_style(col, p(HEIGHT), "100");
    e.set_inline_style(col, p(BORDER_WIDTH), "6");
    e.set_inline_style(col, p(BORDER_COLOR), "#89b4fa");
    let child = e.create_element(ElementTag::new(2));
    e.append(col, child);
    e.set_inline_style(child, p(WIDTH), "20");
    e.set_inline_style(child, p(HEIGHT), "20");

    let dom = dom_from(e);
    let (scene, lay) = layout(&dom, Size { w: 200.0, h: 200.0 });
    let child_rect = lay.rects.iter().find(|(id, _)| *id == child).unwrap().1;
    assert_eq!(
        child_rect.origin,
        Point { x: 6.0, y: 6.0 },
        "the border width insets content, like padding"
    );
    let has_border = scene
        .items
        .iter()
        .any(|i| matches!(i, DisplayItem::Border { width, .. } if *width == 6.0));
    assert!(has_border, "the border frame is still painted");
}

#[test]
fn z_index_orders_sibling_paint() {
    let mut e = Emitter::new();
    let col = e.create_element(ElementTag::new(1));
    e.append(NodeId::root(), col);
    let high = e.create_element(ElementTag::new(2));
    e.append(col, high);
    e.set_inline_style(high, p(WIDTH), "20");
    e.set_inline_style(high, p(HEIGHT), "20");
    e.set_inline_style(high, p(BG), "#ff0000");
    e.set_inline_style(high, p(Z_INDEX), "5");
    let low = e.create_element(ElementTag::new(2));
    e.append(col, low);
    e.set_inline_style(low, p(WIDTH), "20");
    e.set_inline_style(low, p(HEIGHT), "20");
    e.set_inline_style(low, p(BG), "#0000ff");
    e.set_inline_style(low, p(Z_INDEX), "1");

    let dom = dom_from(e);
    let (scene, _) = layout(&dom, Size { w: 100.0, h: 100.0 });
    let red_idx = scene
        .items
        .iter()
        .position(|i| {
            matches!(i, DisplayItem::Rect { color, .. }
            if (color.r, color.g, color.b) == (0xff, 0x00, 0x00))
        })
        .expect("red rect");
    let blue_idx = scene
        .items
        .iter()
        .position(|i| {
            matches!(i, DisplayItem::Rect { color, .. }
            if (color.r, color.g, color.b) == (0x00, 0x00, 0xff))
        })
        .expect("blue rect");
    assert!(
        blue_idx < red_idx,
        "lower z-index (blue, z=1) paints before higher (red, z=5), regardless of tree order"
    );
}

#[test]
fn equal_z_index_keeps_tree_order() {
    let mut e = Emitter::new();
    let col = e.create_element(ElementTag::new(1));
    e.append(NodeId::root(), col);
    let first = e.create_element(ElementTag::new(2));
    e.append(col, first);
    e.set_inline_style(first, p(WIDTH), "20");
    e.set_inline_style(first, p(HEIGHT), "20");
    e.set_inline_style(first, p(BG), "#ff0000");
    let second = e.create_element(ElementTag::new(2));
    e.append(col, second);
    e.set_inline_style(second, p(WIDTH), "20");
    e.set_inline_style(second, p(HEIGHT), "20");
    e.set_inline_style(second, p(BG), "#0000ff");

    let dom = dom_from(e);
    let (scene, _) = layout(&dom, Size { w: 100.0, h: 100.0 });
    let red_idx = scene
        .items
        .iter()
        .position(|i| {
            matches!(i, DisplayItem::Rect { color, .. }
            if (color.r, color.g, color.b) == (0xff, 0x00, 0x00))
        })
        .expect("red rect");
    let blue_idx = scene
        .items
        .iter()
        .position(|i| {
            matches!(i, DisplayItem::Rect { color, .. }
            if (color.r, color.g, color.b) == (0x00, 0x00, 0xff))
        })
        .expect("blue rect");
    assert!(
        red_idx < blue_idx,
        "equal z-index keeps tree order (stable sort): first sibling paints first"
    );
}

#[test]
fn parse_color_accepts_8_hex_alpha() {
    assert_eq!(
        alpha_color("#11223344"),
        Some(Color {
            r: 0x11,
            g: 0x22,
            b: 0x33,
            a: 0x44
        }),
        "8-hex parses the trailing alpha byte"
    );
    assert_eq!(
        alpha_color("#112233"),
        Some(Color {
            r: 0x11,
            g: 0x22,
            b: 0x33,
            a: 255
        }),
        "6-hex defaults alpha to opaque"
    );
    assert_eq!(alpha_color("#1234"), None);
}

#[test]
fn background_image_emits_a_gradient_with_even_stops() {
    let mut e = Emitter::new();
    let card = e.create_element(ElementTag::new(1));
    e.append(NodeId::root(), card);
    e.set_inline_style(card, p(WIDTH), "40");
    e.set_inline_style(card, p(HEIGHT), "40");
    e.set_inline_style(card, p(BG), "#000000");
    e.set_inline_style(
        card,
        p(BACKGROUND_IMAGE),
        "linear-gradient(180, #ff0000, #00ff00, #0000ff)",
    );

    let dom = dom_from(e);
    let (scene, _) = layout(&dom, Size { w: 100.0, h: 100.0 });

    let (stops, direction) = scene
        .items
        .iter()
        .find_map(|i| match i {
            DisplayItem::Gradient {
                stops, direction, ..
            } => Some((stops.clone(), *direction)),
            _ => None,
        })
        .expect("a Gradient item is in the scene");
    assert_eq!(direction, GradientDirection::Vertical, "180deg -> vertical");
    let slice = stops.as_slice();
    assert_eq!(slice.len(), 3, "three stops");
    assert_eq!(slice[0].position, 0.0);
    assert_eq!(slice[1].position, 0.5, "evenly spaced: middle stop at 0.5");
    assert_eq!(slice[2].position, 1.0);
    assert_eq!(
        (slice[0].color.r, slice[0].color.g, slice[0].color.b),
        (0xff, 0x00, 0x00)
    );
    assert_eq!(
        (slice[2].color.r, slice[2].color.g, slice[2].color.b),
        (0x00, 0x00, 0xff)
    );

    let bg_idx = scene
        .items
        .iter()
        .position(|i| matches!(i, DisplayItem::Rect { .. }))
        .unwrap();
    let grad_idx = scene
        .items
        .iter()
        .position(|i| matches!(i, DisplayItem::Gradient { .. }))
        .unwrap();
    assert!(
        bg_idx < grad_idx,
        "the gradient paints over the solid background"
    );
}

#[test]
fn horizontal_gradient_maps_to_horizontal_direction() {
    let mut e = Emitter::new();
    let card = e.create_element(ElementTag::new(1));
    e.append(NodeId::root(), card);
    e.set_inline_style(card, p(WIDTH), "40");
    e.set_inline_style(card, p(HEIGHT), "40");
    e.set_inline_style(card, p(BACKGROUND_IMAGE), "linear-gradient(90, #abcdef)");

    let dom = dom_from(e);
    let (scene, _) = layout(&dom, Size { w: 100.0, h: 100.0 });
    let (stops, direction) = scene
        .items
        .iter()
        .find_map(|i| match i {
            DisplayItem::Gradient {
                stops, direction, ..
            } => Some((stops.clone(), *direction)),
            _ => None,
        })
        .expect("a Gradient item");
    assert_eq!(
        direction,
        GradientDirection::Horizontal,
        "90deg -> horizontal"
    );
    let slice = stops.as_slice();
    assert_eq!(slice.len(), 1);
    assert_eq!(slice[0].position, 0.0, "a single stop sits at 0.0");
}

#[test]
fn box_shadow_emits_a_shadow_with_offset_blur_and_translucent_color() {
    let mut e = Emitter::new();
    let card = e.create_element(ElementTag::new(1));
    e.append(NodeId::root(), card);
    e.set_inline_style(card, p(WIDTH), "40");
    e.set_inline_style(card, p(HEIGHT), "40");
    e.set_inline_style(card, p(BG), "#202020");
    e.set_inline_style(card, p(BOX_SHADOW), "4 -2 6 #00000080");

    let dom = dom_from(e);
    let (scene, _) = layout(&dom, Size { w: 100.0, h: 100.0 });
    let (color, blur, offset) = scene
        .items
        .iter()
        .find_map(|i| match i {
            DisplayItem::Shadow {
                color,
                blur,
                offset,
                ..
            } => Some((*color, *blur, *offset)),
            _ => None,
        })
        .expect("a Shadow item is in the scene");
    assert_eq!(
        offset,
        Point { x: 4.0, y: -2.0 },
        "signed dx/dy ride through"
    );
    assert_eq!(blur, 6.0);
    assert_eq!(
        color,
        Color {
            r: 0x00,
            g: 0x00,
            b: 0x00,
            a: 0x80
        },
        "the translucent #00000080 shadow color survives (parse_color alpha)"
    );

    let shadow_idx = scene
        .items
        .iter()
        .position(|i| matches!(i, DisplayItem::Shadow { .. }))
        .unwrap();
    let bg_idx = scene
        .items
        .iter()
        .position(|i| matches!(i, DisplayItem::Rect { .. }))
        .unwrap();
    assert!(shadow_idx < bg_idx, "the shadow paints behind the box");
}

#[test]
fn underline_emits_a_thin_rect_near_the_baseline() {
    let mut e = Emitter::new();
    let col = e.create_element(ElementTag::new(1));
    e.append(NodeId::root(), col);
    let t = e.create_text("ab");
    e.append(col, t);
    e.set_inline_style(t, p(WIDTH), "60");
    e.set_inline_style(t, p(HEIGHT), "16");
    e.set_inline_style(t, p(FG), "#ffd040");
    e.set_inline_style(t, p(TEXT_DECORATION), "underline");

    let dom = dom_from(e);
    let (scene, lay) = layout(&dom, Size { w: 100.0, h: 50.0 });
    let t_rect = lay.rects.iter().find(|(id, _)| *id == t).unwrap().1;

    let (deco_rect, color) = scene
        .items
        .iter()
        .find_map(|i| match i {
            DisplayItem::Rect { rect, color, .. } => Some((*rect, *color)),
            _ => None,
        })
        .expect("an underline Rect");
    assert_eq!(deco_rect.size.w, 60.0, "the line spans the text box width");
    assert_eq!(deco_rect.size.h, 1.0, "thickness max(1, 16/16) = 1");
    assert_eq!(
        deco_rect.origin.y,
        t_rect.origin.y + 16.0 - 1.0,
        "underline sits near the bottom of the cell"
    );
    assert_eq!(
        color,
        Color {
            r: 0xff,
            g: 0xd0,
            b: 0x40,
            a: 255
        },
        "the underline takes the text's ink color"
    );

    let text_idx = scene
        .items
        .iter()
        .position(|i| matches!(i, DisplayItem::Text { .. }))
        .unwrap();
    let deco_idx = scene
        .items
        .iter()
        .position(|i| matches!(i, DisplayItem::Rect { .. }))
        .unwrap();
    assert!(text_idx < deco_idx, "the decoration paints over the glyphs");
}

#[test]
fn line_through_sits_at_the_vertical_middle() {
    let mut e = Emitter::new();
    let col = e.create_element(ElementTag::new(1));
    e.append(NodeId::root(), col);
    let t = e.create_text("ab");
    e.append(col, t);
    e.set_inline_style(t, p(WIDTH), "60");
    e.set_inline_style(t, p(HEIGHT), "32");
    e.set_inline_style(t, p(TEXT_DECORATION), "line-through");

    let dom = dom_from(e);
    let (scene, lay) = layout(&dom, Size { w: 100.0, h: 60.0 });
    let t_rect = lay.rects.iter().find(|(id, _)| *id == t).unwrap().1;
    let deco_rect = scene
        .items
        .iter()
        .find_map(|i| match i {
            DisplayItem::Rect { rect, .. } => Some(*rect),
            _ => None,
        })
        .expect("a line-through Rect");
    assert_eq!(deco_rect.size.h, 2.0, "thickness max(1, 32/16) = 2");
    assert_eq!(
        deco_rect.origin.y,
        t_rect.origin.y + (32.0 - 2.0) / 2.0,
        "line-through sits at the vertical middle"
    );
}

#[test]
fn text_decoration_none_emits_no_line() {
    let mut e = Emitter::new();
    let col = e.create_element(ElementTag::new(1));
    e.append(NodeId::root(), col);
    let t = e.create_text("ab");
    e.append(col, t);
    e.set_inline_style(t, p(HEIGHT), "16");
    e.set_inline_style(t, p(TEXT_DECORATION), "none");

    let dom = dom_from(e);
    let (scene, _) = layout(&dom, Size { w: 100.0, h: 50.0 });
    let rects = scene
        .items
        .iter()
        .filter(|i| matches!(i, DisplayItem::Rect { .. }))
        .count();
    assert_eq!(rects, 0, "text-decoration: none draws no line");
}

#[test]
fn outline_emits_an_inflated_border_last() {
    let mut e = Emitter::new();
    let card = e.create_element(ElementTag::new(1));
    e.append(NodeId::root(), card);
    e.set_inline_style(card, p(WIDTH), "40");
    e.set_inline_style(card, p(HEIGHT), "40");
    e.set_inline_style(card, p(RADIUS), "5");
    e.set_inline_style(card, p(BG), "#202020");
    e.set_inline_style(card, p(OUTLINE_WIDTH), "2");
    e.set_inline_style(card, p(OUTLINE_COLOR), "#89b4fa");
    e.set_inline_style(card, p(OUTLINE_OFFSET), "3");

    let dom = dom_from(e);
    let (scene, lay) = layout(&dom, Size { w: 100.0, h: 100.0 });
    let card_rect = lay.rects.iter().find(|(id, _)| *id == card).unwrap().1;

    let (rect, color, width, radius) = scene
        .items
        .iter()
        .find_map(|i| match i {
            DisplayItem::Border {
                rect,
                color,
                width,
                radius,
            } => Some((*rect, *color, *width, *radius)),
            _ => None,
        })
        .expect("an outline Border item");
    assert_eq!(width, 2.0, "outline width rides onto the Border");
    assert_eq!(radius, 5.0, "outline uses the node's corner radius");
    assert_eq!(
        color,
        Color {
            r: 0x89,
            g: 0xb4,
            b: 0xfa,
            a: 255
        }
    );
    assert_eq!(
        rect.origin,
        Point {
            x: card_rect.origin.x - 3.0,
            y: card_rect.origin.y - 3.0,
        },
        "the outline rect is inflated outward by the offset"
    );
    assert_eq!(
        rect.size,
        Size {
            w: card_rect.size.w + 6.0,
            h: card_rect.size.h + 6.0,
        },
        "inflated by the offset on both sides of each axis"
    );

    let bg_idx = scene
        .items
        .iter()
        .position(|i| matches!(i, DisplayItem::Rect { .. }))
        .unwrap();
    let outline_idx = scene
        .items
        .iter()
        .position(|i| matches!(i, DisplayItem::Border { .. }))
        .unwrap();
    assert!(bg_idx < outline_idx, "the outline paints on top of the box");
}

#[test]
fn zero_outline_width_emits_no_border() {
    let mut e = Emitter::new();
    let card = e.create_element(ElementTag::new(1));
    e.append(NodeId::root(), card);
    e.set_inline_style(card, p(WIDTH), "40");
    e.set_inline_style(card, p(HEIGHT), "40");
    e.set_inline_style(card, p(OUTLINE_WIDTH), "0");
    e.set_inline_style(card, p(OUTLINE_COLOR), "#ffffff");

    let dom = dom_from(e);
    let (scene, _) = layout(&dom, Size { w: 100.0, h: 100.0 });
    let borders = scene
        .items
        .iter()
        .filter(|i| matches!(i, DisplayItem::Border { .. }))
        .count();
    assert_eq!(borders, 0, "zero outline width draws no frame");
}

#[test]
fn full_node_paint_order_is_shadow_bg_gradient_border_outline() {
    let mut e = Emitter::new();
    let card = e.create_element(ElementTag::new(1));
    e.append(NodeId::root(), card);
    e.set_inline_style(card, p(WIDTH), "40");
    e.set_inline_style(card, p(HEIGHT), "40");
    e.set_inline_style(card, p(BG), "#101010");
    e.set_inline_style(card, p(BOX_SHADOW), "2 2 4 #00000080");
    e.set_inline_style(
        card,
        p(BACKGROUND_IMAGE),
        "linear-gradient(0, #ff0000, #0000ff)",
    );
    e.set_inline_style(card, p(BORDER_WIDTH), "2");
    e.set_inline_style(card, p(BORDER_COLOR), "#ffffff");
    e.set_inline_style(card, p(OUTLINE_WIDTH), "1");
    e.set_inline_style(card, p(OUTLINE_COLOR), "#00ff00");

    let dom = dom_from(e);
    let (scene, _) = layout(&dom, Size { w: 100.0, h: 100.0 });

    let shadow = scene
        .items
        .iter()
        .position(|i| matches!(i, DisplayItem::Shadow { .. }))
        .unwrap();
    let bg = scene
        .items
        .iter()
        .position(|i| matches!(i, DisplayItem::Rect { .. }))
        .unwrap();
    let gradient = scene
        .items
        .iter()
        .position(|i| matches!(i, DisplayItem::Gradient { .. }))
        .unwrap();
    let first_border = scene
        .items
        .iter()
        .position(|i| matches!(i, DisplayItem::Border { .. }))
        .unwrap();
    let last_border = scene
        .items
        .iter()
        .rposition(|i| matches!(i, DisplayItem::Border { .. }))
        .unwrap();
    assert!(
        shadow < bg && bg < gradient && gradient < first_border && first_border < last_border,
        "paint order: shadow < bg < gradient < border < outline (got {shadow}, {bg}, {gradient}, {first_border}, {last_border})"
    );
}

#[test]
fn gradient_and_shadow_fade_with_opacity() {
    let mut e = Emitter::new();
    let card = e.create_element(ElementTag::new(1));
    e.append(NodeId::root(), card);
    e.set_inline_style(card, p(WIDTH), "40");
    e.set_inline_style(card, p(HEIGHT), "40");
    e.set_inline_style(card, p(OPACITY), "0.5");
    e.set_inline_style(card, p(BOX_SHADOW), "2 2 4 #000000");
    e.set_inline_style(card, p(BACKGROUND_IMAGE), "linear-gradient(180, #ffffff)");

    let dom = dom_from(e);
    let (scene, _) = layout(&dom, Size { w: 100.0, h: 100.0 });
    let shadow_a = scene
        .items
        .iter()
        .find_map(|i| match i {
            DisplayItem::Shadow { color, .. } => Some(color.a),
            _ => None,
        })
        .expect("a Shadow item");
    assert_eq!(shadow_a, 128, "the shadow alpha is scaled by opacity 0.5");
    let stop_a = scene
        .items
        .iter()
        .find_map(|i| match i {
            DisplayItem::Gradient { stops, .. } => Some(stops.as_slice()[0].color.a),
            _ => None,
        })
        .expect("a Gradient item");
    assert_eq!(
        stop_a, 128,
        "the gradient stop alpha is scaled by opacity 0.5"
    );
}

#[test]
fn negative_outline_offset_pulls_the_outline_inward() {
    let mut e = Emitter::new();
    let card = e.create_element(ElementTag::new(1));
    e.append(NodeId::root(), card);
    e.set_inline_style(card, p(WIDTH), "40");
    e.set_inline_style(card, p(HEIGHT), "40");
    e.set_inline_style(card, p(OUTLINE_WIDTH), "2");
    e.set_inline_style(card, p(OUTLINE_COLOR), "#ffffff");
    e.set_inline_style(card, p(OUTLINE_OFFSET), "-4");

    let dom = dom_from(e);
    let (scene, lay) = layout(&dom, Size { w: 100.0, h: 100.0 });
    let card_rect = lay.rects.iter().find(|(id, _)| *id == card).unwrap().1;
    let rect = scene
        .items
        .iter()
        .find_map(|i| match i {
            DisplayItem::Border { rect, .. } => Some(*rect),
            _ => None,
        })
        .expect("an outline Border");
    assert_eq!(
        rect.origin,
        Point {
            x: card_rect.origin.x + 4.0,
            y: card_rect.origin.y + 4.0,
        },
        "a negative offset pulls the outline inward"
    );
    assert_eq!(
        rect.size,
        Size { w: 32.0, h: 32.0 },
        "deflated by 4 on each side"
    );
}

#[test]
fn clipped_descendants_are_masked_one_by_one() {
    let mut e = Emitter::new();
    let outer = e.create_element(ElementTag::new(1));
    e.append(NodeId::root(), outer);
    e.set_inline_style(outer, p(WIDTH), "40");
    e.set_inline_style(outer, p(HEIGHT), "40");
    e.set_inline_style(outer, p(RADIUS), "4");
    e.set_inline_style(outer, p(BG), "#101010");
    e.set_inline_style(outer, p(OVERFLOW), "hidden");
    let inner = e.create_element(ElementTag::new(2));
    e.append(outer, inner);
    e.set_inline_style(inner, p(WIDTH), "80");
    e.set_inline_style(inner, p(HEIGHT), "80");
    e.set_inline_style(inner, p(BG), "#ffffff");
    let dom = dom_from(e);
    let (scene, lay) = layout(&dom, Size { w: 100.0, h: 100.0 });
    let outer_rect = lay.rects.iter().find(|(id, _)| *id == outer).unwrap().1;
    assert_eq!(scene.items.len(), 4);
    assert!(matches!(&scene.items[0], DisplayItem::Rect { color, .. } if color.r == 0x10));
    assert_eq!(scene.items[1], DisplayItem::PushClip { rect: outer_rect, radius: 4.0 });
    assert!(matches!(&scene.items[2], DisplayItem::Rect { color, .. } if color.r == 0xff));
    assert_eq!(scene.items[3], DisplayItem::PopClip);
}

#[test]
fn top_level_nodes_stack_down_the_viewport() {
    let mut e = Emitter::new();
    let a = e.create_element(ElementTag::new(1));
    e.append(NodeId::root(), a);
    e.set_inline_style(a, p(HEIGHT), "30");
    let b = e.create_element(ElementTag::new(1));
    e.append(NodeId::root(), b);
    e.set_inline_style(b, p(HEIGHT), "20");
    let dom = dom_from(e);
    let (_, lay) = layout(&dom, Size { w: 100.0, h: 100.0 });
    assert_eq!(lay.rects[0].1.origin, Point { x: 0.0, y: 0.0 });
    assert_eq!(lay.rects[1].1.origin, Point { x: 0.0, y: 30.0 });
}

#[test]
fn a_plan_asks_the_engine_for_what_the_styles_say() {
    let mut e = Emitter::new();
    let row = e.create_element(ElementTag::new(1));
    e.append(NodeId::root(), row);
    e.set_inline_style(row, p(DIRECTION), "row");
    e.set_inline_style(row, p(PADDING), "25%");
    e.set_inline_style(row, p(MARGIN), "auto");
    e.set_inline_style(row, p(WIDTH), "50%");
    e.set_inline_style(row, p(JUSTIFY), "space-between");
    let t = e.create_text("abc");
    e.append(row, t);
    let dom = dom_from(e);
    let plans = plan(&dom, Size { w: Px(200.0), h: Px(100.0) });
    assert_eq!(plans.len(), 1);
    assert_eq!(plans[0].id, row);
    match &plans[0].style {
        BoxStyle::Element(s) => {
            assert_eq!(s.direction, Direction::Row);
            assert_eq!(s.padding.left, Dimension::Percent(Px(0.25)));
            assert_eq!(s.margin.top, Dimension::Auto);
            assert_eq!(s.inset.top, Dimension::Auto);
            assert_eq!(s.size.width, Dimension::Length(Px(100.0)));
            assert_eq!(s.size.height, Dimension::Auto);
            assert_eq!(s.justify_content, Some(Justify::SpaceBetween));
            assert_eq!(s.align_items, None);
            assert_eq!((s.grow, s.shrink), (Px(0.0), Px(1.0)));
        }
        BoxStyle::Text(_) => panic!("expected an element"),
    }
    assert_eq!(plans[0].children.len(), 1);
    assert_eq!(plans[0].children[0].style, BoxStyle::Text(Size { w: Px(48.0), h: Px(16.0) }));
}

fn green_panel_dom() -> Dom {
    let mut e = Emitter::new();
    let col = e.create_element(ElementTag::new(1));
    e.append(NodeId::root(), col);
    e.set_inline_style(col, p(BG), "#a6e3a1");
    e.set_inline_style(col, p(WIDTH), "120");
    e.set_inline_style(col, p(HEIGHT), "60");
    let label = e.create_text("plugin");
    e.append(col, label);
    dom_from(e)
}

/// Draw the boxes of a panel's scene into a buffer of its own.
fn render_panel_to_buffer(size: Size<f32>, clear: Color, dom: &Dom) -> Buffer {
    let (w, h) = panel_size(Size { w: Px(size.w), h: Px(size.h) });
    let mut buffer = Buffer::filled(w as usize, h as usize, clear);
    let (scene, _) = layout(dom, size);
    for item in &scene.items {
        if let DisplayItem::Rect { rect, color, .. } = item {
            for y in 0..buffer.height() {
                for x in 0..buffer.width() {
                    let (px, py) = (x as f32 - rect.origin.x, y as f32 - rect.origin.y);
                    if px >= 0.0 && px < rect.size.w && py >= 0.0 && py < rect.size.h {
                        buffer.set_pixel(x, y, *color);
                    }
                }
            }
        }
    }
    buffer
}

fn render_panel(target: &mut Buffer, region: Rect<f32>, dom: &Dom) {
    let clear = Color { r: 0, g: 0, b: 0, a: 0 };
    let panel = render_panel_to_buffer(region.size, clear, dom);
    let region = Rect {
        origin: Point { x: Px(region.origin.x), y: Px(region.origin.y) },
        size: Size { w: Px(region.size.w), h: Px(region.size.h) },
    };
    composite(target, region, &panel);
}

#[test]
fn composites_plugin_into_region_and_clips_outside() {
    let green = Color { r: 0xa6, g: 0xe3, b: 0xa1, a: 255 };
    let black = Color { r: 0, g: 0, b: 0, a: 255 };

    let mut host = Buffer::filled(200, 120, black);

    let plugin = green_panel_dom();
    let region = Rect {
        origin: Point { x: 40.0, y: 30.0 },
        size: Size { w: 120.0, h: 60.0 },
    };
    render_panel(&mut host, region, &plugin);

    assert_eq!(
        host.pixel(100, 70),
        green,
        "inside the region must be the plugin's green background",
    );
    assert_eq!(host.pixel(10, 10), black, "outside the region must be untouched host black");
    assert_eq!(host.pixel(170, 60), black, "to the right of the panel must be untouched host black");
    assert_eq!(host.pixel(40, 30), green);
    assert_eq!(host.pixel(39, 30), black);
    assert_eq!(host.pixel(159, 89), green);
    assert_eq!(host.pixel(160, 89), black);
}

#[test]
fn standalone_buffer_has_panel_background() {
    let plugin = green_panel_dom();
    let clear = Color { r: 0, g: 0, b: 0, a: 0 };
    let buf = render_panel_to_buffer(Size { w: 120.0, h: 60.0 }, clear, &plugin);
    assert_eq!(buf.width(), 120);
    assert_eq!(buf.height(), 60);
    assert_eq!(buf.pixel(60, 40), Color { r: 0xa6, g: 0xe3, b: 0xa1, a: 255 });
}

#[test]
fn plugin_coordinates_are_local_to_the_panel() {
    let plugin = green_panel_dom();
    let (_scene, lay) = layout(&plugin, Size { w: 120.0, h: 60.0 });
    let col_rect = lay.rects.first().expect("a laid-out node").1;
    assert_eq!(
        col_rect.origin,
        Point { x: 0.0, y: 0.0 },
        "the plugin's root is local to its own viewport",
    );
}

#[test]
fn panels_are_cropped_at_every_edge() {
    let green = Color { r: 0xa6, g: 0xe3, b: 0xa1, a: 255 };
    let black = Color { r: 0, g: 0, b: 0, a: 255 };
    let panel = Buffer::filled(4, 4, green);
    let mut target = Buffer::filled(6, 6, black);
    copy_into(&mut target, &panel, 4, 5);
    assert_eq!(target.pixel(4, 5), green);
    assert_eq!(target.pixel(5, 5), green);
    assert_eq!(target.pixel(3, 5), black);
    assert_eq!(target.pixel(4, 4), black);

    let mut target = Buffer::filled(6, 6, black);
    let region = Rect {
        origin: Point { x: Px(-3.0), y: Px(1.5) },
        size: Size { w: Px(4.0), h: Px(4.0) },
    };
    composite(&mut target, region, &panel);
    assert_eq!(target.pixel(0, 1), green);
    assert_eq!(target.pixel(0, 4), green);
    assert_eq!(target.pixel(1, 1), black);
    assert_eq!(target.pixel(0, 5), black);
    assert_eq!(target.pixel(0, 0), black);
    assert_eq!(panel_size(Size { w: Px(-1.0), h: Px(2.9) }), (0, 2));

    let blank = Buffer::new(2, 1);
    assert_eq!(blank.pixel(1, 0), Color { r: 0, g: 0, b: 0, a: 0 });
}

#[test]
fn a_panel_that_begins_outside_the_frame_stays_in_its_region() {
    let green = Color { r: 0xa6, g: 0xe3, b: 0xa1, a: 255 };
    let black = Color { r: 0, g: 0, b: 0, a: 255 };
    let mut e = Emitter::new();
    let el = e.create_element(ElementTag::new(1));
    e.append(NodeId::root(), el);
    e.set_inline_style(el, p(BG), "#a6e3a1");
    e.set_inline_style(el, p(WIDTH), "3");
    e.set_inline_style(el, p(HEIGHT), "1");
    let plugin = dom_from(e);
    let mut target = Buffer::filled(4, 1, black);
    let region = Rect { origin: Point { x: -2.0, y: 0.0 }, size: Size { w: 3.0, h: 1.0 } };
    render_panel(&mut target, region, &plugin);
    assert_eq!(target.pixel(0, 0), green);
    for x in 1..4 {
        assert_eq!(target.pixel(x, 0), black);
    }
}

#[test]
fn the_first_pixels_of_a_panel_are_those_left_out() {
    let mut panel = Buffer::new(3, 2);
    for y in 0..2 {
        for x in 0..3 {
            panel.set_pixel(x, y, Color { r: x as u8, g: y as u8, b: 7, a: 255 });
        }
    }
    let black = Color { r: 0, g: 0, b: 0, a: 255 };
    let mut target = Buffer::filled(3, 3, black);
    let region = Rect {
        origin: Point { x: Whole(-1), y: Whole(-1) },
        size: Size { w: Whole(2), h: Whole(9) },
    };
    composite(&mut target, region, &panel);
    assert_eq!(target.pixel(0, 0), Color { r: 1, g: 1, b: 7, a: 255 });
    assert_eq!(target.pixel(1, 0), black, "the region is two pixels wide");
    assert_eq!(target.pixel(0, 1), black, "the panel has two rows");

    let mut target = Buffer::filled(3, 3, black);
    let far = Rect {
        origin: Point { x: Whole(-5), y: Whole(0) },
        size: Size { w: Whole(3), h: Whole(2) },
    };
    composite(&mut target, far, &panel);
    assert_eq!(target, Buffer::filled(3, 3, black));
}
