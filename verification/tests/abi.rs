//! The embedding interface: batches in, styles, scenes and events out.
use canopy::a11y::CLICK;
use canopy::abi::{
    check_copy, check_frame, check_input, check_output, check_poll, check_render, error_code, live_nodes,
    CanopyHost,
    CANOPY_ERR_BAD_HANDLE, CANOPY_ERR_DECODE, CANOPY_ERR_NULL_DATA, CANOPY_ERR_NULL_HOST,
    CANOPY_ERR_TOO_LARGE, CANOPY_ERR_UNSUPPORTED, CANOPY_OK, MAX_BATCH_BYTES, MAX_EVENT_BATCH_BYTES,
    MAX_PENDING_EVENTS, MAX_RENDER_DIM,
};
use canopy::cascade::{
    ancestor_chain, element_type_name, hover_path, match_requests, Declaration, MatchRequest, NodeIdentity,
    CHECKED_ATTR, DISABLED_ATTR,
};
use canopy::dom::Dom;
use canopy::emitter::Emitter;
use canopy::flex::{assemble, plan, BoxStyle, PlacedBox, PlanNode};
use canopy::geometry::{
    Color, DisplayItem, DisplayList, GradientDirection, GradientStop, LayoutResult, Point, Rect, Size,
};
use canopy::handles::{AttrId, ElementTag, EventKind, HandlerId, NodeId, PropId};
use canopy::paint::Direction;
use canopy::props::{
    BACKGROUND_IMAGE, BG, BORDER_COLOR, BORDER_WIDTH, FG, HEIGHT, MARGIN, OVERFLOW, PADDING_BOTTOM,
    PADDING_LEFT, PADDING_RIGHT, PADDING_TOP, WIDTH,
};
use canopy::protocol::{decode_all, EventPayload, Op, F32};
use canopy::scalar::Scalar;
use canopy::style::{Align, Axes, BoxSizing, Dimension, Display, Edges, FlexWrap, Justify, Position};
use canopy::tree::HostError;

#[derive(Clone, Copy, PartialEq, Debug)]
struct Px(f32);

impl Scalar for Px {
    fn whole(n: u64) -> Px {
        Px(n as f32)
    }
    fn ratio(n: u32, d: u32) -> Px {
        Px(n as f32 / d as f32)
    }
    fn plus(self, other: Px) -> Px {
        Px(self.0 + other.0)
    }
    fn minus(self, other: Px) -> Px {
        Px(self.0 - other.0)
    }
    fn times(self, other: Px) -> Px {
        Px(self.0 * other.0)
    }
    fn over(self, other: Px) -> Px {
        Px(self.0 / other.0)
    }
    fn less(self, other: Px) -> bool {
        self.0 < other.0
    }
    fn at_most(self, other: Px) -> bool {
        self.0 <= other.0
    }
    fn larger(self, other: Px) -> Px {
        Px(self.0.max(other.0))
    }
    fn to_u32(self) -> u32 {
        self.0 as u32
    }
    fn to_i32(self) -> i32 {
        self.0 as i32
    }
    fn wrap(self, period: Px) -> Px {
        let mut x = self.0;
        while x >= period.0 {
            x -= period.0;
        }
        Px(x)
    }
    fn parse(s: &str) -> Option<Px> {
        s.parse::<f32>().ok().map(Px)
    }
}

/// Items in plain floats, to compare with.
fn plain(item: &DisplayItem<Px>) -> DisplayItem<f32> {
    match item {
        DisplayItem::Rect { rect, color, radius } => {
            DisplayItem::Rect { rect: plain_rect(rect), color: *color, radius: radius.0 }
        }
        DisplayItem::Glyphs { color, .. } => DisplayItem::Glyphs { glyphs: vec![], color: *color },
        DisplayItem::Text { origin, text, color, size, box_w, align } => DisplayItem::Text {
            origin: plain_point(origin),
            text: text.clone(),
            color: *color,
            size: size.0,
            box_w: box_w.0,
            align: align.0,
        },
        DisplayItem::Border { rect, color, width, radius } => DisplayItem::Border {
            rect: plain_rect(rect),
            color: *color,
            width: width.0,
            radius: radius.0,
        },
        DisplayItem::Gradient { rect, stops, direction } => DisplayItem::Gradient {
            rect: plain_rect(rect),
            stops: stops
                .iter()
                .map(|s| GradientStop { color: s.color, position: s.position.0 })
                .collect(),
            direction: *direction,
        },
        DisplayItem::Shadow { rect, color, blur, offset } => DisplayItem::Shadow {
            rect: plain_rect(rect),
            color: *color,
            blur: blur.0,
            offset: plain_point(offset),
        },
        DisplayItem::PushClip { rect, radius } => {
            DisplayItem::PushClip { rect: plain_rect(rect), radius: radius.0 }
        }
        DisplayItem::PopClip => DisplayItem::PopClip,
    }
}

fn plain_point(p: &Point<Px>) -> Point<f32> {
    Point { x: p.x.0, y: p.y.0 }
}

fn plain_rect(r: &Rect<Px>) -> Rect<f32> {
    Rect { origin: plain_point(&r.origin), size: Size { w: r.size.w.0, h: r.size.h.0 } }
}

fn dimension(d: Dimension<Px>) -> taffy::style::Dimension {
    match d {
        Dimension::Auto => taffy::style::Dimension::auto(),
        Dimension::Percent(p) => taffy::style::Dimension::percent(p.0),
        Dimension::Length(l) => taffy::style::Dimension::length(l.0),
    }
}

fn edge(d: Dimension<Px>) -> taffy::style::LengthPercentageAuto {
    match d {
        Dimension::Auto => taffy::style::LengthPercentageAuto::auto(),
        Dimension::Percent(p) => taffy::style::LengthPercentageAuto::percent(p.0),
        Dimension::Length(l) => taffy::style::LengthPercentageAuto::length(l.0),
    }
}

fn inner_edge(d: Dimension<Px>) -> taffy::style::LengthPercentage {
    match d {
        Dimension::Auto => taffy::style::LengthPercentage::length(0.0),
        Dimension::Percent(p) => taffy::style::LengthPercentage::percent(p.0),
        Dimension::Length(l) => taffy::style::LengthPercentage::length(l.0),
    }
}

fn align(a: Align) -> taffy::style::AlignItems {
    match a {
        Align::Start => taffy::style::AlignItems::FLEX_START,
        Align::Center => taffy::style::AlignItems::CENTER,
        Align::End => taffy::style::AlignItems::FLEX_END,
        Align::Stretch => taffy::style::AlignItems::STRETCH,
    }
}

fn justify(j: Justify) -> taffy::style::JustifyContent {
    match j {
        Justify::Start => taffy::style::JustifyContent::FLEX_START,
        Justify::Center => taffy::style::JustifyContent::CENTER,
        Justify::End => taffy::style::JustifyContent::FLEX_END,
        Justify::SpaceBetween => taffy::style::JustifyContent::SPACE_BETWEEN,
        Justify::SpaceAround => taffy::style::JustifyContent::SPACE_AROUND,
        Justify::SpaceEvenly => taffy::style::JustifyContent::SPACE_EVENLY,
    }
}

fn edges<T, U>(e: &Edges<T>, f: fn(T) -> U) -> taffy::geometry::Rect<U>
where
    T: Copy,
{
    taffy::geometry::Rect { left: f(e.left), right: f(e.right), top: f(e.top), bottom: f(e.bottom) }
}

fn axes<T, U>(a: &Axes<T>, f: fn(T) -> U) -> taffy::geometry::Size<U>
where
    T: Copy,
{
    taffy::geometry::Size { width: f(a.width), height: f(a.height) }
}

fn engine_style(style: &BoxStyle<Px>) -> taffy::style::Style {
    let s = match style {
        BoxStyle::Text(size) => {
            return taffy::style::Style {
                size: taffy::geometry::Size {
                    width: taffy::style::Dimension::length(size.w.0),
                    height: taffy::style::Dimension::length(size.h.0),
                },
                ..Default::default()
            };
        }
        BoxStyle::Element(s) => s,
    };
    taffy::style::Style {
        display: match s.display {
            Display::Flex => taffy::style::Display::Flex,
            Display::Gone => taffy::style::Display::None,
        },
        position: match s.position {
            Position::Relative => taffy::style::Position::Relative,
            Position::Absolute => taffy::style::Position::Absolute,
        },
        box_sizing: match s.box_sizing {
            BoxSizing::BorderBox => taffy::style::BoxSizing::BorderBox,
            BoxSizing::ContentBox => taffy::style::BoxSizing::ContentBox,
        },
        flex_direction: match s.direction {
            Direction::Row => taffy::style::FlexDirection::Row,
            Direction::Column => taffy::style::FlexDirection::Column,
        },
        flex_wrap: match s.wrap {
            FlexWrap::NoWrap => taffy::style::FlexWrap::NoWrap,
            FlexWrap::Wrap => taffy::style::FlexWrap::Wrap,
            FlexWrap::WrapReverse => taffy::style::FlexWrap::WrapReverse,
        },
        align_items: s.align_items.map(align),
        align_self: s.align_self.map(align),
        justify_content: s.justify_content.map(justify),
        flex_grow: s.grow.0,
        flex_shrink: s.shrink.0,
        flex_basis: dimension(s.basis),
        aspect_ratio: s.aspect_ratio.map(|r| r.0),
        gap: axes(&s.gap, |g| taffy::style::LengthPercentage::length(g.0)),
        padding: edges(&s.padding, inner_edge),
        margin: edges(&s.margin, edge),
        border: edges(&s.border, |b| taffy::style::LengthPercentage::length(b.0)),
        inset: edges(&s.inset, edge),
        size: axes(&s.size, dimension),
        min_size: axes(&s.min_size, dimension),
        max_size: axes(&s.max_size, dimension),
        ..Default::default()
    }
}

fn grow_tree(tree: &mut taffy::TaffyTree<()>, node: &PlanNode<Px>) -> taffy::NodeId {
    let children: Vec<taffy::NodeId> = node.children.iter().map(|c| grow_tree(tree, c)).collect();
    let key = tree.new_leaf(engine_style(&node.style)).unwrap();
    if !children.is_empty() {
        tree.set_children(key, &children).unwrap();
    }
    key
}

fn read_tree(tree: &taffy::TaffyTree<()>, key: taffy::NodeId, node: &PlanNode<Px>) -> PlacedBox<Px> {
    let placed = tree.layout(key).unwrap();
    let keys = tree.children(key).unwrap();
    PlacedBox {
        id: node.id,
        location: Point { x: Px(placed.location.x), y: Px(placed.location.y) },
        size: Size { w: Px(placed.size.width), h: Px(placed.size.height) },
        children: keys.iter().zip(node.children.iter()).map(|(k, c)| read_tree(tree, *k, c)).collect(),
    }
}

fn place(dom: &Dom, viewport: Size<f32>) -> Vec<PlacedBox<Px>> {
    let plans = plan(dom, Size { w: Px(viewport.w), h: Px(viewport.h) });
    plans
        .iter()
        .map(|p| {
            let mut tree: taffy::TaffyTree<()> = taffy::TaffyTree::new();
            let key = grow_tree(&mut tree, p);
            tree.compute_layout(
                key,
                taffy::geometry::Size {
                    width: taffy::style::AvailableSpace::Definite(viewport.w),
                    height: taffy::style::AvailableSpace::Definite(viewport.h),
                },
            )
            .unwrap();
            read_tree(&tree, key, p)
        })
        .collect()
}

fn layout(dom: &Dom, viewport: Size<f32>) -> (DisplayList<f32>, LayoutResult<f32>) {
    let (scene, lay) = assemble(dom, &place(dom, viewport));
    (
        DisplayList { items: scene.items.iter().map(plain).collect() },
        LayoutResult { rects: lay.rects.iter().map(|(id, r)| (*id, plain_rect(r))).collect() },
    )
}

fn hit_test(lay: &LayoutResult<f32>, point: Point<f32>) -> Option<NodeId> {
    let px = |r: &Rect<f32>| Rect {
        origin: Point { x: Px(r.origin.x), y: Px(r.origin.y) },
        size: Size { w: Px(r.size.w), h: Px(r.size.h) },
    };
    let lay = LayoutResult { rects: lay.rects.iter().map(|(id, r)| (*id, px(r))).collect() };
    canopy::geometry::hit_test(&lay, Point { x: Px(point.x), y: Px(point.y) })
}

type Matches = Box<dyn Fn(&[MatchRequest], usize) -> bool>;

/// A rule of a stylesheet: what it matches and what it declares.
struct Rule {
    matches: Matches,
    declares: Vec<(u16, &'static str)>,
}

fn rule(
    declares: &[(u16, &'static str)],
    matches: impl Fn(&[MatchRequest], usize) -> bool + 'static,
) -> Rule {
    Rule { matches: Box::new(matches), declares: declares.to_vec() }
}

fn has_class(r: &MatchRequest, class: &str) -> bool {
    r.identity.classes.iter().any(|c| c == class)
}

fn has_name(r: &MatchRequest, name: &str) -> bool {
    r.identity.element_name.as_deref() == Some(name)
}

fn has_id(r: &MatchRequest, id: &str) -> bool {
    r.identity.id.as_deref() == Some(id)
}

fn attr<'a>(r: &'a MatchRequest, name: &str) -> Option<&'a str> {
    r.identity.attrs.iter().find(|(n, _)| n == name).map(|(_, v)| v.as_str())
}

fn class(name: &'static str, declares: &[(u16, &'static str)]) -> Rule {
    rule(declares, move |all, i| has_class(&all[i], name))
}

/// A host with a matcher for its stylesheet and an engine for its layout.
struct Screen {
    host: CanopyHost,
    rules: Vec<Rule>,
    viewport: Size<f32>,
}

impl Screen {
    fn new(e: &mut Emitter) -> Screen {
        let mut host = CanopyHost::new();
        assert_eq!(host.apply_bytes(&e.take_batch(0)), CANOPY_OK);
        Screen { host, rules: Vec::new(), viewport: Size { w: 0.0, h: 0.0 } }
    }

    fn set_stylesheet(&mut self, css: &str, rules: Vec<Rule>) {
        self.host.set_stylesheet(css);
        self.rules = rules;
    }

    fn set_viewport(&mut self, w: f32, h: f32) {
        self.viewport = Size { w, h };
        self.host.set_viewport(F32(w.to_bits()), F32(h.to_bits()));
    }

    fn answers(&self) -> Vec<Vec<Declaration>> {
        let requests = self.host.match_requests();
        (0..requests.len())
            .map(|i| {
                let mut found = Vec::new();
                for rule in &self.rules {
                    if requests[i].matchable && (rule.matches)(&requests, i) {
                        for (prop, value) in &rule.declares {
                            let prop = PropId::new(*prop);
                            found.push(Declaration { prop, value: value.to_string() });
                        }
                    }
                }
                found
            })
            .collect()
    }

    fn styled_dom(&self) -> Option<Dom> {
        self.host.styled_dom(&self.answers())
    }

    fn style(&self, node: NodeId, prop: u16) -> Option<String> {
        let styled = self.styled_dom().expect("a stylesheet is set");
        styled.style(node, PropId::new(prop)).map(str::to_string)
    }

    fn scene(&self, viewport: Size<f32>) -> (DisplayList<f32>, LayoutResult<f32>) {
        match self.styled_dom() {
            Some(styled) => layout(&styled, viewport),
            None => layout(self.host.dom(), viewport),
        }
    }

    fn hit(&self, x: f32, y: f32) -> Option<NodeId> {
        let (_, lay) = self.scene(self.viewport);
        hit_test(&lay, Point { x, y })
    }

    fn set_hover(&mut self, x: f32, y: f32) -> bool {
        let hit = self.hit(x, y);
        self.host.set_hover(hit)
    }

    fn pointer_event(&mut self, x: f32, y: f32, button: u8, event: u16) -> i32 {
        let hit = self.hit(x, y);
        self.host.pointer_event(hit, F32(x.to_bits()), F32(y.to_bits()), button, event)
    }

    fn render(&self, w: usize, h: usize) -> Vec<Color> {
        let (scene, _) = self.scene(Size { w: w as f32, h: h as f32 });
        let mut pixels = vec![Color { r: 0x1e, g: 0x1e, b: 0x2e, a: 255 }; w * h];
        let mut clips: Vec<Rect<f32>> = Vec::new();
        for item in &scene.items {
            let (rect, color): (Rect<f32>, Box<dyn Fn(f32) -> Color>) = match item {
                DisplayItem::Rect { rect, color, .. } => {
                    let color = *color;
                    (*rect, Box::new(move |_| color))
                }
                DisplayItem::Gradient { rect, stops, direction } => {
                    assert_eq!(*direction, GradientDirection::Vertical);
                    let (a, b) = (stops[0].color, stops[1].color);
                    let mix = |p: u8, q: u8, t: f32| (p as f32 * (1.0 - t) + q as f32 * t) as u8;
                    (
                        *rect,
                        Box::new(move |t| Color {
                            r: mix(a.r, b.r, t),
                            g: mix(a.g, b.g, t),
                            b: mix(a.b, b.b, t),
                            a: 255,
                        }),
                    )
                }
                DisplayItem::PushClip { rect, .. } => {
                    clips.push(*rect);
                    continue;
                }
                DisplayItem::PopClip => {
                    clips.pop();
                    continue;
                }
                _ => continue,
            };
            for y in 0..h {
                for x in 0..w {
                    let inside = |r: &Rect<f32>| {
                        let (dx, dy) = (x as f32 - r.origin.x, y as f32 - r.origin.y);
                        dx >= 0.0 && dy >= 0.0 && dx < r.size.w && dy < r.size.h
                    };
                    if inside(&rect) && clips.iter().all(inside) {
                        let t = (y as f32 - rect.origin.y) / rect.size.h;
                        pixels[y * w + x] = color(t);
                    }
                }
            }
        }
        pixels
    }
}

fn is_red(c: Color) -> bool {
    c.r > 200 && c.g < 80 && c.b < 80
}

fn is_blue(c: Color) -> bool {
    c.r < 80 && c.g < 80 && c.b > 200
}

fn root() -> NodeId {
    NodeId::root()
}

fn style(e: &mut Emitter, n: NodeId, prop: u16, value: &str) {
    e.set_inline_style(n, PropId::new(prop), value);
}

/// What the foreign interface does with a batch.
fn c_apply(host: Option<&mut CanopyHost>, data: Option<&[u8]>, len: usize) -> i32 {
    let code = check_input(host.is_none(), data.is_none(), len);
    match (host, data) {
        (Some(host), Some(data)) if code == CANOPY_OK => host.apply_bytes(&data[..len]),
        (Some(host), None) if code == CANOPY_OK => host.apply_bytes(&[]),
        _ => code,
    }
}

/// What the foreign interface does to hand out bytes.
fn c_copy(bytes: &[u8], out: Option<&mut [u8]>) -> (i32, usize) {
    let cap = match &out {
        Some(out) => out.len(),
        None => 0,
    };
    let code = check_copy(bytes.len(), cap, out.is_none());
    if code == CANOPY_OK {
        if let Some(out) = out {
            out[..bytes.len()].copy_from_slice(bytes);
        }
    }
    (code, bytes.len())
}

fn mounted_batch() -> Vec<u8> {
    let mut e = Emitter::new();
    let col = e.create_element(ElementTag::new(1));
    e.append(root(), col);
    let label = e.create_text("hello");
    e.append(col, label);
    e.take_batch(0)
}

#[test]
fn render_rgba_rasterizes_a_styled_tree() {
    let mut e = Emitter::new();
    let card = e.create_element(ElementTag::new(1));
    e.append(root(), card);
    style(&mut e, card, WIDTH, "80");
    style(&mut e, card, HEIGHT, "40");
    style(&mut e, card, BG, "#ff0000");
    let screen = Screen::new(&mut e);
    let pixels = screen.render(100, 60);
    assert_eq!(check_frame(100, 60), Ok(100 * 60 * 4));
    assert_eq!(pixels.len() * 4, 100 * 60 * 4, "RGBA8, w*h*4");
    let card = pixels[10 * 100 + 10];
    assert!(is_red(card) && card.a == 255, "card pixel is red");
    let corner = pixels[55 * 100 + 95];
    assert!(corner.r < 0x40 && corner.g < 0x40 && corner.b < 0x60, "corner shows the clear color");
}

#[test]
fn render_rgba_extern_honors_the_needed_size_contract() {
    let (w, h) = (32u32, 16u32);
    let needed = check_frame(w, h).unwrap();
    assert_eq!(needed, (w as usize) * (h as usize) * 4);
    assert_eq!(check_output(false, false), CANOPY_OK);
    assert_eq!(check_render(false, false, w, h, 0, true), (CANOPY_ERR_TOO_LARGE, Some(needed)));
    assert_eq!(check_render(false, false, w, h, needed, false), (CANOPY_OK, Some(needed)));
    assert_eq!(check_render(true, false, w, h, needed, false), (CANOPY_ERR_NULL_HOST, None));
    assert_eq!(check_render(false, false, 0, h, needed, false), (CANOPY_ERR_TOO_LARGE, None));
    assert_eq!(check_copy(needed, 0, true), CANOPY_ERR_TOO_LARGE);
    assert_eq!(check_copy(needed, needed, false), CANOPY_OK);
    assert_eq!(check_copy(needed, needed, true), CANOPY_ERR_NULL_DATA);
    assert_eq!(check_frame(0, h), Err(CANOPY_ERR_TOO_LARGE));
    assert_eq!(check_frame(MAX_RENDER_DIM + 1, h), Err(CANOPY_ERR_TOO_LARGE));
    assert_eq!(check_frame(MAX_RENDER_DIM, MAX_RENDER_DIM), Ok(8192 * 8192 * 4));
}

#[test]
fn render_rgba_null_out_len_matches_the_sibling_needed_size_fns() {
    let snap_code = check_output(false, true);
    let poll_code = check_poll(false, true, true, 0);
    assert_eq!(snap_code, CANOPY_ERR_NULL_DATA, "debug_snapshot: null out_len");
    assert_eq!(poll_code, CANOPY_ERR_NULL_DATA, "poll_events: null out_len");
    let (render_code, needed) = check_render(false, true, 32, 16, 0, true);
    assert_eq!(
        render_code, snap_code,
        "render_rgba must report the same null-out-param code as its sibling needed-size fns"
    );
    assert_eq!(needed, None, "there is nowhere to report a size");
}

#[test]
fn cyclic_batch_is_rejected_and_the_host_stays_renderable() {
    let mut e = Emitter::new();
    let a = e.create_element(ElementTag::new(1));
    let b = e.create_element(ElementTag::new(1));
    e.append(root(), a);
    e.append(a, b);
    e.append(b, a);
    let batch = e.take_batch(0);

    let mut screen = Screen::new(&mut Emitter::new());
    assert_eq!(
        c_apply(Some(&mut screen.host), Some(&batch), batch.len()),
        CANOPY_ERR_BAD_HANDLE,
        "the cycle-forming op is rejected, not applied"
    );
    let rgba = screen.render(64, 48);
    assert_eq!(rgba.len(), 64 * 48, "render terminates and returns a full frame");
    screen.set_viewport(64.0, 48.0);
    let _ = screen.pointer_event(1.0, 1.0, 0, 1);
    assert_eq!(screen.host.node_count(), 2, "the acyclic prefix (A, B) is intact");
}

#[test]
fn a_class_stylesheet_styles_the_render_without_mutating_the_tree() {
    let mut e = Emitter::new();
    let card = e.create_element(ElementTag::new(1));
    e.append(root(), card);
    e.set_class(card, "card");
    let mut screen = Screen::new(&mut e);

    assert!(!screen.render(100, 60).into_iter().any(is_red), "no red before");

    screen.set_stylesheet(
        ".card { width: 80; height: 40; background: #ff0000 }",
        vec![class("card", &[(WIDTH, "80"), (HEIGHT, "40"), (BG, "#ff0000")])],
    );
    let styled = screen.render(100, 60);
    assert!(is_red(styled[10 * 100 + 10]), "the class-styled card paints red where it lays out");
    assert!(!is_red(styled[55 * 100 + 95]), "the clear shows outside the 80x40 card");

    assert_eq!(
        screen.host.debug_snapshot(),
        "el tag=1 class=card\n",
        "tree unchanged by the cascade"
    );

    screen.host.set_stylesheet("");
    assert!(screen.host.stylesheet().is_none());
    assert!(
        !screen.render(100, 60).into_iter().any(is_red),
        "clearing the stylesheet drops the class styling"
    );
}

#[test]
fn end_to_end_overflow_hidden_masks_an_overflowing_child() {
    let mut e = Emitter::new();
    let clip = e.create_element(ElementTag::new(1));
    e.append(root(), clip);
    e.set_attribute(clip, AttrId::new(AttrId::ID), "clip");
    let child = e.create_element(ElementTag::new(1));
    e.append(clip, child);
    e.set_class(child, "big");
    let mut screen = Screen::new(&mut e);
    screen.set_viewport(100.0, 100.0);
    screen.set_stylesheet(
        "#clip { width: 40; height: 40; overflow: hidden } \
         .big  { width: 100; height: 100; background: #ff0000 }",
        vec![
            rule(&[(WIDTH, "40"), (HEIGHT, "40"), (OVERFLOW, "hidden")], |all, i| {
                has_id(&all[i], "clip")
            }),
            class("big", &[(WIDTH, "100"), (HEIGHT, "100"), (BG, "#ff0000")]),
        ],
    );
    let pixels = screen.render(100, 100);
    assert!(is_red(pixels[20 * 100 + 20]), "child paints inside the 40x40 clip box");
    assert!(!is_red(pixels[60 * 100 + 60]), "child is masked outside the clip box");
}

#[test]
fn hover_restyles_the_node_under_the_pointer() {
    let mut e = Emitter::new();
    let btn = e.create_element(ElementTag::new(3));
    e.append(root(), btn);
    e.set_class(btn, "btn");
    let mut screen = Screen::new(&mut e);
    screen.set_viewport(100.0, 60.0);
    screen.set_stylesheet(
        ".btn { width: 100; height: 60; background: #0000ff } .btn:hover { background: #ff0000 }",
        vec![
            class("btn", &[(WIDTH, "100"), (HEIGHT, "60"), (BG, "#0000ff")]),
            rule(&[(BG, "#ff0000")], |all, i| has_class(&all[i], "btn") && all[i].hover),
        ],
    );
    let center = 30 * 100 + 50;
    assert!(is_blue(screen.render(100, 60)[center]), "base .btn is blue");
    assert!(screen.set_hover(50.0, 30.0), "set_hover reports the hovered node changed");
    assert!(is_red(screen.render(100, 60)[center]), ".btn:hover paints red");
    assert!(screen.set_hover(500.0, 500.0), "hover left the button");
    assert!(is_blue(screen.render(100, 60)[center]), "reverts to base blue");
    assert!(!screen.set_hover(500.0, 500.0), "no change reported when hover stays out");
}

fn host_with_btn(css: &str, rules: Vec<Rule>) -> (Screen, NodeId) {
    let mut e = Emitter::new();
    let btn = e.create_element(ElementTag::new(3));
    e.append(root(), btn);
    e.set_class(btn, "btn");
    let mut screen = Screen::new(&mut e);
    screen.set_stylesheet(css, rules);
    (screen, btn)
}

#[test]
fn focus_rule_applies_after_set_focus_and_reverts_after_clear() {
    let (mut screen, btn) = host_with_btn(
        ".btn { background: #313244 } .btn:focus { background: #89b4fa }",
        vec![
            class("btn", &[(BG, "#313244")]),
            rule(&[(BG, "#89b4fa")], |all, i| has_class(&all[i], "btn") && all[i].focus),
        ],
    );
    assert_eq!(screen.style(btn, BG).as_deref(), Some("#313244"));

    assert!(screen.host.set_focus(Some(btn)), "focus changed -> re-render");
    assert_eq!(
        screen.style(btn, BG).as_deref(),
        Some("#89b4fa"),
        ".btn:focus restyles the focused node"
    );
    assert!(!screen.host.set_focus(Some(btn)), "no change when focus is unchanged");

    assert!(screen.host.set_focus(None), "focus left the button -> re-render");
    assert_eq!(
        screen.style(btn, BG).as_deref(),
        Some("#313244"),
        "clearing focus reverts to the base background"
    );
}

#[test]
fn active_rule_applies_after_set_active_and_reverts() {
    let (mut screen, btn) = host_with_btn(
        ".btn { background: #313244 } .btn:active { background: #f38ba8 }",
        vec![
            class("btn", &[(BG, "#313244")]),
            rule(&[(BG, "#f38ba8")], |all, i| has_class(&all[i], "btn") && all[i].active),
        ],
    );
    assert!(screen.host.set_active(Some(btn)));
    assert_eq!(
        screen.style(btn, BG).as_deref(),
        Some("#f38ba8"),
        ".btn:active restyles the active node"
    );
    assert!(screen.host.set_active(None));
    assert_eq!(
        screen.style(btn, BG).as_deref(),
        Some("#313244"),
        "clearing active reverts to the base"
    );
}

#[test]
fn disabled_pseudo_matches_a_node_with_a_disabled_attribute_no_host_state() {
    let mut e = Emitter::new();
    let on = e.create_element(ElementTag::new(4));
    e.append(root(), on);
    let off = e.create_element(ElementTag::new(4));
    e.append(root(), off);
    e.set_attribute(off, AttrId::new(DISABLED_ATTR), "");
    let mut screen = Screen::new(&mut e);
    screen.set_stylesheet(
        "input:disabled { background: #585b70 }",
        vec![rule(&[(BG, "#585b70")], |all, i| {
            has_name(&all[i], "input") && attr(&all[i], "disabled").is_some()
        })],
    );
    assert_eq!(
        screen.style(off, BG).as_deref(),
        Some("#585b70"),
        "the input carrying a `disabled` attribute matches :disabled"
    );
    assert_eq!(
        screen.style(on, BG),
        None,
        "the input without the attribute does not match :disabled"
    );
}

#[test]
fn checked_pseudo_matches_a_node_with_a_checked_attribute() {
    let mut e = Emitter::new();
    let checked = e.create_element(ElementTag::new(4));
    e.append(root(), checked);
    e.set_attribute(checked, AttrId::new(CHECKED_ATTR), "true");
    let mut screen = Screen::new(&mut e);
    screen.set_stylesheet(
        "input:checked { color: #a6e3a1 }",
        vec![rule(&[(FG, "#a6e3a1")], |all, i| {
            has_name(&all[i], "input") && attr(&all[i], "checked") == Some("true")
        })],
    );
    assert_eq!(
        screen.style(checked, FG).as_deref(),
        Some("#a6e3a1"),
        ":checked matches a node carrying the `checked` attribute"
    );
}

#[test]
fn composed_hover_and_focus_requires_both_states() {
    let (mut screen, btn) = host_with_btn(
        ".btn { width: 100; height: 60; background: #313244 } \
         .btn:hover:focus { background: #a6e3a1 }",
        vec![
            class("btn", &[(WIDTH, "100"), (HEIGHT, "60"), (BG, "#313244")]),
            rule(&[(BG, "#a6e3a1")], |all, i| {
                has_class(&all[i], "btn") && all[i].hover && all[i].focus
            }),
        ],
    );
    screen.set_viewport(100.0, 60.0);

    screen.host.set_focus(Some(btn));
    assert_eq!(
        screen.style(btn, BG).as_deref(),
        Some("#313244"),
        "focus without hover does not satisfy :hover:focus"
    );
    assert!(screen.set_hover(50.0, 30.0), "the pointer entered the button");
    assert_eq!(
        screen.style(btn, BG).as_deref(),
        Some("#a6e3a1"),
        ":hover:focus fires once the button is both hovered AND focused"
    );
    assert!(screen.set_hover(500.0, 500.0), "the pointer left the button");
    assert_eq!(
        screen.style(btn, BG).as_deref(),
        Some("#313244"),
        "losing hover drops the composed rule, even with focus still set"
    );
}

#[test]
fn a_sheet_with_no_state_pseudos_is_unaffected_by_focus_active() {
    let (mut screen, btn) =
        host_with_btn(".btn { background: #313244 }", vec![class("btn", &[(BG, "#313244")])]);
    let base = screen.style(btn, BG);
    screen.host.set_focus(Some(btn));
    screen.host.set_active(Some(btn));
    let after = screen.style(btn, BG);
    assert_eq!(
        base.as_deref(),
        Some("#313244"),
        "the plain class rule resolves the base background"
    );
    assert_eq!(base, after, "focus/active leave a state-pseudo-free sheet unchanged");
}

#[test]
fn type_id_and_compound_selectors_resolve_through_styled_dom() {
    let mut e = Emitter::new();
    let div = e.create_element(ElementTag::new(1));
    e.append(root(), div);
    e.set_attribute(div, AttrId::new(AttrId::ID), "hero");
    e.set_class(div, "card");
    e.set_class(div, "primary");
    let btn = e.create_element(ElementTag::new(3));
    e.append(div, btn);
    let mut screen = Screen::new(&mut e);
    screen.set_stylesheet(
        "div { background: navy } \
         #hero { border-width: 2; border-color: #f80 } \
         .card.primary { margin: 8 } \
         button { background: rgb(10, 20, 30) }",
        vec![
            rule(&[(BG, "#000080")], |all, i| has_name(&all[i], "div")),
            rule(&[(BORDER_WIDTH, "2"), (BORDER_COLOR, "#ff8800")], |all, i| {
                has_id(&all[i], "hero")
            }),
            rule(&[(MARGIN, "8")], |all, i| {
                has_class(&all[i], "card") && has_class(&all[i], "primary")
            }),
            rule(&[(BG, "#0a141e")], |all, i| has_name(&all[i], "button")),
        ],
    );
    assert_eq!(screen.style(div, BG).as_deref(), Some("#000080"), "div type -> navy");
    assert_eq!(screen.style(div, BORDER_WIDTH).as_deref(), Some("2"), "#hero id -> border-width");
    assert_eq!(screen.style(div, BORDER_COLOR).as_deref(), Some("#ff8800"));
    assert_eq!(screen.style(div, MARGIN).as_deref(), Some("8"), "compound .card.primary -> margin");
    assert_eq!(screen.style(btn, BG).as_deref(), Some("#0a141e"), "button type");
}

#[test]
fn descendant_selector_styles_a_nested_node_not_a_sibling_at_the_wrong_depth() {
    let mut e = Emitter::new();
    let card = e.create_element(ElementTag::new(1));
    e.append(root(), card);
    e.set_class(card, "card");
    let inner = e.create_element(ElementTag::new(1));
    e.append(card, inner);
    e.set_class(inner, "inner");
    let nested_title = e.create_element(ElementTag::new(3));
    e.append(inner, nested_title);
    e.set_class(nested_title, "title");
    let outside_title = e.create_element(ElementTag::new(3));
    e.append(root(), outside_title);
    e.set_class(outside_title, "title");

    let mut screen = Screen::new(&mut e);
    screen.set_stylesheet(
        ".card .title { background: #abcdef }",
        vec![rule(&[(BG, "#abcdef")], |all, i| {
            has_class(&all[i], "title")
                && ancestor_chain(&all.iter().map(copy).collect(), i)
                    .into_iter()
                    .any(|k| has_class(&all[k], "card"))
        })],
    );
    assert_eq!(
        screen.style(nested_title, BG).as_deref(),
        Some("#abcdef"),
        "the .title nested under a .card is styled by the descendant selector"
    );
    assert_eq!(
        screen.style(outside_title, BG),
        None,
        "the .title with no .card ancestor is NOT styled"
    );
}

fn copy(r: &MatchRequest) -> MatchRequest {
    MatchRequest {
        node: r.node,
        parent: r.parent,
        identity: NodeIdentity {
            element_name: r.identity.element_name.clone(),
            id: r.identity.id.clone(),
            classes: r.identity.classes.clone(),
            attrs: r.identity.attrs.clone(),
        },
        sibling_index: r.sibling_index,
        sibling_count: r.sibling_count,
        child_count: r.child_count,
        hover: r.hover,
        focus: r.focus,
        active: r.active,
        matchable: r.matchable,
    }
}

#[test]
fn child_selector_requires_the_immediate_parent() {
    let mut e = Emitter::new();
    let outer = e.create_element(ElementTag::new(1));
    e.append(root(), outer);
    let direct = e.create_element(ElementTag::new(1));
    e.append(outer, direct);
    e.set_class(direct, "item");
    let row = e.create_element(ElementTag::new(2));
    e.append(outer, row);
    let deep = e.create_element(ElementTag::new(1));
    e.append(row, deep);
    e.set_class(deep, "item");

    let mut screen = Screen::new(&mut e);
    screen.set_stylesheet(
        "div > .item { background: #010203 }",
        vec![rule(&[(BG, "#010203")], |all, i| {
            has_class(&all[i], "item")
                && all[i].parent.map(|k| has_name(&all[k], "div")).unwrap_or(false)
        })],
    );
    assert_eq!(
        screen.style(direct, BG).as_deref(),
        Some("#010203"),
        "the .item that is a direct child of a div is styled"
    );
    assert_eq!(
        screen.style(deep, BG),
        None,
        "the .item whose immediate parent is a row is NOT styled by `div > .item`"
    );
}

#[test]
fn attribute_selector_styles_the_node_by_its_id_attr() {
    let mut e = Emitter::new();
    let hero = e.create_element(ElementTag::new(1));
    e.append(root(), hero);
    e.set_attribute(hero, AttrId::new(AttrId::ID), "hero");
    let other = e.create_element(ElementTag::new(1));
    e.append(root(), other);
    e.set_attribute(other, AttrId::new(AttrId::ID), "footer");

    let mut screen = Screen::new(&mut e);
    screen.set_stylesheet(
        "[id=\"hero\"] { background: #111111 } [id^=\"foot\"] { background: #222222 }",
        vec![
            rule(&[(BG, "#111111")], |all, i| attr(&all[i], "id") == Some("hero")),
            rule(&[(BG, "#222222")], |all, i| {
                attr(&all[i], "id").map(|v| v.starts_with("foot")).unwrap_or(false)
            }),
        ],
    );
    assert_eq!(
        screen.style(hero, BG).as_deref(),
        Some("#111111"),
        "[id=\"hero\"] exact attribute selector styles the hero node"
    );
    assert_eq!(
        screen.style(other, BG).as_deref(),
        Some("#222222"),
        "[id^=\"foot\"] prefix attribute selector styles the footer node"
    );
}

#[test]
fn end_to_end_two_value_padding_shorthand_offsets_a_child() {
    let mut e = Emitter::new();
    let outer = e.create_element(ElementTag::new(1));
    e.append(root(), outer);
    e.set_attribute(outer, AttrId::new(AttrId::ID), "box");
    let inner = e.create_element(ElementTag::new(1));
    e.append(outer, inner);
    e.set_class(inner, "inner");

    let mut screen = Screen::new(&mut e);
    screen.set_viewport(100.0, 100.0);
    screen.set_stylesheet(
        "#box { width: 100; height: 100; background: #000080; padding: 20 40 } \
         .inner { width: 20; height: 20; background: #ff0000 }",
        vec![
            rule(
                &[
                    (WIDTH, "100"),
                    (HEIGHT, "100"),
                    (BG, "#000080"),
                    (PADDING_TOP, "20"),
                    (PADDING_RIGHT, "40"),
                    (PADDING_BOTTOM, "20"),
                    (PADDING_LEFT, "40"),
                ],
                |all, i| has_id(&all[i], "box"),
            ),
            class("inner", &[(WIDTH, "20"), (HEIGHT, "20"), (BG, "#ff0000")]),
        ],
    );
    let pixels = screen.render(100, 100);
    let is_navy = |c: Color| c.r < 80 && c.g < 80 && c.b > 100;
    assert!(is_red(pixels[30 * 100 + 50]), "child sits at the asymmetric padding offset");
    assert!(is_navy(pixels[30 * 100 + 20]), "left padding band is the container");
    assert!(is_navy(pixels[8 * 100 + 50]), "top padding band is the container");
}

#[test]
fn end_to_end_linear_gradient_background_renders_a_ramp() {
    let mut e = Emitter::new();
    let bx = e.create_element(ElementTag::new(1));
    e.append(root(), bx);
    e.set_attribute(bx, AttrId::new(AttrId::ID), "g");
    let mut screen = Screen::new(&mut e);
    screen.set_viewport(100.0, 100.0);
    screen.set_stylesheet(
        "#g { width: 100; height: 100; background-image: linear-gradient(to bottom, red, blue) }",
        vec![rule(
            &[
                (WIDTH, "100"),
                (HEIGHT, "100"),
                (BACKGROUND_IMAGE, "linear-gradient(180, #ff0000, #0000ff)"),
            ],
            |all, i| has_id(&all[i], "g"),
        )],
    );
    let pixels = screen.render(100, 100);
    let (top, bottom) = (pixels[6 * 100 + 50], pixels[94 * 100 + 50]);
    assert!(top.r > top.b, "top of the ramp is red-dominant (R>B)");
    assert!(bottom.b > bottom.r, "bottom of the ramp is blue-dominant (B>R)");
    assert!(top.r > bottom.r, "red fades from top to bottom");
    assert!(bottom.b > top.b, "blue grows from top to bottom");
}

#[test]
fn an_inherited_prop_flows_from_parent_to_a_child_with_no_value() {
    let mut e = Emitter::new();
    let div = e.create_element(ElementTag::new(1));
    e.append(root(), div);
    e.set_class(div, "box");
    let label = e.create_text("hi");
    e.append(div, label);
    let mut screen = Screen::new(&mut e);
    screen.set_stylesheet(".box { color: #112233 }", vec![class("box", &[(FG, "#112233")])]);

    assert_eq!(
        screen.style(div, FG).as_deref(),
        Some("#112233"),
        "the div resolves color from its class rule"
    );
    assert_eq!(
        screen.style(label, FG).as_deref(),
        Some("#112233"),
        "the text child inherits the parent's color (it set none of its own)"
    );
}

#[test]
fn inheritance_works_from_an_inline_parent_color_too() {
    let mut e = Emitter::new();
    let div = e.create_element(ElementTag::new(1));
    e.append(root(), div);
    style(&mut e, div, FG, "#abcdef");
    let inner = e.create_element(ElementTag::new(1));
    e.append(div, inner);
    let mut screen = Screen::new(&mut e);
    screen.set_stylesheet(".noop { width: 1 }", vec![class("noop", &[(WIDTH, "1")])]);

    assert_eq!(
        screen.style(inner, FG).as_deref(),
        Some("#abcdef"),
        "the child inherits the parent's inline color"
    );
}

#[test]
fn a_child_rule_overrides_the_inherited_value() {
    let mut e = Emitter::new();
    let div = e.create_element(ElementTag::new(1));
    e.append(root(), div);
    e.set_class(div, "parent");
    let ruled = e.create_element(ElementTag::new(1));
    e.append(div, ruled);
    e.set_class(ruled, "child");
    let inlined = e.create_element(ElementTag::new(1));
    e.append(div, inlined);
    style(&mut e, inlined, FG, "#00ff00");
    let mut screen = Screen::new(&mut e);
    screen.set_stylesheet(
        ".parent { color: #111111 } .child { color: #222222 }",
        vec![class("parent", &[(FG, "#111111")]), class("child", &[(FG, "#222222")])],
    );

    assert_eq!(
        screen.style(ruled, FG).as_deref(),
        Some("#222222"),
        "a matched rule on the child beats the inherited parent color"
    );
    assert_eq!(
        screen.style(inlined, FG).as_deref(),
        Some("#00ff00"),
        "author inline on the child beats both the rule and inheritance"
    );
}

#[test]
fn a_non_inherited_prop_does_not_leak_to_a_child() {
    let mut e = Emitter::new();
    let div = e.create_element(ElementTag::new(1));
    e.append(root(), div);
    e.set_class(div, "parent");
    let child = e.create_element(ElementTag::new(1));
    e.append(div, child);
    let mut screen = Screen::new(&mut e);
    screen.set_stylesheet(
        ".parent { background: #ff0000; color: #00ff00 }",
        vec![class("parent", &[(BG, "#ff0000"), (FG, "#00ff00")])],
    );

    assert_eq!(
        screen.style(child, BG),
        None,
        "background does not inherit: the child has no bg of its own"
    );
    assert_eq!(
        screen.style(child, FG).as_deref(),
        Some("#00ff00"),
        "color does inherit, confirming the parent actually resolved styles"
    );
}

#[test]
fn inheritance_passes_through_multiple_levels() {
    let mut e = Emitter::new();
    let gp = e.create_element(ElementTag::new(1));
    e.append(root(), gp);
    e.set_class(gp, "gp");
    let parent = e.create_element(ElementTag::new(1));
    e.append(gp, parent);
    let child = e.create_element(ElementTag::new(1));
    e.append(parent, child);
    let mut screen = Screen::new(&mut e);
    screen.set_stylesheet(".gp { color: #0a0b0c }", vec![class("gp", &[(FG, "#0a0b0c")])]);

    assert_eq!(
        screen.style(parent, FG).as_deref(),
        Some("#0a0b0c"),
        "the middle node inherits the grandparent's color"
    );
    assert_eq!(
        screen.style(child, FG).as_deref(),
        Some("#0a0b0c"),
        "inheritance carries through the intermediate node to the grandchild"
    );
}

#[test]
fn an_intermediate_override_reparents_inheritance_for_descendants() {
    let mut e = Emitter::new();
    let gp = e.create_element(ElementTag::new(1));
    e.append(root(), gp);
    e.set_class(gp, "gp");
    let parent = e.create_element(ElementTag::new(1));
    e.append(gp, parent);
    e.set_class(parent, "mid");
    let child = e.create_element(ElementTag::new(1));
    e.append(parent, child);
    let mut screen = Screen::new(&mut e);
    screen.set_stylesheet(
        ".gp { color: #aaaaaa } .mid { color: #bbbbbb }",
        vec![class("gp", &[(FG, "#aaaaaa")]), class("mid", &[(FG, "#bbbbbb")])],
    );

    assert_eq!(
        screen.style(child, FG).as_deref(),
        Some("#bbbbbb"),
        "the child inherits the parent's overriding color, not the grandparent's"
    );
}

#[test]
fn happy_path_applies_and_counts_through_the_c_abi() {
    let mut host = CanopyHost::new();
    let batch = mounted_batch();
    let rc = c_apply(Some(&mut host), Some(&batch), batch.len());
    assert_eq!(rc, CANOPY_OK, "a well-formed batch applies cleanly");
    assert_eq!(host.node_count(), 2, "the column + text child are both live");
}

#[test]
fn null_host_returns_error_codes_not_panics() {
    let batch = mounted_batch();
    assert_eq!(c_apply(None, Some(&batch), batch.len()), CANOPY_ERR_NULL_HOST);
    assert_eq!(live_nodes(None), 0, "node_count on null is defined to be 0");
    assert_eq!(check_output(true, false), CANOPY_ERR_NULL_HOST);
    assert_eq!(check_output(true, true), CANOPY_ERR_NULL_HOST);
}

#[test]
fn null_data_with_nonzero_len_is_rejected() {
    let mut host = CanopyHost::new();
    assert_eq!(c_apply(Some(&mut host), None, 8), CANOPY_ERR_NULL_DATA);
    assert_eq!(host.node_count(), 0);
}

#[test]
fn empty_batch_is_a_valid_noop() {
    let mut host = CanopyHost::new();
    assert_eq!(c_apply(Some(&mut host), None, 0), CANOPY_OK);
    assert_eq!(host.node_count(), 0);
}

#[test]
fn garbage_bytes_decode_to_an_error_not_a_crash() {
    let mut host = CanopyHost::new();
    let garbage = [0xFFu8, 0x00, 0x13, 0x37, 0xAB, 0xCD];
    assert_eq!(c_apply(Some(&mut host), Some(&garbage), garbage.len()), CANOPY_ERR_DECODE);
    assert_eq!(host.node_count(), 0);
}

#[test]
fn truncated_batch_decodes_to_an_error() {
    let mut host = CanopyHost::new();
    let mut batch = mounted_batch();
    batch.truncate(batch.len() / 2);
    assert_eq!(
        c_apply(Some(&mut host), Some(&batch), batch.len()),
        CANOPY_ERR_DECODE,
        "a truncated stream is a decode error"
    );
}

#[test]
fn forged_handle_is_rejected_as_bad_handle() {
    let mut host = CanopyHost::new();
    let real = mounted_batch();
    assert_eq!(c_apply(Some(&mut host), Some(&real), real.len()), CANOPY_OK);

    let mut forged = Emitter::new();
    for _ in 0..1000 {
        forged.alloc_node();
    }
    let ghost = forged.alloc_node();
    forged.set_text(ghost, "haxx");
    let batch = forged.take_batch(1);
    assert_eq!(c_apply(Some(&mut host), Some(&batch), batch.len()), CANOPY_ERR_BAD_HANDLE);
    assert_eq!(host.node_count(), 2);
}

#[test]
fn oversized_length_is_rejected_before_any_read() {
    let mut host = CanopyHost::new();
    let dummy = [0u8; 4];
    let rc = c_apply(Some(&mut host), Some(&dummy), MAX_BATCH_BYTES + 1);
    assert_eq!(rc, CANOPY_ERR_TOO_LARGE);
    assert_eq!(check_input(false, false, MAX_BATCH_BYTES), CANOPY_OK);
}

#[test]
fn safe_rust_path_mirrors_the_c_path() {
    let mut host = CanopyHost::new();
    assert_eq!(host.apply_bytes(&mounted_batch()), CANOPY_OK);
    assert_eq!(host.node_count(), 2);
    assert_eq!(host.dom().children(root()).len(), 1);
}

#[test]
fn debug_snapshot_renders_the_tree_deterministically() {
    let mut e = Emitter::new();
    let col = e.create_element(ElementTag::new(1));
    e.append(root(), col);
    e.set_class(col, "card");
    let btn = e.create_element(ElementTag::new(3));
    e.append(col, btn);
    e.add_listener(btn, EventKind::new(CLICK), HandlerId::new(0));
    let label = e.create_text("Click");
    e.append(btn, label);

    let mut host = CanopyHost::new();
    assert_eq!(host.apply_bytes(&e.take_batch(0)), CANOPY_OK);

    let expected = "el tag=1 class=card\n  el tag=3 on=1:0\n    text=Click\n";
    assert_eq!(host.debug_snapshot(), expected, "the safe-path dump");

    let mut buf = [0u8; 256];
    let (code, len) = c_copy(host.debug_snapshot().as_bytes(), Some(&mut buf));
    assert_eq!(code, CANOPY_OK);
    assert_eq!(&buf[..len], expected.as_bytes(), "the C path matches");
}

#[test]
fn debug_snapshot_reports_needed_size_without_writing() {
    let mut host = CanopyHost::new();
    host.apply_bytes(&mounted_batch());
    let full = host.debug_snapshot();
    assert!(!full.is_empty());

    let mut tiny = [0u8; 1];
    let (code, len) = c_copy(full.as_bytes(), Some(&mut tiny));
    assert_eq!(code, CANOPY_ERR_TOO_LARGE);
    assert_eq!(len, full.len(), "needed size is the full dump length");
    assert_eq!(tiny, [0u8; 1], "nothing was written");
}

fn button_with_click() -> (Emitter, NodeId, HandlerId) {
    let handler = HandlerId::new(7);
    let mut e = Emitter::new();
    let btn = e.create_element(ElementTag::new(3));
    e.append(root(), btn);
    style(&mut e, btn, WIDTH, "100");
    style(&mut e, btn, HEIGHT, "40");
    e.add_listener(btn, EventKind::new(CLICK), handler);
    (e, btn, handler)
}

#[test]
fn pointer_hit_test_queues_and_drains_a_dispatch_event() {
    let (mut e, btn, handler) = button_with_click();
    let mut screen = Screen::new(&mut e);
    screen.set_viewport(200.0, 200.0);

    assert_eq!(screen.pointer_event(10.0, 10.0, 0, CLICK), 1);
    assert_eq!(screen.pointer_event(150.0, 150.0, 0, CLICK), 0);

    let mut out = vec![0u8; 256];
    let (code, n) = screen.host.poll_events_into(&mut out);
    assert_eq!(code, CANOPY_OK);
    assert!(n > 0, "a non-empty event batch was drained");

    let ops = decode_all(&out[..n]).unwrap();
    let (h, node, x, y) = ops
        .iter()
        .find_map(|op| match op {
            Op::DispatchEvent { handler, node, payload: EventPayload::Pointer { x, y, button: 0 } } => {
                Some((*handler, *node, *x, *y))
            }
            _ => None,
        })
        .expect("a DispatchEvent in the drained batch");
    assert_eq!(h, handler, "the button's click handler");
    assert_eq!(node, btn, "the hit node");
    assert_eq!((x, y), (F32(10.0f32.to_bits()), F32(10.0f32.to_bits())));

    assert_eq!(screen.host.poll_events_into(&mut out), (CANOPY_OK, 0));
}

#[test]
fn poll_events_reports_needed_size_without_consuming() {
    let (mut e, _btn, _h) = button_with_click();
    let mut screen = Screen::new(&mut e);
    screen.set_viewport(200.0, 200.0);
    assert_eq!(screen.pointer_event(10.0, 10.0, 0, CLICK), 1);

    let mut tiny = vec![0u8; 4];
    let (code, needed) = screen.host.poll_events_into(&mut tiny);
    assert_eq!(code, CANOPY_ERR_TOO_LARGE);
    assert!(needed > 4, "the needed size is reported");
    assert_eq!(tiny, vec![0u8; 4]);

    let mut out = vec![0u8; 256];
    let (code2, n) = screen.host.poll_events_into(&mut out);
    assert_eq!(code2, CANOPY_OK);
    assert_eq!(n, needed);
}

#[test]
fn event_fns_tolerate_a_null_host() {
    assert_eq!(check_poll(true, false, true, 0), CANOPY_ERR_NULL_HOST);
    assert_eq!(check_poll(false, false, true, 0), CANOPY_OK);
    assert_eq!(check_poll(false, false, true, 1), CANOPY_ERR_NULL_DATA);
    assert_eq!(check_poll(false, false, false, 1), CANOPY_OK);
}

fn host_with_list(n: usize, css: &str, rules: Vec<Rule>) -> (Screen, Vec<NodeId>) {
    let mut e = Emitter::new();
    let ul = e.create_element(ElementTag::new(1));
    e.append(root(), ul);
    e.set_tag_name(ul, "ul");
    let mut items = Vec::new();
    for _ in 0..n {
        let li = e.create_element(ElementTag::new(1));
        e.append(ul, li);
        e.set_tag_name(li, "li");
        items.push(li);
    }
    let mut screen = Screen::new(&mut e);
    screen.set_stylesheet(css, rules);
    (screen, items)
}

#[test]
fn first_child_styles_only_the_first_sibling() {
    let (screen, items) = host_with_list(
        3,
        "li:first-child { background: #abcdef }",
        vec![rule(&[(BG, "#abcdef")], |all, i| {
            has_name(&all[i], "li") && all[i].sibling_index == 0
        })],
    );
    assert_eq!(
        screen.style(items[0], BG).as_deref(),
        Some("#abcdef"),
        "the first li is styled by :first-child"
    );
    for &later in &items[1..] {
        assert_eq!(screen.style(later, BG), None, ":first-child does not style a non-first sibling");
    }
}

#[test]
fn nth_child_2n_styles_the_even_siblings() {
    let (screen, items) = host_with_list(
        5,
        "li:nth-child(2n) { background: #020202 }",
        vec![rule(&[(BG, "#020202")], |all, i| {
            has_name(&all[i], "li") && all[i].sibling_count == 5 && (all[i].sibling_index + 1) % 2 == 0
        })],
    );
    let styled_indices: Vec<usize> =
        (0..5).filter(|i| screen.style(items[*i], BG).is_some()).collect();
    assert_eq!(styled_indices, vec![1, 3], ":nth-child(2n) styles the 2nd and 4th siblings");
}

#[test]
fn not_excludes_the_right_node() {
    let mut e = Emitter::new();
    let ul = e.create_element(ElementTag::new(1));
    e.append(root(), ul);
    e.set_tag_name(ul, "ul");
    let a = e.create_element(ElementTag::new(1));
    e.append(ul, a);
    e.set_tag_name(a, "li");
    let b = e.create_element(ElementTag::new(1));
    e.append(ul, b);
    e.set_tag_name(b, "li");
    e.set_class(b, "skip");
    let c = e.create_element(ElementTag::new(1));
    e.append(ul, c);
    e.set_tag_name(c, "li");

    let mut screen = Screen::new(&mut e);
    screen.set_stylesheet(
        "li:not(.skip) { background: #777777 }",
        vec![rule(&[(BG, "#777777")], |all, i| {
            has_name(&all[i], "li") && !has_class(&all[i], "skip")
        })],
    );
    assert_eq!(screen.style(a, BG).as_deref(), Some("#777777"), "li without .skip is styled");
    assert_eq!(screen.style(b, BG), None, ":not(.skip) excludes the .skip li");
    assert_eq!(screen.style(c, BG).as_deref(), Some("#777777"), "the other plain li is styled");
}

#[test]
fn empty_styles_a_childless_node_end_to_end() {
    let mut e = Emitter::new();
    let ul = e.create_element(ElementTag::new(1));
    e.append(root(), ul);
    e.set_tag_name(ul, "ul");
    let leaf = e.create_element(ElementTag::new(1));
    e.append(ul, leaf);
    e.set_tag_name(leaf, "li");

    let mut screen = Screen::new(&mut e);
    screen.set_stylesheet(
        "li:empty { background: #0c0c0c } ul:empty { background: #ffffff }",
        vec![
            rule(&[(BG, "#0c0c0c")], |all, i| has_name(&all[i], "li") && all[i].child_count == 0),
            rule(&[(BG, "#ffffff")], |all, i| has_name(&all[i], "ul") && all[i].child_count == 0),
        ],
    );
    assert_eq!(
        screen.style(leaf, BG).as_deref(),
        Some("#0c0c0c"),
        "the childless li matches :empty"
    );
    assert_eq!(screen.style(ul, BG), None, "the ul has a child, so ul:empty does not match");
}

#[test]
fn each_failure_has_its_code() {
    assert_eq!(error_code(HostError::BadHandle), CANOPY_ERR_BAD_HANDLE);
    assert_eq!(error_code(HostError::Decode), CANOPY_ERR_DECODE);
    assert_eq!(error_code(HostError::Unsupported), CANOPY_ERR_UNSUPPORTED);
    let codes = [
        CANOPY_OK,
        CANOPY_ERR_NULL_HOST,
        CANOPY_ERR_NULL_DATA,
        CANOPY_ERR_TOO_LARGE,
        CANOPY_ERR_DECODE,
        CANOPY_ERR_BAD_HANDLE,
        CANOPY_ERR_UNSUPPORTED,
    ];
    assert_eq!(codes, [0, -1, -2, -3, -4, -5, -6]);
}

#[test]
fn events_bubble_to_the_nearest_listener() {
    let mut e = Emitter::new();
    let outer = e.create_element(ElementTag::new(1));
    e.append(root(), outer);
    e.add_listener(outer, EventKind::new(CLICK), HandlerId::new(1));
    let inner = e.create_element(ElementTag::new(1));
    e.append(outer, inner);
    let leaf = e.create_text("x");
    e.append(inner, leaf);
    let mut host = CanopyHost::new();
    host.apply_bytes(&e.take_batch(0));
    let zero = F32(0);
    assert_eq!(host.pointer_event(Some(leaf), zero, zero, 2, CLICK), 1);
    assert_eq!(host.pointer_event(Some(leaf), zero, zero, 2, CLICK + 1), 0);
    assert_eq!(host.pointer_event(None, zero, zero, 2, CLICK), 0);
    let mut out = vec![0u8; 256];
    let (_, n) = host.poll_events_into(&mut out);
    let ops = decode_all(&out[..n]).unwrap();
    assert_eq!(ops.len(), 3);
    assert!(matches!(ops[0], Op::BeginBatch { seq: 0, .. }));
    assert!(matches!(&ops[1], Op::DispatchEvent { handler, node, .. }
        if *handler == HandlerId::new(1) && *node == outer));
    assert!(matches!(ops[2], Op::EndBatch));

    host.pointer_event(Some(leaf), zero, zero, 2, CLICK);
    let (_, n) = host.poll_events_into(&mut out);
    let ops = decode_all(&out[..n]).unwrap();
    assert!(matches!(ops[0], Op::BeginBatch { seq: 1, .. }));
}

#[test]
fn a_full_queue_drops_events_and_still_fits_its_buffer() {
    let (mut e, btn, _) = button_with_click();
    let mut host = CanopyHost::new();
    host.apply_bytes(&e.take_batch(0));
    for _ in 0..MAX_PENDING_EVENTS {
        assert_eq!(host.pointer_event(Some(btn), F32(0), F32(0), 0, CLICK), 1);
    }
    assert_eq!(host.pointer_event(Some(btn), F32(0), F32(0), 0, CLICK), 0);
    let mut out = vec![0u8; MAX_EVENT_BATCH_BYTES];
    let (code, n) = host.poll_events_into(&mut out);
    assert_eq!(code, CANOPY_OK);
    assert_eq!(decode_all(&out[..n]).unwrap().len(), MAX_PENDING_EVENTS + 2);
}

#[test]
fn hovering_a_node_hovers_what_it_stands_in() {
    let mut e = Emitter::new();
    let outer = e.create_element(ElementTag::new(1));
    e.append(root(), outer);
    let inner = e.create_element(ElementTag::new(1));
    e.append(outer, inner);
    let beside = e.create_element(ElementTag::new(1));
    e.append(outer, beside);
    let screen = Screen::new(&mut e);
    let dom = screen.host.dom();
    assert_eq!(hover_path(dom, Some(inner)), vec![inner, outer]);
    assert!(hover_path(dom, None).is_empty());
    let requests = match_requests(dom, Some(inner), Some(outer), Some(beside));
    let states: Vec<(NodeId, bool, bool, bool)> =
        requests.iter().map(|r| (r.node, r.hover, r.focus, r.active)).collect();
    assert_eq!(
        states,
        vec![
            (outer, true, true, false),
            (inner, true, false, false),
            (beside, false, false, true)
        ]
    );
    assert_eq!(requests[0].parent, None);
    assert_eq!(requests[2].parent, Some(0));
    assert_eq!((requests[2].sibling_index, requests[2].sibling_count), (1, 2));
    assert_eq!(requests[0].child_count, 2);
}

#[test]
fn snapshots_list_everything_about_a_node_on_one_line() {
    let mut e = Emitter::new();
    let n = e.create_element(ElementTag::new(1));
    e.append(root(), n);
    e.set_tag_name(n, "ul");
    e.set_class(n, "b");
    e.set_class(n, "a");
    e.set_attribute(n, AttrId::new(9), "x y");
    e.set_attribute(n, AttrId::new(AttrId::ID), "it");
    style(&mut e, n, HEIGHT, "4");
    style(&mut e, n, BG, "#000000");
    let t = e.create_text("two\nlines\\");
    e.append(n, t);
    let screen = Screen::new(&mut e);
    let dump = screen.host.debug_snapshot();
    assert_eq!(dump, canopy::snapshot::dump(screen.host.dom()));
    let lines: Vec<&str> = dump.lines().collect();
    assert_eq!(lines.len(), 2);
    assert_eq!(lines[1], "  text=two\\nlines\\\\");
    assert!(lines[0].starts_with("el tag=1"));
    for part in ["ul", "class=", "b", "a", "it", "#000000", "4"] {
        assert!(lines[0].contains(part), "{part} in {}", lines[0]);
    }
}

#[test]
fn stylesheets_are_utf8_and_blank_ones_clear() {
    let mut host = CanopyHost::new();
    assert_eq!(host.set_stylesheet_bytes(b".a { }".to_vec()), CANOPY_OK);
    assert_eq!(host.stylesheet().map(|s| s.as_str()), Some(".a { }"));
    assert_eq!(host.set_stylesheet_bytes(vec![0xc3, 0x28]), CANOPY_ERR_DECODE);
    assert_eq!(host.stylesheet().map(|s| s.as_str()), Some(".a { }"));
    assert_eq!(host.set_stylesheet_bytes(b" \n".to_vec()), CANOPY_OK);
    assert!(host.stylesheet().is_none());
    assert!(host.styled_dom(&vec![]).is_none());
}

#[test]
fn identities_name_what_selectors_can_match() {
    let mut e = Emitter::new();
    let mut nodes = Vec::new();
    for tag in 1..6 {
        let n = e.create_element(ElementTag::new(tag));
        e.append(root(), n);
        nodes.push(n);
    }
    e.set_tag_name(nodes[4], "ul");
    e.set_attribute(nodes[4], AttrId::new(CHECKED_ATTR), "c");
    e.set_attribute(nodes[4], AttrId::new(AttrId::ID), "i");
    e.set_attribute(nodes[4], AttrId::new(9), "hidden");
    let other = e.create_element(ElementTag::new(9));
    e.append(root(), other);
    let screen = Screen::new(&mut e);
    let dom = screen.host.dom();
    let names: Vec<Option<String>> =
        nodes.iter().map(|n| element_type_name(dom.node(*n).unwrap())).collect();
    let names: Vec<Option<&str>> = names.iter().map(|n| n.as_deref()).collect();
    assert_eq!(names, vec![Some("div"), Some("row"), Some("button"), Some("input"), Some("ul")]);
    let identity = NodeIdentity::from_node(dom.node(nodes[4]).unwrap());
    assert_eq!(identity.id.as_deref(), Some("i"));
    assert_eq!(
        identity.attrs,
        vec![("id".to_string(), "i".to_string()), ("checked".to_string(), "c".to_string())]
    );
    let requests = screen.host.match_requests();
    assert!(requests[0].matchable);
    assert!(!requests[5].matchable);
}

#[test]
fn a_snapshot_has_one_line_for_each_node() {
    let mut e = Emitter::new();
    let el = e.create_element(ElementTag::new(1));
    e.append(root(), el);
    e.set_class(el, "a\nb");
    e.set_class(el, "c\\d");
    e.set_inline_style(el, PropId::new(1), "x\ny");
    e.set_attribute(el, AttrId::new(2), "p\nq");
    e.set_tag_name(el, "n\nm");
    let t = e.create_text("s\nt");
    e.append(el, t);
    let mut host = CanopyHost::new();
    assert_eq!(host.apply_bytes(&e.take_batch(0)), CANOPY_OK);
    assert_eq!(
        host.debug_snapshot(),
        "el tag=1 name=n\\nm class=a\\nb,c\\\\d style=1:x\\ny attr=2:p\\nq\n  text=s\\nt\n"
    );
}

#[test]
fn the_way_up_ends_where_parents_come_round() {
    let (three, one, two) = (NodeId::new(3), NodeId::new(1), NodeId::new(2));
    let click = EventKind::new(CLICK);
    let handler = HandlerId::new(7);
    let mut e = Emitter::new();
    for _ in 0..3 {
        e.create_element(ElementTag::new(1));
    }
    e.append(root(), three);
    e.append(three, one);
    e.append(one, two);
    let mut host = CanopyHost::new();
    assert_eq!(host.apply_bytes(&e.take_batch(0)), CANOPY_OK);
    // Created again, the first node is still listed, and can go below its old child.
    let mut again = Emitter::new();
    assert_eq!(again.create_element(ElementTag::new(1)), one);
    again.append(two, one);
    assert_eq!(host.apply_bytes(&again.take_batch(1)), CANOPY_OK);
    assert_eq!(host.dom().children(three), &[one]);
    let at = F32(0);
    assert_eq!(host.pointer_event(Some(one), at, at, 0, CLICK), 0);
    assert_eq!(hover_path(host.dom(), Some(one)), vec![one, two]);

    again.add_listener(two, click, handler);
    assert_eq!(host.apply_bytes(&again.take_batch(2)), CANOPY_OK);
    assert_eq!(host.pointer_event(Some(one), at, at, 0, CLICK), 1);
}
