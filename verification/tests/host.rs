//! The host without a window.
use canopy::dom::Dom;
use canopy::emitter::Emitter;
use canopy::geometry::{Color, DisplayItem, DisplayList, Point, Rect, Size};
use canopy::handles::{ElementTag, NodeId, PropId};
use canopy::headless::{Host, LiteSceneBuilder, Renderer, SceneBuilder};
use canopy::props::{BG, FG};
use canopy::scalar::Scalar;
use canopy::tree::HostError;

#[derive(Clone, Copy, PartialEq, Debug)]
struct Px(f32);

impl Scalar for Px {
    fn whole(n: u64) -> Px {
        Px(n as f32)
    }
    fn ratio(n: u32, d: u32) -> Px {
        Px(n as f32 / d as f32)
    }
    fn plus(self, other: Px) -> Px {
        Px(self.0 + other.0)
    }
    fn minus(self, other: Px) -> Px {
        Px(self.0 - other.0)
    }
    fn times(self, other: Px) -> Px {
        Px(self.0 * other.0)
    }
    fn over(self, other: Px) -> Px {
        Px(self.0 / other.0)
    }
    fn less(self, other: Px) -> bool {
        self.0 < other.0
    }
    fn at_most(self, other: Px) -> bool {
        self.0 <= other.0
    }
    fn larger(self, other: Px) -> Px {
        Px(self.0.max(other.0))
    }
    fn to_u32(self) -> u32 {
        self.0 as u32
    }
    fn to_i32(self) -> i32 {
        self.0 as i32
    }
    fn wrap(self, period: Px) -> Px {
        let mut x = self.0;
        while x >= period.0 {
            x -= period.0;
        }
        Px(x)
    }
    fn parse(s: &str) -> Option<Px> {
        s.parse::<f32>().ok().map(Px)
    }
}

/// A renderer that fills boxes, and draws each character as a filled cell of eight pixels.
struct Canvas {
    width: usize,
    height: usize,
    clear: Color,
    drawn: Vec<Color>,
    shown: Vec<Color>,
    broken: bool,
}

impl Canvas {
    fn new(width: usize, height: usize, clear: Color) -> Canvas {
        Canvas { width, height, clear, drawn: vec![], shown: vec![], broken: false }
    }

    fn fill(&mut self, rect: &Rect<Px>, color: Color) {
        for y in 0..self.height {
            for x in 0..self.width {
                let (px, py) = (x as f32, y as f32);
                let right = rect.origin.x.0 + rect.size.w.0;
                let bottom = rect.origin.y.0 + rect.size.h.0;
                if px >= rect.origin.x.0 && px < right && py >= rect.origin.y.0 && py < bottom {
                    self.drawn[y * self.width + x] = color;
                }
            }
        }
    }

    fn pixel(&self, x: usize, y: usize) -> [u8; 4] {
        let c = self.shown[y * self.width + x];
        [c.r, c.g, c.b, c.a]
    }
}

impl Renderer<Px> for Canvas {
    fn render(&mut self, scene: &DisplayList<Px>) -> Result<(), HostError> {
        if self.broken {
            return Err(HostError::Unsupported);
        }
        self.drawn = vec![self.clear; self.width * self.height];
        for item in &scene.items {
            match item {
                DisplayItem::Rect { rect, color, .. } => self.fill(rect, *color),
                DisplayItem::Text { origin, text, color, .. } => {
                    let w = 8.0 * text.chars().count() as f32;
                    let size = Size { w: Px(w), h: Px(8.0) };
                    self.fill(&Rect { origin: *origin, size }, *color);
                }
                _ => {}
            }
        }
        Ok(())
    }

    fn present(&mut self) -> Result<(), HostError> {
        self.shown = self.drawn.clone();
        Ok(())
    }
}

fn rgb(r: u8, g: u8, b: u8) -> Color {
    Color { r, g, b, a: 255 }
}

fn size(w: f32, h: f32) -> Size<Px> {
    Size { w: Px(w), h: Px(h) }
}

fn column_batch() -> Vec<u8> {
    let mut e = Emitter::new();
    let col = e.create_element(ElementTag::new(1));
    e.append(NodeId::root(), col);
    e.set_inline_style(col, PropId::new(BG), "#202830");
    let label = e.create_text("hi");
    e.append(col, label);
    e.set_inline_style(label, PropId::new(FG), "#ffd040");
    e.take_batch(0)
}

#[test]
fn applies_a_batch_and_paints_the_column_background() {
    let mut host = Host::new(Canvas::new(64, 32, rgb(0, 0, 0)));
    host.apply(&column_batch()).unwrap();
    assert_eq!(host.dom().node_count(), 2);

    host.paint(size(64.0, 32.0)).unwrap();

    let canvas = host.renderer();
    assert_eq!(canvas.pixel(40, 0), [0x20, 0x28, 0x30, 255], "column background");
    assert_eq!(canvas.pixel(0, 0), [0xff, 0xd0, 0x40, 255], "text foreground");
}

#[test]
fn paint_with_empty_tree_clears_to_background() {
    let mut host = Host::new(Canvas::new(8, 8, rgb(10, 20, 30)));
    host.paint(size(8.0, 8.0)).unwrap();
    assert_eq!(host.renderer().pixel(0, 0), [10, 20, 30, 255]);
}

struct StubScene {
    frames: u32,
}

impl SceneBuilder<Px> for StubScene {
    fn build_scene(&mut self, _dom: &Dom, viewport: Size<Px>) -> DisplayList<Px> {
        self.frames += 1;
        DisplayList {
            items: vec![DisplayItem::Rect {
                rect: Rect { origin: Point { x: Px(0.0), y: Px(0.0) }, size: viewport },
                color: rgb(1, 2, 3),
                radius: Px(0.0),
            }],
        }
    }
}

#[test]
fn host_paints_through_an_injected_scene_builder() {
    let stub = StubScene { frames: 0 };
    let mut host = Host::with_scene_builder(stub, Canvas::new(8, 8, rgb(0, 0, 0)));
    host.paint(size(8.0, 8.0)).unwrap();
    assert_eq!(
        host.renderer().pixel(4, 4),
        [1, 2, 3, 255],
        "painted the injected builder's rect, not the lite default"
    );
    assert_eq!(host.scene_builder().frames, 1);
}

#[test]
fn a_failing_renderer_shows_nothing() {
    let mut canvas = Canvas::new(8, 8, rgb(10, 20, 30));
    canvas.broken = true;
    let mut host = Host::new(canvas);
    assert_eq!(host.paint(size(8.0, 8.0)), Err(HostError::Unsupported));
    assert!(host.renderer().shown.is_empty());
}

#[test]
fn the_default_builder_paints_inline_styles() {
    let mut dom = Dom::new();
    dom.apply(&column_batch()).unwrap();
    let mut lite = LiteSceneBuilder::default();
    let viewport = size(64.0, 32.0);
    assert_eq!(lite.build_scene(&dom, viewport), canopy::paint::build_scene(&dom, viewport));
}

#[test]
fn a_host_refuses_what_its_tree_refuses() {
    let mut host = Host::new(Canvas::new(1, 1, rgb(0, 0, 0)));
    let mut e = Emitter::new();
    e.set_text(NodeId::new(9), "x");
    assert_eq!(host.apply(&e.take_batch(0)), Err(HostError::BadHandle));
    assert_eq!(host.apply(&[0xff]), Err(HostError::Decode));
}
