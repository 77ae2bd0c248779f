//! Scenes as bytes.
use canopy::displaylist::{
    deserialize, serialize, serialize_item, Scene, DL_BORDER, DL_DIR_HORIZONTAL, DL_DIR_VERTICAL, DL_GLYPHS,
    DL_GRADIENT, DL_POP_CLIP, DL_PUSH_CLIP, DL_RECT, DL_SHADOW, DL_TEXT, DL_VERSION,
};
use canopy::geometry::{
    Color, DisplayItem, DisplayList, Glyph, GradientDirection, GradientStop, Point, Rect, Size,
};
use canopy::protocol::F32;

fn f(x: f32) -> F32 {
    F32(x.to_bits())
}

fn rect() -> Rect<F32> {
    Rect { origin: Point { x: f(1.0), y: f(2.0) }, size: Size { w: f(3.0), h: f(4.5) } }
}

fn color() -> Color {
    Color { r: 10, g: 20, b: 30, a: 40 }
}

fn one_of_each() -> Vec<DisplayItem<F32>> {
    vec![
        DisplayItem::Rect { rect: rect(), color: color(), radius: f(6.0) },
        DisplayItem::Glyphs {
            glyphs: vec![Glyph { id: 7, x: f(0.5), y: f(-0.5) }, Glyph { id: 8, x: f(1.5), y: f(0.0) }],
            color: color(),
        },
        DisplayItem::Text {
            origin: Point { x: f(1.0), y: f(2.0) },
            text: "h\u{e9}llo \u{1f333}".to_string(),
            color: color(),
            size: f(16.0),
            box_w: f(80.0),
            align: f(0.5),
        },
        DisplayItem::Border { rect: rect(), color: color(), width: f(2.0), radius: f(0.0) },
        DisplayItem::Gradient {
            rect: rect(),
            stops: vec![
                GradientStop { color: color(), position: f(0.0) },
                GradientStop { color: color(), position: f(1.0) },
            ],
            direction: GradientDirection::Horizontal,
        },
        DisplayItem::Shadow {
            rect: rect(),
            color: color(),
            blur: f(4.0),
            offset: Point { x: f(-1.0), y: f(1.0) },
        },
        DisplayItem::PushClip { rect: rect(), radius: f(3.0) },
        DisplayItem::PopClip,
    ]
}

#[test]
fn the_format_has_its_numbers() {
    assert_eq!(DL_VERSION, 1);
    assert_eq!(
        [DL_RECT, DL_GLYPHS, DL_TEXT, DL_BORDER, DL_GRADIENT, DL_SHADOW, DL_PUSH_CLIP, DL_POP_CLIP],
        [1, 2, 3, 4, 5, 6, 7, 8]
    );
    assert_eq!([DL_DIR_VERTICAL, DL_DIR_HORIZONTAL], [0, 1]);
}

#[test]
fn a_scene_reads_back() {
    let items = one_of_each();
    let bytes = serialize(&DisplayList { items: items.clone() }, 320, 200);
    let scene = deserialize(&bytes).unwrap();
    assert_eq!(scene, Scene { version: 1, width: 320, height: 200, items });
    let empty = serialize(&DisplayList { items: vec![] }, 1, 2);
    assert_eq!(empty, vec![1, 0, 1, 0, 0, 0, 2, 0, 0, 0, 0, 0, 0, 0]);
    assert!(deserialize(&empty).unwrap().items.is_empty());
}

#[test]
fn a_box_is_laid_out_field_by_field() {
    let mut out = vec![0xee];
    serialize_item(&one_of_each()[0], &mut out);
    let mut expected = vec![0xee, DL_RECT];
    for x in [1.0f32, 2.0, 3.0, 4.5] {
        expected.extend_from_slice(&x.to_bits().to_le_bytes());
    }
    expected.extend_from_slice(&[10, 20, 30, 40]);
    expected.extend_from_slice(&6.0f32.to_bits().to_le_bytes());
    assert_eq!(out, expected);
}

#[test]
fn cut_and_broken_frames_are_refused() {
    let bytes = serialize(&DisplayList { items: one_of_each() }, 320, 200);
    for n in 0..bytes.len() {
        assert!(deserialize(&bytes[..n]).is_none(), "cut to {n}");
    }
    let mut bad_tag = serialize(&DisplayList { items: vec![DisplayItem::PopClip] }, 1, 1);
    *bad_tag.last_mut().unwrap() = 99;
    assert!(deserialize(&bad_tag).is_none());
    let text = DisplayItem::Text {
        origin: Point { x: f(0.0), y: f(0.0) },
        text: "\u{e9}".to_string(),
        color: color(),
        size: f(8.0),
        box_w: f(8.0),
        align: f(0.0),
    };
    let mut bad_text = serialize(&DisplayList { items: vec![text] }, 1, 1);
    let last = bad_text.len() - 1;
    bad_text[last] = b'x';
    assert!(deserialize(&bad_text).is_none());
}

#[test]
fn different_scenes_have_different_frames() {
    let items = one_of_each();
    for i in 0..items.len() {
        for j in 0..items.len() {
            let a = serialize(&DisplayList { items: vec![items[i].clone()] }, 9, 9);
            let b = serialize(&DisplayList { items: vec![items[j].clone()] }, 9, 9);
            assert_eq!(a == b, i == j);
        }
    }
}
