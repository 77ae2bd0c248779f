//! Text editing and focus.
use canopy::handles::{NodeId, StrId};
use canopy::input::{apply, edit, Focus, Key, KEY_BACKSPACE, KEY_ENTER};
use canopy::protocol::{EventPayload, F32};

#[test]
fn typing_two_chars_then_backspace_over_empty_yields_first() {
    let s = apply("", Key::Char('a'));
    assert_eq!(s, "a");
    let s = apply(&s, Key::Char('b'));
    assert_eq!(s, "ab");
    let s = apply(&s, Key::Backspace);
    assert_eq!(s, "a");
}

#[test]
fn backspace_on_empty_is_a_noop() {
    assert_eq!(apply("", Key::Backspace), "");
}

#[test]
fn enter_does_not_change_text_but_signals_submit() {
    assert_eq!(apply("hello", Key::Enter), "hello");
    assert!(Key::Enter.is_submit());
    assert!(!Key::Char('x').is_submit());
    assert!(!Key::Backspace.is_submit());
}

#[test]
fn backspace_is_utf8_aware() {
    let s = apply("é", Key::Backspace);
    assert_eq!(s, "");
    let s = apply("aé", Key::Backspace);
    assert_eq!(s, "a");
}

#[test]
fn char_appends_multibyte() {
    let s = apply("a", Key::Char('é'));
    assert_eq!(s, "aé");
}

#[test]
fn edit_backspace_payload_deletes_last_char() {
    let payload = EventPayload::Key { code: KEY_BACKSPACE, mods: 0 };
    assert_eq!(edit("ab", &payload).as_deref(), Some("a"));
    assert_eq!(edit("a", &payload).as_deref(), Some(""));
}

#[test]
fn edit_backspace_on_empty_returns_none() {
    let payload = EventPayload::Key { code: KEY_BACKSPACE, mods: 0 };
    assert_eq!(edit("", &payload), None);
}

#[test]
fn edit_enter_and_other_payloads_return_none() {
    let enter = EventPayload::Key { code: KEY_ENTER, mods: 0 };
    assert_eq!(edit("hi", &enter), None);
    assert_eq!(edit("hi", &EventPayload::Empty), None);
    let origin = F32::from_bits(0.0f32.to_bits());
    assert_eq!(edit("hi", &EventPayload::Pointer { x: origin, y: origin, button: 0 }), None);
    // A text payload carries an id, so it cannot edit here.
    assert_eq!(edit("hi", &EventPayload::Text { text: StrId::new(0) }), None);
}

#[test]
fn focus_set_get_clear() {
    let mut f = Focus::new();
    assert_eq!(f.get(), None);
    assert_eq!(Focus::default(), f);

    let n = NodeId::new(7);
    f.set(n);
    assert_eq!(f.get(), Some(n));
    assert!(f.is_focused(n));
    assert!(!f.is_focused(NodeId::new(8)));

    // Setting again replaces the focus.
    let m = NodeId::new(9);
    f.set(m);
    assert_eq!(f.get(), Some(m));
    assert!(!f.is_focused(n));

    f.clear();
    assert_eq!(f.get(), None);
    assert!(!f.is_focused(m));
}

#[test]
fn backspace_undoes_typing_any_character() {
    for c in ['x', 'é', '日', '🦀'] {
        let typed = apply("a日", Key::Char(c));
        assert_eq!(apply(&typed, Key::Backspace), "a日");
    }
}
