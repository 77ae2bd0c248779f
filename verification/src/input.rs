//! Keyboard input: one-line text editing and a focus model.
//!
//! No platform code and no tree: a key press becomes a new string, and at most one node has
//! the focus.
use crate::handles::NodeId;
use crate::protocol::EventPayload;
use crate::text::opt_string;
use vstd::prelude::*;

verus! {

/// Key code of Backspace in an [`EventPayload::Key`].
pub const KEY_BACKSPACE: u32 = 0x08;

/// Key code of Enter in an [`EventPayload::Key`].
pub const KEY_ENTER: u32 = 0x0D;

/// A single editing intent against a text buffer.
#[derive(Clone, Copy, PartialEq, Eq, Debug, Structural)]
pub enum Key {
    /// Append a character.
    Char(char),
    /// Delete the last character.
    Backspace,
    /// Submit; the text stays as it is.
    Enter,
}

impl Key {
    /// Whether this key submits.
    pub fn is_submit(self) -> (r: bool)
        ensures
            r == (self == Key::Enter),
    {
        matches!(self, Key::Enter)
    }
}

/// The text that a key makes of `current`.
pub open spec fn edited(current: Seq<char>, key: Key) -> Seq<char> {
    match key {
        Key::Char(c) => current.push(c),
        Key::Backspace => if current.len() == 0 {
            current
        } else {
            current.drop_last()
        },
        Key::Enter => current,
    }
}

/// Apply one key to `current`. Characters are whole characters, however many bytes they take.
pub fn apply(current: &str, key: Key) -> (r: String)
    ensures
        r@ == edited(current@, key),
{
    let mut out = current.to_owned();
    match key {
        Key::Char(c) => {
            out.push(c);
        },
        Key::Backspace => {
            let _ = out.pop();
        },
        Key::Enter => {},
    }
    out
}

/// The text that an event makes of `current`; `None` where nothing changes. Only Backspace
/// edits: Enter submits, and a text payload carries an id, not characters.
pub open spec fn edited_by(current: Seq<char>, event: EventPayload) -> Option<Seq<char>> {
    if event matches EventPayload::Key { code, .. } && code == KEY_BACKSPACE && current.len() > 0 {
        Some(current.drop_last())
    } else {
        None
    }
}

/// Interpret an event against `current`: the new text, or `None` where nothing changes.
pub fn edit(current: &str, event: &EventPayload) -> (r: Option<String>)
    ensures
        opt_string(r) == edited_by(current@, *event),
{
    match event {
        EventPayload::Key { code, .. } => {
            if *code == KEY_BACKSPACE && !current.is_empty() {
                Some(apply(current, Key::Backspace))
            } else {
                None
            }
        },
        _ => None,
    }
}

/// Which node receives keyboard input: at most one.
#[derive(Clone, Copy, PartialEq, Eq, Debug, Structural)]
pub struct Focus {
    node: Option<NodeId>,
}

impl View for Focus {
    type V = Option<NodeId>;

    closed spec fn view(&self) -> Option<NodeId> {
        self.node
    }
}

impl Default for Focus {
    fn default() -> (r: Focus)
        ensures
            r@ == None::<NodeId>,
    {
        Focus::new()
    }
}

impl Focus {
    /// Nothing focused.
    pub fn new() -> (r: Focus)
        ensures
            r@ == None::<NodeId>,
    {
        Focus { node: None }
    }

    /// Focus `node`, replacing any previous focus.
    pub fn set(&mut self, node: NodeId)
        ensures
            final(self)@ == Some(node),
    {
        self.node = Some(node);
    }

    /// The focused node, if any.
    pub fn get(&self) -> (r: Option<NodeId>)
        ensures
            r == self@,
    {
        self.node
    }

    /// Focus nothing.
    pub fn clear(&mut self)
        ensures
            final(self)@ == None::<NodeId>,
    {
        self.node = None;
    }

    /// Whether `node` is the focused node.
    pub fn is_focused(&self, node: NodeId) -> (r: bool)
        ensures
            r == (self@ == Some(node)),
    {
        match self.node {
            Some(n) => n == node,
            None => false,
        }
    }
}

/// Backspace undoes a typed character.
pub proof fn law_backspace_undoes_typing(current: Seq<char>, c: char)
    ensures
        edited(edited(current, Key::Char(c)), Key::Backspace) == current,
{
    assert(current.push(c).drop_last() =~= current);
}

/// An event edits exactly as its key does, and says `None` exactly where that changes nothing.
pub proof fn law_events_edit_like_keys(current: Seq<char>, mods: u8)
    ensures
        edited_by(current, (EventPayload::Key { code: KEY_BACKSPACE, mods })) == if edited(
            current,
            Key::Backspace,
        ) == current {
            None
        } else {
            Some(edited(current, Key::Backspace))
        },
        edited_by(current, (EventPayload::Key { code: KEY_ENTER, mods })) is None && edited(
            current,
            Key::Enter,
        ) == current,
{
    if current.len() > 0 {
        assert(current.drop_last().len() != current.len());
    }
}

/// A typed character stands behind what was there; nothing but a character makes a text longer, and
/// submitting changes nothing.
pub proof fn law_typing_appends(current: Seq<char>, key: Key)
    ensures
        key matches Key::Char(c) ==> edited(current, key) == current + seq![c],
        key == Key::Backspace ==> {
            &&& current.len() == 0 ==> edited(current, key).len() == 0
            &&& current.len() > 0 ==> edited(current, key) + seq![current.last()] == current
        },
        key == Key::Enter ==> edited(current, key) == current,
{
    if let Key::Char(c) = key {
        assert(edited(current, key) =~= current + seq![c]);
    }
    if key == Key::Backspace && current.len() > 0 {
        assert(edited(current, key) + seq![current.last()] =~= current);
    }
}

/// Of all events only that of key 8, Backspace, edits, and only where there is something to delete:
/// it takes the last character away.
pub proof fn law_only_backspace_edits(current: Seq<char>, event: EventPayload)
    ensures
        edited_by(current, event) is Some <==> current.len() > 0 && event is Key && event->Key_code == 8,
        edited_by(current, event) matches Some(s) ==> s + seq![current.last()] == current,
        KEY_ENTER == 13,
{
    if let Some(s) = edited_by(current, event) {
        assert(s + seq![current.last()] =~= current);
    }
}

} // verus!
