//! Opaque handles. A handle is an integer that names something on the other side of the
//! op-stream; holding one grants nothing, since the host checks each handle it receives.
use vstd::prelude::*;

verus! {

/// Node handle. The sentinel [`NodeId::null`] means "no node" (as an insert anchor: append).
#[derive(Clone, Copy, PartialEq, Eq, PartialOrd, Ord, Hash, Debug, Structural)]
pub struct NodeId(pub u64);

impl NodeId {
    /// Wrap a raw value.
    pub fn new(raw: u64) -> (r: NodeId)
        ensures
            r == NodeId(raw),
    {
        NodeId(raw)
    }

    /// The underlying raw value.
    pub fn raw(self) -> (r: u64)
        ensures
            r == self.0,
    {
        self.0
    }
}

/// Interned-string id. A string is sent once and then referenced by id.
#[derive(Clone, Copy, PartialEq, Eq, PartialOrd, Ord, Hash, Debug, Structural)]
pub struct StrId(pub u32);

impl StrId {
    /// Wrap a raw value.
    pub fn new(raw: u32) -> (r: StrId)
        ensures
            r == StrId(raw),
    {
        StrId(raw)
    }

    /// The underlying raw value.
    pub fn raw(self) -> (r: u32)
        ensures
            r == self.0,
    {
        self.0
    }
}

/// Event-handler id, minted by the guest and echoed back with each event.
#[derive(Clone, Copy, PartialEq, Eq, PartialOrd, Ord, Hash, Debug, Structural)]
pub struct HandlerId(pub u32);

impl HandlerId {
    /// Wrap a raw value.
    pub fn new(raw: u32) -> (r: HandlerId)
        ensures
            r == HandlerId(raw),
    {
        HandlerId(raw)
    }

    /// The underlying raw value.
    pub fn raw(self) -> (r: u32)
        ensures
            r == self.0,
    {
        self.0
    }
}

/// Resource (image, font, blob) id.
#[derive(Clone, Copy, PartialEq, Eq, PartialOrd, Ord, Hash, Debug, Structural)]
pub struct ResId(pub u32);

impl ResId {
    /// Wrap a raw value.
    pub fn new(raw: u32) -> (r: ResId)
        ensures
            r == ResId(raw),
    {
        ResId(raw)
    }

    /// The underlying raw value.
    pub fn raw(self) -> (r: u32)
        ensures
            r == self.0,
    {
        self.0
    }
}

/// Element kind. Values are assigned by the host widget registry.
#[derive(Clone, Copy, PartialEq, Eq, PartialOrd, Ord, Hash, Debug, Structural)]
pub struct ElementTag(pub u16);

impl ElementTag {
    /// Wrap a raw value.
    pub fn new(raw: u16) -> (r: ElementTag)
        ensures
            r == ElementTag(raw),
    {
        ElementTag(raw)
    }

    /// The underlying raw value.
    pub fn raw(self) -> (r: u16)
        ensures
            r == self.0,
    {
        self.0
    }
}

/// Attribute name id.
#[derive(Clone, Copy, PartialEq, Eq, PartialOrd, Ord, Hash, Debug, Structural)]
pub struct AttrId(pub u16);

impl AttrId {
    /// Wrap a raw value.
    pub fn new(raw: u16) -> (r: AttrId)
        ensures
            r == AttrId(raw),
    {
        AttrId(raw)
    }

    /// The underlying raw value.
    pub fn raw(self) -> (r: u16)
        ensures
            r == self.0,
    {
        self.0
    }
}

/// CSS property id.
#[derive(Clone, Copy, PartialEq, Eq, PartialOrd, Ord, Hash, Debug, Structural)]
pub struct PropId(pub u16);

impl PropId {
    /// Wrap a raw value.
    pub fn new(raw: u16) -> (r: PropId)
        ensures
            r == PropId(raw),
    {
        PropId(raw)
    }

    /// The underlying raw value.
    pub fn raw(self) -> (r: u16)
        ensures
            r == self.0,
    {
        self.0
    }
}

/// Event kind id.
#[derive(Clone, Copy, PartialEq, Eq, PartialOrd, Ord, Hash, Debug, Structural)]
pub struct EventKind(pub u16);

impl EventKind {
    /// Wrap a raw value.
    pub fn new(raw: u16) -> (r: EventKind)
        ensures
            r == EventKind(raw),
    {
        EventKind(raw)
    }

    /// The underlying raw value.
    pub fn raw(self) -> (r: u16)
        ensures
            r == self.0,
    {
        self.0
    }
}

/// Raw value of the implicit root that top-level nodes are inserted under. Real nodes are
/// numbered from 1, so it is never one of them.
pub const ROOT: u64 = 0;

impl NodeId {
    /// Raw value of the "no node" sentinel.
    pub const NULL: u64 = 0xffff_ffff_ffff_ffff;

    /// The "no node" sentinel: as the anchor of an insertion it means "append".
    pub fn null() -> (r: NodeId)
        ensures
            r == NodeId(NodeId::NULL),
    {
        NodeId(NodeId::NULL)
    }

    /// The implicit host root, [`ROOT`].
    pub fn root() -> (r: NodeId)
        ensures
            r == NodeId(ROOT),
    {
        NodeId(ROOT)
    }

    /// Whether this is the "no node" sentinel.
    pub fn is_null(self) -> (r: bool)
        ensures
            r == (self.0 == NodeId::NULL),
    {
        self.0 == NodeId::NULL
    }
}

impl AttrId {
    /// Raw value of the attribute that holds an element's CSS id.
    pub const ID: u16 = 1;
}

} // verus!
