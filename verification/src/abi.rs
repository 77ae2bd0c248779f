//! The host handle that other languages drive, and the checks on what they hand over.
//!
//! What crosses the boundary is not trusted. A pointer may be null and a length may be
//! anything; both are checked before memory is touched, and the bytes of a batch are checked
//! op by op when they are applied. Whatever is wrong is answered with a negative code.
use crate::cascade::{
    answers_view, hover_path_of, match_requests, requests_of, requests_view, styled, styled_of,
    Declaration, Interaction, MatchRequest,
};
use crate::chars::{
    is_white, law_trimming_takes_only_white_space, to_chars, trim, trimmed,
};
use crate::dom::Dom;
use crate::geometry::Size;
use crate::handles::{EventKind, HandlerId, NodeId};
use crate::protocol::{
    law_ops_round_trip, lemma_ops_bytes_push, op_bytes, op_fits, ops_bytes, ops_view, parse_ops, payload_bytes,
    DecodeError, EventPayload, Op, OpEncoder, OpView, F32, PROTOCOL_VERSION,
};
use crate::snapshot::{dump, dump_of};
use crate::text::{opt_string, string_from_utf8};
use crate::tree::{
    ancestors, apply_bytes, climb, empty_dom, law_below_is_having_above, lemma_finite, orderly,
    parent_of, reaches, well_formed, DomView, HostError, NodeView,
};
use crate::wire::group_le_len;
use vstd::prelude::*;
use vstd::utf8::{decode_utf8, valid_utf8};

verus! {

/// Cap on the bytes of one batch.
pub const MAX_BATCH_BYTES: usize = 1048576;

/// Bytes that always suffice to drain the queued events.
pub const MAX_EVENT_BATCH_BYTES: usize = 65536;

/// Cap on the events that are queued between drains; past it new events are dropped.
pub const MAX_PENDING_EVENTS: usize = 2048;

/// Cap on a render dimension in pixels.
pub const MAX_RENDER_DIM: u32 = 8192;

/// The request was carried out.
pub const CANOPY_OK: i32 = 0;

/// The host pointer is null.
pub const CANOPY_ERR_NULL_HOST: i32 = -1;

/// A data pointer is null.
pub const CANOPY_ERR_NULL_DATA: i32 = -2;

/// A length is over its cap, or a buffer is too small.
pub const CANOPY_ERR_TOO_LARGE: i32 = -3;

/// The bytes do not decode.
pub const CANOPY_ERR_DECODE: i32 = -4;

/// An op names a node that does not exist.
pub const CANOPY_ERR_BAD_HANDLE: i32 = -5;

/// The op is not supported on this host.
pub const CANOPY_ERR_UNSUPPORTED: i32 = -6;

/// The code of an error.
pub open spec fn code_of(e: HostError) -> i32 {
    match e {
        HostError::BadHandle => CANOPY_ERR_BAD_HANDLE,
        HostError::Decode => CANOPY_ERR_DECODE,
        HostError::Unsupported => CANOPY_ERR_UNSUPPORTED,
    }
}

/// The code of an error.
pub fn error_code(e: HostError) -> (r: i32)
    ensures
        r == code_of(e),
{
    match e {
        HostError::BadHandle => CANOPY_ERR_BAD_HANDLE,
        HostError::Decode => CANOPY_ERR_DECODE,
        HostError::Unsupported => CANOPY_ERR_UNSUPPORTED,
    }
}

/// The answer to a buffer that is handed over: it may be null only if it is empty, and it may not
/// be larger than a batch.
pub open spec fn input_code(host_is_null: bool, data_is_null: bool, len: usize) -> i32 {
    if host_is_null {
        CANOPY_ERR_NULL_HOST
    } else if len > MAX_BATCH_BYTES {
        CANOPY_ERR_TOO_LARGE
    } else if len > 0 && data_is_null {
        CANOPY_ERR_NULL_DATA
    } else {
        CANOPY_OK
    }
}

/// Check a buffer that is handed over, before it is read.
pub fn check_input(host_is_null: bool, data_is_null: bool, len: usize) -> (r: i32)
    ensures
        r == input_code(host_is_null, data_is_null, len),
{
    if host_is_null {
        CANOPY_ERR_NULL_HOST
    } else if len > MAX_BATCH_BYTES {
        CANOPY_ERR_TOO_LARGE
    } else if len > 0 && data_is_null {
        CANOPY_ERR_NULL_DATA
    } else {
        CANOPY_OK
    }
}

/// The answer to a request for output: the host and the place for the length must be there.
pub open spec fn output_code(host_is_null: bool, len_is_null: bool) -> i32 {
    if host_is_null {
        CANOPY_ERR_NULL_HOST
    } else if len_is_null {
        CANOPY_ERR_NULL_DATA
    } else {
        CANOPY_OK
    }
}

/// Check a request for output, before the length is written.
pub fn check_output(host_is_null: bool, len_is_null: bool) -> (r: i32)
    ensures
        r == output_code(host_is_null, len_is_null),
{
    if host_is_null {
        CANOPY_ERR_NULL_HOST
    } else if len_is_null {
        CANOPY_ERR_NULL_DATA
    } else {
        CANOPY_OK
    }
}

/// The answer to a buffer of `cap` bytes that is to take `needed`: too small a buffer is told
/// so, and it may be null only if there is nothing to write.
pub open spec fn copy_code(needed: usize, cap: usize, out_is_null: bool) -> i32 {
    if needed > cap {
        CANOPY_ERR_TOO_LARGE
    } else if needed > 0 && out_is_null {
        CANOPY_ERR_NULL_DATA
    } else {
        CANOPY_OK
    }
}

/// Check a buffer, before output is copied into it.
pub fn check_copy(needed: usize, cap: usize, out_is_null: bool) -> (r: i32)
    ensures
        r == copy_code(needed, cap, out_is_null),
{
    if needed > cap {
        CANOPY_ERR_TOO_LARGE
    } else if needed > 0 && out_is_null {
        CANOPY_ERR_NULL_DATA
    } else {
        CANOPY_OK
    }
}

/// The answer to a request to drain events into a buffer of `cap` bytes.
pub open spec fn poll_code(host_is_null: bool, len_is_null: bool, out_is_null: bool, cap: usize) -> i32 {
    if output_code(host_is_null, len_is_null) != CANOPY_OK {
        output_code(host_is_null, len_is_null)
    } else if cap > 0 && out_is_null {
        CANOPY_ERR_NULL_DATA
    } else {
        CANOPY_OK
    }
}

/// Check a request to drain events, before anything is drained.
pub fn check_poll(host_is_null: bool, len_is_null: bool, out_is_null: bool, cap: usize) -> (r: i32)
    ensures
        r == poll_code(host_is_null, len_is_null, out_is_null, cap),
{
    let code: i32 = check_output(host_is_null, len_is_null);
    if code != CANOPY_OK {
        return code;
    }
    if cap > 0 && out_is_null {
        CANOPY_ERR_NULL_DATA
    } else {
        CANOPY_OK
    }
}

/// The bytes of a frame, or the answer to dimensions that are zero or over the cap.
pub open spec fn frame_size(width: u32, height: u32) -> Result<usize, i32> {
    if width == 0 || height == 0 || width > MAX_RENDER_DIM || height > MAX_RENDER_DIM {
        Err(CANOPY_ERR_TOO_LARGE)
    } else {
        Ok((width * height * 4) as usize)
    }
}

/// The bytes of a frame, or the answer to dimensions that are zero or over the cap.
pub fn check_frame(width: u32, height: u32) -> (r: Result<usize, i32>)
    ensures
        r == frame_size(width, height),
{
    if width == 0 || height == 0 || width > MAX_RENDER_DIM || height > MAX_RENDER_DIM {
        return Err(CANOPY_ERR_TOO_LARGE);
    }
    assert(width * height <= 67108864) by (nonlinear_arith)
        requires
            width <= 8192,
            height <= 8192,
    ;
    Ok(width as usize * height as usize * 4)
}

/// The answer to a request for a frame, and the length to report with it, if any: the bytes of the
/// frame, once the request itself is in order.
pub open spec fn render_answer(
    host_is_null: bool,
    len_is_null: bool,
    width: u32,
    height: u32,
    cap: usize,
    out_is_null: bool,
) -> (i32, Option<usize>) {
    if output_code(host_is_null, len_is_null) != CANOPY_OK {
        (output_code(host_is_null, len_is_null), None)
    } else {
        match frame_size(width, height) {
            Ok(needed) => (copy_code(needed, cap, out_is_null), Some(needed)),
            Err(code) => (code, None),
        }
    }
}

/// Check a request for a frame, before anything is painted.
pub fn check_render(
    host_is_null: bool,
    len_is_null: bool,
    width: u32,
    height: u32,
    cap: usize,
    out_is_null: bool,
) -> (r: (i32, Option<usize>))
    ensures
        r == render_answer(host_is_null, len_is_null, width, height, cap, out_is_null),
{
    let code: i32 = check_output(host_is_null, len_is_null);
    if code != CANOPY_OK {
        return (code, None);
    }
    match check_frame(width, height) {
        Ok(needed) => (check_copy(needed, cap, out_is_null), Some(needed)),
        Err(code) => (code, None),
    }
}

/// How many nodes a host has; none, where there is no host.
pub fn live_nodes(host: Option<&CanopyHost>) -> (r: usize)
    ensures
        r == match host {
            Some(host) => host@.dom.nodes.len(),
            None => 0,
        },
{
    match host {
        Some(host) => host.node_count(),
        None => 0,
    }
}

/// The handler of a node for an event: that of its first subscription.
pub open spec fn first_handler(ls: Seq<(EventKind, HandlerId)>, event: EventKind) -> Option<HandlerId>
    decreases ls.len(),
{
    if ls.len() == 0 {
        None
    } else if ls[0].0 == event {
        Some(ls[0].1)
    } else {
        first_handler(ls.skip(1), event)
    }
}

/// The first node on a path that has a handler for an event, and the handler.
pub open spec fn nearest_handler(
    nodes: Map<u64, NodeView>,
    path: Seq<NodeId>,
    event: EventKind,
) -> Option<(NodeId, HandlerId)>
    decreases path.len(),
{
    if path.len() == 0 {
        None
    } else if !nodes.contains_key(path[0].0) {
        None
    } else {
        match first_handler(nodes[path[0].0].listeners, event) {
            Some(h) => Some((path[0], h)),
            None => nearest_handler(nodes, path.skip(1), event),
        }
    }
}

/// What a [`CanopyHost`] holds.
#[verifier::ext_equal]
pub ghost struct HostView {
    /// The retained tree.
    pub dom: DomView,
    /// The viewport that the tree is laid out within.
    pub viewport: Size<F32>,
    /// The queued events, oldest first.
    pub pending: Seq<OpView>,
    /// The number of the next batch of events.
    pub event_seq: u32,
    /// The stylesheet, if there is one.
    pub stylesheet: Option<Seq<char>>,
    /// The node under the pointer.
    pub hovered: Option<NodeId>,
    /// The node with the keyboard focus.
    pub focused: Option<NodeId>,
    /// The node being pressed.
    pub active: Option<NodeId>,
}

/// A host with nothing in it.
pub open spec fn fresh_host() -> HostView {
    HostView {
        dom: empty_dom(),
        viewport: Size { w: F32(0), h: F32(0) },
        pending: seq![],
        event_seq: 0,
        stylesheet: None,
        hovered: None,
        focused: None,
        active: None,
    }
}

/// Whether an op reports a pointer event.
pub open spec fn is_pointer_event(op: OpView) -> bool {
    op matches OpView::DispatchEvent { payload: EventPayload::Pointer { .. }, .. }
}

/// What holds of every host: its tree is well formed, and what it has queued are pointer events,
/// no more than the cap.
pub open spec fn host_wf(h: HostView) -> bool {
    &&& well_formed(h.dom)
    &&& h.pending.len() <= MAX_PENDING_EVENTS
    &&& forall|i: int| 0 <= i < h.pending.len() ==> is_pointer_event(#[trigger] h.pending[i])
}

/// How the user interacts with the tree of a host.
pub open spec fn interaction(h: HostView) -> Interaction {
    Interaction {
        hover_path: hover_path_of(h.dom.nodes, h.hovered),
        focused: h.focused,
        active: h.active,
    }
}

/// What a pointer event does that lands on `hit`: the nearest node from there up that listens for
/// it is told, unless the queue is full.
pub open spec fn after_pointer(
    h: HostView,
    hit: Option<NodeId>,
    x: F32,
    y: F32,
    button: u8,
    event: EventKind,
) -> (HostView, i32) {
    if h.pending.len() >= MAX_PENDING_EVENTS || hit is None {
        (h, 0)
    } else {
        match nearest_handler(h.dom.nodes, ancestors(h.dom.nodes, hit->0), event) {
            Some((node, handler)) => (
                HostView {
                    pending: h.pending.push(
                        OpView::DispatchEvent {
                            handler,
                            node,
                            payload: EventPayload::Pointer { x, y, button },
                        },
                    ),
                    ..h
                },
                1,
            ),
            None => (h, 0),
        }
    }
}

/// The batch that the queued events are drained as.
pub open spec fn event_batch(h: HostView) -> Seq<u8> {
    ops_bytes(
        seq![OpView::BeginBatch { version: PROTOCOL_VERSION, seq: h.event_seq }] + h.pending + seq![
            OpView::EndBatch,
        ],
    )
}

/// What draining into a buffer of `cap` bytes does: the answer, how many bytes there are, and the
/// host that remains. Nothing is drained into a buffer that is too small.
pub open spec fn after_poll(h: HostView, cap: nat) -> (HostView, i32, nat) {
    let batch = event_batch(h);
    if h.pending.len() == 0 {
        (h, CANOPY_OK, 0)
    } else if batch.len() > cap {
        (h, CANOPY_ERR_TOO_LARGE, batch.len())
    } else {
        (
            HostView { pending: seq![], event_seq: h.event_seq.wrapping_add(1), ..h },
            CANOPY_OK,
            batch.len(),
        )
    }
}

/// The host behind the handle.
pub struct CanopyHost {
    dom: Dom,
    viewport: Size<F32>,
    pending_events: Vec<Op>,
    event_seq: u32,
    stylesheet: Option<String>,
    hovered: Option<NodeId>,
    focused: Option<NodeId>,
    active: Option<NodeId>,
}

impl View for CanopyHost {
    type V = HostView;

    closed spec fn view(&self) -> HostView {
        HostView {
            dom: self.dom@,
            viewport: self.viewport,
            pending: ops_view(self.pending_events@),
            event_seq: self.event_seq,
            stylesheet: opt_string(self.stylesheet),
            hovered: self.hovered,
            focused: self.focused,
            active: self.active,
        }
    }
}

impl Default for CanopyHost {
    fn default() -> (r: CanopyHost)
        ensures
            r@ == fresh_host(),
            r.wf(),
    {
        CanopyHost::new()
    }
}

/// A host with another stylesheet; a blank one clears what is installed.
pub open spec fn with_stylesheet(h: HostView, css: Seq<char>) -> HostView {
    HostView {
        stylesheet: if trimmed(css).len() == 0 {
            None
        } else {
            Some(css)
        },
        ..h
    }
}

fn same(a: Option<NodeId>, b: Option<NodeId>) -> (r: bool)
    ensures
        r == (a == b),
{
    match (a, b) {
        (Some(x), Some(y)) => x == y,
        (None, None) => true,
        _ => false,
    }
}

impl CanopyHost {
    /// What holds of every host: see [`host_wf`].
    pub open spec fn wf(&self) -> bool {
        host_wf(self@)
    }

    /// A host with an empty tree.
    pub fn new() -> (r: CanopyHost)
        ensures
            r@ == fresh_host(),
            r.wf(),
    {
        let r = CanopyHost {
            dom: Dom::new(),
            viewport: Size { w: F32(0), h: F32(0) },
            pending_events: Vec::new(),
            event_seq: 0,
            stylesheet: None,
            hovered: None,
            focused: None,
            active: None,
        };
        assert(r@ =~= fresh_host());
        r
    }

    /// Install a stylesheet; a blank one clears what is installed.
    pub fn set_stylesheet(&mut self, css: &str)
        requires
            old(self).wf(),
        ensures
            final(self)@ == with_stylesheet(old(self)@, css@),
            final(self).wf(),
    {
        let chars = to_chars(css);
        if trim(chars.as_slice()).len() == 0 {
            self.stylesheet = None;
        } else {
            self.stylesheet = Some(css.to_owned());
        }
    }

    /// Install a stylesheet that is given as UTF-8; bytes that are no text are refused.
    pub fn set_stylesheet_bytes(&mut self, bytes: Vec<u8>) -> (r: i32)
        requires
            old(self).wf(),
        ensures
            if valid_utf8(bytes@) {
                r == CANOPY_OK && final(self)@ == with_stylesheet(old(self)@, decode_utf8(bytes@))
            } else {
                r == CANOPY_ERR_DECODE && final(self)@ == old(self)@
            },
            final(self).wf(),
    {
        match string_from_utf8(bytes) {
            Some(css) => {
                self.set_stylesheet(css.as_str());
                CANOPY_OK
            },
            None => CANOPY_ERR_DECODE,
        }
    }

    /// The stylesheet, if there is one.
    pub fn stylesheet(&self) -> (r: Option<&String>)
        ensures
            match r {
                Some(s) => self@.stylesheet == Some(s@),
                None => self@.stylesheet is None,
            },
    {
        match &self.stylesheet {
            Some(s) => Some(s),
            None => None,
        }
    }

    /// Describe the tree to the matcher of the stylesheet.
    pub fn match_requests(&self) -> (r: Vec<MatchRequest>)
        requires
            self.wf(),
        ensures
            requests_view(r@) == requests_of(self@.dom, interaction(self@)),
    {
        match_requests(&self.dom, self.hovered, self.focused, self.active)
    }

    /// The tree to lay out and paint: a copy with what the stylesheet adds, given the matcher's
    /// answers; `None` if there is no stylesheet, and the tree itself is to be used. The tree of
    /// the host stays what the guest made it.
    pub fn styled_dom(&self, answers: &Vec<Vec<Declaration>>) -> (r: Option<Dom>)
        requires
            self.wf(),
        ensures
            match r {
                Some(d) => self@.stylesheet is Some && d.wf() && d@ == styled_of(
                    self@.dom,
                    requests_of(self@.dom, interaction(self@)),
                    answers_view(answers@),
                ),
                None => self@.stylesheet is None,
            },
    {
        if self.stylesheet.is_none() {
            return None;
        }
        let requests = self.match_requests();
        Some(styled(&self.dom, &requests, answers))
    }

    /// Record which node is under the pointer; whether it changed.
    pub fn set_hover(&mut self, hit: Option<NodeId>) -> (r: bool)
        requires
            old(self).wf(),
        ensures
            final(self)@ == (HostView { hovered: hit, ..old(self)@ }),
            r == (hit != old(self)@.hovered),
            final(self).wf(),
    {
        if same(hit, self.hovered) {
            return false;
        }
        self.hovered = hit;
        true
    }

    /// Record which node has the keyboard focus; whether it changed.
    pub fn set_focus(&mut self, node: Option<NodeId>) -> (r: bool)
        requires
            old(self).wf(),
        ensures
            final(self)@ == (HostView { focused: node, ..old(self)@ }),
            r == (node != old(self)@.focused),
            final(self).wf(),
    {
        if same(node, self.focused) {
            return false;
        }
        self.focused = node;
        true
    }

    /// Record which node is being pressed; whether it changed.
    pub fn set_active(&mut self, node: Option<NodeId>) -> (r: bool)
        requires
            old(self).wf(),
        ensures
            final(self)@ == (HostView { active: node, ..old(self)@ }),
            r == (node != old(self)@.active),
            final(self).wf(),
    {
        if same(node, self.active) {
            return false;
        }
        self.active = node;
        true
    }

    /// Set the viewport that the tree is laid out within.
    pub fn set_viewport(&mut self, width: F32, height: F32)
        requires
            old(self).wf(),
        ensures
            final(self)@ == (HostView { viewport: Size { w: width, h: height }, ..old(self)@ }),
            final(self).wf(),
    {
        self.viewport = Size { w: width, h: height };
    }

    /// The viewport that the tree is laid out within.
    pub fn viewport(&self) -> (r: Size<F32>)
        ensures
            r == self@.viewport,
    {
        self.viewport
    }

    /// Deliver a pointer event that lands on `hit`: queue it for the nearest node from there up
    /// that listens for it. How many events were queued.
    pub fn pointer_event(
        &mut self,
        hit: Option<NodeId>,
        x: F32,
        y: F32,
        button: u8,
        event: u16,
    ) -> (r: i32)
        requires
            old(self).wf(),
        ensures
            (final(self)@, r) == after_pointer(old(self)@, hit, x, y, button, EventKind(event)),
            final(self).wf(),
    {
        if self.pending_events.len() >= MAX_PENDING_EVENTS {
            return 0;
        }
        let hit = match hit {
            Some(n) => n,
            None => {
                return 0;
            },
        };
        match self.listener(hit, EventKind(event)) {
            Some((node, handler)) => {
                let op = Op::DispatchEvent {
                    handler,
                    node,
                    payload: EventPayload::Pointer { x, y, button },
                };
                let ghost before = self.pending_events@;
                self.pending_events.push(op);
                proof {
                    assert(ops_view(self.pending_events@) =~= ops_view(before).push(op@));
                    assert forall|i: int| 0 <= i < self@.pending.len() implies is_pointer_event(
                        #[trigger] self@.pending[i],
                    ) by {
                        if i < old(self)@.pending.len() {
                            assert(self@.pending[i] == old(self)@.pending[i]);
                        }
                    }
                }
                1
            },
            None => 0,
        }
    }

    /// The nearest node from `hit` up that listens for an event, and its handler.
    fn listener(&self, hit: NodeId, event: EventKind) -> (r: Option<(NodeId, HandlerId)>)
        requires
            self.wf(),
        ensures
            r == nearest_handler(self@.dom.nodes, ancestors(self@.dom.nodes, hit), event),
    {
        let path = self.dom.ancestors(hit);
        let ghost nodes = self@.dom.nodes;
        let mut i: usize = 0;
        assert(path@.skip(0) =~= path@);
        while i < path.len()
            invariant
                i <= path@.len(),
                nodes == self@.dom.nodes,
                path@ == ancestors(nodes, hit),
                nearest_handler(nodes, path@, event) == nearest_handler(
                    nodes,
                    path@.skip(i as int),
                    event,
                ),
            decreases path@.len() - i,
        {
            assert(path@.skip(i as int)[0] == path@[i as int]);
            assert(path@.skip(i as int).skip(1) =~= path@.skip(i + 1));
            let node = match self.dom.node(path[i]) {
                Some(n) => n,
                None => {
                    return None;
                },
            };
            if let Some(h) = find_handler(&node.listeners, event) {
                return Some((path[i], h));
            }
            i += 1;
        }
        None
    }

    /// Drain the queued events as one batch into the front of `out`. The answer, and how many
    /// bytes there are; nothing is drained if they do not fit.
    pub fn poll_events_into(&mut self, out: &mut Vec<u8>) -> (r: (i32, usize))
        requires
            old(self).wf(),
        ensures
            (final(self)@, r.0, r.1 as nat) == after_poll(old(self)@, old(out)@.len()),
            final(out)@ == (if r.0 == CANOPY_OK && r.1 > 0 {
                event_batch(old(self)@) + old(out)@.skip(r.1 as int)
            } else {
                old(out)@
            }),
            final(self).wf(),
    {
        if self.pending_events.len() == 0 {
            return (CANOPY_OK, 0);
        }
        let bytes = self.encode_events();
        if bytes.len() > out.len() {
            return (CANOPY_ERR_TOO_LARGE, bytes.len());
        }
        let ghost before = out@;
        let mut i: usize = 0;
        while i < bytes.len()
            invariant
                i <= bytes@.len() <= before.len(),
                out@ == bytes@.take(i as int) + before.skip(i as int),
            decreases bytes@.len() - i,
        {
            out.set(i, bytes[i]);
            i += 1;
            assert(out@ =~= bytes@.take(i as int) + before.skip(i as int));
        }
        assert(bytes@.take(i as int) =~= bytes@);
        self.pending_events = Vec::new();
        self.event_seq = self.event_seq.wrapping_add(1);
        assert(self@.pending =~= seq![]);
        assert(bytes@.len() > 0) by {
            lemma_event_batch_len(old(self)@);
        }
        (CANOPY_OK, bytes.len())
    }

    /// The batch that the queued events are drained as.
    fn encode_events(&self) -> (r: Vec<u8>)
        requires
            self.wf(),
        ensures
            r@ == event_batch(self@),
    {
        let mut enc = OpEncoder::new();
        enc.begin_batch(self.event_seq);
        let ghost begin = OpView::BeginBatch { version: PROTOCOL_VERSION, seq: self.event_seq };
        let ghost all = self@.pending;
        let mut i: usize = 0;
        proof {
            lemma_ops_bytes_push(seq![], begin);
            assert(seq![begin] + all.take(0) =~= Seq::<OpView>::empty().push(begin));
            assert(ops_bytes(Seq::<OpView>::empty()) =~= seq![]);
        }
        while i < self.pending_events.len()
            invariant
                i <= self.pending_events@.len(),
                all == ops_view(self.pending_events@),
                enc@ == ops_bytes(seq![begin] + all.take(i as int)),
            decreases self.pending_events@.len() - i,
        {
            proof {
                lemma_ops_bytes_push(seq![begin] + all.take(i as int), all[i as int]);
                assert(seq![begin] + all.take(i + 1) =~= (seq![begin] + all.take(i as int)).push(
                    all[i as int],
                ));
            }
            enc.push(&self.pending_events[i]);
            i += 1;
        }
        proof {
            assert(all.take(i as int) =~= all);
            lemma_ops_bytes_push(seq![begin] + all, OpView::EndBatch);
            assert(seq![begin] + all + seq![OpView::EndBatch] =~= (seq![begin] + all).push(
                OpView::EndBatch,
            ));
        }
        enc.end_batch();
        enc.into_bytes()
    }

    /// Apply one batch of op bytes; the answer is zero or the code of the error.
    pub fn apply_bytes(&mut self, bytes: &[u8]) -> (r: i32)
        requires
            old(self).wf(),
        ensures
            ({
                let (dom, result) = apply_bytes(old(self)@.dom, bytes@, 0);
                &&& final(self)@ == (HostView { dom, ..old(self)@ })
                &&& r == (match result {
                    Ok(_) => CANOPY_OK,
                    Err(e) => code_of(e),
                })
            }),
            final(self).wf(),
    {
        match self.dom.apply(bytes) {
            Ok(_) => CANOPY_OK,
            Err(e) => error_code(e),
        }
    }

    /// Number of live nodes.
    pub fn node_count(&self) -> (r: usize)
        ensures
            r == self@.dom.nodes.len(),
    {
        self.dom.node_count()
    }

    /// The retained tree.
    pub fn dom(&self) -> (r: &Dom)
        ensures
            r@ == self@.dom,
    {
        &self.dom
    }

    /// A readable dump of the tree, the same for the same tree.
    pub fn debug_snapshot(&self) -> (r: String)
        requires
            self.wf(),
        ensures
            r@ == dump_of(self@.dom),
    {
        dump(&self.dom)
    }
}

fn find_handler(ls: &Vec<(EventKind, HandlerId)>, event: EventKind) -> (r: Option<HandlerId>)
    ensures
        r == first_handler(ls@, event),
{
    let mut i: usize = 0;
    assert(ls@.skip(0) =~= ls@);
    while i < ls.len()
        invariant
            i <= ls@.len(),
            first_handler(ls@, event) == first_handler(ls@.skip(i as int), event),
        decreases ls@.len() - i,
    {
        assert(ls@.skip(i as int)[0] == ls@[i as int]);
        assert(ls@.skip(i as int).skip(1) =~= ls@.skip(i + 1));
        if ls[i].0 == event {
            return Some(ls[i].1);
        }
        i += 1;
    }
    None
}

proof fn lemma_events_len(ops: Seq<OpView>)
    requires
        forall|i: int| 0 <= i < ops.len() ==> is_pointer_event(#[trigger] ops[i]),
    ensures
        ops_bytes(ops).len() == 23 * ops.len(),
    decreases ops.len(),
{
    broadcast use group_le_len;

    if ops.len() > 0 {
        assert(is_pointer_event(ops[0]));
        let rest = ops.drop_first();
        assert forall|i: int| 0 <= i < rest.len() implies is_pointer_event(#[trigger] rest[i]) by {
            assert(rest[i] == ops[i + 1]);
        }
        lemma_events_len(rest);
        let op = ops[0];
        if let OpView::DispatchEvent { handler, node, payload } = op {
            assert(payload_bytes(payload).len() == 10);
            assert(op_bytes(op).len() == 23);
        }
    }
}

proof fn lemma_event_batch_len(h: HostView)
    requires
        host_wf(h),
    ensures
        event_batch(h).len() == 23 * h.pending.len() + 8,
{
    broadcast use group_le_len;

    let begin = OpView::BeginBatch { version: PROTOCOL_VERSION, seq: h.event_seq };
    let end = OpView::EndBatch;
    let all = seq![begin] + h.pending + seq![end];
    assert(all =~= (seq![begin] + h.pending).push(end));
    lemma_ops_bytes_push(seq![begin] + h.pending, end);
    assert((seq![begin] + h.pending)[0] == begin);
    assert((seq![begin] + h.pending).drop_first() =~= h.pending);
    lemma_events_len(h.pending);
    assert(op_bytes(begin).len() == 7);
    assert(op_bytes(end).len() == 1);
}

/// However many events are queued, a buffer of [`MAX_EVENT_BATCH_BYTES`] takes them all in one
/// call.
pub proof fn law_event_buffer_suffices(h: HostView)
    requires
        host_wf(h),
    ensures
        event_batch(h).len() <= MAX_EVENT_BATCH_BYTES,
        ({
            let (after, code, _) = after_poll(h, MAX_EVENT_BATCH_BYTES as nat);
            code == CANOPY_OK && after.pending.len() == 0
        }),
{
    lemma_event_batch_len(h);
}

/// Draining twice in a row yields nothing the second time.
pub proof fn law_drained_queue_is_empty(h: HostView, cap: nat)
    requires
        host_wf(h),
        after_poll(h, cap).1 == CANOPY_OK,
    ensures
        ({
            let rest = after_poll(h, cap).0;
            after_poll(rest, cap) == (rest, CANOPY_OK, 0nat)
        }),
{
}

/// A queue that is full drops further events until it is drained.
pub proof fn law_full_queue_drops_events(
    h: HostView,
    hit: Option<NodeId>,
    x: F32,
    y: F32,
    button: u8,
    event: EventKind,
)
    requires
        h.pending.len() == MAX_PENDING_EVENTS,
    ensures
        after_pointer(h, hit, x, y, button, event) == (h, 0i32),
{
}

/// What is drained reads back as the queued events, in order, between the marks of a batch.
pub proof fn law_drained_events_read_back(h: HostView)
    requires
        host_wf(h),
    ensures
        parse_ops(event_batch(h), 0) == Ok::<Seq<OpView>, DecodeError>(
            seq![OpView::BeginBatch { version: PROTOCOL_VERSION, seq: h.event_seq }] + h.pending
                + seq![OpView::EndBatch],
        ),
{
    let begin = OpView::BeginBatch { version: PROTOCOL_VERSION, seq: h.event_seq };
    let ops = seq![begin] + h.pending + seq![OpView::EndBatch];
    assert forall|i: int| 0 <= i < ops.len() implies op_fits(#[trigger] ops[i]) by {
        if 0 < i <= h.pending.len() {
            assert(is_pointer_event(h.pending[i - 1]));
        }
    }
    law_ops_round_trip(ops);
}

/// Whether a node has a subscription for an event.
pub open spec fn listens(nodes: Map<u64, NodeView>, n: NodeId, event: EventKind) -> bool {
    nodes.contains_key(n.0) && exists|k: int|
        0 <= k < nodes[n.0].listeners.len() && (#[trigger] nodes[n.0].listeners[k]).0 == event
}

proof fn lemma_first_handler(ls: Seq<(EventKind, HandlerId)>, event: EventKind) -> (at: int)
    ensures
        match first_handler(ls, event) {
            Some(h) => {
                &&& 0 <= at < ls.len()
                &&& ls[at] == (event, h)
                &&& forall|k: int| 0 <= k < at ==> (#[trigger] ls[k]).0 != event
            },
            None => forall|k: int| 0 <= k < ls.len() ==> (#[trigger] ls[k]).0 != event,
        },
    decreases ls.len(),
{
    if ls.len() == 0 || ls[0].0 == event {
        0
    } else {
        let rest = ls.skip(1);
        let at = lemma_first_handler(rest, event);
        match first_handler(rest, event) {
            Some(h) => {
                assert(ls[at + 1] == rest[at]);
                assert forall|k: int| 0 <= k < at + 1 implies (#[trigger] ls[k]).0 != event by {
                    if k > 0 {
                        assert(ls[k] == rest[k - 1]);
                    }
                }
            },
            None => {
                assert forall|k: int| 0 <= k < ls.len() implies (#[trigger] ls[k]).0 != event by {
                    if k > 0 {
                        assert(ls[k] == rest[k - 1]);
                    }
                }
            },
        }
        at + 1
    }
}

proof fn lemma_nearest_handler(nodes: Map<u64, NodeView>, path: Seq<NodeId>, event: EventKind) -> (at: (
    int,
    int,
))
    requires
        forall|i: int|
            0 <= i < path.len() - 1 ==> nodes.contains_key((#[trigger] path[i]).0),
    ensures
        match nearest_handler(nodes, path, event) {
            Some((n, h)) => {
                &&& 0 <= at.0 < path.len()
                &&& path[at.0] == n
                &&& nodes.contains_key(n.0)
                &&& 0 <= at.1 < nodes[n.0].listeners.len()
                &&& nodes[n.0].listeners[at.1] == (event, h)
                &&& forall|k: int|
                    0 <= k < at.1 ==> (#[trigger] nodes[n.0].listeners[k]).0 != event
                &&& forall|i: int| 0 <= i < at.0 ==> !listens(nodes, #[trigger] path[i], event)
            },
            None => forall|i: int|
                0 <= i < path.len() ==> !listens(nodes, #[trigger] path[i], event),
        },
    decreases path.len(),
{
    if path.len() == 0 || !nodes.contains_key(path[0].0) {
        (0, 0)
    } else {
        let k = lemma_first_handler(nodes[path[0].0].listeners, event);
        if first_handler(nodes[path[0].0].listeners, event) is Some {
            (0, k)
        } else {
            let rest = path.skip(1);
            assert forall|i: int| 0 <= i < rest.len() - 1 implies nodes.contains_key(
                (#[trigger] rest[i]).0,
            ) by {
                assert(rest[i] == path[i + 1]);
            }
            let at = lemma_nearest_handler(nodes, rest, event);
            assert forall|i: int|
                0 <= i < path.len() && (nearest_handler(nodes, rest, event) is None || i < at.0
                    + 1) implies !listens(nodes, #[trigger] path[i], event) by {
                if i > 0 {
                    assert(path[i] == rest[i - 1]);
                }
            }
            (at.0 + 1, at.1)
        }
    }
}

proof fn lemma_climb_is_live(nodes: Map<u64, NodeView>, n: NodeId, left: Set<u64>)
    ensures
        climb(nodes, n, left).len() > 0,
        climb(nodes, n, left)[0] == n,
        forall|i: int|
            0 <= i < climb(nodes, n, left).len() - 1 ==> nodes.contains_key(
                (#[trigger] climb(nodes, n, left)[i]).0,
            ),
    decreases left.len(),
{
    lemma_finite(left);
    let all = climb(nodes, n, left);
    if left.contains(n.0) {
        if let Some(p) = parent_of(nodes, n) {
            let rest = left.remove(n.0);
            lemma_climb_is_live(nodes, p, rest);
            let up = climb(nodes, p, rest);
            assert forall|i: int| 0 <= i < all.len() - 1 implies nodes.contains_key(
                (#[trigger] all[i]).0,
            ) by {
                if i > 0 {
                    assert(all[i] == up[i - 1]);
                }
            }
        }
    }
}

/// A pointer event is told to the nearest listener: the node that is told stands on the way up from
/// the node that was hit, it has a subscription for the event, the first of which is used, and no
/// node before it on that way has one. A node that was hit and listens itself is the one told.
/// Where nobody on the way listens, nothing is queued. Nothing but the queue changes.
pub proof fn law_events_go_to_the_nearest_listener(
    h: HostView,
    hit: NodeId,
    x: F32,
    y: F32,
    button: u8,
    event: EventKind,
) -> (at: (int, int))
    requires
        h.pending.len() < 2048,
    ensures
        ({
            let nodes = h.dom.nodes;
            let path = ancestors(nodes, hit);
            let (after, told) = after_pointer(h, Some(hit), x, y, button, event);
            &&& path.len() > 0 && path[0] == hit
            &&& told == 0 || told == 1
            &&& told == 0 <==> forall|i: int|
                0 <= i < path.len() ==> !listens(nodes, #[trigger] path[i], event)
            &&& told == 0 ==> after == h
            &&& told == 1 ==> {
                let (i, k) = at;
                &&& 0 <= i < path.len()
                &&& nodes.contains_key(path[i].0)
                &&& forall|j: int| 0 <= j < i ==> !listens(nodes, #[trigger] path[j], event)
                &&& 0 <= k < nodes[path[i].0].listeners.len()
                &&& nodes[path[i].0].listeners[k].0 == event
                &&& forall|j: int|
                    0 <= j < k ==> (#[trigger] nodes[path[i].0].listeners[j]).0 != event
                &&& after == (HostView {
                    pending: h.pending.push(
                        OpView::DispatchEvent {
                            handler: nodes[path[i].0].listeners[k].1,
                            node: path[i],
                            payload: EventPayload::Pointer { x, y, button },
                        },
                    ),
                    ..h
                })
                &&& listens(nodes, hit, event) ==> i == 0
            }
        }),
{
    let nodes = h.dom.nodes;
    let path = ancestors(nodes, hit);
    lemma_climb_is_live(nodes, hit, nodes.dom());
    let at = lemma_nearest_handler(nodes, path, event);
    if let Some((n, handler)) = nearest_handler(nodes, path, event) {
        assert(nodes[path[at.0].0].listeners[at.1].0 == event);
        assert(listens(nodes, path[at.0], event));
        if listens(nodes, hit, event) && at.0 > 0 {
            assert(!listens(nodes, path[0], event));
        }
    }
    at
}

/// Events that hit nothing, and events that come when the queue is full, are dropped.
pub proof fn law_lost_events_change_nothing(
    h: HostView,
    hit: Option<NodeId>,
    x: F32,
    y: F32,
    button: u8,
    event: EventKind,
)
    requires
        hit is None || h.pending.len() >= 2048,
    ensures
        after_pointer(h, hit, x, y, button, event) == (h, 0i32),
{
}

/// Which buffers and lengths are turned down, and how: no host is -1, no data -2, and what is too
/// large -3. What is wrong with the host is told before what is wrong with the data. Refused batches
/// have codes of their own.
pub proof fn law_bad_requests_are_told_apart(
    no_host: bool,
    no_data: bool,
    len: usize,
    cap: usize,
    width: u32,
    height: u32,
)
    ensures
        no_host ==> input_code(no_host, no_data, len) == -1 && output_code(no_host, no_data) == -1,
        !no_host && no_data && 0 < len <= 1048576 ==> input_code(no_host, no_data, len) == -2,
        !no_host && no_data ==> output_code(no_host, no_data) == -2,
        !no_host && len > 1048576 ==> input_code(no_host, no_data, len) == -3,
        !no_host && len == 0 ==> input_code(no_host, no_data, len) == 0,
        !no_host && !no_data && len <= 1048576 ==> input_code(no_host, no_data, len) == 0,
        !no_host && !no_data ==> output_code(no_host, no_data) == 0,
        len > cap ==> copy_code(len, cap, no_data) == -3,
        len <= cap && len > 0 && no_data ==> copy_code(len, cap, no_data) == -2,
        len <= cap && !no_data ==> copy_code(len, cap, no_data) == 0,
        1 <= width <= 8192 && 1 <= height <= 8192 <==> frame_size(width, height) is Ok,
        frame_size(width, height) matches Ok(n) ==> n == width * height * 4,
        frame_size(width, height) matches Err(code) ==> code == -3,
        code_of(HostError::Decode) == -4,
        code_of(HostError::BadHandle) == -5,
        code_of(HostError::Unsupported) == -6,
{
    if 1 <= width <= 8192 && 1 <= height <= 8192 {
        assert(width * height <= 67108864) by (nonlinear_arith)
            requires
                width <= 8192,
                height <= 8192,
        ;
    }
}

/// A request for events or for a frame is looked at from the outside in: first the host, then the place
/// for the length, then the size of the frame, then the buffer. The length of a frame is told as soon
/// as its size is in order.
pub proof fn law_requests_are_checked_in_order(
    no_host: bool,
    no_len: bool,
    no_out: bool,
    width: u32,
    height: u32,
    cap: usize,
)
    ensures
        no_host ==> poll_code(no_host, no_len, no_out, cap) == -1,
        !no_host && no_len ==> poll_code(no_host, no_len, no_out, cap) == -2,
        !no_host && !no_len && no_out && cap > 0 ==> poll_code(no_host, no_len, no_out, cap) == -2,
        !no_host && !no_len && (!no_out || cap == 0) ==> poll_code(no_host, no_len, no_out, cap) == 0,
        ({
            let (code, told) = render_answer(no_host, no_len, width, height, cap, no_out);
            let n = width * height * 4;
            let in_order = !no_host && !no_len && 1 <= width <= 8192 && 1 <= height <= 8192;
            &&& no_host ==> code == -1
            &&& !no_host && no_len ==> code == -2
            &&& !no_host && !no_len && !in_order ==> code == -3
            &&& told is Some <==> in_order
            &&& told matches Some(t) ==> t == n
            &&& in_order && n > cap ==> code == -3
            &&& in_order && n <= cap && no_out ==> code == -2
            &&& in_order && n <= cap && !no_out ==> code == 0
        }),
{
    law_bad_requests_are_told_apart(no_host, no_len, 0, cap, width, height);
    if 1 <= width <= 8192 && 1 <= height <= 8192 {
        assert(1 <= width * height <= 67108864) by (nonlinear_arith)
            requires
                1 <= width <= 8192,
                1 <= height <= 8192,
        ;
    }
}

/// Events are drained all at once or not at all. A buffer that is too small is told how many bytes
/// there are, and the events stay queued; where none is queued there is nothing to say. Batches are
/// numbered one after the other, and draining changes nothing else of the host.
pub proof fn law_polls_drain_everything_or_nothing(h: HostView, cap: nat)
    ensures
        ({
            let (after, code, n) = after_poll(h, cap);
            let batch = event_batch(h);
            &&& h.pending.len() == 0 ==> after == h && code == 0 && n == 0
            &&& h.pending.len() > 0 ==> n == batch.len()
            &&& h.pending.len() > 0 && batch.len() > cap ==> after == h && code == -3
            &&& h.pending.len() > 0 && batch.len() <= cap ==> {
                &&& code == 0
                &&& after.pending.len() == 0
                &&& h.event_seq < u32::MAX ==> after.event_seq == h.event_seq + 1
                &&& h.event_seq == u32::MAX ==> after.event_seq == 0
                &&& after == (HostView { pending: after.pending, event_seq: after.event_seq, ..h })
            }
        }),
{
    assert(after_poll(h, cap).0 =~= HostView {
        pending: after_poll(h, cap).0.pending,
        event_seq: after_poll(h, cap).0.event_seq,
        ..h
    });
}

/// A stylesheet of white space alone, or of nothing, clears what is installed; any other is installed
/// as it is. Nothing else of the host changes.
pub proof fn law_blank_stylesheets_clear(h: HostView, css: Seq<char>)
    ensures
        with_stylesheet(h, css).stylesheet is None <==> forall|i: int|
            0 <= i < css.len() ==> is_white(#[trigger] css[i]),
        with_stylesheet(h, css).stylesheet matches Some(s) ==> s == css,
        with_stylesheet(h, css) == (HostView {
            stylesheet: with_stylesheet(h, css).stylesheet,
            ..h
        }),
{
    let (from, to) = law_trimming_takes_only_white_space(css);
    if from < to {
        assert(!is_white(css[from]));
    }
}

/// To the stylesheet a node is hovered where the pointer is over it or over something below it, and
/// focused or active where it is the one.
pub proof fn law_hosts_tell_who_is_hovered(h: HostView, n: NodeId)
    requires
        well_formed(h.dom),
        orderly(h.dom),
    ensures
        interaction(h).hover_path.contains(n) <==> h.hovered is Some && reaches(
            h.dom.nodes,
            n,
            h.hovered->0,
        ),
        interaction(h).focused == h.focused,
        interaction(h).active == h.active,
{
    if let Some(x) = h.hovered {
        law_below_is_having_above(h.dom, n, x);
    }
}

/// A host begins with nothing: no node, no event, no stylesheet, nothing hovered, focused or active,
/// and a viewport without extent.
pub proof fn law_hosts_begin_empty()
    ensures
        ({
            let h = fresh_host();
            &&& forall|k: u64| !(#[trigger] h.dom.nodes.contains_key(k))
            &&& forall|k: u32| !(#[trigger] h.dom.strings.contains_key(k))
            &&& h.dom.roots.len() == 0
            &&& h.pending.len() == 0
            &&& h.event_seq == 0
            &&& h.stylesheet is None
            &&& h.hovered is None && h.focused is None && h.active is None
            &&& h.viewport.w.0 == 0 && h.viewport.h.0 == 0
        }),
{
}

} // verus!
