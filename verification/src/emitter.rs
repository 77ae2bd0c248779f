//! The guest's op builder: it allocates node handles, interns strings, and accumulates ops
//! until a batch is taken.
use crate::handles::{AttrId, ElementTag, EventKind, HandlerId, NodeId, PropId, StrId};
use crate::protocol::{
    lemma_ops_bytes_push, ops_bytes, ops_view, Op, OpEncoder, OpView, PROTOCOL_VERSION,
};
use crate::text::{str_eq, strings_chars};
use crate::tree::string_of;
use vstd::prelude::*;
use vstd::slice::slice_to_vec;
use vstd::utf8::encode_utf8;

verus! {

/// What an emitter holds.
#[verifier::ext_equal]
pub ghost struct EmitterView {
    /// The next node handle.
    pub next_node: u64,
    /// The interned strings: the id of each is its index.
    pub strings: Seq<Seq<char>>,
    /// The ops since the last batch.
    pub pending: Seq<OpView>,
}

/// An emitter that has emitted nothing. Handles start at 1, since 0 is the host root.
pub open spec fn fresh_emitter() -> EmitterView {
    EmitterView { next_node: 1, strings: seq![], pending: seq![] }
}

/// The emitter with one more op pending.
pub open spec fn emitted(e: EmitterView, op: OpView) -> EmitterView {
    EmitterView { pending: e.pending.push(op), ..e }
}

/// The emitter that has allocated one more handle.
pub open spec fn allocated(e: EmitterView) -> EmitterView {
    EmitterView { next_node: (e.next_node + 1) as u64, ..e }
}

/// The emitter that knows `s`: the string is sent the first time it is seen.
pub open spec fn interned(e: EmitterView, s: Seq<char>) -> EmitterView {
    if e.strings.contains(s) {
        e
    } else {
        EmitterView {
            strings: e.strings.push(s),
            pending: e.pending.push(
                OpView::InternString {
                    id: StrId(e.strings.len() as u32),
                    bytes: encode_utf8(s),
                },
            ),
            ..e
        }
    }
}

/// The id of `s`, once it is interned.
pub open spec fn string_id(e: EmitterView, s: Seq<char>) -> StrId {
    match e.strings.index_of_first(s) {
        Some(i) => StrId(i as u32),
        None => StrId(e.strings.len() as u32),
    }
}

/// The emitter that has created an element; its handle is the next one.
pub open spec fn with_element(e: EmitterView, tag: ElementTag) -> EmitterView {
    emitted(allocated(e), OpView::CreateElement { node: NodeId(e.next_node), tag })
}

/// The emitter that has created a text node; its handle is the next one.
pub open spec fn with_text(e: EmitterView, s: Seq<char>) -> EmitterView {
    emitted(
        interned(allocated(e), s),
        OpView::CreateText { node: NodeId(e.next_node), text: string_id(e, s) },
    )
}

/// The emitter that has inserted a node.
pub open spec fn with_insert(
    e: EmitterView,
    parent: NodeId,
    child: NodeId,
    anchor: NodeId,
) -> EmitterView {
    emitted(e, OpView::InsertBefore { parent, child, anchor })
}

/// The emitter that has set a text.
pub open spec fn with_set_text(e: EmitterView, node: NodeId, s: Seq<char>) -> EmitterView {
    emitted(interned(e, s), OpView::SetText { node, text: string_id(e, s) })
}

/// The ops of a batch: the pending ops in their bracket.
pub open spec fn batch_ops(e: EmitterView, seq: u32) -> Seq<OpView> {
    seq![OpView::BeginBatch { version: PROTOCOL_VERSION, seq }] + e.pending + seq![OpView::EndBatch]
}

/// Builds a batched op-stream.
pub struct Emitter {
    next_node: u64,
    strings: Vec<String>,
    pending: Vec<Op>,
}

impl View for Emitter {
    type V = EmitterView;

    closed spec fn view(&self) -> EmitterView {
        EmitterView {
            next_node: self.next_node,
            strings: strings_chars(self.strings@),
            pending: ops_view(self.pending@),
        }
    }
}

impl Default for Emitter {
    fn default() -> (r: Emitter)
        ensures
            r@ == fresh_emitter(),
            r.wf(),
    {
        Emitter::new()
    }
}

impl Emitter {
    /// No string is interned twice, every string id fits in its 32 bits, and handle 0 is not
    /// handed out.
    pub open spec fn wf(&self) -> bool {
        emitter_wf(self@)
    }

    /// An emitter that has emitted nothing.
    pub fn new() -> (r: Emitter)
        ensures
            r@ == fresh_emitter(),
            r.wf(),
    {
        let r = Emitter { next_node: 1, strings: Vec::new(), pending: Vec::new() };
        assert(r@ =~= fresh_emitter());
        r
    }

    /// Allocate a fresh node handle. There are handles left unless 2^64 - 2 were handed out.
    pub fn alloc_node(&mut self) -> (r: NodeId)
        requires
            old(self)@.next_node < u64::MAX,
        ensures
            r == NodeId(old(self)@.next_node),
            final(self)@ == allocated(old(self)@),
            old(self).wf() ==> final(self).wf(),
    {
        let id = NodeId::new(self.next_node);
        self.next_node = self.next_node + 1;
        assert(self@ =~= allocated(old(self)@));
        id
    }

    fn emit(&mut self, op: Op)
        ensures
            final(self)@ == emitted(old(self)@, op@),
            old(self).wf() ==> final(self).wf(),
    {
        self.pending.push(op);
        assert(ops_view(self.pending@) =~= ops_view(old(self).pending@).push(op@));
        assert(self@ =~= emitted(old(self)@, op@));
    }

    /// Intern a string, sending it the first time it is seen. There are ids left unless 2^32
    /// strings were interned.
    pub fn intern(&mut self, s: &str) -> (r: StrId)
        requires
            old(self).wf(),
            old(self)@.strings.len() < u32::MAX,
        ensures
            r == string_id(old(self)@, s@),
            final(self)@ == interned(old(self)@, s@),
            final(self).wf(),
    {
        let ghost known = self@.strings;
        proof {
            known.index_of_first_ensures(s@);
        }
        let mut i: usize = 0;
        while i < self.strings.len()
            invariant
                self@ == old(self)@,
                known == self@.strings,
                i <= known.len(),
                known.len() == self.strings@.len(),
                known.len() < u32::MAX,
                forall|j: int| 0 <= j < i ==> known[j] != s@,
                match known.index_of_first(s@) {
                    Some(at) => 0 <= at < known.len() && known[at] == s@ && known.contains(s@)
                        && forall|j: int| 0 <= j < at < known.len() ==> known[j] != s@,
                    None => !known.contains(s@),
                },
                self.wf(),
            decreases known.len() - i,
        {
            assert(known[i as int] == self.strings@[i as int]@);
            if str_eq(self.strings[i].as_str(), s) {
                assert(known.contains(s@));
                return StrId::new(i as u32);
            }
            i += 1;
        }
        assert(!known.contains(s@));
        let id = StrId::new(self.strings.len() as u32);
        let ghost held = self.strings@;
        self.strings.push(s.to_owned());
        assert(strings_chars(self.strings@) =~= known.push(s@));
        self.emit(Op::InternString { id, bytes: slice_to_vec(s.as_bytes()) });
        assert(self@ =~= interned(old(self)@, s@));
        id
    }

    /// Create a detached element and return its handle.
    pub fn create_element(&mut self, tag: ElementTag) -> (r: NodeId)
        requires
            old(self).wf(),
            old(self)@.next_node < u64::MAX,
        ensures
            r == NodeId(old(self)@.next_node),
            final(self)@ == with_element(old(self)@, tag),
            final(self).wf(),
    {
        let id = self.alloc_node();
        self.emit(Op::CreateElement { node: id, tag });
        id
    }

    /// Create a detached text node and return its handle.
    pub fn create_text(&mut self, initial: &str) -> (r: NodeId)
        requires
            old(self).wf(),
            old(self)@.next_node < u64::MAX,
            old(self)@.strings.len() < u32::MAX,
        ensures
            r == NodeId(old(self)@.next_node),
            final(self)@ == with_text(old(self)@, initial@),
            final(self).wf(),
    {
        let id = self.alloc_node();
        let text = self.intern(initial);
        self.emit(Op::CreateText { node: id, text });
        id
    }

    /// Insert `child` under `parent` before `anchor` (the null handle: append).
    pub fn insert(&mut self, parent: NodeId, child: NodeId, anchor: NodeId)
        requires
            old(self).wf(),
        ensures
            final(self)@ == with_insert(old(self)@, parent, child, anchor),
            final(self).wf(),
    {
        self.emit(Op::InsertBefore { parent, child, anchor });
    }

    /// Append `child` to the children of `parent`.
    pub fn append(&mut self, parent: NodeId, child: NodeId)
        requires
            old(self).wf(),
        ensures
            final(self)@ == with_insert(old(self)@, parent, child, NodeId(NodeId::NULL)),
            final(self).wf(),
    {
        self.insert(parent, child, NodeId::null());
    }

    /// Replace a text node's content.
    pub fn set_text(&mut self, node: NodeId, value: &str)
        requires
            old(self).wf(),
            old(self)@.strings.len() < u32::MAX,
        ensures
            final(self)@ == with_set_text(old(self)@, node, value@),
            final(self).wf(),
    {
        let text = self.intern(value);
        self.emit(Op::SetText { node, text });
    }

    /// Set one inline style property.
    pub fn set_inline_style(&mut self, node: NodeId, prop: PropId, value: &str)
        requires
            old(self).wf(),
            old(self)@.strings.len() < u32::MAX,
        ensures
            final(self)@ == emitted(
                interned(old(self)@, value@),
                (OpView::SetInlineStyle { node, prop, value: string_id(old(self)@, value@) }),
            ),
            final(self).wf(),
    {
        let value = self.intern(value);
        self.emit(Op::SetInlineStyle { node, prop, value });
    }

    /// Set an attribute.
    pub fn set_attribute(&mut self, node: NodeId, attr: AttrId, value: &str)
        requires
            old(self).wf(),
            old(self)@.strings.len() < u32::MAX,
        ensures
            final(self)@ == emitted(
                interned(old(self)@, value@),
                (OpView::SetAttribute { node, attr, value: string_id(old(self)@, value@) }),
            ),
            final(self).wf(),
    {
        let value = self.intern(value);
        self.emit(Op::SetAttribute { node, attr, value });
    }

    /// Add a class.
    pub fn set_class(&mut self, node: NodeId, class: &str)
        requires
            old(self).wf(),
            old(self)@.strings.len() < u32::MAX,
        ensures
            final(self)@ == emitted(
                interned(old(self)@, class@),
                (OpView::SetClass { node, class: string_id(old(self)@, class@) }),
            ),
            final(self).wf(),
    {
        let class = self.intern(class);
        self.emit(Op::SetClass { node, class });
    }

    /// Remove a class.
    pub fn remove_class(&mut self, node: NodeId, class: &str)
        requires
            old(self).wf(),
            old(self)@.strings.len() < u32::MAX,
        ensures
            final(self)@ == emitted(
                interned(old(self)@, class@),
                (OpView::RemoveClass { node, class: string_id(old(self)@, class@) }),
            ),
            final(self).wf(),
    {
        let class = self.intern(class);
        self.emit(Op::RemoveClass { node, class });
    }

    /// Declare an element's CSS local name.
    pub fn set_tag_name(&mut self, node: NodeId, name: &str)
        requires
            old(self).wf(),
            old(self)@.strings.len() < u32::MAX,
        ensures
            final(self)@ == emitted(
                interned(old(self)@, name@),
                (OpView::SetTagName { node, name: string_id(old(self)@, name@) }),
            ),
            final(self).wf(),
    {
        let name = self.intern(name);
        self.emit(Op::SetTagName { node, name });
    }

    /// Subscribe `node` to `event`.
    pub fn add_listener(&mut self, node: NodeId, event: EventKind, handler: HandlerId)
        requires
            old(self).wf(),
        ensures
            final(self)@ == emitted(old(self)@, (OpView::AddListener { node, event, handler })),
            final(self).wf(),
    {
        self.emit(Op::AddListener { node, event, handler });
    }

    /// Remove a node and its subtree.
    pub fn remove(&mut self, node: NodeId)
        requires
            old(self).wf(),
        ensures
            final(self)@ == emitted(old(self)@, (OpView::RemoveNode { node })),
            final(self).wf(),
    {
        self.emit(Op::RemoveNode { node });
    }

    /// Whether no ops are pending.
    pub fn is_empty(&self) -> (r: bool)
        ensures
            r == (self@.pending.len() == 0),
    {
        self.pending.len() == 0
    }

    /// Encode the pending ops as a batch and start over. Strings and handles live on.
    pub fn take_batch(&mut self, seq: u32) -> (r: Vec<u8>)
        requires
            old(self).wf(),
        ensures
            r@ == ops_bytes(batch_ops(old(self)@, seq)),
            final(self)@ == (EmitterView { pending: seq![], ..old(self)@ }),
            final(self).wf(),
    {
        let mut enc = OpEncoder::new();
        let ghost all = batch_ops(self@, seq);
        proof {
            lemma_ops_bytes_push(Seq::empty(), all[0]);
            assert(all.take(1) =~= Seq::<OpView>::empty().push(all[0]));
        }
        enc.begin_batch(seq);
        assert(enc@ =~= ops_bytes(all.take(1)));
        let mut i: usize = 0;
        while i < self.pending.len()
            invariant
                self@ == old(self)@,
                all == batch_ops(self@, seq),
                i <= self.pending@.len(),
                enc@ == ops_bytes(all.take(i + 1)),
            decreases self.pending@.len() - i,
        {
            assert(all[i + 1] == self.pending@[i as int]@);
            proof {
                lemma_ops_bytes_push(all.take(i + 1), all[i + 1]);
                assert(all.take(i + 2) =~= all.take(i + 1).push(all[i + 1]));
            }
            enc.push(&self.pending[i]);
            i += 1;
        }
        proof {
            lemma_ops_bytes_push(all.take(i + 1), OpView::EndBatch);
            assert(all =~= all.take(i + 1).push(OpView::EndBatch));
        }
        enc.end_batch();
        self.pending.clear();
        assert(self@ =~= EmitterView { pending: seq![], ..old(self)@ });
        enc.into_bytes()
    }
}

/// See [`Emitter::wf`].
pub open spec fn emitter_wf(e: EmitterView) -> bool {
    &&& e.strings.no_duplicates()
    &&& e.strings.len() <= u32::MAX
    &&& e.next_node >= 1
}

/// A string is sent once: interning it again sends nothing and yields the same id.
pub proof fn law_strings_are_sent_once(e: EmitterView, s: Seq<char>)
    requires
        emitter_wf(e),
        e.strings.len() < u32::MAX,
    ensures
        interned(interned(e, s), s) == interned(e, s),
        string_id(interned(e, s), s) == string_id(e, s),
        emitter_wf(interned(e, s)),
{
    e.strings.index_of_first_ensures(s);
    let once = interned(e, s);
    once.strings.index_of_first_ensures(s);
    if !e.strings.contains(s) {
        assert(once.strings[e.strings.len() as int] == s);
        let at = once.strings.index_of_first(s)->0;
        if at < e.strings.len() {
            assert(e.strings[at] == s);
        }
    }
}

/// Different strings have different ids.
pub proof fn law_string_ids_are_distinct(e: EmitterView, s: Seq<char>, t: Seq<char>)
    requires
        emitter_wf(e),
        e.strings.contains(s),
        e.strings.contains(t),
        s != t,
    ensures
        string_id(e, s) != string_id(e, t),
{
    e.strings.index_of_first_ensures(s);
    e.strings.index_of_first_ensures(t);
}

// ---------------------------------------------------------------------------------------
// The life of an emitter.
// ---------------------------------------------------------------------------------------

/// A call on an emitter.
pub ghost enum Call {
    AllocNode,
    Intern { s: Seq<char> },
    CreateElement { tag: ElementTag },
    CreateText { initial: Seq<char> },
    Insert { parent: NodeId, child: NodeId, anchor: NodeId },
    SetText { node: NodeId, value: Seq<char> },
    SetInlineStyle { node: NodeId, prop: PropId, value: Seq<char> },
    SetAttribute { node: NodeId, attr: AttrId, value: Seq<char> },
    SetClass { node: NodeId, class: Seq<char> },
    RemoveClass { node: NodeId, class: Seq<char> },
    SetTagName { node: NodeId, name: Seq<char> },
    AddListener { node: NodeId, event: EventKind, handler: HandlerId },
    Remove { node: NodeId },
    TakeBatch,
}

/// The emitter after a call, as the methods of [`Emitter`] have it. To append is to insert before
/// the null handle.
pub open spec fn called(e: EmitterView, call: Call) -> EmitterView {
    match call {
        Call::AllocNode => allocated(e),
        Call::Intern { s } => interned(e, s),
        Call::CreateElement { tag } => with_element(e, tag),
        Call::CreateText { initial } => with_text(e, initial),
        Call::Insert { parent, child, anchor } => with_insert(e, parent, child, anchor),
        Call::SetText { node, value } => with_set_text(e, node, value),
        Call::SetInlineStyle { node, prop, value } => emitted(
            interned(e, value),
            OpView::SetInlineStyle { node, prop, value: string_id(e, value) },
        ),
        Call::SetAttribute { node, attr, value } => emitted(
            interned(e, value),
            OpView::SetAttribute { node, attr, value: string_id(e, value) },
        ),
        Call::SetClass { node, class } => emitted(
            interned(e, class),
            OpView::SetClass { node, class: string_id(e, class) },
        ),
        Call::RemoveClass { node, class } => emitted(
            interned(e, class),
            OpView::RemoveClass { node, class: string_id(e, class) },
        ),
        Call::SetTagName { node, name } => emitted(
            interned(e, name),
            OpView::SetTagName { node, name: string_id(e, name) },
        ),
        Call::AddListener { node, event, handler } => emitted(
            e,
            OpView::AddListener { node, event, handler },
        ),
        Call::Remove { node } => emitted(e, OpView::RemoveNode { node }),
        Call::TakeBatch => EmitterView { pending: seq![], ..e },
    }
}

/// An emitter that was made and has had these calls.
pub open spec fn lived(calls: Seq<Call>) -> EmitterView
    decreases calls.len(),
{
    if calls.len() == 0 {
        fresh_emitter()
    } else {
        called(lived(calls.drop_last()), calls.last())
    }
}

/// The ops of all the batches that were taken, in order, without their brackets.
pub open spec fn taken(calls: Seq<Call>) -> Seq<OpView>
    decreases calls.len(),
{
    if calls.len() == 0 {
        seq![]
    } else if calls.last() is TakeBatch {
        taken(calls.drop_last()) + lived(calls.drop_last()).pending
    } else {
        taken(calls.drop_last())
    }
}

/// Every op that was emitted, whether its batch was taken or not.
pub open spec fn said(calls: Seq<Call>) -> Seq<OpView> {
    taken(calls) + lived(calls).pending
}

/// Whether `op` sends the string with the raw id `id`.
pub open spec fn sends(op: OpView, id: int) -> bool {
    op is InternString && op->InternString_id.0 == id
}

/// Whether one of the first `n` ops sends the string with the raw id `id`.
pub open spec fn sent_by(ops: Seq<OpView>, n: int, id: int) -> bool {
    exists|p: int| 0 <= p < n && #[trigger] sends(ops[p], id)
}

/// Whether `ops` sends each string of `strings` once, under its index, and none else, and refers to
/// a string only after it was sent.
pub open spec fn speaks(ops: Seq<OpView>, strings: Seq<Seq<char>>) -> bool {
    &&& forall|p: int|
        0 <= p < ops.len() && (#[trigger] ops[p]) is InternString ==> {
            &&& ops[p]->InternString_id.0 < strings.len()
            &&& ops[p]->InternString_bytes == encode_utf8(strings[ops[p]->InternString_id.0 as int])
        }
    &&& forall|id: int|
        0 <= id < strings.len() ==> #[trigger] sent_by(ops, ops.len() as int, id)
    &&& forall|p: int, q: int, id: int|
        #![trigger sends(ops[p], id), sends(ops[q], id)]
        0 <= p < ops.len() && 0 <= q < ops.len() && sends(ops[p], id) && sends(ops[q], id) ==> p
            == q
    &&& forall|q: int|
        0 <= q < ops.len() && string_of(#[trigger] ops[q]) is Some ==> sent_by(
            ops,
            q,
            (string_of(ops[q])->0).0 as int,
        )
}

/// One more op that sends no string and refers to none that was not sent.
proof fn lemma_speaks_on(ops: Seq<OpView>, strings: Seq<Seq<char>>, op: OpView)
    requires
        speaks(ops, strings),
        !(op is InternString),
        string_of(op) is Some ==> (string_of(op)->0).0 < strings.len(),
    ensures
        speaks(ops.push(op), strings),
{
    let all = ops.push(op);
    assert forall|id: int| 0 <= id < strings.len() implies #[trigger] sent_by(
        all,
        all.len() as int,
        id,
    ) by {
        assert(sent_by(ops, ops.len() as int, id));
        let p = choose|p: int| 0 <= p < ops.len() && #[trigger] sends(ops[p], id);
        assert(sends(all[p], id));
    }
    assert forall|p: int, q: int, id: int|
        #![trigger sends(all[p], id), sends(all[q], id)]
        0 <= p < all.len() && 0 <= q < all.len() && sends(all[p], id) && sends(all[q], id) implies p
        == q by {
        assert(sends(ops[p], id) && sends(ops[q], id));
    }
    assert forall|q: int| 0 <= q < all.len() && string_of(#[trigger] all[q]) is Some implies sent_by(
        all,
        q,
        (string_of(all[q])->0).0 as int,
    ) by {
        let id = (string_of(all[q])->0).0 as int;
        if q < ops.len() {
            assert(all[q] == ops[q]);
            let p = choose|p: int| 0 <= p < q && #[trigger] sends(ops[p], id);
            assert(sends(all[p], id));
        } else {
            assert(sent_by(ops, ops.len() as int, id));
            let p = choose|p: int| 0 <= p < ops.len() && #[trigger] sends(ops[p], id);
            assert(sends(all[p], id));
        }
    }
}

/// One more op that sends one more string.
proof fn lemma_speaks_of_one_more(ops: Seq<OpView>, strings: Seq<Seq<char>>, s: Seq<char>)
    requires
        speaks(ops, strings),
        strings.len() < u32::MAX,
    ensures
        speaks(
            ops.push(
                OpView::InternString { id: StrId(strings.len() as u32), bytes: encode_utf8(s) },
            ),
            strings.push(s),
        ),
{
    let op = OpView::InternString { id: StrId(strings.len() as u32), bytes: encode_utf8(s) };
    let all = ops.push(op);
    let known = strings.push(s);
    assert forall|id: int| 0 <= id < known.len() implies #[trigger] sent_by(
        all,
        all.len() as int,
        id,
    ) by {
        if id < strings.len() {
            assert(sent_by(ops, ops.len() as int, id));
            let p = choose|p: int| 0 <= p < ops.len() && #[trigger] sends(ops[p], id);
            assert(sends(all[p], id));
        } else {
            assert(sends(all[ops.len() as int], id));
        }
    }
    assert forall|p: int, q: int, id: int|
        #![trigger sends(all[p], id), sends(all[q], id)]
        0 <= p < all.len() && 0 <= q < all.len() && sends(all[p], id) && sends(all[q], id) implies p
        == q by {
        if p < ops.len() {
            assert(all[p] == ops[p]);
        }
        if q < ops.len() {
            assert(all[q] == ops[q]);
        }
        if p < ops.len() && q < ops.len() {
            assert(sends(ops[p], id) && sends(ops[q], id));
        }
    }
    assert forall|q: int| 0 <= q < all.len() && string_of(#[trigger] all[q]) is Some implies sent_by(
        all,
        q,
        (string_of(all[q])->0).0 as int,
    ) by {
        let id = (string_of(all[q])->0).0 as int;
        assert(all[q] == ops[q]);
        let p = choose|p: int| 0 <= p < q && #[trigger] sends(ops[p], id);
        assert(sends(all[p], id));
    }
}

/// Interning a string, seen in all that was emitted so far.
proof fn lemma_interning_speaks(before: Seq<OpView>, e: EmitterView, s: Seq<char>)
    requires
        e.strings.no_duplicates(),
        interned(e, s).strings.len() <= u32::MAX,
        speaks(before + e.pending, e.strings),
    ensures
        interned(e, s).strings.no_duplicates(),
        speaks(before + interned(e, s).pending, interned(e, s).strings),
        string_id(e, s).0 < interned(e, s).strings.len(),
        interned(e, s).strings[string_id(e, s).0 as int] == s,
        e.strings.is_prefix_of(interned(e, s).strings),
{
    e.strings.index_of_first_ensures(s);
    if !e.strings.contains(s) {
        lemma_speaks_of_one_more(before + e.pending, e.strings, s);
        assert(before + interned(e, s).pending =~= (before + e.pending).push(
            OpView::InternString { id: StrId(e.strings.len() as u32), bytes: encode_utf8(s) },
        ));
    }
}

/// One call, seen in all that was emitted so far.
proof fn lemma_call_speaks(before: Seq<OpView>, e: EmitterView, call: Call)
    requires
        e.strings.no_duplicates(),
        called(e, call).strings.len() <= u32::MAX,
        speaks(before + e.pending, e.strings),
    ensures
        called(e, call).strings.no_duplicates(),
        e.strings.is_prefix_of(called(e, call).strings),
        !(call is TakeBatch) ==> speaks(
            before + called(e, call).pending,
            called(e, call).strings,
        ),
{
    let out = called(e, call);
    match call {
        Call::AllocNode => {},
        Call::TakeBatch => {},
        Call::Intern { s } => {
            lemma_interning_speaks(before, e, s);
        },
        Call::CreateText { initial } => {
            lemma_interning_speaks(before, allocated(e), initial);
            lemma_emission_speaks(before, interned(allocated(e), initial), out);
        },
        Call::SetText { value, .. } => {
            lemma_interning_speaks(before, e, value);
            lemma_emission_speaks(before, interned(e, value), out);
        },
        Call::SetInlineStyle { value, .. } => {
            lemma_interning_speaks(before, e, value);
            lemma_emission_speaks(before, interned(e, value), out);
        },
        Call::SetAttribute { value, .. } => {
            lemma_interning_speaks(before, e, value);
            lemma_emission_speaks(before, interned(e, value), out);
        },
        Call::SetClass { class, .. } => {
            lemma_interning_speaks(before, e, class);
            lemma_emission_speaks(before, interned(e, class), out);
        },
        Call::RemoveClass { class, .. } => {
            lemma_interning_speaks(before, e, class);
            lemma_emission_speaks(before, interned(e, class), out);
        },
        Call::SetTagName { name, .. } => {
            lemma_interning_speaks(before, e, name);
            lemma_emission_speaks(before, interned(e, name), out);
        },
        Call::CreateElement { .. } => {
            lemma_emission_speaks(before, allocated(e), out);
        },
        Call::Insert { .. } => {
            lemma_emission_speaks(before, e, out);
        },
        Call::AddListener { .. } => {
            lemma_emission_speaks(before, e, out);
        },
        Call::Remove { .. } => {
            lemma_emission_speaks(before, e, out);
        },
    }
}

proof fn lemma_emission_speaks(before: Seq<OpView>, e: EmitterView, out: EmitterView)
    requires
        speaks(before + e.pending, e.strings),
        out.pending.len() > 0,
        out == emitted(e, out.pending.last()),
        !(out.pending.last() is InternString),
        string_of(out.pending.last()) is Some ==> (string_of(out.pending.last())->0).0
            < e.strings.len(),
    ensures
        speaks(before + out.pending, out.strings),
{
    let op = out.pending.last();
    lemma_speaks_on(before + e.pending, e.strings, op);
    assert(before + out.pending =~= (before + e.pending).push(op));
}

/// Over the life of an emitter each string is sent once, under one id, with its own bytes, and
/// before every op that refers to it, however the ops are cut into batches; no two strings share an
/// id.
pub proof fn law_every_string_is_sent_once_before_its_use(calls: Seq<Call>)
    requires
        lived(calls).strings.len() <= u32::MAX,
    ensures
        lived(calls).strings.no_duplicates(),
        speaks(said(calls), lived(calls).strings),
    decreases calls.len(),
{
    if calls.len() > 0 {
        let before = calls.drop_last();
        let e = lived(before);
        assert(e.strings.len() <= lived(calls).strings.len());
        law_every_string_is_sent_once_before_its_use(before);
        lemma_call_speaks(taken(before), e, calls.last());
        if calls.last() is TakeBatch {
            assert(said(calls) =~= said(before));
        }
    }
}

/// An emitter forgets no string.
proof fn lemma_strings_last(calls: Seq<Call>, i: int)
    requires
        0 <= i <= calls.len(),
        lived(calls).strings.len() <= u32::MAX,
    ensures
        lived(calls.take(i)).strings.is_prefix_of(lived(calls).strings),
    decreases calls.len() - i,
{
    if i == calls.len() {
        assert(calls.take(i) =~= calls);
    } else {
        lemma_strings_last(calls, i + 1);
        let now = calls.take(i + 1);
        assert(now.drop_last() =~= calls.take(i));
        assert(lived(calls.take(i)).strings.len() <= lived(now).strings.len());
        law_every_string_is_sent_once_before_its_use(calls.take(i));
        lemma_call_speaks(taken(calls.take(i)), lived(calls.take(i)), now.last());
    }
}

/// Two strings that are interned at any two points in the life of an emitter, with batches taken
/// in between or not, have the same id if and only if they are the same string. The id is the one
/// under which the string is sent.
pub proof fn law_ids_stand_for_strings(calls: Seq<Call>, i: int, s: Seq<char>, j: int, t: Seq<char>)
    requires
        lived(calls).strings.len() <= u32::MAX,
        0 <= i < calls.len(),
        0 <= j < calls.len(),
        calls[i] == (Call::Intern { s }),
        calls[j] == (Call::Intern { s: t }),
    ensures
        string_id(lived(calls.take(i)), s) == string_id(lived(calls.take(j)), t) <==> s == t,
        string_id(lived(calls.take(i)), s).0 < lived(calls).strings.len(),
        lived(calls).strings[string_id(lived(calls.take(i)), s).0 as int] == s,
{
    lemma_id_at_last(calls, i, s);
    lemma_id_at_last(calls, j, t);
    law_every_string_is_sent_once_before_its_use(calls);
}

/// The id that a string was given is its index among the strings, for good.
proof fn lemma_id_at_last(calls: Seq<Call>, i: int, s: Seq<char>)
    requires
        lived(calls).strings.len() <= u32::MAX,
        0 <= i < calls.len(),
        calls[i] == (Call::Intern { s }),
    ensures
        string_id(lived(calls.take(i)), s).0 < lived(calls).strings.len(),
        lived(calls).strings[string_id(lived(calls.take(i)), s).0 as int] == s,
{
    let then = calls.take(i);
    lemma_strings_last(calls, i);
    lemma_strings_last(calls, i + 1);
    assert(calls.take(i + 1).drop_last() =~= then);
    assert(calls.take(i + 1).last() == calls[i]);
    law_every_string_is_sent_once_before_its_use(then);
    lemma_interning_speaks(taken(then), lived(then), s);
}

/// Each node that is created has the next handle, and each op goes behind those that are pending.
pub proof fn law_ops_are_emitted_in_order(
    e: EmitterView,
    op: OpView,
    tag: ElementTag,
    s: Seq<char>,
    node: NodeId,
)
    requires
        emitter_wf(e),
        e.next_node < u64::MAX,
        e.strings.len() < u32::MAX,
    ensures
        emitted(e, op).pending == e.pending + seq![op],
        emitted(e, op).next_node == e.next_node && emitted(e, op).strings == e.strings,
        allocated(e).next_node == e.next_node + 1,
        allocated(e).pending == e.pending && allocated(e).strings == e.strings,
        with_element(e, tag).pending == e.pending + seq![
            OpView::CreateElement { node: NodeId(e.next_node), tag },
        ],
        with_element(e, tag).next_node == e.next_node + 1,
        with_text(e, s).next_node == e.next_node + 1,
        with_text(e, s).strings.contains(s),
        with_text(e, s).pending.last() == (OpView::CreateText {
            node: NodeId(e.next_node),
            text: string_id(e, s),
        }),
        with_set_text(e, node, s).pending.last() == (OpView::SetText { node, text: string_id(e, s) }),
        with_set_text(e, node, s).next_node == e.next_node,
        e.strings.contains(s) ==> with_text(e, s).pending.len() == e.pending.len() + 1,
        !e.strings.contains(s) ==> {
            &&& with_text(e, s).pending.len() == e.pending.len() + 2
            &&& with_text(e, s).pending[e.pending.len() as int] == (OpView::InternString {
                id: StrId(e.strings.len() as u32),
                bytes: encode_utf8(s),
            })
        },
        fresh_emitter().next_node == 1,
        fresh_emitter().pending.len() == 0 && fresh_emitter().strings.len() == 0,
{
    assert(emitted(e, op).pending =~= e.pending + seq![op]);
    let made = OpView::CreateElement { node: NodeId(e.next_node), tag };
    assert(with_element(e, tag).pending =~= e.pending + seq![made]);
    if !e.strings.contains(s) {
        assert(e.strings.push(s)[e.strings.len() as int] == s);
    }
}

/// A batch is its pending ops between a beginning, with version 1 and its number, and an end.
pub proof fn law_batches_are_framed(e: EmitterView, seq: u32)
    ensures
        ({
            let ops = batch_ops(e, seq);
            &&& ops.len() == e.pending.len() + 2
            &&& ops[0] == (OpView::BeginBatch { version: 1, seq })
            &&& ops.last() == OpView::EndBatch
            &&& ops.subrange(1, ops.len() - 1) == e.pending
        }),
{
    let ops = batch_ops(e, seq);
    assert(ops.subrange(1, ops.len() - 1) =~= e.pending);
}

} // verus!
