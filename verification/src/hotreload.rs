//! Hot reload: what becomes of a burst of file changes, and how a rebuilt batch reaches the
//! live tree.
//!
//! A save makes a burst of raw file events. [`Debouncer`] collects a burst, event by event,
//! and says when the callback is due: once per burst, with the distinct paths of the burst.
//! Waiting and calling are left to the caller.
//!
//! A path is the bytes that the operating system has for it, which need not be text.
use crate::dom::Dom;
use crate::text::bytes_eq;
use crate::tree::{apply_bytes, HostError};
use vstd::prelude::*;
use vstd::slice::slice_to_vec;

verus! {

/// Default quiet time, in milliseconds, that ends a burst.
pub const DEFAULT_DEBOUNCE: u64 = 80;

/// One burst of changes, ready to be reloaded.
#[derive(Clone, Debug, PartialEq, Eq)]
pub struct ReloadEvent {
    /// The distinct paths that changed, in the order they were first seen. Never empty.
    pub paths: Vec<Vec<u8>>,
}

impl ReloadEvent {
    /// The first changed path.
    pub fn path(&self) -> (r: &[u8])
        requires
            self.paths@.len() > 0,
        ensures
            r@ == self.paths@[0]@,
    {
        self.paths[0].as_slice()
    }
}

/// What the raw event source reports.
#[derive(Debug)]
pub enum RawEvent {
    /// Paths changed.
    Changed(Vec<Vec<u8>>),
    /// Nothing changed for the quiet time.
    Quiet,
    /// There will be no more events.
    Closed,
}

/// What to do next.
#[derive(Clone, Copy, PartialEq, Eq, Debug, Structural)]
pub enum Wait {
    /// Wait for the first event of a burst, however long it takes.
    First,
    /// Wait for another event for the quiet time, counted from now.
    More,
    /// Stop.
    Stop,
}

/// What the paths of a list are.
pub open spec fn paths_bytes(v: Seq<Vec<u8>>) -> Seq<Seq<u8>> {
    Seq::new(v.len(), |i: int| v[i]@)
}

fn contains_path(v: &Vec<Vec<u8>>, p: &Vec<u8>) -> (r: bool)
    ensures
        r == paths_bytes(v@).contains(p@),
{
    let mut i: usize = 0;
    while i < v.len()
        invariant
            i <= v@.len(),
            forall|j: int| 0 <= j < i ==> paths_bytes(v@)[j] != p@,
        decreases v@.len() - i,
    {
        if bytes_eq(v[i].as_slice(), p.as_slice()) {
            assert(paths_bytes(v@)[i as int] == p@);
            return true;
        }
        i += 1;
    }
    false
}

/// The paths `seen` extended by those of `new` that are not in it yet, in order.
pub open spec fn merged(seen: Seq<Seq<u8>>, new: Seq<Seq<u8>>) -> Seq<Seq<u8>>
    decreases new.len(),
{
    if new.len() == 0 {
        seen
    } else {
        let init = merged(seen, new.drop_last());
        if init.contains(new.last()) {
            init
        } else {
            init.push(new.last())
        }
    }
}

/// What the paths of an event say.
pub open spec fn event_paths(e: Option<ReloadEvent>) -> Option<Seq<Seq<u8>>> {
    match e {
        Some(e) => Some(paths_bytes(e.paths@)),
        None => None,
    }
}

/// The event that a burst amounts to; a burst that names no path amounts to none.
pub open spec fn burst_event(burst: Seq<Seq<u8>>) -> Option<Seq<Seq<u8>>> {
    if burst.len() == 0 {
        None
    } else {
        Some(burst)
    }
}

/// Coalesces bursts of raw events. `None`: no burst has begun; `Some`: the paths so far.
pub struct Debouncer {
    open: bool,
    paths: Vec<Vec<u8>>,
}

impl View for Debouncer {
    type V = Option<Seq<Seq<u8>>>;

    closed spec fn view(&self) -> Option<Seq<Seq<u8>>> {
        if self.open {
            Some(paths_bytes(self.paths@))
        } else {
            None
        }
    }
}

impl Debouncer {
    /// No burst has begun.
    pub fn new() -> (r: Debouncer)
        ensures
            r@ is None,
            r.wf(),
    {
        Debouncer { open: false, paths: Vec::new() }
    }

    /// Between bursts no path is held.
    pub closed spec fn wf(&self) -> bool {
        !self.open ==> self.paths@.len() == 0
    }

    fn merge(&mut self, new: Vec<Vec<u8>>)
        ensures
            paths_bytes(final(self).paths@) == merged(
                paths_bytes(old(self).paths@),
                paths_bytes(new@),
            ),
            final(self).open == old(self).open,
    {
        let ghost all = paths_bytes(new@);
        let mut i: usize = 0;
        while i < new.len()
            invariant
                i <= new@.len(),
                all == paths_bytes(new@),
                self.open == old(self).open,
                paths_bytes(self.paths@) == merged(
                    paths_bytes(old(self).paths@),
                    all.take(i as int),
                ),
            decreases new@.len() - i,
        {
            let ghost before = self.paths@;
            proof {
                assert(all.take(i + 1).drop_last() =~= all.take(i as int));
                assert(all.take(i + 1).last() == new@[i as int]@);
            }
            if !contains_path(&self.paths, &new[i]) {
                self.paths.push(slice_to_vec(new[i].as_slice()));
                assert(paths_bytes(self.paths@) =~= paths_bytes(before).push(
                    new@[i as int]@,
                ));
            }
            i += 1;
        }
        assert(all.take(i as int) =~= all);
    }

    /// Take note of a raw event: the reload that is due now, if any, and what to wait for.
    pub fn step(&mut self, event: RawEvent) -> (r: (Option<ReloadEvent>, Wait))
        requires
            old(self).wf(),
        ensures
            final(self).wf(),
            match event {
                RawEvent::Changed(new) => r.0 is None && r.1 == Wait::More && final(self)@ == Some(
                    merged(
                        match old(self)@ {
                            Some(seen) => seen,
                            None => seq![],
                        },
                        paths_bytes(new@),
                    ),
                ),
                _ => final(self)@ is None && event_paths(r.0) == match old(self)@ {
                    Some(burst) => burst_event(burst),
                    None => None,
                } && r.1 == if event is Closed {
                    Wait::Stop
                } else {
                    Wait::First
                },
            },
    {
        match event {
            RawEvent::Changed(new) => {
                assert(!self.open ==> paths_bytes(self.paths@) =~= seq![]);
                self.open = true;
                self.merge(new);
                (None, Wait::More)
            },
            RawEvent::Quiet => (self.finish(), Wait::First),
            RawEvent::Closed => (self.finish(), Wait::Stop),
        }
    }

    fn finish(&mut self) -> (r: Option<ReloadEvent>)
        requires
            old(self).wf(),
        ensures
            final(self).wf(),
            final(self)@ is None,
            event_paths(r) == match old(self)@ {
                Some(burst) => burst_event(burst),
                None => None,
            },
    {
        self.open = false;
        if self.paths.len() == 0 {
            return None;
        }
        let mut paths: Vec<Vec<u8>> = Vec::new();
        std::mem::swap(&mut paths, &mut self.paths);
        Some(ReloadEvent { paths })
    }
}

impl Default for Debouncer {
    fn default() -> (r: Debouncer)
        ensures
            r@ is None,
            r.wf(),
    {
        Debouncer::new()
    }
}

/// Apply a rebuilt batch onto the live tree. The ops before a bad one stay applied.
pub fn reapply(dom: &mut Dom, batch: &[u8]) -> (r: Result<(), HostError>)
    requires
        old(dom).wf(),
    ensures
        (final(dom)@, r) == apply_bytes(old(dom)@, batch@, 0),
        final(dom).wf(),
{
    dom.apply(batch)
}

/// What a burst has seen once: its paths stay without duplicates, the earlier ones stay in
/// place, and it holds exactly the paths that were seen.
pub proof fn law_bursts_hold_each_path_once(seen: Seq<Seq<u8>>, new: Seq<Seq<u8>>)
    requires
        seen.no_duplicates(),
    ensures
        merged(seen, new).no_duplicates(),
        seen.is_prefix_of(merged(seen, new)),
        forall|p: Seq<u8>| #[trigger]
            merged(seen, new).contains(p) <==> seen.contains(p) || new.contains(p),
    decreases new.len(),
{
    if new.len() > 0 {
        let init = merged(seen, new.drop_last());
        let last = new.last();
        let all = merged(seen, new);
        law_bursts_hold_each_path_once(seen, new.drop_last());
        assert forall|p: Seq<u8>| #[trigger] all.contains(p) <==> seen.contains(p) || new.contains(
            p,
        ) by {
            assert(new.contains(p) <==> new.drop_last().contains(p) || p == last) by {
                assert(new =~= new.drop_last().push(last));
                if new.drop_last().contains(p) {
                    let i = choose|i: int| 0 <= i < new.len() - 1 && new.drop_last()[i] == p;
                    assert(new[i] == p);
                }
                if p == last {
                    assert(new[new.len() - 1] == p);
                }
            }
            if !init.contains(last) {
                if init.contains(p) {
                    let i = choose|i: int| 0 <= i < init.len() && init[i] == p;
                    assert(all[i] == p);
                }
                if p == last {
                    assert(all[init.len() as int] == p);
                }
                if all.contains(p) {
                    let i = choose|i: int| 0 <= i < all.len() && all[i] == p;
                    if i < init.len() {
                        assert(init[i] == p);
                    }
                }
            }
        }
    }
}

/// Events of a burst add up: what two events name one after the other is what one event names that
/// has the paths of both. So paths stand in the order in which they were first seen.
pub proof fn law_bursts_add_up(seen: Seq<Seq<u8>>, a: Seq<Seq<u8>>, b: Seq<Seq<u8>>)
    ensures
        merged(merged(seen, a), b) == merged(seen, a + b),
        a.len() == 1 && !seen.contains(a[0]) ==> merged(seen, a) == seen.push(a[0]),
        a.len() == 1 && seen.contains(a[0]) ==> merged(seen, a) == seen,
        a.len() == 0 ==> merged(seen, a) == seen,
    decreases b.len(),
{
    if b.len() == 0 {
        assert(a + b =~= a);
    } else {
        assert((a + b).drop_last() =~= a + b.drop_last());
        assert((a + b).last() == b.last());
        law_bursts_add_up(seen, a, b.drop_last());
    }
    if a.len() == 1 {
        assert(a.drop_last() =~= seq![]);
        assert(merged(seen, a.drop_last()) == seen);
    }
}

/// A burst that names a path is reported with its paths, and one that names none is not. It ends after
/// 80 milliseconds without a change, unless told otherwise.
pub proof fn law_bursts_with_paths_are_reported(burst: Seq<Seq<u8>>)
    ensures
        burst.len() > 0 ==> burst_event(burst) == Some(burst),
        burst.len() == 0 ==> burst_event(burst) is None,
        DEFAULT_DEBOUNCE == 80,
{
}

} // verus!
