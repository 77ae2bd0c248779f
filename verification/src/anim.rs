//! Animations driven by the host's clock.
//!
//! A host owns a [`Timeline`] and advances it each frame by the time that has passed. Every
//! running tween then writes one value to the signal that it drives; [`Timeline::tick`] says
//! which values are written, and whether anything is still moving.
use crate::scalar::{Scalar, Whole};
use crate::seqs::{lemma_filter_absent, lemma_filter_push};
use vstd::prelude::*;

verus! {

/// A curve from the fraction of the duration that has passed to the fraction of the way that has
/// been covered.
#[derive(Clone, Copy, PartialEq, Eq, Debug, Structural)]
pub enum Easing {
    /// Constant speed.
    Linear,
    /// Slow start: the square.
    EaseInQuad,
    /// Slow end: the square from the other side.
    EaseOutQuad,
    /// Slow start and end, symmetric about the middle.
    EaseInOutQuad,
    /// Slower start: the cube.
    EaseInCubic,
    /// Slower end: the cube from the other side.
    EaseOutCubic,
    /// Slower start and end, symmetric about the middle.
    EaseInOutCubic,
    /// No speed at either end.
    Smoothstep,
    /// Shoots past the end before it settles.
    Spring,
}

/// `2 - 2t`.
pub open spec fn twice_left<S: Scalar>(t: S) -> S {
    S::s_whole(0).s_minus(S::s_whole(2)).s_times(t).s_plus(S::s_whole(2))
}

/// How far past the end [`Easing::Spring`] shoots.
pub open spec fn overshoot<S: Scalar>() -> S {
    S::s_ratio(170158, 100000)
}

/// The value of a curve at `t`.
pub open spec fn eased<S: Scalar>(e: Easing, t: S) -> S {
    let one = S::s_whole(1);
    let left = one.s_minus(t);
    match e {
        Easing::Linear => t,
        Easing::EaseInQuad => t.s_times(t),
        Easing::EaseOutQuad => one.s_minus(left.s_times(left)),
        Easing::EaseInOutQuad => if t.s_less(S::s_ratio(1, 2)) {
            S::s_whole(2).s_times(t).s_times(t)
        } else {
            let v = twice_left(t);
            one.s_minus(v.s_times(v).s_over(S::s_whole(2)))
        },
        Easing::EaseInCubic => t.s_times(t).s_times(t),
        Easing::EaseOutCubic => one.s_minus(left.s_times(left).s_times(left)),
        Easing::EaseInOutCubic => if t.s_less(S::s_ratio(1, 2)) {
            S::s_whole(4).s_times(t).s_times(t).s_times(t)
        } else {
            let v = twice_left(t);
            one.s_minus(v.s_times(v).s_times(v).s_over(S::s_whole(2)))
        },
        Easing::Smoothstep => t.s_times(t).s_times(
            S::s_whole(3).s_minus(S::s_whole(2).s_times(t)),
        ),
        Easing::Spring => {
            let p = t.s_minus(one);
            let c = overshoot::<S>();
            one.s_plus(c.s_plus(one).s_times(p).s_times(p).s_times(p)).s_plus(
                c.s_times(p).s_times(p),
            )
        },
    }
}

impl Easing {
    /// The value of the curve at `t`, which the timeline keeps between zero and one.
    pub fn apply<S: Scalar>(self, t: S) -> (r: S)
        ensures
            r == eased(self, t),
    {
        let one = S::whole(1);
        match self {
            Easing::Linear => t,
            Easing::EaseInQuad => t.times(t),
            Easing::EaseOutQuad => {
                let left = one.minus(t);
                one.minus(left.times(left))
            },
            Easing::EaseInOutQuad => {
                if t.less(S::ratio(1, 2)) {
                    S::whole(2).times(t).times(t)
                } else {
                    let v = S::whole(0).minus(S::whole(2)).times(t).plus(S::whole(2));
                    one.minus(v.times(v).over(S::whole(2)))
                }
            },
            Easing::EaseInCubic => t.times(t).times(t),
            Easing::EaseOutCubic => {
                let left = one.minus(t);
                one.minus(left.times(left).times(left))
            },
            Easing::EaseInOutCubic => {
                if t.less(S::ratio(1, 2)) {
                    S::whole(4).times(t).times(t).times(t)
                } else {
                    let v = S::whole(0).minus(S::whole(2)).times(t).plus(S::whole(2));
                    one.minus(v.times(v).times(v).over(S::whole(2)))
                }
            },
            Easing::Smoothstep => t.times(t).times(S::whole(3).minus(S::whole(2).times(t))),
            Easing::Spring => {
                let p = t.minus(one);
                let c = S::ratio(170158, 100000);
                one.plus(c.plus(one).times(p).times(p).times(p)).plus(c.times(p).times(p))
            },
        }
    }
}

/// What an animation does at the end of its duration.
#[derive(Clone, Copy, PartialEq, Eq, Debug, Structural)]
pub enum Repeat {
    /// It stops.
    Once,
    /// It jumps back to the start and runs again.
    Loop,
    /// It turns round and runs back.
    PingPong,
}

impl Default for Repeat {
    fn default() -> (r: Repeat)
        ensures
            r == Repeat::Once,
    {
        Repeat::Once
    }
}

/// A description of an animation.
#[derive(Clone, Copy, PartialEq, Eq, Debug)]
pub struct AnimSpec<S> {
    /// Value at the start.
    pub from: S,
    /// Value at the end.
    pub to: S,
    /// Seconds from start to end; none or less is at once.
    pub duration: S,
    /// Seconds to wait at the start.
    pub delay: S,
    /// The curve.
    pub easing: Easing,
    /// What happens at the end.
    pub repeat: Repeat,
}

/// `v`, or zero if it is less.
pub open spec fn at_least_zero<S: Scalar>(v: S) -> S {
    if S::s_whole(0).s_less(v) {
        v
    } else {
        S::s_whole(0)
    }
}

fn clamp_negative<S: Scalar>(v: S) -> (r: S)
    ensures
        r == at_least_zero(v),
{
    if S::whole(0).less(v) {
        v
    } else {
        S::whole(0)
    }
}

/// The description of a tween from which nothing but the ends and the duration differs from the
/// defaults: no delay, constant speed, once.
pub open spec fn plain_spec<S: Scalar>(from: S, to: S, duration: S, easing: Easing) -> AnimSpec<S> {
    AnimSpec { from, to, duration, delay: S::s_whole(0), easing, repeat: Repeat::Once }
}

/// Builds the description of an animation.
#[derive(Clone, Copy, PartialEq, Eq, Debug)]
pub struct Tween<S> {
    spec: AnimSpec<S>,
}

impl<S> View for Tween<S> {
    type V = AnimSpec<S>;

    closed spec fn view(&self) -> AnimSpec<S> {
        self.spec
    }
}

impl<S: Scalar> Tween<S> {
    /// A tween from `from` to `to` that takes `duration` seconds.
    pub fn new(from: S, to: S, duration: S) -> (r: Tween<S>)
        ensures
            r@ == plain_spec(from, to, duration, Easing::Linear),
    {
        Tween {
            spec: AnimSpec {
                from,
                to,
                duration,
                delay: S::whole(0),
                easing: Easing::Linear,
                repeat: Repeat::Once,
            },
        }
    }

    /// A tween with the given description.
    pub fn from_spec(spec: AnimSpec<S>) -> (r: Tween<S>)
        ensures
            r@ == spec,
    {
        Tween { spec }
    }

    /// Wait at the start; less than no time is none.
    pub fn delay(self, secs: S) -> (r: Tween<S>)
        ensures
            r@ == (AnimSpec { delay: at_least_zero(secs), ..self@ }),
    {
        let mut spec = self.spec;
        spec.delay = clamp_negative(secs);
        Tween { spec }
    }

    /// Set the curve.
    pub fn easing(self, easing: Easing) -> (r: Tween<S>)
        ensures
            r@ == (AnimSpec { easing, ..self@ }),
    {
        let mut spec = self.spec;
        spec.easing = easing;
        Tween { spec }
    }

    /// Set what happens at the end.
    pub fn repeat(self, repeat: Repeat) -> (r: Tween<S>)
        ensures
            r@ == (AnimSpec { repeat, ..self@ }),
    {
        let mut spec = self.spec;
        spec.repeat = repeat;
        Tween { spec }
    }

    /// The description so far.
    pub fn spec(self) -> (r: AnimSpec<S>)
        ensures
            r == self@,
    {
        self.spec
    }

    /// Start the tween: it drives `signal`, which starts with the value returned.
    pub fn start(self, timeline: &mut Timeline<S>, signal: u64) -> (r: S)
        ensures
            final(timeline)@ == old(timeline)@.push(started(signal, self@)),
            r == self@.from,
    {
        timeline.animate_with(signal, self.spec)
    }
}

/// A running tween.
#[derive(Clone, Copy, PartialEq, Eq, Debug)]
pub struct Active<S> {
    /// The signal that it drives.
    pub signal: u64,
    /// Value at the start.
    pub from: S,
    /// Value at the end.
    pub to: S,
    /// Seconds still to wait at the start.
    pub delay_left: S,
    /// Seconds since the current pass began.
    pub elapsed: S,
    /// Seconds that a pass takes.
    pub duration: S,
    /// The curve.
    pub easing: Easing,
    /// What happens at the end of a pass.
    pub repeat: Repeat,
    /// Whether the current pass runs back.
    pub reversed: bool,
}

/// A tween at its start.
pub open spec fn started<S: Scalar>(signal: u64, spec: AnimSpec<S>) -> Active<S> {
    Active {
        signal,
        from: spec.from,
        to: spec.to,
        delay_left: at_least_zero(spec.delay),
        elapsed: S::s_whole(0),
        duration: spec.duration,
        easing: spec.easing,
        repeat: spec.repeat,
        reversed: false,
    }
}

/// The value of a tween `elapsed` seconds into its current pass.
pub open spec fn pass_value<S: Scalar>(a: Active<S>, elapsed: S) -> S {
    let covered = eased(a.easing, elapsed.s_over(a.duration));
    if a.reversed {
        a.to.s_plus(a.from.s_minus(a.to).s_times(covered))
    } else {
        a.from.s_plus(a.to.s_minus(a.from).s_times(covered))
    }
}

/// The value at which the current pass of a tween ends.
pub open spec fn pass_end<S: Scalar>(a: Active<S>) -> S {
    if a.reversed {
        a.from
    } else {
        a.to
    }
}

/// How many ends of passes lie behind a tween that is `elapsed` seconds past the beginning of a
/// pass, one at least.
pub open spec fn crossings<S: Scalar>(a: Active<S>, elapsed: S) -> u32 {
    elapsed.s_minus(a.duration).s_over(a.duration).s_to_u32().wrapping_add(1)
}

/// A tween that has moved on by `step` seconds, its delay being over; the value it writes; and
/// whether it is finished.
pub open spec fn moved<S: Scalar>(a: Active<S>, step: S) -> (Active<S>, S, bool) {
    if a.duration.s_at_most(S::s_whole(0)) {
        (a, a.to, true)
    } else {
        let elapsed = a.elapsed.s_plus(step);
        if elapsed.s_less(a.duration) {
            let out = Active { elapsed, ..a };
            (out, pass_value(out, elapsed), false)
        } else {
            match a.repeat {
                Repeat::Once => {
                    let out = Active { elapsed, ..a };
                    (out, pass_end(out), true)
                },
                Repeat::Loop => {
                    let out = Active { elapsed: elapsed.s_wrap(a.duration), ..a };
                    (out, pass_value(out, out.elapsed), false)
                },
                Repeat::PingPong => {
                    let out = Active {
                        elapsed: elapsed.s_wrap(a.duration),
                        reversed: if crossings(a, elapsed) % 2 == 1 {
                            !a.reversed
                        } else {
                            a.reversed
                        },
                        ..a
                    };
                    (out, pass_value(out, out.elapsed), false)
                },
            }
        }
    }
}

/// A tween that is `dt` seconds further on, the value it writes, and whether it is finished.
/// The delay is used up first, the tween waiting at its start; what is left of `dt` after it is
/// not lost.
pub open spec fn advanced<S: Scalar>(a: Active<S>, dt: S) -> (Active<S>, S, bool) {
    if S::s_whole(0).s_less(a.delay_left) {
        if dt.s_less(a.delay_left) {
            (Active { delay_left: a.delay_left.s_minus(dt), ..a }, a.from, false)
        } else {
            moved(Active { delay_left: S::s_whole(0), ..a }, dt.s_minus(a.delay_left))
        }
    } else {
        moved(a, dt)
    }
}

impl<S: Scalar> Active<S> {
    fn value_at(&self, elapsed: S) -> (r: S)
        ensures
            r == pass_value(*self, elapsed),
    {
        let covered = self.easing.apply(elapsed.over(self.duration));
        if self.reversed {
            self.to.plus(self.from.minus(self.to).times(covered))
        } else {
            self.from.plus(self.to.minus(self.from).times(covered))
        }
    }

    fn end_value(&self) -> (r: S)
        ensures
            r == pass_end(*self),
    {
        if self.reversed {
            self.from
        } else {
            self.to
        }
    }

    /// Move on by `dt` seconds: the value to write, and whether the tween is finished.
    pub fn advance(&mut self, dt: S) -> (r: (S, bool))
        ensures
            (*final(self), r.0, r.1) == advanced(*old(self), dt),
    {
        let mut step = dt;
        if S::whole(0).less(self.delay_left) {
            if step.less(self.delay_left) {
                self.delay_left = self.delay_left.minus(step);
                return (self.from, false);
            }
            step = step.minus(self.delay_left);
            self.delay_left = S::whole(0);
        }
        if self.duration.at_most(S::whole(0)) {
            return (self.to, true);
        }
        self.elapsed = self.elapsed.plus(step);
        if self.elapsed.less(self.duration) {
            return (self.value_at(self.elapsed), false);
        }
        match self.repeat {
            Repeat::Once => (self.end_value(), true),
            Repeat::Loop => {
                self.elapsed = self.elapsed.wrap(self.duration);
                (self.value_at(self.elapsed), false)
            },
            Repeat::PingPong => {
                let past = self.elapsed.minus(self.duration);
                let ends: u32 = past.over(self.duration).to_u32().wrapping_add(1);
                if ends % 2 == 1 {
                    self.reversed = !self.reversed;
                }
                self.elapsed = self.elapsed.wrap(self.duration);
                (self.value_at(self.elapsed), false)
            },
        }
    }
}

/// What a frame of a timeline yields.
#[derive(PartialEq, Eq, Debug)]
pub struct Frame<S> {
    /// Whether anything is still moving.
    pub busy: bool,
    /// The values to write to signals, in order.
    pub writes: Vec<(u64, S)>,
}

/// The tweens that are still running `dt` seconds later, and the values that all of them write.
pub open spec fn ticked<S: Scalar>(tweens: Seq<Active<S>>, dt: S) -> (Seq<Active<S>>, Seq<(u64, S)>)
    decreases tweens.len(),
{
    if tweens.len() == 0 {
        (seq![], seq![])
    } else {
        let (running, writes) = ticked(tweens.drop_last(), dt);
        let (next, value, finished) = advanced(tweens.last(), dt);
        (
            if finished {
                running
            } else {
                running.push(next)
            },
            writes.push((next.signal, value)),
        )
    }
}

/// The clock of all running animations.
pub struct Timeline<S> {
    tweens: Vec<Active<S>>,
}

impl<S> View for Timeline<S> {
    type V = Seq<Active<S>>;

    closed spec fn view(&self) -> Seq<Active<S>> {
        self.tweens@
    }
}

impl<S: Scalar> Default for Timeline<S> {
    fn default() -> (r: Timeline<S>)
        ensures
            r@ == Seq::<Active<S>>::empty(),
    {
        Timeline::new()
    }
}

impl<S: Scalar> Timeline<S> {
    /// A timeline on which nothing runs.
    pub fn new() -> (r: Timeline<S>)
        ensures
            r@ == Seq::<Active<S>>::empty(),
    {
        Timeline { tweens: Vec::new() }
    }

    /// Start a tween that runs once and without delay. It drives `signal`, which starts with the
    /// value returned.
    pub fn animate(&mut self, signal: u64, from: S, to: S, duration: S, easing: Easing) -> (r: S)
        ensures
            final(self)@ == old(self)@.push(started(signal, plain_spec(from, to, duration, easing))),
            r == from,
    {
        self.animate_with(
            signal,
            AnimSpec { from, to, duration, delay: S::whole(0), easing, repeat: Repeat::Once },
        )
    }

    /// Start a tween. It drives `signal`, which starts with the value returned.
    pub fn animate_with(&mut self, signal: u64, spec: AnimSpec<S>) -> (r: S)
        ensures
            final(self)@ == old(self)@.push(started(signal, spec)),
            r == spec.from,
    {
        self.tweens.push(
            Active {
                signal,
                from: spec.from,
                to: spec.to,
                delay_left: clamp_negative(spec.delay),
                elapsed: S::whole(0),
                duration: spec.duration,
                easing: spec.easing,
                repeat: spec.repeat,
                reversed: false,
            },
        );
        spec.from
    }

    /// Move every tween on by `dt` seconds; a clock that ran backwards has not moved. Finished
    /// tweens are dropped.
    pub fn tick(&mut self, dt: S) -> (r: Frame<S>)
        ensures
            (final(self)@, r.writes@) == ticked(old(self)@, at_least_zero(dt)),
            r.busy == (final(self)@.len() > 0),
    {
        let dt = clamp_negative(dt);
        let ghost all = self.tweens@;
        let mut running: Vec<Active<S>> = Vec::new();
        let mut writes: Vec<(u64, S)> = Vec::new();
        let mut i: usize = 0;
        assert(all.take(0) =~= seq![]);
        assert(running@ =~= seq![]);
        assert(writes@ =~= seq![]);
        while i < self.tweens.len()
            invariant
                i <= self.tweens@.len(),
                all == self.tweens@,
                (running@, writes@) == ticked(all.take(i as int), dt),
            decreases self.tweens@.len() - i,
        {
            proof {
                assert(all.take(i + 1).drop_last() =~= all.take(i as int));
                assert(all.take(i + 1).last() == all[i as int]);
            }
            let mut tween = self.tweens[i];
            let (value, finished) = tween.advance(dt);
            writes.push((tween.signal, value));
            if !finished {
                running.push(tween);
            }
            i += 1;
        }
        assert(all.take(i as int) =~= all);
        self.tweens = running;
        Frame { busy: self.tweens.len() > 0, writes }
    }

    /// Drop every tween. The signals keep what was last written to them.
    pub fn clear(&mut self)
        ensures
            final(self)@ == Seq::<Active<S>>::empty(),
    {
        self.tweens = Vec::new();
    }

    /// Whether nothing runs.
    pub fn is_idle(&self) -> (r: bool)
        ensures
            r == (self@.len() == 0),
    {
        self.tweens.len() == 0
    }

    /// Number of running tweens.
    pub fn active_count(&self) -> (r: usize)
        ensures
            r == self@.len(),
    {
        self.tweens.len()
    }
}

/// Start a tween that runs once and without delay: see [`Timeline::animate`].
pub fn animate<S: Scalar>(
    timeline: &mut Timeline<S>,
    signal: u64,
    from: S,
    to: S,
    duration: S,
    easing: Easing,
) -> (r: S)
    ensures
        final(timeline)@ == old(timeline)@.push(
            started(signal, plain_spec(from, to, duration, easing)),
        ),
        r == from,
{
    timeline.animate(signal, from, to, duration, easing)
}

/// A tween that repeats never finishes by itself.
pub proof fn law_repeating_tweens_never_finish<S: Scalar>(a: Active<S>, dt: S)
    requires
        a.repeat != Repeat::Once,
        !a.duration.s_at_most(S::s_whole(0)),
    ensures
        !advanced(a, dt).2,
        advanced(a, dt).0.repeat == a.repeat,
        advanced(a, dt).0.duration == a.duration,
{
}

/// A tween that runs once and finishes leaves its signal exactly on its end value.
pub proof fn law_finished_tweens_land_on_their_end<S: Scalar>(a: Active<S>, dt: S)
    requires
        a.repeat == Repeat::Once,
        !a.reversed,
        advanced(a, dt).2,
    ensures
        advanced(a, dt).1 == a.to,
{
}

/// As long as its delay lasts, a tween waits at its start.
pub proof fn law_delayed_tweens_wait_at_their_start<S: Scalar>(a: Active<S>, dt: S)
    requires
        S::s_whole(0).s_less(a.delay_left),
        dt.s_less(a.delay_left),
    ensures
        advanced(a, dt).1 == a.from,
        !advanced(a, dt).2,
        advanced(a, dt).0.elapsed == a.elapsed,
{
}

/// Only tweens that run back and forth ever run back.
pub proof fn law_only_ping_pong_runs_back<S: Scalar>(a: Active<S>, dt: S)
    requires
        a.repeat != Repeat::PingPong,
        !a.reversed,
    ensures
        !advanced(a, dt).0.reversed,
{
}

/// Every running tween writes one value in each frame, and no other signal is written.
pub proof fn law_each_tween_writes_once<S: Scalar>(tweens: Seq<Active<S>>, dt: S)
    ensures
        ticked(tweens, dt).1.len() == tweens.len(),
        forall|i: int|
            0 <= i < tweens.len() ==> (#[trigger] ticked(tweens, dt).1[i]).0 == tweens[i].signal,
        ticked(tweens, dt).0.len() <= tweens.len(),
    decreases tweens.len(),
{
    if tweens.len() > 0 {
        law_each_tween_writes_once(tweens.drop_last(), dt);
        let before = ticked(tweens.drop_last(), dt).1;
        assert forall|i: int| 0 <= i < tweens.len() implies (#[trigger] ticked(tweens, dt).1[i]).0
            == tweens[i].signal by {
            if i < before.len() {
                assert(ticked(tweens, dt).1[i] == before[i]);
                assert(tweens.drop_last()[i] == tweens[i]);
            }
        }
    }
}

/// A clock that ran backwards does not rewind anything: the frame is the one of no time at all.
pub proof fn law_time_does_not_run_backwards<S: Scalar>(tweens: Seq<Active<S>>, dt: S)
    requires
        !S::s_whole(0).s_less(dt),
        !S::s_whole(0).s_less(S::s_whole(0)),
    ensures
        ticked(tweens, at_least_zero(dt)) == ticked(tweens, at_least_zero(S::s_whole(0))),
{
}

/// Whether arithmetic is exact on the few small numbers that the ends of the curves need. It is in
/// binary floating point, where small whole numbers have no rounding.
pub open spec fn exact_on_small_numbers<S: Scalar>() -> bool {
    let zero = S::s_whole(0);
    let one = S::s_whole(1);
    let two = S::s_whole(2);
    let three = S::s_whole(3);
    let half = S::s_ratio(1, 2);
    let minus_two = zero.s_minus(two);
    let c = overshoot::<S>();
    &&& zero.s_less(half)
    &&& !one.s_less(half)
    &&& one.s_minus(one) == zero
    &&& one.s_minus(zero) == one
    &&& three.s_minus(zero) == three
    &&& three.s_minus(two) == one
    &&& one.s_plus(zero) == one
    &&& minus_two.s_plus(two) == zero
    &&& zero.s_times(zero) == zero
    &&& one.s_times(one) == one
    &&& two.s_times(zero) == zero
    &&& two.s_times(one) == two
    &&& S::s_whole(4).s_times(zero) == zero
    &&& zero.s_times(three) == zero
    &&& minus_two.s_times(one) == minus_two
    &&& c.s_times(zero) == zero
    &&& c.s_plus(one).s_times(zero) == zero
    &&& zero.s_over(two) == zero
}

/// Every curve ends at one, and every curve but the spring starts at zero exactly, so that a
/// tween starts at its start value and lands on its end value.
pub proof fn law_curves_pin_their_ends<S: Scalar>(e: Easing)
    requires
        exact_on_small_numbers::<S>(),
    ensures
        eased(e, S::s_whole(1)) == S::s_whole(1),
        e != Easing::Spring ==> eased(e, S::s_whole(0)) == S::s_whole(0),
{
}

/// Whether a tween is past its delay and takes time.
pub open spec fn under_way<S: Scalar>(a: Active<S>) -> bool {
    !S::s_whole(0).s_less(a.delay_left) && !a.duration.s_at_most(S::s_whole(0))
}

/// A tween that runs back and forth turns round at each end of a pass, whichever way it ran. `more`
/// is how many further ends lie between the first end that a step crosses and the point it reaches:
/// where there are none the direction changes, and each further one changes it again.
pub proof fn law_ping_pong_turns_round_at_each_end<S: Scalar>(a: Active<S>, dt: S, more: u32)
    requires
        under_way(a),
        a.repeat == Repeat::PingPong,
        !a.elapsed.s_plus(dt).s_less(a.duration),
        a.elapsed.s_plus(dt).s_minus(a.duration).s_over(a.duration).s_to_u32() == more,
        more < u32::MAX,
    ensures
        more == 0 ==> advanced(a, dt).0.reversed != a.reversed,
        more == 1 ==> advanced(a, dt).0.reversed == a.reversed,
        more % 2 == 0 <==> advanced(a, dt).0.reversed != a.reversed,
        advanced(a, dt).0.elapsed == a.elapsed.s_plus(dt).s_wrap(a.duration),
{
}

/// Within a pass a tween keeps its direction, and its clock moves on by the step.
pub proof fn law_passes_run_on<S: Scalar>(a: Active<S>, dt: S)
    requires
        under_way(a),
        a.elapsed.s_plus(dt).s_less(a.duration),
    ensures
        advanced(a, dt).0 == (Active { elapsed: a.elapsed.s_plus(dt), ..a }),
        !advanced(a, dt).2,
{
}

/// A tween that runs once is finished exactly when its duration is over; one that takes no time is
/// finished at once, and stands on its end.
pub proof fn law_tweens_end_on_time<S: Scalar>(a: Active<S>, dt: S)
    requires
        !S::s_whole(0).s_less(a.delay_left),
        a.repeat == Repeat::Once,
        !a.reversed,
    ensures
        a.duration.s_at_most(S::s_whole(0)) ==> advanced(a, dt).2 && advanced(a, dt).1 == a.to,
        !a.duration.s_at_most(S::s_whole(0)) ==> (advanced(a, dt).2 <==> !a.elapsed.s_plus(
            dt,
        ).s_less(a.duration)),
        advanced(a, dt).2 ==> advanced(a, dt).1 == a.to,
{
}

/// Once its delay is over a tween runs as if it had had none and had been started then: what is
/// left of the step is not lost.
pub proof fn law_delays_only_put_off<S: Scalar>(a: Active<S>, dt: S)
    requires
        S::s_whole(0).s_less(a.delay_left),
        !dt.s_less(a.delay_left),
        !S::s_whole(0).s_less(S::s_whole(0)),
    ensures
        advanced(a, dt) == advanced(
            Active { delay_left: S::s_whole(0), ..a },
            dt.s_minus(a.delay_left),
        ),
{
}

/// A step never changes what a tween is: only its clocks and its direction move.
pub proof fn law_steps_keep_the_tween<S: Scalar>(a: Active<S>, dt: S)
    ensures
        ({
            let out = advanced(a, dt).0;
            out == Active {
                delay_left: out.delay_left,
                elapsed: out.elapsed,
                reversed: out.reversed,
                ..a
            }
        }),
        !S::s_whole(0).s_less(a.delay_left) ==> advanced(a, dt).0.delay_left == a.delay_left,
        S::s_whole(0).s_less(a.delay_left) && dt.s_less(a.delay_left) ==> advanced(
            a,
            dt,
        ).0.delay_left == a.delay_left.s_minus(dt),
{
}

/// Whether arithmetic is exact enough to stand on the ends of a tween: nothing of a way added to
/// its start is its start, and all of it is its end.
pub open spec fn exact_at_ends<S: Scalar>(a: Active<S>) -> bool {
    let (zero, one) = (S::s_whole(0), S::s_whole(1));
    &&& a.from.s_plus(a.to.s_minus(a.from).s_times(zero)) == a.from
    &&& a.from.s_plus(a.to.s_minus(a.from).s_times(one)) == a.to
    &&& a.to.s_plus(a.from.s_minus(a.to).s_times(zero)) == a.to
    &&& a.to.s_plus(a.from.s_minus(a.to).s_times(one)) == a.from
}

/// A pass that runs forth goes from the start value to the end value, and one that runs back the
/// other way: where nothing of the way is covered the tween stands on the one, where all of it is,
/// on the other.
pub proof fn law_passes_run_from_end_to_end<S: Scalar>(a: Active<S>, elapsed: S)
    requires
        exact_at_ends(a),
    ensures
        eased(a.easing, elapsed.s_over(a.duration)) == S::s_whole(0) ==> pass_value(a, elapsed)
            == if a.reversed {
            a.to
        } else {
            a.from
        },
        eased(a.easing, elapsed.s_over(a.duration)) == S::s_whole(1) ==> pass_value(a, elapsed)
            == if a.reversed {
            a.from
        } else {
            a.to
        },
{
}

/// Turning round is no jump: where a step takes a tween that runs back and forth exactly to the end
/// of its pass, it writes the value at which that pass ends, and goes on from there. One that
/// repeats jumps back to its start instead.
pub proof fn law_turning_round_is_no_jump<S: Scalar>(a: Active<S>, dt: S)
    requires
        under_way(a),
        !a.elapsed.s_plus(dt).s_less(a.duration),
        a.elapsed.s_plus(dt).s_minus(a.duration).s_over(a.duration).s_to_u32() == 0,
        advanced(a, dt).0.elapsed == S::s_whole(0),
        S::s_whole(0).s_over(a.duration) == S::s_whole(0),
        a.easing != Easing::Spring,
        exact_on_small_numbers::<S>(),
        exact_at_ends(a),
    ensures
        a.repeat == Repeat::PingPong ==> advanced(a, dt).1 == if a.reversed {
            a.from
        } else {
            a.to
        },
        a.repeat == Repeat::Loop ==> advanced(a, dt).1 == if a.reversed {
            a.to
        } else {
            a.from
        },
{
    law_curves_pin_their_ends::<S>(a.easing);
}

/// The curves in terms of one another: the second power is the line times the line, the third the
/// second times the line; a curve that ends slowly is the one that starts slowly, run from the other
/// side.
pub proof fn law_curves_relate<S: Scalar>(t: S)
    ensures
        ({
            let one = S::s_whole(1);
            let left = one.s_minus(t);
            &&& eased(Easing::Linear, t) == t
            &&& eased(Easing::EaseInQuad, t) == eased(Easing::Linear, t).s_times(t)
            &&& eased(Easing::EaseInCubic, t) == eased(Easing::EaseInQuad, t).s_times(t)
            &&& eased(Easing::EaseOutQuad, t) == one.s_minus(eased(Easing::EaseInQuad, left))
            &&& eased(Easing::EaseOutCubic, t) == one.s_minus(eased(Easing::EaseInCubic, left))
            &&& eased(Easing::Smoothstep, t) == eased(Easing::EaseInQuad, t).s_times(
                S::s_whole(3).s_minus(S::s_whole(2).s_times(t)),
            )
            &&& t.s_less(S::s_ratio(1, 2)) ==> {
                &&& eased(Easing::EaseInOutQuad, t) == S::s_whole(2).s_times(t).s_times(t)
                &&& eased(Easing::EaseInOutCubic, t) == S::s_whole(4).s_times(t).s_times(t).s_times(t)
            }
            &&& !t.s_less(S::s_ratio(1, 2)) ==> {
                let v = S::s_whole(0).s_minus(S::s_whole(2)).s_times(t).s_plus(S::s_whole(2));
                &&& eased(Easing::EaseInOutQuad, t) == one.s_minus(
                    eased(Easing::EaseInQuad, v).s_over(S::s_whole(2)),
                )
                &&& eased(Easing::EaseInOutCubic, t) == one.s_minus(
                    eased(Easing::EaseInCubic, v).s_over(S::s_whole(2)),
                )
            }
            &&& {
                let c = S::s_ratio(170158, 100000);
                let p = t.s_minus(one);
                eased(Easing::Spring, t) == one.s_plus(
                    c.s_plus(one).s_times(p).s_times(p).s_times(p),
                ).s_plus(c.s_times(p).s_times(p))
            }
        }),
{
}

proof fn lemma_pass_count(t: int, d: int)
    requires
        d > 0,
        t >= d,
    ensures
        (t - d) / d + 1 == t / d,
        t / d >= 1,
{
    vstd::arithmetic::div_mod::lemma_div_plus_one(t - d, d);
    vstd::arithmetic::div_mod::lemma_div_pos_is_pos(t - d, d);
}

/// On a clock of whole numbers: after a step a tween is as far into its pass as the whole time is
/// past the last end, and one that runs back and forth has turned round once for each end crossed.
pub proof fn law_whole_clocks_wrap_at_the_ends(a: Active<Whole>, dt: i64)
    requires
        a.delay_left.0 <= 0,
        a.duration.0 > 0,
        a.elapsed.0 >= 0,
        dt >= 0,
        a.elapsed.0 + dt <= i64::MAX,
        (a.elapsed.0 + dt) / (a.duration.0 as int) < u32::MAX,
    ensures
        ({
            let t = a.elapsed.0 + dt;
            let d = a.duration.0 as int;
            let out = advanced(a, Whole(dt)).0;
            &&& a.repeat != Repeat::Once ==> out.elapsed.0 == t % d
            &&& a.repeat == Repeat::Loop ==> out.reversed == a.reversed
            &&& a.repeat == Repeat::PingPong ==> (out.reversed != a.reversed <==> (t / d) % 2 == 1)
            &&& a.repeat == Repeat::Once ==> out.elapsed.0 == t && out.reversed == a.reversed && (
            advanced(a, Whole(dt)).2 <==> t >= d)
            &&& a.repeat != Repeat::Once ==> !advanced(a, Whole(dt)).2
        }),
{
    let t = a.elapsed.0 + dt;
    let d = a.duration.0 as int;
    assert(a.elapsed.s_plus(Whole(dt)) == Whole(t as i64));
    if t >= d {
        lemma_pass_count(t, d);
        let past = Whole(t as i64).s_minus(a.duration);
        assert(past.0 == t - d);
        assert(past.s_over(a.duration).0 == (t - d) / d);
    } else {
        vstd::arithmetic::div_mod::lemma_small_mod(t as nat, d as nat);
        vstd::arithmetic::div_mod::lemma_basic_div(t, d);
    }
}

/// On a clock of whole numbers it does not matter how the time is cut into frames: two steps take a
/// tween that repeats where one step of the same length takes it.
pub proof fn law_whole_steps_add_up(a: Active<Whole>, x: i64, y: i64)
    requires
        a.repeat != Repeat::Once,
        a.delay_left.0 <= 0,
        a.duration.0 > 0,
        a.elapsed.0 >= 0,
        x >= 0,
        y >= 0,
        a.elapsed.0 + x + y <= i64::MAX,
        (a.elapsed.0 + x + y) / (a.duration.0 as int) < u32::MAX,
    ensures
        advanced(advanced(a, Whole(x)).0, Whole(y)).0 == advanced(a, Whole((x + y) as i64)).0,
{
    let d = a.duration.0 as int;
    let t = a.elapsed.0 + x;
    let u = t + y;
    let q = t / d;
    let r = t % d;
    vstd::arithmetic::div_mod::lemma_fundamental_div_mod(t, d);
    vstd::arithmetic::div_mod::lemma_mod_bound(t, d);
    let q2 = (r + y) / d;
    let r2 = (r + y) % d;
    vstd::arithmetic::div_mod::lemma_fundamental_div_mod(r + y, d);
    vstd::arithmetic::div_mod::lemma_mod_bound(r + y, d);
    assert(u == d * (q + q2) + r2) by (nonlinear_arith)
        requires
            u == t + y,
            t == d * q + r,
            r + y == d * q2 + r2,
    ;
    assert(d * (q + q2) == (q + q2) * d) by (nonlinear_arith);
    vstd::arithmetic::div_mod::lemma_fundamental_div_mod_converse(u, d, q + q2, r2);
    vstd::arithmetic::div_mod::lemma_div_pos_is_pos(t, d);
    vstd::arithmetic::div_mod::lemma_div_pos_is_pos(r + y, d);
    law_whole_clocks_wrap_at_the_ends(a, x);
    law_steps_keep_the_tween(a, Whole(x));
    let mid = advanced(a, Whole(x)).0;
    assert(mid.elapsed.0 == r);
    law_whole_clocks_wrap_at_the_ends(mid, y);
    law_steps_keep_the_tween(mid, Whole(y));
    law_whole_clocks_wrap_at_the_ends(a, (x + y) as i64);
    law_steps_keep_the_tween(a, Whole((x + y) as i64));
    let out = advanced(mid, Whole(y)).0;
    let one = advanced(a, Whole((x + y) as i64)).0;
    assert((q + q2) % 2 == 1 <==> (q % 2 == 1) != (q2 % 2 == 1));
    assert(out.elapsed == one.elapsed);
    assert(out.reversed == one.reversed);
}

/// Tweens do not disturb each other: each writes what it would write alone, in order, and those that
/// are not finished run on, in order.
pub proof fn law_tweens_run_alone<S: Scalar>(tweens: Seq<Active<S>>, dt: S)
    ensures
        ticked(tweens, dt).1.len() == tweens.len(),
        forall|i: int|
            0 <= i < tweens.len() ==> #[trigger] ticked(tweens, dt).1[i] == (
                tweens[i].signal,
                advanced(tweens[i], dt).1,
            ),
        ticked(tweens, dt).0 == tweens.filter(|a: Active<S>| !advanced(a, dt).2).map_values(
            |a: Active<S>| advanced(a, dt).0,
        ),
    decreases tweens.len(),
{
    let goes_on = |a: Active<S>| !advanced(a, dt).2;
    let next = |a: Active<S>| advanced(a, dt).0;
    if tweens.len() > 0 {
        let init = tweens.drop_last();
        law_tweens_run_alone(init, dt);
        lemma_filter_push(init, tweens.last(), goes_on);
        assert(tweens =~= init.push(tweens.last()));
        assert(ticked(tweens, dt).0 =~= tweens.filter(goes_on).map_values(next));
        assert forall|i: int| 0 <= i < tweens.len() implies #[trigger] ticked(tweens, dt).1[i] == (
            tweens[i].signal,
            advanced(tweens[i], dt).1,
        ) by {
            if i < init.len() {
                assert(ticked(tweens, dt).1[i] == ticked(init, dt).1[i]);
                assert(init[i] == tweens[i]);
            }
        }
    } else {
        assert(tweens =~= seq![]);
        lemma_filter_absent(tweens, goes_on);
        assert(ticked(tweens, dt).0 =~= tweens.filter(goes_on).map_values(next));
    }
}

/// A tween starts as it is described: at the beginning of its first pass, running forth, with its
/// delay before it; less than no delay is none.
pub proof fn law_tweens_start_as_described<S: Scalar>(signal: u64, spec: AnimSpec<S>)
    ensures
        ({
            let a = started(signal, spec);
            &&& a.signal == signal && a.from == spec.from && a.to == spec.to
            &&& a.duration == spec.duration && a.easing == spec.easing && a.repeat == spec.repeat
            &&& a.elapsed == S::s_whole(0) && !a.reversed
            &&& S::s_whole(0).s_less(spec.delay) ==> a.delay_left == spec.delay
            &&& !S::s_whole(0).s_less(spec.delay) ==> a.delay_left == S::s_whole(0)
        }),
{
}

/// A plain tween runs once, and without delay.
pub proof fn law_plain_tweens_run_once_at_once<S: Scalar>(from: S, to: S, duration: S, easing: Easing)
    ensures
        ({
            let spec = plain_spec(from, to, duration, easing);
            &&& spec.from == from
            &&& spec.to == to
            &&& spec.duration == duration
            &&& spec.easing == easing
            &&& spec.delay == S::s_whole(0)
            &&& spec.repeat == Repeat::Once
        }),
{
}

/// While a tween runs, what it writes lies on its curve: as much of the way from the start of its pass
/// to the end of it as the curve says for the share of the pass that is over. Running back is running
/// forth from the other end.
pub proof fn law_values_follow_the_curve<S: Scalar>(a: Active<S>, dt: S)
    requires
        under_way(a),
        !advanced(a, dt).2,
    ensures
        ({
            let (out, v, _) = advanced(a, dt);
            let share = out.elapsed.s_over(a.duration);
            let (start, end) = if out.reversed {
                (a.to, a.from)
            } else {
                (a.from, a.to)
            };
            v == start.s_plus(end.s_minus(start).s_times(eased(a.easing, share)))
        }),
        pass_value(Active { reversed: true, ..a }, dt) == pass_value(
            Active { reversed: false, from: a.to, to: a.from, ..a },
            dt,
        ),
{
}

/// A frame moves every tween on by the time that it is told, as long as time has passed at all.
pub proof fn law_time_passes_as_told<S: Scalar>(dt: S)
    ensures
        S::s_whole(0).s_less(dt) ==> at_least_zero(dt) == dt,
        !S::s_whole(0).s_less(dt) ==> at_least_zero(dt) == S::s_whole(0),
{
}

} // verus!
