//! Tweens, curves and the timeline, in floating-point seconds.
use canopy::anim::{animate, AnimSpec, Easing, Repeat, Timeline, Tween};
use canopy::scalar::{Scalar, Whole};

#[derive(Clone, Copy, PartialEq, Debug)]
struct Px(f32);

impl Scalar for Px {
    fn whole(n: u64) -> Px {
        Px(n as f32)
    }
    fn ratio(n: u32, d: u32) -> Px {
        Px(n as f32 / d as f32)
    }
    fn plus(self, other: Px) -> Px {
        Px(self.0 + other.0)
    }
    fn minus(self, other: Px) -> Px {
        Px(self.0 - other.0)
    }
    fn times(self, other: Px) -> Px {
        Px(self.0 * other.0)
    }
    fn over(self, other: Px) -> Px {
        Px(self.0 / other.0)
    }
    fn less(self, other: Px) -> bool {
        self.0 < other.0
    }
    fn at_most(self, other: Px) -> bool {
        self.0 <= other.0
    }
    fn larger(self, other: Px) -> Px {
        Px(self.0.max(other.0))
    }
    fn to_u32(self) -> u32 {
        self.0 as u32
    }
    fn to_i32(self) -> i32 {
        self.0 as i32
    }
    fn wrap(self, period: Px) -> Px {
        let mut x = self.0;
        while x >= period.0 {
            x -= period.0;
        }
        Px(x)
    }
    fn parse(s: &str) -> Option<Px> {
        s.parse::<f32>().ok().map(Px)
    }
}

/// A timeline with the values of the signals that it drives.
struct Stage {
    timeline: Timeline<Px>,
    values: Vec<f32>,
}

impl Stage {
    fn new() -> Stage {
        Stage { timeline: Timeline::new(), values: Vec::new() }
    }

    fn key(&self) -> u64 {
        self.values.len() as u64
    }

    fn added(&mut self, first: Px) -> usize {
        self.values.push(first.0);
        self.values.len() - 1
    }

    fn animate(&mut self, from: f32, to: f32, duration: f32, easing: Easing) -> usize {
        let key = self.key();
        let first = self.timeline.animate(key, Px(from), Px(to), Px(duration), easing);
        self.added(first)
    }

    fn animate_freely(&mut self, from: f32, to: f32, duration: f32, easing: Easing) -> usize {
        let key = self.key();
        let first = animate(&mut self.timeline, key, Px(from), Px(to), Px(duration), easing);
        self.added(first)
    }

    fn animate_with(&mut self, spec: AnimSpec<Px>) -> usize {
        let key = self.key();
        let first = self.timeline.animate_with(key, spec);
        self.added(first)
    }

    fn start(&mut self, tween: Tween<Px>) -> usize {
        let key = self.key();
        let first = tween.start(&mut self.timeline, key);
        self.added(first)
    }

    fn tick(&mut self, dt: f32) -> bool {
        let frame = self.timeline.tick(Px(dt));
        for (signal, value) in frame.writes {
            self.values[signal as usize] = value.0;
        }
        frame.busy
    }

    fn get(&self, signal: usize) -> f32 {
        self.values[signal]
    }

    fn clear(&mut self) {
        self.timeline.clear();
    }

    fn is_idle(&self) -> bool {
        self.timeline.is_idle()
    }

    fn active_count(&self) -> usize {
        self.timeline.active_count()
    }
}

fn tween(from: f32, to: f32, duration: f32) -> Tween<Px> {
    Tween::new(Px(from), Px(to), Px(duration))
}

fn curve(easing: Easing, t: f32) -> f32 {
    easing.apply(Px(t)).0
}

fn approx(a: f32, b: f32) {
    assert!((a - b).abs() < 1e-4, "expected ~{b}, got {a}");
}

#[test]
fn linear_tween_hits_midpoint_then_endpoint_and_goes_idle() {
    let mut tl = Stage::new();

    let v = tl.animate(0.0, 10.0, 1.0, Easing::Linear);
    approx(tl.get(v), 0.0);
    assert!(!tl.is_idle(), "an active tween means the timeline is busy");

    let busy = tl.tick(0.5);
    assert!(busy, "still mid-flight at t=0.5");
    approx(tl.get(v), 5.0);

    let busy = tl.tick(0.5);
    approx(tl.get(v), 10.0);
    assert!(!busy, "tween completed so tick reports idle");
    assert!(tl.is_idle());
    assert_eq!(tl.active_count(), 0, "completed tween was dropped");
}

#[test]
fn ease_in_out_curve_endpoints_and_midpoint() {
    let mut tl = Stage::new();
    let v = tl.animate(0.0, 1.0, 1.0, Easing::EaseInOutCubic);

    approx(tl.get(v), 0.0);

    tl.tick(0.5);
    approx(tl.get(v), 0.5);

    tl.tick(0.5);
    approx(tl.get(v), 1.0);
    assert!(tl.is_idle());
}

#[test]
fn ease_in_out_is_slow_at_the_start() {
    let mut tl = Stage::new();
    let v = tl.animate(0.0, 1.0, 1.0, Easing::EaseInOutCubic);
    tl.tick(0.25);
    let eased = tl.get(v);
    assert!(
        eased < 0.25,
        "ease-in should lag linear early on; got {eased}"
    );
    assert!(eased > 0.0);
}

#[test]
fn negative_dt_does_not_rewind() {
    let mut tl = Stage::new();
    let v = tl.animate(0.0, 10.0, 1.0, Easing::Linear);

    tl.tick(0.5);
    approx(tl.get(v), 5.0);

    tl.tick(-0.4);
    approx(tl.get(v), 5.0);
}

#[test]
fn zero_duration_snaps_to_target_on_first_tick() {
    let mut tl = Stage::new();
    let v = tl.animate(2.0, 9.0, 0.0, Easing::Linear);
    approx(tl.get(v), 2.0);

    let busy = tl.tick(0.016);
    approx(tl.get(v), 9.0);
    assert!(!busy, "instant tween completes immediately");
    assert!(tl.is_idle());
}

#[test]
fn overshooting_tick_clamps_to_target() {
    let mut tl = Stage::new();
    let v = tl.animate(0.0, 100.0, 0.1, Easing::Linear);

    let busy = tl.tick(10.0);
    approx(tl.get(v), 100.0);
    assert!(!busy);
}

#[test]
fn multiple_tweens_complete_independently() {
    let mut tl = Stage::new();
    let fast = tl.animate(0.0, 1.0, 0.5, Easing::Linear);
    let slow = tl.animate(0.0, 1.0, 2.0, Easing::Linear);
    assert_eq!(tl.active_count(), 2);

    let busy = tl.tick(0.5);
    assert!(busy, "the slow tween is still running");
    approx(tl.get(fast), 1.0);
    approx(tl.get(slow), 0.25);
    assert_eq!(tl.active_count(), 1, "fast tween was dropped, slow remains");
}

#[test]
fn free_function_matches_method() {
    let mut tl = Stage::new();
    let v = tl.animate_freely(0.0, 4.0, 1.0, Easing::Linear);
    tl.tick(0.5);
    approx(tl.get(v), 2.0);
}

#[test]
fn easing_endpoints_are_exact() {
    for e in [
        Easing::Linear,
        Easing::EaseInQuad,
        Easing::EaseOutQuad,
        Easing::EaseInOutQuad,
        Easing::EaseInCubic,
        Easing::EaseOutCubic,
        Easing::EaseInOutCubic,
        Easing::Smoothstep,
        Easing::Spring,
    ] {
        approx(curve(e, 0.0), 0.0);
        approx(curve(e, 1.0), 1.0);
    }
}

#[test]
fn new_quad_and_cubic_easings_have_sensible_midpoints() {
    approx(curve(Easing::EaseInQuad, 0.5), 0.25);
    approx(curve(Easing::EaseInOutQuad, 0.5), 0.5);
    approx(curve(Easing::EaseInCubic, 0.5), 0.125);
    approx(curve(Easing::EaseInOutCubic, 0.5), 0.5);

    assert!(curve(Easing::EaseInQuad, 0.25) < 0.25);
    assert!(curve(Easing::EaseInCubic, 0.25) < curve(Easing::EaseInQuad, 0.25));
}

#[test]
fn spring_overshoots_before_settling() {
    let peak = curve(Easing::Spring, 0.8);
    assert!(peak > 1.0, "spring should overshoot mid-flight; got {peak}");
    approx(curve(Easing::Spring, 1.0), 1.0);
}

#[test]
fn delay_holds_at_from_then_interpolates() {
    let mut tl = Stage::new();
    let v = tl.start(tween(0.0, 10.0, 1.0).delay(Px(0.5)).easing(Easing::Linear));

    approx(tl.get(v), 0.0);

    let busy = tl.tick(0.25);
    assert!(busy, "delayed tween keeps the timeline busy");
    approx(tl.get(v), 0.0);

    let busy = tl.tick(0.25);
    assert!(busy);
    approx(tl.get(v), 0.0);

    tl.tick(0.5);
    approx(tl.get(v), 5.0);

    let busy = tl.tick(0.5);
    approx(tl.get(v), 10.0);
    assert!(!busy);
    assert!(tl.is_idle());
}

#[test]
fn delay_overflow_spills_into_interpolation() {
    let mut tl = Stage::new();
    let v = tl.start(tween(0.0, 1.0, 1.0).delay(Px(0.5)));

    tl.tick(0.75);
    approx(tl.get(v), 0.25);
}

#[test]
fn loop_wraps_back_toward_from_and_stays_active() {
    let mut tl = Stage::new();
    let v = tl.start(tween(0.0, 10.0, 1.0).repeat(Repeat::Loop).easing(Easing::Linear));

    let busy = tl.tick(0.5);
    assert!(busy);
    approx(tl.get(v), 5.0);

    let busy = tl.tick(0.7);
    assert!(busy, "a Loop tween never completes on its own");
    approx(tl.get(v), 2.0);
    assert!(!tl.is_idle());
    assert_eq!(tl.active_count(), 1);

    let busy = tl.tick(1.0);
    assert!(busy);
    approx(tl.get(v), 2.0);
}

#[test]
fn pingpong_reverses_direction_and_stays_active() {
    let mut tl = Stage::new();
    let v = tl.start(tween(0.0, 10.0, 1.0).repeat(Repeat::PingPong).easing(Easing::Linear));

    let busy = tl.tick(0.8);
    assert!(busy);
    approx(tl.get(v), 8.0);

    let busy = tl.tick(0.5);
    assert!(busy, "a PingPong tween never completes on its own");
    let after = tl.get(v);
    approx(after, 7.0);
    assert!(after < 8.0, "value must come back down on the return pass");
    assert!(!tl.is_idle());

    tl.tick(0.4);
    approx(tl.get(v), 3.0);
}

#[test]
fn clear_stops_a_repeating_tween_and_freezes_its_value() {
    let mut tl = Stage::new();
    let v = tl.start(tween(0.0, 10.0, 1.0).repeat(Repeat::Loop));

    tl.tick(0.5);
    approx(tl.get(v), 5.0);
    assert!(!tl.is_idle());

    tl.clear();
    assert!(tl.is_idle(), "clear drops every tween");
    assert_eq!(tl.active_count(), 0);

    let busy = tl.tick(1.0);
    assert!(!busy);
    approx(tl.get(v), 5.0);
}

#[test]
fn builder_defaults_match_the_once_animate_path() {
    let mut tl = Stage::new();
    let v = tl.start(tween(0.0, 4.0, 1.0));

    tl.tick(0.5);
    approx(tl.get(v), 2.0);

    let busy = tl.tick(0.5);
    approx(tl.get(v), 4.0);
    assert!(!busy, "default builder is Once and completes");
    assert!(tl.is_idle());
}

#[test]
fn animate_with_spec_round_trips_through_the_builder_spec() {
    let mut tl = Stage::new();
    let spec = tween(0.0, 1.0, 1.0)
        .delay(Px(0.25))
        .easing(Easing::Linear)
        .spec();
    let v = tl.animate_with(spec);

    tl.tick(0.25);
    approx(tl.get(v), 0.0);
    tl.tick(0.5);
    approx(tl.get(v), 0.5);
}

#[test]
fn staggered_entrance_starts_each_element_a_beat_later() {
    let mut tl = Stage::new();
    let step = 0.2;
    let v: Vec<usize> = (0..3)
        .map(|i| tl.start(tween(0.0, 1.0, 0.4).delay(Px(i as f32 * step)).easing(Easing::Linear)))
        .collect();

    tl.tick(0.2);
    approx(tl.get(v[0]), 0.5);
    approx(tl.get(v[1]), 0.0);
    approx(tl.get(v[2]), 0.0);

    tl.tick(0.2);
    approx(tl.get(v[0]), 1.0);
    approx(tl.get(v[1]), 0.5);
    approx(tl.get(v[2]), 0.0);
}

#[test]
fn bound_effect_reruns_across_ticks_with_one_observation_per_flush() {
    let mut timeline: Timeline<Px> = Timeline::new();
    let first = timeline.animate(0, Px(0.0), Px(10.0), Px(1.0), Easing::Linear);
    let mut observed = first.0;
    let mut runs = 1;
    approx(observed, 0.0);

    for expected in [5.0, 10.0] {
        let frame = timeline.tick(Px(0.5));
        assert_eq!(frame.writes.len(), 1);
        observed = frame.writes[0].1 .0;
        runs += 1;
        approx(observed, expected);
    }
    assert_eq!(runs, 3);

    let frame = timeline.tick(Px(1.0));
    assert!(!frame.busy);
    runs += frame.writes.len();
    assert_eq!(runs, 3, "idle timeline does not re-run effects");
    approx(observed, 10.0);
}
#[test]
fn an_idle_timeline_writes_nothing() {
    let mut timeline: Timeline<Px> = Timeline::new();
    timeline.animate(7, Px(0.0), Px(10.0), Px(1.0), Easing::Linear);
    timeline.animate(8, Px(0.0), Px(4.0), Px(2.0), Easing::Linear);
    let frame = timeline.tick(Px(0.5));
    assert!(frame.busy);
    assert_eq!(frame.writes, vec![(7, Px(5.0)), (8, Px(1.0))]);
    let frame = timeline.tick(Px(0.5));
    assert_eq!(frame.writes, vec![(7, Px(10.0)), (8, Px(2.0))]);
    let frame = timeline.tick(Px(1.0));
    assert_eq!(frame.writes, vec![(8, Px(4.0))]);
    assert!(!frame.busy);
    let frame = timeline.tick(Px(1.0));
    assert!(frame.writes.is_empty());
    assert!(!frame.busy);
}

#[test]
fn curves_have_their_formulas() {
    approx(curve(Easing::EaseOutQuad, 0.25), 0.4375);
    approx(curve(Easing::EaseInOutQuad, 0.25), 0.125);
    approx(curve(Easing::EaseInOutQuad, 0.75), 0.875);
    approx(curve(Easing::EaseOutCubic, 0.25), 0.578125);
    approx(curve(Easing::EaseInOutCubic, 0.25), 0.0625);
    approx(curve(Easing::EaseInOutCubic, 0.75), 0.9375);
    approx(curve(Easing::Smoothstep, 0.25), 0.15625);
    approx(curve(Easing::Linear, 0.3), 0.3);
}

#[test]
fn a_tween_can_be_taken_apart_and_put_together() {
    let spec = tween(1.0, 2.0, 3.0).delay(Px(-4.0)).repeat(Repeat::PingPong).spec();
    assert_eq!(
        spec,
        AnimSpec {
            from: Px(1.0),
            to: Px(2.0),
            duration: Px(3.0),
            delay: Px(0.0),
            easing: Easing::Linear,
            repeat: Repeat::PingPong,
        }
    );
    assert_eq!(Tween::from_spec(spec).spec(), spec);
    assert_eq!(Repeat::default(), Repeat::Once);
}

#[test]
fn whole_seconds_animate_too() {
    let mut timeline: Timeline<Whole> = Timeline::default();
    timeline.animate(0, Whole(0), Whole(10), Whole(1), Easing::EaseInQuad);
    let frame = timeline.tick(Whole(0));
    assert_eq!(frame.writes, vec![(0, Whole(0))]);
    let frame = timeline.tick(Whole(1));
    assert_eq!(frame.writes, vec![(0, Whole(10))]);
    assert!(timeline.is_idle());
}
