//! Animation state: how many of the recorded line segments are revealed.
//!
//! The program runs to completion first; the animation then reveals its line
//! segments `speed` at a time, once per frame tick of about 16 ms.
use vstd::prelude::*;
use std::time::{Duration, Instant};

verus! {

/// `std::time::Instant`, declared so that an animation can keep the time of
/// its last tick.  Nothing is claimed of it: values are carried, never read.
#[verifier::external_type_specification]
#[verifier::external_body]
pub struct ExInstant(Instant);

/// The shortest time between two frame ticks, in nanoseconds (16 ms).
pub const FRAME_NANOS: u128 = 16_000_000;

/// `Instant::now`.  Nothing is claimed of the result: it is the clock's time.
#[verifier::external_body]
fn instant_now() -> Instant {
    Instant::now()
}

/// What `later.saturating_duration_since(earlier)` gives: the time from
/// `earlier` to `later`, zero if `later` is not after it.
pub uninterp spec fn span_between(earlier: Instant, later: Instant) -> Duration;

/// What `Duration::as_nanos` gives for `d`.
pub uninterp spec fn nanos_of(d: Duration) -> u128;

/// `Instant::saturating_duration_since`.  Claimed: the result is named by
/// `span_between`, a function of the two instants alone.
#[verifier::external_body]
fn duration_between(earlier: &Instant, later: &Instant) -> (d: Duration)
    ensures
        d == span_between(*earlier, *later),
{
    later.saturating_duration_since(*earlier)
}

/// `Duration::as_nanos`.  Claimed: the result is named by `nanos_of`, a
/// function of the duration alone.
#[verifier::external_body]
fn duration_nanos(d: &Duration) -> (n: u128)
    ensures
        n == nanos_of(*d),
{
    d.as_nanos()
}

/// The whole nanoseconds from `earlier` to `later` (zero if `later` is not
/// after it).
pub open spec fn nanos_between(earlier: Instant, later: Instant) -> u128 {
    nanos_of(span_between(earlier, later))
}

/// The abstract state of an animation.
pub struct AnimView {
    pub drawn: nat,
    pub total: nat,
    pub paused: bool,
    pub speed: nat,
    pub last_tick: Instant,
}

/// Animation state.
pub struct Anim {
    drawn: usize,
    total: usize,
    paused: bool,
    speed: usize,
    last_tick: Instant,
}

/// The state after one due tick at time `now`: `speed` more segments, up to
/// `total`, and `now` kept as the time of the last tick.
pub open spec fn advanced_view(a: AnimView, now: Instant) -> AnimView {
    AnimView {
        drawn: if a.drawn + a.speed <= a.total {
            a.drawn + a.speed
        } else {
            a.total
        },
        last_tick: now,
        ..a
    }
}

/// The state with the pause flag flipped.
pub open spec fn toggled_view(a: AnimView) -> AnimView {
    AnimView { paused: !a.paused, ..a }
}

/// Pausing twice gives back the whole state, the time of the last tick
/// included.
pub proof fn law_toggle_twice(a: AnimView)
    ensures
        toggled_view(toggled_view(a)) == a,
{
}

/// What every animation state satisfies: never more segments revealed than
/// recorded, and a speed of at least 1.
pub open spec fn view_ok(a: AnimView) -> bool {
    a.drawn <= a.total && 1 <= a.speed
}

/// Whether a tick can reveal anything.
pub open spec fn can_advance(a: AnimView) -> bool {
    !a.paused && a.drawn < a.total
}

/// Whether a tick at `elapsed_nanos` after the last one is due: a frame's
/// time (16 ms) has passed.
pub open spec fn frame_due(elapsed_nanos: u128) -> bool {
    elapsed_nanos >= FRAME_NANOS
}

/// The speed after halving, at least 1.
pub open spec fn halved_speed(s: nat) -> nat {
    if s / 2 >= 1 {
        s / 2
    } else {
        1
    }
}

/// Doubling the speed and then halving it gives the speed back.
pub proof fn law_speed_up_then_down(s: nat)
    requires
        1 <= s,
    ensures
        halved_speed(2 * s) == s,
{
}

/// Halving the speed and then doubling it gives the speed back when the
/// speed was even.
pub proof fn law_speed_down_then_up(s: nat)
    requires
        2 <= s,
        s % 2 == 0,
    ensures
        2 * halved_speed(s) == s,
{
}

/// A due tick reveals at least one more segment while any is hidden, and
/// never more than were recorded.
pub proof fn law_tick_progress(a: AnimView, now: Instant)
    requires
        view_ok(a),
        can_advance(a),
    ensures
        a.drawn < advanced_view(a, now).drawn <= a.total,
        view_ok(advanced_view(a, now)),
        advanced_view(a, now).last_tick == now,
{
}

/// A due tick reveals `speed` more segments, or every hidden one when fewer
/// than `speed` are hidden; it changes nothing but the shown count and the
/// time of the last tick.
pub proof fn law_due_tick_reveals_speed(a: AnimView, now: Instant)
    requires
        view_ok(a),
        can_advance(a),
    ensures
        a.speed <= a.total - a.drawn ==> advanced_view(a, now).drawn - a.drawn == a.speed,
        a.speed > a.total - a.drawn ==> advanced_view(a, now).drawn == a.total,
        advanced_view(a, now).total == a.total,
        advanced_view(a, now).speed == a.speed,
        advanced_view(a, now).paused == a.paused,
{
}

/// After doubling the speed a due tick reveals twice as many segments as it
/// would have before, while enough are hidden.
pub proof fn law_faster_tick_reveals_more(a: AnimView, now: Instant)
    requires
        view_ok(a),
        can_advance(a),
        a.drawn + 2 * a.speed <= a.total,
    ensures
        advanced_view(AnimView { speed: 2 * a.speed, ..a }, now).drawn - a.drawn == 2 * (
        advanced_view(a, now).drawn - a.drawn),
{
}

/// Once every segment is shown, ticks change nothing.
pub proof fn law_finished_is_still(a: AnimView)
    requires
        view_ok(a),
    ensures
        !can_advance(AnimView { drawn: a.total, ..a }),
{
}

impl Anim {
    pub closed spec fn view(&self) -> AnimView {
        AnimView {
            drawn: self.drawn as nat,
            total: self.total as nat,
            paused: self.paused,
            speed: self.speed as nat,
            last_tick: self.last_tick,
        }
    }

    /// The time of the last tick that revealed segments (or of creation).
    pub closed spec fn last_tick(&self) -> Instant {
        self.last_tick
    }

    /// Never more segments revealed than recorded; speed at least 1.
    #[verifier::type_invariant]
    spec fn inv(&self) -> bool {
        &&& self.drawn <= self.total
        &&& 1 <= self.speed
    }

    pub fn new(total: usize) -> (a: Self)
        ensures
            a.view() == (AnimView {
                drawn: 0,
                total: total as nat,
                paused: false,
                speed: 3,
                last_tick: a.last_tick(),
            }),
            view_ok(a.view()),
    {
        Anim { drawn: 0, total, paused: false, speed: 3, last_tick: instant_now() }
    }

    /// Segments revealed so far.
    pub fn drawn(&self) -> (n: usize)
        ensures
            n == self.view().drawn,
            view_ok(self.view()),
    {
        proof {
            use_type_invariant(self);
        }
        self.drawn
    }

    /// Segments in all.
    pub fn total(&self) -> (n: usize)
        ensures
            n == self.view().total,
            view_ok(self.view()),
    {
        proof {
            use_type_invariant(self);
        }
        self.total
    }

    /// Segments revealed per tick.
    pub fn speed(&self) -> (n: usize)
        ensures
            n == self.view().speed,
            view_ok(self.view()),
    {
        proof {
            use_type_invariant(self);
        }
        self.speed
    }

    /// Whether the animation is paused.
    pub fn paused(&self) -> (b: bool)
        ensures
            b == self.view().paused,
    {
        self.paused
    }

    /// One tick at time `now`, `elapsed_nanos` after the last tick: reveal
    /// `speed` more segments if a frame's time has passed.  Returns whether
    /// the frame must be redrawn.
    pub fn advance(&mut self, elapsed_nanos: u128, now: Instant) -> (redraw: bool)
        ensures
            view_ok(old(self).view()),
            view_ok(final(self).view()),
            redraw == (can_advance(old(self).view()) && frame_due(elapsed_nanos)),
            redraw == (!old(self).view().paused && old(self).view().drawn < old(self).view().total
                && elapsed_nanos >= FRAME_NANOS),
            redraw ==> final(self).view() == advanced_view(old(self).view(), now),
            redraw ==> final(self).view().drawn == (if old(self).view().speed <= old(self).view().total
                - old(self).view().drawn {
                old(self).view().drawn + old(self).view().speed
            } else {
                old(self).view().total
            }),
            redraw ==> final(self).last_tick() == now,
            !redraw ==> final(self).view() == old(self).view(),
            !redraw ==> final(self).last_tick() == old(self).last_tick(),
    {
        proof {
            use_type_invariant(&*self);
        }
        if self.paused || self.drawn >= self.total {
            return false;
        }
        if elapsed_nanos >= FRAME_NANOS {
            self.last_tick = now;
            let next = if self.speed <= self.total - self.drawn {
                self.drawn + self.speed
            } else {
                self.total
            };
            self.drawn = next;
            true
        } else {
            false
        }
    }

    /// Advance the animation if enough time has passed.
    /// Returns `true` if the frame needs to be redrawn.
    pub fn tick(&mut self) -> (redraw: bool)
        ensures
            view_ok(old(self).view()),
            view_ok(final(self).view()),
            redraw ==> can_advance(old(self).view()),
            redraw ==> frame_due(nanos_between(old(self).last_tick(), final(self).last_tick())),
            redraw ==> final(self).view() == advanced_view(old(self).view(), final(self).last_tick()),
            !redraw ==> final(self).view() == old(self).view(),
            !redraw ==> final(self).last_tick() == old(self).last_tick(),
            !redraw && can_advance(old(self).view()) ==> exists|t: Instant|
                !frame_due(#[trigger] nanos_between(old(self).last_tick(), t)),
    {
        proof {
            use_type_invariant(&*self);
        }
        if self.paused || self.drawn >= self.total {
            return false;
        }
        let now = instant_now();
        let elapsed = duration_between(&self.last_tick, &now);
        let elapsed_nanos = duration_nanos(&elapsed);
        let redraw = self.advance(elapsed_nanos, now);
        proof {
            if !redraw {
                assert(!frame_due(nanos_between(old(self).last_tick(), now)));
            }
        }
        redraw
    }

    /// Double the drawing speed.
    pub fn speed_up(&mut self)
        requires
            old(self).view().speed <= usize::MAX / 2,
        ensures
            view_ok(old(self).view()),
            view_ok(final(self).view()),
            final(self).view() == (AnimView { speed: 2 * old(self).view().speed, ..old(self).view() }),
            final(self).last_tick() == old(self).last_tick(),
    {
        proof {
            use_type_invariant(&*self);
        }
        self.speed = self.speed * 2;
    }

    /// Halve the drawing speed, down to 1.
    pub fn speed_down(&mut self)
        ensures
            view_ok(old(self).view()),
            view_ok(final(self).view()),
            final(self).view() == (AnimView { speed: halved_speed(old(self).view().speed), ..old(self).view() }),
            final(self).last_tick() == old(self).last_tick(),
    {
        proof {
            use_type_invariant(&*self);
        }
        let s = self.speed / 2;
        self.speed = if s >= 1 {
            s
        } else {
            1
        };
    }

    /// Start over: nothing revealed, not paused.
    pub fn restart(&mut self)
        ensures
            view_ok(old(self).view()),
            view_ok(final(self).view()),
            final(self).view() == (AnimView { drawn: 0, paused: false, ..old(self).view() }),
            final(self).last_tick() == old(self).last_tick(),
    {
        proof {
            use_type_invariant(&*self);
        }
        self.drawn = 0;
        self.paused = false;
    }

    /// Reveal every segment.
    pub fn finish(&mut self)
        ensures
            view_ok(old(self).view()),
            view_ok(final(self).view()),
            final(self).view() == (AnimView { drawn: old(self).view().total, ..old(self).view() }),
            final(self).last_tick() == old(self).last_tick(),
    {
        proof {
            use_type_invariant(&*self);
        }
        self.drawn = self.total;
    }

    /// Pause a running animation or resume a paused one.
    pub fn toggle_pause(&mut self)
        ensures
            view_ok(old(self).view()),
            view_ok(final(self).view()),
            final(self).view() == toggled_view(old(self).view()),
            final(self).view().paused == !old(self).view().paused,
            final(self).view().drawn == old(self).view().drawn,
            final(self).view().total == old(self).view().total,
            final(self).view().speed == old(self).view().speed,
            final(self).last_tick() == old(self).last_tick(),
    {
        proof {
            use_type_invariant(&*self);
        }
        self.paused = !self.paused;
    }
}

} // verus!
