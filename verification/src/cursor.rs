//! Smooth animation of one remote participant's cursor.
//!
//! Pointer samples arrive sparsely and with network jitter; the renderer
//! ticks at a steady rate.  A `LiveCursor` bridges the two: `add_point`
//! records a sample and, once enough history exists, enqueues an animation
//! segment covering the newest interval; `tick` plays the queued segments
//! back against the render clock, interpolating along the spline.  A long
//! gap between samples means the remote cursor jumped or reappeared, so the
//! history is reseeded from the new sample instead of gliding there.
//!
//! All timestamps are milliseconds of a monotonic clock, supplied by the
//! caller; coordinates enter in whole canvas pixels and the displayed
//! position is kept in the spline's fixed-point scale (1/1000 pixel).

use crate::datatypes::{Color, PointerPosition};
use crate::spline::{interp_x, interp_y, Spline, FP};
use vstd::prelude::*;

verus! {

/// Staleness threshold in milliseconds: a longer gap between two samples
/// resets the history, and no animation segment lasts longer than this.
pub const MAX_INTERVAL: u64 = 300;

/// Largest magnitude of an incoming pixel coordinate.
pub const PIXEL_LIMIT: i64 = 10_000;

/// One queued stretch of smooth motion: the curve is played from control
/// point `start_index` to the next one over `duration` milliseconds,
/// starting at the first tick that sees the segment.
#[derive(Clone, Copy, Debug)]
pub struct Animation {
    pub start_index: usize,
    pub duration: u64,
    pub started_at: Option<u64>,
}

/// The segment with its start time stamped, if it was not already.
pub open spec fn stamp(seg: Animation, now: u64) -> Animation {
    if seg.started_at is Some {
        seg
    } else {
        Animation { started_at: Some(now), ..seg }
    }
}

/// Whether the segment is still playing at time `now` once stamped: its
/// local time parameter has not passed 1 (and a zero-duration segment is
/// never live).
pub open spec fn seg_live(seg: Animation, now: u64) -> bool {
    &&& seg.duration > 0
    &&& now as int - stamp(seg, now).started_at->Some_0 as int <= seg.duration as int
}

/// Local time parameter of a stamped live segment, scaled by FP.
pub open spec fn local_time(seg: Animation, now: u64) -> int {
    (now as int - stamp(seg, now).started_at->Some_0 as int) * (FP as int) / (
    seg.duration as int)
}

/// What the animation queue becomes after one tick at `now`: expired
/// segments are discarded from the front, and the first live one (if any)
/// is stamped and kept, along with everything behind it.
pub open spec fn tick_queue(q: Seq<Animation>, now: u64) -> Seq<Animation>
    decreases q.len(),
{
    if q.len() == 0 {
        q
    } else if seg_live(q[0], now) {
        q.update(0, stamp(q[0], now))
    } else {
        tick_queue(q.drop_first(), now)
    }
}

/// Where the cursor is displayed after a tick at `now`: on the curve within
/// the first live segment; at the newest sample when the queue drains; or
/// unchanged when there is no history at all.
pub open spec fn tick_position(
    q: Seq<Animation>,
    now: u64,
    points: Seq<(i64, i64)>,
    pos: (i64, i64),
) -> (int, int)
    decreases q.len(),
{
    if q.len() == 0 {
        if points.len() >= 1 {
            (points.last().0 as int, points.last().1 as int)
        } else {
            (pos.0 as int, pos.1 as int)
        }
    } else if seg_live(q[0], now) {
        (
            interp_x(points, q[0].start_index as int, local_time(q[0], now)),
            interp_y(points, q[0].start_index as int, local_time(q[0], now)),
        )
    } else {
        tick_position(q.drop_first(), now, points, pos)
    }
}

/// What one recorded sample does to a cursor: the staleness reset, the
/// early snap while history is short, or the enqueue of a new segment.
pub open spec fn added_point(pre: LiveCursor, post: LiveCursor, x: i64, y: i64, now: u64) -> bool {
    let p = ((x * FP) as i64, (y * FP) as i64);
    let gap = now - pre.last_sample_time();
    &&& post.color() == pre.color()
    &&& post.last_sample_time() == now
    &&& post.clock() == now
    &&& if gap > MAX_INTERVAL {
        &&& post.history() =~= seq![p, p, p]
        &&& post.queue() == pre.queue()
        &&& post.position() == p
    } else if pre.history().len() + 1 < 4 {
        &&& post.history() =~= pre.history().push(p)
        &&& post.queue() == pre.queue()
        &&& post.position() == p
    } else {
        &&& post.history() =~= pre.history().push(p)
        &&& post.queue() == pre.queue().push(
            Animation {
                start_index: (pre.history().len() - 1) as usize,
                duration: if gap < MAX_INTERVAL {
                    gap as u64
                } else {
                    MAX_INTERVAL
                },
                started_at: None,
            },
        )
        &&& post.position() == pre.position()
    }
}

/// What one render tick does to a cursor.
pub open spec fn ticked(pre: LiveCursor, post: LiveCursor, now: u64) -> bool {
    &&& post.color() == pre.color()
    &&& post.history() == pre.history()
    &&& post.last_sample_time() == pre.last_sample_time()
    &&& post.clock() == now
    &&& post.queue() =~= tick_queue(pre.queue(), now)
    &&& post.position().0 as int == tick_position(
        pre.queue(),
        now,
        pre.history(),
        pre.position(),
    ).0
    &&& post.position().1 as int == tick_position(
        pre.queue(),
        now,
        pre.history(),
        pre.position(),
    ).1
}

/// The animation state for one remote participant's cursor.
pub struct LiveCursor {
    color: Color,
    current_position: (i64, i64),
    last_add_point: u64,
    clock: u64,
    spline: Spline,
    anim_queue: Vec<Animation>,
}

impl LiveCursor {
    /// The color this participant draws with.
    pub closed spec fn color(self) -> Color {
        self.color
    }

    /// Displayed position, in fixed-point (1/1000 pixel) units.
    pub closed spec fn position(self) -> (i64, i64) {
        self.current_position
    }

    pub fn get_color(&self) -> (c: Color)
        ensures
            c == self.color(),
    {
        self.color
    }

    pub fn get_position(&self) -> (p: (i64, i64))
        ensures
            p == self.position(),
    {
        self.current_position
    }

    /// How many samples the spline history holds.
    pub fn history_len(&self) -> (n: usize)
        ensures
            n == self.history().len(),
    {
        self.spline.len()
    }

    /// How many animation segments are queued.
    pub fn queue_len(&self) -> (n: usize)
        ensures
            n == self.queue().len(),
    {
        self.anim_queue.len()
    }

    /// The latest timestamp this cursor has seen.
    pub fn clock_ms(&self) -> (t: u64)
        ensures
            t == self.clock(),
    {
        self.clock
    }

    /// The spline history the animation reads from.
    pub closed spec fn history(self) -> Seq<(i64, i64)> {
        self.spline@
    }

    /// The queued animation segments, front first.
    pub closed spec fn queue(self) -> Seq<Animation> {
        self.anim_queue@
    }

    /// Timestamp of the most recent sample.
    pub closed spec fn last_sample_time(self) -> u64 {
        self.last_add_point
    }

    /// Latest timestamp this cursor has seen; callers pass a monotonic
    /// clock, so later calls never go below it.
    pub closed spec fn clock(self) -> u64 {
        self.clock
    }

    pub closed spec fn wf(self) -> bool {
        &&& self.spline.wf()
        &&& self.last_add_point <= self.clock
        &&& self.anim_queue@.len() > 0 ==> self.spline@.len() >= 3
        &&& forall|i: int|
            0 <= i < self.anim_queue@.len() ==> (#[trigger] self.anim_queue@[i]).duration
                <= MAX_INTERVAL
        &&& forall|i: int|
            0 <= i < self.anim_queue@.len() ==> ((#[trigger] self.anim_queue@[i]).started_at
                is Some ==> self.anim_queue@[i].started_at->Some_0 <= self.clock)
    }

    /// A fresh cursor showing the given first sample, with empty history
    /// and queue.
    pub fn new(pos: PointerPosition, now: u64) -> (c: LiveCursor)
        requires
            -PIXEL_LIMIT <= pos.x <= PIXEL_LIMIT,
            -PIXEL_LIMIT <= pos.y <= PIXEL_LIMIT,
        ensures
            c.wf(),
            c.color() == pos.color,
            c.position() == ((pos.x * FP) as i64, (pos.y * FP) as i64),
            c.history() =~= Seq::<(i64, i64)>::empty(),
            c.queue() =~= Seq::<Animation>::empty(),
            c.last_sample_time() == now,
            c.clock() == now,
    {
        LiveCursor {
            color: pos.color,
            current_position: (pos.x * FP, pos.y * FP),
            last_add_point: now,
            clock: now,
            spline: Spline::new(),
            anim_queue: Vec::new(),
        }
    }

    /// Record one pointer sample at time `now`.
    ///
    /// A gap above `MAX_INTERVAL` since the previous sample reseeds the
    /// history with the new point three times over and snaps the displayed
    /// position to it, enqueueing nothing.  Otherwise the sample extends
    /// the history; with at least four points the newest interval is
    /// enqueued as an animation segment whose duration is the gap, capped
    /// at `MAX_INTERVAL`, and with fewer the position snaps to the sample.
    pub fn add_point(&mut self, x: i64, y: i64, now: u64)
        requires
            old(self).wf(),
            now >= old(self).clock(),
            -PIXEL_LIMIT <= x <= PIXEL_LIMIT,
            -PIXEL_LIMIT <= y <= PIXEL_LIMIT,
        ensures
            final(self).wf(),
            added_point(*old(self), *final(self), x, y, now),
    {
        let fx = x * FP;
        let fy = y * FP;
        let gap = now - self.last_add_point;
        self.clock = now;
        if gap > MAX_INTERVAL {
            self.spline.clear();
            self.spline.add_point(fx, fy);
            self.spline.add_point(fx, fy);
            self.spline.add_point(fx, fy);
            self.last_add_point = now;
            self.current_position = (fx, fy);
        } else {
            self.spline.add_point(fx, fy);
            self.last_add_point = now;
            if self.spline.len() < 4 {
                self.current_position = (fx, fy);
            } else {
                let duration = if gap < MAX_INTERVAL {
                    gap
                } else {
                    MAX_INTERVAL
                };
                let seg = Animation {
                    start_index: self.spline.len() - 2,
                    duration,
                    started_at: None,
                };
                self.anim_queue.push(seg);
            }
        }
    }

    /// Advance the animation to time `now`.
    ///
    /// Expired segments are discarded from the front of the queue; the
    /// first live one (stamped on its first visit) sets the displayed
    /// position to the curve point at its local time; an empty queue holds
    /// the position at the newest sample.
    pub fn tick(&mut self, now: u64)
        requires
            old(self).wf(),
            now >= old(self).clock(),
        ensures
            final(self).wf(),
            ticked(*old(self), *final(self), now),
    {
        self.clock = now;
        loop
            invariant
                self.spline.wf(),
                self.last_add_point <= self.clock,
                self.clock == now,
                self.color == old(self).color,
                self.spline@ == old(self).history(),
                self.last_add_point == old(self).last_sample_time(),
                self.current_position == old(self).position(),
                self.anim_queue@.len() > 0 ==> self.spline@.len() >= 3,
                forall|i: int|
                    0 <= i < self.anim_queue@.len() ==> (#[trigger] self.anim_queue@[i]).duration
                        <= MAX_INTERVAL,
                forall|i: int|
                    0 <= i < self.anim_queue@.len() ==> ((#[trigger] self.anim_queue@[i]).started_at
                        is Some ==> self.anim_queue@[i].started_at->Some_0 <= now),
                tick_queue(self.anim_queue@, now) =~= tick_queue(old(self).queue(), now),
                tick_position(self.anim_queue@, now, self.spline@, self.current_position)
                    == tick_position(
                    old(self).queue(),
                    now,
                    old(self).history(),
                    old(self).position(),
                ),
            decreases self.anim_queue@.len(),
        {
            if self.anim_queue.len() == 0 {
                if self.spline.len() >= 1 {
                    let p = self.spline.point_at(self.spline.len() - 1);
                    self.current_position = p;
                }
                return ;
            }
            let ghost q_before = self.anim_queue@;
            let mut seg = self.anim_queue.remove(0);
            if seg.started_at.is_none() {
                seg.started_at = Some(now);
            }
            proof {
                assert(seg == stamp(q_before[0], now));
            }
            let s = match seg.started_at {
                Some(s) => s,
                None => 0,
            };
            if seg.duration > 0 && now - s <= seg.duration {
                let t = ((now - s) * 1000) / seg.duration;
                proof {
                    vstd::arithmetic::div_mod::lemma_div_is_ordered(
                        (now - s) as int * 1000,
                        seg.duration as int * 1000,
                        seg.duration as int,
                    );
                    vstd::arithmetic::div_mod::lemma_div_by_multiple(1000, seg.duration as int);
                    assert(seg.duration as int * 1000 == 1000 * seg.duration as int)
                        by (nonlinear_arith);
                    assert(t <= 1000);
                    assert(t as int == local_time(q_before[0], now));
                }
                let p = self.spline.interpolate_point(seg.start_index, t as i64);
                self.current_position = p;
                self.anim_queue.insert(0, seg);
                proof {
                    assert(self.anim_queue@ =~= q_before.update(0, stamp(q_before[0], now)));
                    assert(seg_live(q_before[0], now));
                }
                return ;
            }
            proof {
                assert(!seg_live(q_before[0], now));
                assert(self.anim_queue@ =~= q_before.drop_first());
            }
        }
    }
}

/// Within one live segment, a later tick never sees a smaller local time:
/// played-back motion only moves forward.
pub proof fn lemma_local_time_monotonic(seg: Animation, now1: u64, now2: u64)
    requires
        seg.started_at is Some,
        seg.duration > 0,
        now1 <= now2,
    ensures
        local_time(seg, now1) <= local_time(seg, now2),
{
    let s = seg.started_at->Some_0 as int;
    assert((now1 as int - s) * 1000 <= (now2 as int - s) * 1000) by (nonlinear_arith)
        requires
            now1 <= now2,
    ;
    vstd::arithmetic::div_mod::lemma_div_is_ordered(
        (now1 as int - s) * 1000,
        (now2 as int - s) * 1000,
        seg.duration as int,
    );
}

} // verus!
