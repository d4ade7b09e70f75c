//! The client-side board engine: what one participant's browser decides.
//!
//! The rendering and socket plumbing stay outside; this state machine
//! keeps the drawn circles, one `LiveCursor` per remote participant, and
//! the throttle on outgoing pointer samples.  Each method answers an event
//! from the canvas, the clock or the socket with the updated state and,
//! where one is due, the already-encoded frame to send.

use crate::cursor::{added_point, ticked, LiveCursor, PIXEL_LIMIT};
use crate::datatypes::{Circle, Color, PointerPosition, SocketMessage};
use crate::wire::{circle_chars, pointer_chars, wf_id};
use vstd::prelude::*;
use vstd::std_specs::vec::vec_index_mut;

verus! {

/// Outgoing pointer samples are throttled to one per this many
/// milliseconds.
pub const POINTER_THROTTLE_MS: u64 = 200;

/// The radius given to a circle drawn with a click.
pub const CLICK_RADIUS: i64 = 5;

/// One participant's view of a board.
pub struct ClientBoard {
    color: Color,
    id: String,
    button_pressed: bool,
    circles: Vec<Circle>,
    cursors: Vec<(String, LiveCursor)>,
    last_pointer_update: u64,
    clock: u64,
}

impl ClientBoard {
    pub closed spec fn color(self) -> Color {
        self.color
    }

    /// This participant's id, as sent inside pointer frames.
    pub closed spec fn ident(self) -> String {
        self.id
    }

    pub closed spec fn button_pressed(self) -> bool {
        self.button_pressed
    }

    /// The circles drawn so far, own and remote.
    pub closed spec fn circles(self) -> Seq<Circle> {
        self.circles@
    }

    /// One animated cursor per remote participant, keyed by their id.
    pub closed spec fn cursors(self) -> Seq<(String, LiveCursor)> {
        self.cursors@
    }

    pub closed spec fn last_pointer_update(self) -> u64 {
        self.last_pointer_update
    }

    pub closed spec fn clock(self) -> u64 {
        self.clock
    }

    pub closed spec fn wf(self) -> bool {
        &&& wf_id(self.id@)
        &&& self.last_pointer_update <= self.clock
        &&& forall|i: int, j: int|
            0 <= i < j < self.cursors@.len() ==> (#[trigger] self.cursors@[i]).0@ != (
            #[trigger] self.cursors@[j]).0@
        &&& forall|i: int|
            0 <= i < self.cursors@.len() ==> (#[trigger] self.cursors@[i]).1.wf() && self.cursors@[
                i
            ].1.clock() <= self.clock
    }

    /// Whether some remote participant with this id has a cursor.
    pub open spec fn has_cursor(self, id: Seq<char>) -> bool {
        exists|i: int| 0 <= i < self.cursors().len() && (#[trigger] self.cursors()[i]).0@ == id
    }

    /// A fresh board view for a participant drawing in `color` under `id`.
    pub fn new(color: Color, id: String, now: u64) -> (b: ClientBoard)
        requires
            wf_id(id@),
        ensures
            b.wf(),
            b.color() == color,
            b.ident() == id,
            !b.button_pressed(),
            b.circles() =~= Seq::<Circle>::empty(),
            b.cursors() =~= Seq::<(String, LiveCursor)>::empty(),
            b.last_pointer_update() == now,
            b.clock() == now,
    {
        ClientBoard {
            color,
            id,
            button_pressed: false,
            circles: Vec::new(),
            cursors: Vec::new(),
            last_pointer_update: now,
            clock: now,
        }
    }

    /// A circle drawn by some participant arrived over the socket.
    pub fn on_new_circle(&mut self, c: Circle)
        requires
            old(self).wf(),
        ensures
            final(self).wf(),
            final(self).circles() =~= old(self).circles().push(c),
            final(self).cursors() == old(self).cursors(),
            final(self).clock() == old(self).clock(),
            final(self).color() == old(self).color(),
            final(self).ident() == old(self).ident(),
            final(self).button_pressed() == old(self).button_pressed(),
            final(self).last_pointer_update() == old(self).last_pointer_update(),
    {
        self.circles.push(c);
    }

    /// The local mouse button went down.
    pub fn on_button_pressed(&mut self)
        requires
            old(self).wf(),
        ensures
            final(self).wf(),
            final(self).button_pressed(),
            final(self).circles() == old(self).circles(),
            final(self).cursors() == old(self).cursors(),
            final(self).clock() == old(self).clock(),
            final(self).color() == old(self).color(),
            final(self).ident() == old(self).ident(),
            final(self).last_pointer_update() == old(self).last_pointer_update(),
    {
        self.button_pressed = true;
    }

    /// The local mouse button came up at canvas position (x, y).  If a
    /// press was pending, a circle of `CLICK_RADIUS` in this participant's
    /// color is added to the board and its encoded frame is returned for
    /// sending; otherwise nothing happens.
    pub fn on_button_released(&mut self, x: i64, y: i64) -> (r: Option<String>)
        requires
            old(self).wf(),
            -PIXEL_LIMIT <= x <= PIXEL_LIMIT,
            -PIXEL_LIMIT <= y <= PIXEL_LIMIT,
        ensures
            final(self).wf(),
            !final(self).button_pressed(),
            final(self).cursors() == old(self).cursors(),
            final(self).clock() == old(self).clock(),
            final(self).color() == old(self).color(),
            final(self).ident() == old(self).ident(),
            final(self).last_pointer_update() == old(self).last_pointer_update(),
            ({
                let c = Circle { x, y, radius: CLICK_RADIUS, color: old(self).color() };
                if old(self).button_pressed() {
                    &&& final(self).circles() =~= old(self).circles().push(c)
                    &&& r matches Some(frame) && frame@ == circle_chars(c)
                } else {
                    &&& final(self).circles() == old(self).circles()
                    &&& r is None
                }
            }),
    {
        if !self.button_pressed {
            return None;
        }
        self.button_pressed = false;
        let c = Circle { x, y, radius: CLICK_RADIUS, color: self.color };
        self.circles.push(c);
        let frame = crate::wire::encode(&SocketMessage::Circle(c));
        Some(frame)
    }

    /// The local pointer moved to (x, y) at time `now`.  At most one
    /// sample per `POINTER_THROTTLE_MS` is let through; a sample that is
    /// due comes back as an encoded pointer frame carrying this
    /// participant's id and color.
    pub fn on_mouse_move(&mut self, x: i64, y: i64, now: u64) -> (r: Option<String>)
        requires
            old(self).wf(),
            now >= old(self).clock(),
            -PIXEL_LIMIT <= x <= PIXEL_LIMIT,
            -PIXEL_LIMIT <= y <= PIXEL_LIMIT,
        ensures
            final(self).wf(),
            final(self).circles() == old(self).circles(),
            final(self).cursors() == old(self).cursors(),
            final(self).clock() == now,
            final(self).color() == old(self).color(),
            final(self).ident() == old(self).ident(),
            final(self).button_pressed() == old(self).button_pressed(),
            ({
                let p = PointerPosition {
                    id: old(self).ident(),
                    x,
                    y,
                    color: old(self).color(),
                };
                if now - old(self).last_pointer_update() > POINTER_THROTTLE_MS {
                    &&& final(self).last_pointer_update() == now
                    &&& r matches Some(frame) && frame@ == pointer_chars(p)
                } else {
                    &&& final(self).last_pointer_update() == old(self).last_pointer_update()
                    &&& r is None
                }
            }),
    {
        self.clock = now;
        if now - self.last_pointer_update > POINTER_THROTTLE_MS {
            self.last_pointer_update = now;
            let p = PointerPosition { id: self.id.clone(), x, y, color: self.color };
            let frame = crate::wire::encode(&SocketMessage::Pointer(p));
            Some(frame)
        } else {
            None
        }
    }

    /// A remote pointer sample arrived: feed it to that participant's
    /// cursor, or start animating a new cursor for a first-time id.
    pub fn on_other_pointer_moved(&mut self, pos: PointerPosition, now: u64)
        requires
            old(self).wf(),
            now >= old(self).clock(),
            -PIXEL_LIMIT <= pos.x <= PIXEL_LIMIT,
            -PIXEL_LIMIT <= pos.y <= PIXEL_LIMIT,
        ensures
            final(self).wf(),
            final(self).circles() == old(self).circles(),
            final(self).clock() == now,
            final(self).color() == old(self).color(),
            final(self).ident() == old(self).ident(),
            final(self).button_pressed() == old(self).button_pressed(),
            final(self).last_pointer_update() == old(self).last_pointer_update(),
            final(self).cursors().len() == (if old(self).has_cursor(pos.id@) {
                old(self).cursors().len()
            } else {
                old(self).cursors().len() + 1
            }),
            forall|i: int|
                0 <= i < old(self).cursors().len() ==> (#[trigger] final(self).cursors()[i]).0 == old(
                    self,
                ).cursors()[i].0,
            forall|i: int|
                0 <= i < old(self).cursors().len() ==> ((#[trigger] old(self).cursors()[i]).0@
                    == pos.id@ ==> added_point(
                    old(self).cursors()[i].1,
                    final(self).cursors()[i].1,
                    pos.x,
                    pos.y,
                    now,
                )),
            forall|i: int|
                0 <= i < old(self).cursors().len() ==> ((#[trigger] old(self).cursors()[i]).0@
                    != pos.id@ ==> final(self).cursors()[i].1 == old(self).cursors()[i].1),
            !old(self).has_cursor(pos.id@) ==> {
                let fresh = final(self).cursors().last();
                &&& fresh.0@ == pos.id@
                &&& fresh.1.color() == pos.color
                &&& fresh.1.position() == ((pos.x * crate::spline::FP) as i64, (pos.y
                    * crate::spline::FP) as i64)
                &&& fresh.1.history() =~= Seq::<(i64, i64)>::empty()
            },
    {
        self.clock = now;
        let n = self.cursors.len();
        let mut k: usize = 0;
        while k < n
            invariant
                old(self).wf(),
                now >= old(self).clock(),
                -PIXEL_LIMIT <= pos.x <= PIXEL_LIMIT,
                -PIXEL_LIMIT <= pos.y <= PIXEL_LIMIT,
                n == self.cursors@.len(),
                0 <= k <= n,
                self.cursors@ == old(self).cursors(),
                self.clock == now,
                self.color == old(self).color(),
                self.id == old(self).ident(),
                self.button_pressed == old(self).button_pressed(),
                self.circles@ == old(self).circles(),
                self.last_pointer_update == old(self).last_pointer_update(),
                forall|i: int| 0 <= i < k ==> (#[trigger] self.cursors@[i]).0@ != pos.id@,
            decreases n - k,
        {
            let hit = self.cursors[k].0.eq(&pos.id);
            if hit {
                let entry = vec_index_mut(&mut self.cursors, k);
                entry.1.add_point(pos.x, pos.y, now);
                proof {
                    assert forall|i: int, j: int|
                        0 <= i < j < self.cursors@.len() implies (#[trigger] self.cursors@[i]).0@
                        != (#[trigger] self.cursors@[j]).0@ by {
                        assert(self.cursors@[i].0 == old(self).cursors()[i].0);
                        assert(self.cursors@[j].0 == old(self).cursors()[j].0);
                    }
                    assert forall|i: int|
                        0 <= i < old(self).cursors().len() && i != k implies (
                    #[trigger] old(self).cursors()[i]).0@ != pos.id@ by {
                        if i > k {
                            assert(old(self).cursors()[k as int].0@ != old(self).cursors()[i].0@);
                        }
                    }
                }
                return ;
            }
            k += 1;
        }
        let key = pos.id.clone();
        let fresh = LiveCursor::new(pos, now);
        self.cursors.push((key, fresh));
        proof {
            assert forall|i: int, j: int|
                0 <= i < j < self.cursors@.len() implies (#[trigger] self.cursors@[i]).0@ != (
            #[trigger] self.cursors@[j]).0@ by {
                if j < self.cursors@.len() - 1 {
                    assert(self.cursors@[i] == old(self).cursors()[i]);
                    assert(self.cursors@[j] == old(self).cursors()[j]);
                } else {
                    assert(self.cursors@[i] == old(self).cursors()[i]);
                }
            }
        }
    }

    /// One render-clock tick: advance every remote cursor's animation.
    pub fn on_tick(&mut self, now: u64)
        requires
            old(self).wf(),
            now >= old(self).clock(),
        ensures
            final(self).wf(),
            final(self).circles() == old(self).circles(),
            final(self).clock() == now,
            final(self).color() == old(self).color(),
            final(self).ident() == old(self).ident(),
            final(self).button_pressed() == old(self).button_pressed(),
            final(self).last_pointer_update() == old(self).last_pointer_update(),
            final(self).cursors().len() == old(self).cursors().len(),
            forall|i: int|
                0 <= i < old(self).cursors().len() ==> (#[trigger] final(self).cursors()[i]).0 == old(
                    self,
                ).cursors()[i].0,
            forall|i: int|
                0 <= i < old(self).cursors().len() ==> ticked(
                    (#[trigger] old(self).cursors()[i]).1,
                    final(self).cursors()[i].1,
                    now,
                ),
    {
        self.clock = now;
        let n = self.cursors.len();
        let mut k: usize = 0;
        while k < n
            invariant
                old(self).wf(),
                now >= old(self).clock(),
                n == self.cursors@.len(),
                n == old(self).cursors().len(),
                0 <= k <= n,
                self.clock == now,
                self.color == old(self).color(),
                self.id == old(self).ident(),
                self.button_pressed == old(self).button_pressed(),
                self.circles@ == old(self).circles(),
                self.last_pointer_update == old(self).last_pointer_update(),
                forall|i: int|
                    0 <= i < n ==> (#[trigger] self.cursors@[i]).0 == old(self).cursors()[i].0,
                forall|i: int|
                    k <= i < n ==> (#[trigger] self.cursors@[i]).1 == old(self).cursors()[i].1,
                forall|i: int|
                    0 <= i < k ==> ticked(
                        (#[trigger] old(self).cursors()[i]).1,
                        self.cursors@[i].1,
                        now,
                    ) && self.cursors@[i].1.wf() && self.cursors@[i].1.clock() <= now,
            decreases n - k,
        {
            let entry = vec_index_mut(&mut self.cursors, k);
            entry.1.tick(now);
            k += 1;
        }
        proof {
            assert forall|i: int, j: int|
                0 <= i < j < self.cursors@.len() implies (#[trigger] self.cursors@[i]).0@ != (
            #[trigger] self.cursors@[j]).0@ by {
                assert(self.cursors@[i].0 == old(self).cursors()[i].0);
                assert(self.cursors@[j].0 == old(self).cursors()[j].0);
            }
        }
    }

    /// The latest timestamp this board has seen.
    pub fn clock_ms(&self) -> (t: u64)
        ensures
            t == self.clock(),
    {
        self.clock
    }

    /// How many circles are on the board.
    pub fn circle_count(&self) -> (n: usize)
        ensures
            n == self.circles().len(),
    {
        self.circles.len()
    }

    /// The circle at position i, for rendering.
    pub fn circle_at(&self, i: usize) -> (c: Circle)
        requires
            i < self.circles().len(),
        ensures
            c == self.circles()[i as int],
    {
        self.circles[i]
    }

    /// How many remote cursors are live.
    pub fn cursor_count(&self) -> (n: usize)
        ensures
            n == self.cursors().len(),
    {
        self.cursors.len()
    }

    /// The displayed position of the cursor at position i, in fixed-point
    /// units, with its color.
    pub fn cursor_display(&self, i: usize) -> (r: ((i64, i64), Color))
        requires
            i < self.cursors().len(),
        ensures
            r.0 == self.cursors()[i as int].1.position(),
            r.1 == self.cursors()[i as int].1.color(),
    {
        let entry = &self.cursors[i];
        (entry.1.get_position(), entry.1.get_color())
    }
}

} // verus!
