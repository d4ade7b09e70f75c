//! Broadcast hub: fans an inbound frame out to every other connection on
//! the same board.
//!
//! Delivery is modelled as one outbound queue per connection handle: a
//! broadcast appends the frame to the queue of every registered recipient
//! except the sender, and the socket writer that owns each queue drains it
//! at its own pace.  No recipient is awaited, so a slow peer cannot stall
//! the others; and for one sender the appends preserve the order in which
//! the frames were emitted.  The hub never looks inside a frame: deciding
//! what to persist is the transport session's job.

use crate::registry::{apply_op, RegOp, Registry};
use vstd::prelude::*;
use vstd::std_specs::vec::vec_index_mut;

verus! {

/// One text frame queued for delivery to a session.
pub struct Message(pub String);

/// The registry together with one outbound queue per live handle.
pub struct Hub {
    registry: Registry,
    outboxes: Vec<(u64, Vec<Message>)>,
}

impl Hub {
    /// The board/handle registry the hub routes by.
    pub closed spec fn reg(self) -> Registry {
        self.registry
    }

    /// The outbound queues, one entry per live handle.
    pub closed spec fn entries(self) -> Seq<(u64, Vec<Message>)> {
        self.outboxes@
    }

    pub open spec fn registered(self, board: u64, handle: u64) -> bool {
        self.reg().registered(board, handle)
    }

    pub open spec fn handle_at(self, i: int) -> u64 {
        self.entries()[i].0
    }

    pub open spec fn msgs_at(self, i: int) -> Seq<Message> {
        self.entries()[i].1@
    }

    /// Whether the handle owns an outbound queue.
    pub open spec fn has_box(self, handle: u64) -> bool {
        exists|i: int| 0 <= i < self.entries().len() && self.handle_at(i) == handle
    }

    /// The position of the handle's queue; well defined because handles
    /// are unique.
    pub open spec fn box_index(self, handle: u64) -> int {
        choose|i: int| 0 <= i < self.entries().len() && self.handle_at(i) == handle
    }

    /// What is queued for the handle, oldest first.
    pub open spec fn outbox(self, handle: u64) -> Seq<Message> {
        self.msgs_at(self.box_index(handle))
    }

    /// Queues exist exactly for registered handles, one each.
    pub open spec fn wf(self) -> bool {
        &&& self.reg().wf()
        &&& forall|i: int, j: int|
            0 <= i < j < self.entries().len() ==> self.handle_at(i) != self.handle_at(j)
        &&& forall|i: int|
            0 <= i < self.entries().len() ==> self.reg().has_handle(#[trigger] self.handle_at(i))
        &&& forall|i: int|
            0 <= i < self.reg()@.len() ==> self.has_box((#[trigger] self.reg()@[i]).1)
    }

    pub fn new() -> (h: Hub)
        ensures
            h.wf(),
            h.reg()@ =~= Seq::<(u64, u64)>::empty(),
            h.entries() =~= Seq::<(u64, Vec<Message>)>::empty(),
    {
        Hub { registry: Registry::new(), outboxes: Vec::new() }
    }

    /// Attach a new connection: the handle joins the board's set and gets
    /// an empty outbound queue.
    pub fn register(&mut self, board: u64, handle: u64)
        requires
            old(self).wf(),
            !old(self).reg().has_handle(handle),
        ensures
            final(self).wf(),
            final(self).reg()@ == old(self).reg()@.push((board, handle)),
            forall|b: u64, h: u64|
                final(self).registered(b, h) <==> (old(self).registered(b, h) || (b == board && h
                    == handle)),
            final(self).entries().len() == old(self).entries().len() + 1,
            forall|i: int|
                0 <= i < old(self).entries().len() ==> final(self).entries()[i] == old(
                    self,
                ).entries()[i],
            final(self).handle_at(old(self).entries().len() as int) == handle,
            final(self).msgs_at(old(self).entries().len() as int) =~= Seq::<Message>::empty(),
    {
        self.registry.register(board, handle);
        let empty: Vec<Message> = Vec::new();
        self.outboxes.push((handle, empty));
        proof {
            assert forall|i: int, j: int|
                0 <= i < j < self.entries().len() implies self.handle_at(i) != self.handle_at(
                j,
            ) by {
                if j < self.entries().len() - 1 {
                    assert(old(self).handle_at(i) != old(self).handle_at(j));
                } else {
                    assert(old(self).reg().has_handle(old(self).handle_at(i)));
                    let k = choose|k: int|
                        0 <= k < old(self).reg()@.len() && (#[trigger] old(self).reg()@[k]).1 == old(
                            self,
                        ).handle_at(i);
                    assert(self.reg()@[k].1 == old(self).handle_at(i));
                }
            }
            assert forall|i: int| 0 <= i < self.reg()@.len() implies self.has_box(
                (#[trigger] self.reg()@[i]).1,
            ) by {
                if i < self.reg()@.len() - 1 {
                    assert(old(self).has_box(old(self).reg()@[i].1));
                    let k = choose|k: int|
                        0 <= k < old(self).entries().len() && old(self).handle_at(k) == old(
                            self,
                        ).reg()@[i].1;
                    assert(self.handle_at(k) == self.reg()@[i].1);
                } else {
                    assert(self.handle_at(self.entries().len() - 1) == handle);
                }
            }
            assert forall|i: int| 0 <= i < self.entries().len() implies self.reg().has_handle(
                #[trigger] self.handle_at(i),
            ) by {
                if i < self.entries().len() - 1 {
                    assert(old(self).reg().has_handle(old(self).handle_at(i)));
                    let k = choose|k: int|
                        0 <= k < old(self).reg()@.len() && (#[trigger] old(self).reg()@[k]).1 == old(
                            self,
                        ).handle_at(i);
                    assert(self.reg()@[k].1 == self.handle_at(i));
                } else {
                    assert(self.reg()@[self.reg()@.len() - 1].1 == handle);
                }
            }
        }
    }

    /// Detach a connection: remove the handle from the board's set and
    /// drop its queue.  Absent handles are a no-op, so a timeout close can
    /// race a peer close harmlessly.
    pub fn unregister(&mut self, board: u64, handle: u64)
        requires
            old(self).wf(),
        ensures
            final(self).wf(),
            forall|b: u64, h: u64|
                final(self).registered(b, h) <==> (old(self).registered(b, h) && !(b == board && h
                    == handle)),
            final(self).reg()@.to_set() =~= apply_op(
                old(self).reg()@.to_set(),
                RegOp::Unregister { board, handle },
            ),
    {
        if !self.registry.is_registered(board, handle) {
            proof {
                assert(self.reg()@.to_set() =~= apply_op(
                    old(self).reg()@.to_set(),
                    RegOp::Unregister { board, handle },
                )) by {
                    assert(!old(self).reg()@.to_set().contains((board, handle)));
                }
                assert forall|b: u64, h: u64|
                    self.registered(b, h) <==> (old(self).registered(b, h) && !(b == board && h
                        == handle)) by {
                    if b == board && h == handle {
                        assert(!old(self).registered(b, h));
                    }
                }
            }
            return ;
        }
        proof {
            assert(old(self).registered(board, handle));
        }
        self.registry.unregister(board, handle);
        let n = self.outboxes.len();
        let mut k: usize = 0;
        while k < n
            invariant
                old(self).wf(),
                old(self).registered(board, handle),
                n == self.outboxes@.len(),
                0 <= k <= n,
                self.outboxes == old(self).outboxes,
                self.reg().wf(),
                forall|b: u64, h: u64|
                    self.reg().registered(b, h) <==> (old(self).reg().registered(b, h) && !(b
                        == board && h == handle)),
                self.reg()@.to_set() =~= apply_op(
                    old(self).reg()@.to_set(),
                    RegOp::Unregister { board, handle },
                ),
                forall|i: int| 0 <= i < k ==> (#[trigger] self.outboxes@[i]).0 != handle,
            decreases n - k,
        {
            let h = self.outboxes[k].0;
            if h == handle {
                self.outboxes.remove(k);
                proof {
                    lemma_hub_wf_after_removal(*old(self), *self, board, handle, k as int);
                }
                return ;
            }
            k += 1;
        }
        proof {
            assert(old(self).has_box(handle)) by {
                let i = choose|i: int|
                    0 <= i < old(self).reg()@.len() && (#[trigger] old(self).reg()@[i]).1 == handle;
                assert(old(self).reg()@.contains((board, handle)));
                let j = old(self).reg()@.lemma_contains_to_index((board, handle));
                assert(old(self).has_box(old(self).reg()@[j].1));
            }
            let i = old(self).box_index(handle);
            assert(old(self).handle_at(i) == handle);
            assert(self.outboxes@[i].0 != handle);
            assert(false);
        }
    }

    /// Deliver the payload to every handle registered on the board except
    /// the sender: each such queue gets the frame appended, every other
    /// queue and the registry itself stay as they were.  Nothing is ever
    /// delivered back to the sender.
    pub fn broadcast(&mut self, board: u64, sender: u64, payload: &String)
        requires
            old(self).wf(),
        ensures
            final(self).wf(),
            final(self).reg() == old(self).reg(),
            final(self).entries().len() == old(self).entries().len(),
            forall|i: int|
                0 <= i < old(self).entries().len() ==> final(self).handle_at(i) == old(
                    self,
                ).handle_at(i),
            forall|i: int|
                0 <= i < old(self).entries().len() ==> #[trigger] final(self).msgs_at(i) == (if old(
                    self,
                ).registered(board, old(self).handle_at(i)) && old(self).handle_at(i) != sender {
                    old(self).msgs_at(i).push(Message(*payload))
                } else {
                    old(self).msgs_at(i)
                }),
            forall|h: u64|
                old(self).has_box(h) ==> #[trigger] final(self).outbox(h) == (if old(
                    self,
                ).registered(board, h) && h != sender {
                    old(self).outbox(h).push(Message(*payload))
                } else {
                    old(self).outbox(h)
                }),
            forall|h: u64, b2: u64|
                #[trigger] old(self).registered(b2, h) && b2 != board && old(self).has_box(h)
                    ==> final(self).outbox(h) == old(self).outbox(h),
    {
        let n = self.outboxes.len();
        let mut k: usize = 0;
        while k < n
            invariant
                old(self).wf(),
                n == self.outboxes@.len(),
                self.outboxes@.len() == old(self).outboxes@.len(),
                0 <= k <= n,
                self.registry == old(self).registry,
                forall|i: int|
                    0 <= i < n ==> (#[trigger] self.outboxes@[i]).0 == old(self).outboxes@[i].0,
                forall|i: int|
                    k <= i < n ==> (#[trigger] self.outboxes@[i]).1 == old(self).outboxes@[i].1,
                forall|i: int|
                    0 <= i < k ==> (#[trigger] self.outboxes@[i]).1@ == (if old(self).registered(
                        board,
                        old(self).outboxes@[i].0,
                    ) && old(self).outboxes@[i].0 != sender {
                        old(self).outboxes@[i].1@.push(Message(*payload))
                    } else {
                        old(self).outboxes@[i].1@
                    }),
            decreases n - k,
        {
            let h = self.outboxes[k].0;
            if h != sender && self.registry.is_registered(board, h) {
                let entry = vec_index_mut(&mut self.outboxes, k);
                entry.1.push(Message(payload.clone()));
            }
            k += 1;
        }
        proof {
            lemma_wf_with_same_shape(*old(self), *self);
            assert forall|h: u64| old(self).has_box(h) implies #[trigger] self.outbox(h) == (if old(
                self,
            ).registered(board, h) && h != sender {
                old(self).outbox(h).push(Message(*payload))
            } else {
                old(self).outbox(h)
            }) by {
                let i = choose|i: int|
                    0 <= i < old(self).entries().len() && old(self).handle_at(i) == h;
                lemma_unique_box_index(*old(self), h, i);
                lemma_unique_box_index(*self, h, i);
            }
            assert forall|h: u64, b2: u64|
                #[trigger] old(self).registered(b2, h) && b2 != board && old(self).has_box(
                    h,
                ) implies self.outbox(h) == old(self).outbox(h) by {
                if old(self).registered(board, h) {
                    crate::registry::lemma_at_most_one_board(old(self).reg(), b2, board, h);
                }
            }
        }
    }

    /// Whether the handle is in any board's set, so a caller can pick a
    /// fresh one before registering.
    pub fn knows_handle(&self, handle: u64) -> (r: bool)
        ensures
            r == self.reg().has_handle(handle),
    {
        self.registry.contains_handle(handle)
    }

    /// Whether the handle is currently in the board's set.
    pub fn is_registered(&self, board: u64, handle: u64) -> (r: bool)
        ensures
            r == self.registered(board, handle),
    {
        self.registry.is_registered(board, handle)
    }

    /// The handles currently registered on the board, for fan-out.
    pub fn snapshot(&self, board: u64) -> (r: Vec<u64>)
        requires
            self.wf(),
        ensures
            r@.no_duplicates(),
            forall|h: u64| r@.contains(h) <==> self.registered(board, h),
    {
        self.registry.snapshot(board)
    }

    /// Hand out everything queued for the handle, leaving its queue empty.
    /// The socket writer calls this to drain its session's deliveries.
    pub fn take_messages(&mut self, handle: u64) -> (r: Vec<Message>)
        requires
            old(self).wf(),
        ensures
            final(self).wf(),
            final(self).reg() == old(self).reg(),
            final(self).entries().len() == old(self).entries().len(),
            forall|i: int|
                0 <= i < old(self).entries().len() ==> final(self).handle_at(i) == old(
                    self,
                ).handle_at(i),
            forall|i: int|
                0 <= i < old(self).entries().len() ==> #[trigger] final(self).msgs_at(i) == (if old(
                    self,
                ).handle_at(i) == handle {
                    Seq::<Message>::empty()
                } else {
                    old(self).msgs_at(i)
                }),
            old(self).has_box(handle) ==> r@ == old(self).outbox(handle),
            !old(self).has_box(handle) ==> r@ =~= Seq::<Message>::empty(),
    {
        let n = self.outboxes.len();
        let mut k: usize = 0;
        while k < n
            invariant
                old(self).wf(),
                n == self.outboxes@.len(),
                0 <= k <= n,
                self == old(self),
                forall|i: int| 0 <= i < k ==> (#[trigger] self.outboxes@[i]).0 != handle,
            decreases n - k,
        {
            let h = self.outboxes[k].0;
            if h == handle {
                proof {
                    assert(old(self).handle_at(k as int) == handle);
                }
                let mut out: Vec<Message> = Vec::new();
                let entry = vec_index_mut(&mut self.outboxes, k);
                core::mem::swap(&mut entry.1, &mut out);
                proof {
                    assert(self.outboxes@[k as int].0 == handle);
                    assert(self.outboxes@[k as int].1@ =~= Seq::<Message>::empty());
                    assert(out@ == old(self).msgs_at(k as int));
                    assert forall|i: int|
                        0 <= i < self.outboxes@.len() && i != k implies self.outboxes@[i] == old(
                        self,
                    ).entries()[i] by {}
                    assert forall|i: int|
                        0 <= i < old(self).entries().len() implies #[trigger] self.handle_at(i)
                            == old(self).handle_at(i) by {
                        if i != k {
                            assert(self.outboxes@[i] == old(self).entries()[i]);
                        }
                    }
                    lemma_unique_box_index(*old(self), handle, k as int);
                    lemma_wf_with_same_shape(*old(self), *self);
                    lemma_unique_box_index(*self, handle, k as int);
                }
                return out;
            }
            k += 1;
        }
        proof {
            if old(self).has_box(handle) {
                let i = old(self).box_index(handle);
                assert(old(self).handle_at(i) == handle);
                assert(self.outboxes@[i].0 != handle);
                assert(false);
            }
        }
        Vec::new()
    }
}

/// Two hubs with the same registry and the same handle in every queue
/// position are equally well formed, whatever the queues hold.
proof fn lemma_wf_with_same_shape(pre: Hub, post: Hub)
    requires
        pre.wf(),
        post.reg() == pre.reg(),
        post.entries().len() == pre.entries().len(),
        forall|i: int|
            0 <= i < pre.entries().len() ==> #[trigger] post.handle_at(i) == pre.handle_at(i),
    ensures
        post.wf(),
{
    assert forall|i: int| 0 <= i < post.reg()@.len() implies post.has_box(
        (#[trigger] post.reg()@[i]).1,
    ) by {
        assert(pre.has_box(pre.reg()@[i].1));
        let k = choose|k: int|
            0 <= k < pre.entries().len() && pre.handle_at(k) == pre.reg()@[i].1;
        assert(post.handle_at(k) == post.reg()@[i].1);
    }
}

/// In a well-formed hub a handle sits at one queue position only, and the
/// spec-level lookup finds exactly it.
proof fn lemma_unique_box_index(h: Hub, handle: u64, k: int)
    requires
        h.wf(),
        0 <= k < h.entries().len(),
        h.handle_at(k) == handle,
    ensures
        h.has_box(handle),
        h.box_index(handle) == k,
        h.outbox(handle) == h.msgs_at(k),
{
    assert(h.has_box(handle));
    let i = h.box_index(handle);
    assert(0 <= i < h.entries().len() && h.handle_at(i) == handle);
    if i != k {
        assert(h.handle_at(i) != h.handle_at(k));
        assert(false);
    }
}

/// Dropping one queue entry keeps the hub well formed and keeps every
/// other handle's queue.
proof fn lemma_hub_wf_after_removal(pre: Hub, post: Hub, board: u64, handle: u64, k: int)
    requires
        pre.wf(),
        0 <= k < pre.entries().len(),
        pre.handle_at(k) == handle,
        post.entries() == pre.entries().remove(k),
        post.reg().wf(),
        forall|b: u64, h: u64|
            post.reg().registered(b, h) <==> (pre.reg().registered(b, h) && !(b == board && h
                == handle)),
        pre.reg().registered(board, handle),
    ensures
        post.wf(),
{
    assert forall|i: int, j: int|
        0 <= i < j < post.entries().len() implies post.handle_at(i) != post.handle_at(j) by {
        let si = if i < k {
            i
        } else {
            i + 1
        };
        let sj = if j < k {
            j
        } else {
            j + 1
        };
        assert(post.entries()[i] == pre.entries()[si] && post.entries()[j] == pre.entries()[sj]);
        assert(pre.handle_at(si) != pre.handle_at(sj));
    }
    assert forall|i: int| 0 <= i < post.entries().len() implies post.reg().has_handle(
        #[trigger] post.handle_at(i),
    ) by {
        let si = if i < k {
            i
        } else {
            i + 1
        };
        assert(post.entries()[i] == pre.entries()[si]);
        assert(pre.reg().has_handle(pre.handle_at(si)));
        let m = choose|m: int|
            0 <= m < pre.reg()@.len() && (#[trigger] pre.reg()@[m]).1 == pre.handle_at(si);
        assert(pre.handle_at(si) != handle) by {
            assert(pre.handle_at(si) == pre.handle_at(si));
        }
        assert(pre.reg()@[m] == (pre.reg()@[m].0, pre.reg()@[m].1));
        assert(pre.reg().registered(pre.reg()@[m].0, pre.handle_at(si))) by {
            assert(pre.reg()@.contains(pre.reg()@[m]));
        }
        assert(post.reg().registered(pre.reg()@[m].0, pre.handle_at(si)));
        let w = post.reg()@.lemma_contains_to_index((pre.reg()@[m].0, pre.handle_at(si)));
    }
    assert forall|i: int| 0 <= i < post.reg()@.len() implies post.has_box(
        (#[trigger] post.reg()@[i]).1,
    ) by {
        let h = post.reg()@[i].1;
        assert(post.reg()@.contains(post.reg()@[i]));
        assert(post.reg()@[i] == (post.reg()@[i].0, h));
        assert(post.reg().registered(post.reg()@[i].0, h));
        assert(pre.reg().registered(post.reg()@[i].0, h));
        assert(!(post.reg()@[i].0 == board && h == handle));
        assert(h != handle) by {
            if h == handle {
                crate::registry::lemma_at_most_one_board(
                    pre.reg(),
                    post.reg()@[i].0,
                    board,
                    handle,
                );
            }
        }
        assert(pre.reg()@.contains((post.reg()@[i].0, h)));
        let m = pre.reg()@.lemma_contains_to_index((post.reg()@[i].0, h));
        assert(pre.has_box(pre.reg()@[m].1));
        let b = choose|b: int|
            0 <= b < pre.entries().len() && pre.handle_at(b) == pre.reg()@[m].1;
        assert(b != k);
        let tb = if b < k {
            b
        } else {
            b - 1
        };
        assert(post.entries()[tb] == pre.entries()[b]);
        assert(post.handle_at(tb) == h);
    }
}

} // verus!
