//! Process-wide registry of live connections, keyed by board.
//!
//! Each connection handle belongs to at most one board at a time; a session
//! registers its handle once when its socket opens and unregisters it once
//! when the socket dies.  Unregistering a handle that is not present is a
//! no-op, because a graceful close can race a timeout-triggered one.  The
//! lock that guards the registry against concurrent sessions lives outside
//! this crate; every operation here is a plain value transformation, so the
//! caller can hold each one inside a short critical section and broadcast
//! outside of it from a snapshot.

use vstd::prelude::*;

verus! {

/// One registry call, for stating what a whole interleaving of calls
/// settles to.
#[derive(Clone, Copy, PartialEq, Eq, Structural, Debug)]
pub enum RegOp {
    Register { board: u64, handle: u64 },
    Unregister { board: u64, handle: u64 },
}

/// The board/handle pair an operation concerns.
pub open spec fn op_pair(op: RegOp) -> (u64, u64) {
    match op {
        RegOp::Register { board, handle } => (board, handle),
        RegOp::Unregister { board, handle } => (board, handle),
    }
}

/// What one operation does to the set of registered pairs.
pub open spec fn apply_op(s: Set<(u64, u64)>, op: RegOp) -> Set<(u64, u64)> {
    match op {
        RegOp::Register { board, handle } => s.insert((board, handle)),
        RegOp::Unregister { board, handle } => s.remove((board, handle)),
    }
}

/// The set of registered pairs after a sequence of operations.
pub open spec fn run_ops(s: Set<(u64, u64)>, ops: Seq<RegOp>) -> Set<(u64, u64)>
    decreases ops.len(),
{
    if ops.len() == 0 {
        s
    } else {
        apply_op(run_ops(s, ops.drop_last()), ops.last())
    }
}

/// Whether the sequence registers the pair at some point.
pub open spec fn ever_registers(ops: Seq<RegOp>, board: u64, handle: u64) -> bool {
    exists|i: int| 0 <= i < ops.len() && ops[i] == (RegOp::Register { board, handle })
}

/// Whether the sequence unregisters the pair at some point.
pub open spec fn ever_unregisters(ops: Seq<RegOp>, board: u64, handle: u64) -> bool {
    exists|i: int| 0 <= i < ops.len() && ops[i] == (RegOp::Unregister { board, handle })
}

/// The per-board set of live connection handles.
pub struct Registry {
    pairs: Vec<(u64, u64)>,
}

impl View for Registry {
    type V = Seq<(u64, u64)>;

    closed spec fn view(&self) -> Seq<(u64, u64)> {
        self.pairs@
    }
}

impl Registry {
    /// Whether the handle is currently in the board's set.
    pub open spec fn registered(self, board: u64, handle: u64) -> bool {
        self@.contains((board, handle))
    }

    /// Whether the handle is in any board's set.
    pub open spec fn has_handle(self, handle: u64) -> bool {
        exists|i: int| 0 <= i < self@.len() && (#[trigger] self@[i]).1 == handle
    }

    /// A handle appears at most once, so it belongs to at most one board.
    pub open spec fn wf(self) -> bool {
        forall|i: int, j: int|
            0 <= i < j < self@.len() ==> (#[trigger] self@[i]).1 != (#[trigger] self@[j]).1
    }

    pub fn new() -> (r: Registry)
        ensures
            r@ =~= Seq::<(u64, u64)>::empty(),
            r.wf(),
    {
        Registry { pairs: Vec::new() }
    }

    /// Add a handle to a board's set.  A session registers once, at start,
    /// with a handle no other live session uses.
    pub fn register(&mut self, board: u64, handle: u64)
        requires
            old(self).wf(),
            !old(self).has_handle(handle),
        ensures
            final(self).wf(),
            final(self)@ == old(self)@.push((board, handle)),
            final(self)@.to_set() =~= apply_op(
                old(self)@.to_set(),
                RegOp::Register { board, handle },
            ),
            forall|b: u64, h: u64|
                final(self).registered(b, h) <==> (old(self).registered(b, h) || (b == board && h
                    == handle)),
    {
        self.pairs.push((board, handle));
        proof {
            broadcast use vstd::seq_lib::group_seq_properties;

            assert forall|i: int, j: int| 0 <= i < j < self@.len() implies (#[trigger] self@[i]).1
                != (#[trigger] self@[j]).1 by {
                if j == self@.len() - 1 {
                    assert(self@[i] == old(self)@[i]);
                }
            }
            assert forall|b: u64, h: u64|
                self.registered(b, h) <==> (old(self).registered(b, h) || (b == board && h
                    == handle)) by {
                if old(self).registered(b, h) {
                    let i = old(self)@.lemma_contains_to_index((b, h));
                    assert(self@[i] == (b, h));
                }
                if self.registered(b, h) {
                    let i = self@.lemma_contains_to_index((b, h));
                    if i < old(self)@.len() {
                        assert(old(self)@[i] == (b, h));
                    }
                }
            }
            assert forall|p: (u64, u64)|
                self@.to_set().contains(p) <==> old(self)@.to_set().insert(
                    (board, handle),
                ).contains(p) by {
                assert(p == (p.0, p.1));
                assert(self.registered(p.0, p.1) <==> (old(self).registered(p.0, p.1) || (p.0
                    == board && p.1 == handle)));
            }
        }
    }

    /// Remove a handle from a board's set.  Removing an absent handle is a
    /// no-op, so a timeout close racing a peer close cannot fail.
    pub fn unregister(&mut self, board: u64, handle: u64)
        requires
            old(self).wf(),
        ensures
            final(self).wf(),
            final(self)@.to_set() =~= apply_op(
                old(self)@.to_set(),
                RegOp::Unregister { board, handle },
            ),
            forall|b: u64, h: u64|
                final(self).registered(b, h) <==> (old(self).registered(b, h) && !(b == board && h
                    == handle)),
    {
        let n = self.pairs.len();
        let mut k: usize = 0;
        while k < n
            invariant
                n == self@.len(),
                0 <= k <= n,
                self == old(self),
                old(self).wf(),
                forall|i: int| 0 <= i < k ==> #[trigger] self@[i] != (board, handle),
            decreases n - k,
        {
            let p = self.pairs[k];
            if p.0 == board && p.1 == handle {
                proof {
                    assert(self@[k as int] == (board, handle));
                }
                self.pairs.remove(k);
                proof {
                    lemma_removed_pair(old(self)@, k as int, board, handle, self@);
                    assert forall|p2: (u64, u64)|
                        self@.to_set().contains(p2) <==> old(self)@.to_set().remove(
                            (board, handle),
                        ).contains(p2) by {
                        assert(p2 == (p2.0, p2.1));
                    }
                }
                return ;
            }
            k += 1;
        }
        proof {
            if old(self)@.contains((board, handle)) {
                let i = old(self)@.lemma_contains_to_index((board, handle));
                assert(false);
            }
            assert forall|p2: (u64, u64)|
                self@.to_set().contains(p2) <==> old(self)@.to_set().remove((board, handle)).contains(
                    p2,
                ) by {
                assert(p2 == (p2.0, p2.1));
            }
        }
    }

    /// Whether the handle is in any board's set.
    pub fn contains_handle(&self, handle: u64) -> (r: bool)
        ensures
            r == self.has_handle(handle),
    {
        let n = self.pairs.len();
        let mut k: usize = 0;
        while k < n
            invariant
                n == self@.len(),
                0 <= k <= n,
                forall|i: int| 0 <= i < k ==> (#[trigger] self@[i]).1 != handle,
            decreases n - k,
        {
            if self.pairs[k].1 == handle {
                proof {
                    assert(self@[k as int].1 == handle);
                }
                return true;
            }
            k += 1;
        }
        false
    }

    /// Whether the handle is currently in the board's set.
    pub fn is_registered(&self, board: u64, handle: u64) -> (r: bool)
        ensures
            r == self.registered(board, handle),
    {
        let n = self.pairs.len();
        let mut k: usize = 0;
        while k < n
            invariant
                n == self@.len(),
                0 <= k <= n,
                forall|i: int| 0 <= i < k ==> #[trigger] self@[i] != (board, handle),
            decreases n - k,
        {
            let p = self.pairs[k];
            if p.0 == board && p.1 == handle {
                proof {
                    assert(self@[k as int] == (board, handle));
                }
                return true;
            }
            k += 1;
        }
        proof {
            if self@.contains((board, handle)) {
                let i = self@.lemma_contains_to_index((board, handle));
                assert(false);
            }
        }
        false
    }

    /// The handles currently registered on the board, for fan-out.  The
    /// order is arbitrary; no handle appears twice.
    pub fn snapshot(&self, board: u64) -> (r: Vec<u64>)
        requires
            self.wf(),
        ensures
            r@.no_duplicates(),
            forall|h: u64| r@.contains(h) <==> self.registered(board, h),
    {
        let mut r: Vec<u64> = Vec::new();
        let n = self.pairs.len();
        let mut k: usize = 0;
        while k < n
            invariant
                self.wf(),
                n == self@.len(),
                0 <= k <= n,
                r@.no_duplicates(),
                forall|h: u64|
                    r@.contains(h) <==> exists|i: int|
                        0 <= i < k && (#[trigger] self@[i]) == (board, h),
            decreases n - k,
        {
            let p = self.pairs[k];
            let ghost r0 = r@;
            proof {
                assert(self@[k as int] == p);
            }
            if p.0 == board {
                proof {
                    if r0.contains(p.1) {
                        let i = choose|i: int| 0 <= i < k && (#[trigger] self@[i]) == (board, p.1);
                        assert(self@[i].1 == self@[k as int].1);
                        assert(false);
                    }
                    broadcast use vstd::seq_lib::group_seq_properties;

                }
                r.push(p.1);
                proof {
                    assert forall|i: int, j: int| 0 <= i < j < r@.len() implies r@[i] != r@[j] by {
                        if j < r@.len() - 1 {
                            assert(r0[i] == r@[i] && r0[j] == r@[j]);
                        } else {
                            assert(r@[i] == r0[i] && r0.contains(r0[i]));
                        }
                    }
                }
            }
            proof {
                assert forall|h: u64|
                    r@.contains(h) <==> exists|i: int|
                        0 <= i < k + 1 && (#[trigger] self@[i]) == (board, h) by {
                    broadcast use vstd::seq_lib::group_seq_properties;

                    if r@.contains(h) {
                        if r0.contains(h) {
                            let i = choose|i: int|
                                0 <= i < k && (#[trigger] self@[i]) == (board, h);
                            assert(self@[i] == (board, h));
                        } else {
                            assert(p.0 == board && h == p.1);
                            assert(self@[k as int] == (board, h));
                        }
                    }
                    if exists|i: int| 0 <= i < k + 1 && (#[trigger] self@[i]) == (board, h) {
                        let i = choose|i: int| 0 <= i < k + 1 && (#[trigger] self@[i]) == (board, h);
                        if i < k {
                            assert(r0.contains(h));
                            assert(r@.contains(h));
                        } else {
                            assert(p == (board, h));
                            assert(r@.last() == h);
                        }
                    }
                }
            }
            k += 1;
        }
        proof {
            assert forall|h: u64| r@.contains(h) <==> self.registered(board, h) by {
                if self.registered(board, h) {
                    let i = choose|i: int| 0 <= i < self@.len() && self@[i] == (board, h);
                    assert(exists|j: int| 0 <= j < n && (#[trigger] self@[j]) == (board, h));
                }
            }
        }
        r
    }
}

/// Removing the one occurrence of a pair from a duplicate-free-by-handle
/// sequence removes exactly that pair from its set.
proof fn lemma_removed_pair(
    s: Seq<(u64, u64)>,
    k: int,
    board: u64,
    handle: u64,
    t: Seq<(u64, u64)>,
)
    requires
        0 <= k < s.len(),
        s[k] == (board, handle),
        forall|i: int, j: int| 0 <= i < j < s.len() ==> (#[trigger] s[i]).1 != (#[trigger] s[j]).1,
        t == s.remove(k),
    ensures
        forall|i: int, j: int| 0 <= i < j < t.len() ==> (#[trigger] t[i]).1 != (#[trigger] t[j]).1,
        t.to_set() =~= s.to_set().remove((board, handle)),
        forall|b: u64, h: u64|
            t.contains((b, h)) <==> (s.contains((b, h)) && !(b == board && h == handle)),
{
    assert forall|i: int, j: int| 0 <= i < j < t.len() implies (#[trigger] t[i]).1 != (
    #[trigger] t[j]).1 by {
        let si = if i < k {
            i
        } else {
            i + 1
        };
        let sj = if j < k {
            j
        } else {
            j + 1
        };
        assert(t[i] == s[si] && t[j] == s[sj]);
    }
    assert forall|b: u64, h: u64|
        t.contains((b, h)) <==> (s.contains((b, h)) && !(b == board && h == handle)) by {
        if t.contains((b, h)) {
            let i = choose|i: int| 0 <= i < t.len() && t[i] == (b, h);
            let si = if i < k {
                i
            } else {
                i + 1
            };
            assert(s[si] == (b, h));
            if b == board && h == handle {
                assert(s[si].1 == s[k].1 && si != k);
                assert(false);
            }
        }
        if s.contains((b, h)) && !(b == board && h == handle) {
            let i = choose|i: int| 0 <= i < s.len() && s[i] == (b, h);
            assert(i != k);
            let ti = if i < k {
                i
            } else {
                i - 1
            };
            assert(t[ti] == s[i]);
        }
    }
    assert forall|p: (u64, u64)| #[trigger]
        t.to_set().contains(p) <==> s.to_set().remove((board, handle)).contains(p) by {
        assert(t.to_set().contains(p) == t.contains(p));
        assert(s.to_set().contains(p) == s.contains(p));
        assert(t.contains((p.0, p.1)) <==> (s.contains((p.0, p.1)) && !(p.0 == board && p.1
            == handle)));
    }
}

/// A handle never sits in two boards' sets at once: broadcasts on one
/// board can therefore not reach a handle that is registered only on
/// another.
pub proof fn lemma_at_most_one_board(r: Registry, b1: u64, b2: u64, h: u64)
    requires
        r.wf(),
        r.registered(b1, h),
        r.registered(b2, h),
    ensures
        b1 == b2,
{
    let i = r@.lemma_contains_to_index((b1, h));
    let j = r@.lemma_contains_to_index((b2, h));
    if i != j {
        assert(r@[i].1 == r@[j].1);
        assert(false);
    }
}

/// The net effect of any interleaving of registry calls: provided each
/// pair is registered at most once and never unregistered before it was
/// registered, the final set holds exactly the pairs registered and not
/// later unregistered -- in particular, repeated unregisters of the same
/// pair change nothing further.
pub proof fn lemma_net_effect(ops: Seq<RegOp>)
    requires
        forall|i: int, j: int|
            0 <= i < j < ops.len() && (#[trigger] ops[i]) is Register && (#[trigger] ops[j])
                is Register ==> op_pair(ops[i]) != op_pair(ops[j]),
        forall|i: int, j: int|
            0 <= i < ops.len() && 0 <= j < ops.len() && (#[trigger] ops[i]) is Unregister && (
            #[trigger] ops[j]) is Register && op_pair(ops[i]) == op_pair(ops[j]) ==> j < i,
    ensures
        forall|b: u64, h: u64|
            #[trigger] run_ops(Set::empty(), ops).contains((b, h)) <==> (ever_registers(ops, b, h)
                && !ever_unregisters(ops, b, h)),
    decreases ops.len(),
{
    if ops.len() == 0 {
        assert forall|b: u64, h: u64|
            #[trigger] run_ops(Set::empty(), ops).contains((b, h)) <==> (ever_registers(ops, b, h)
                && !ever_unregisters(ops, b, h)) by {
            assert(!Set::<(u64, u64)>::empty().contains((b, h)));
        }
    } else {
        let prefix = ops.drop_last();
        let last = ops.last();
        lemma_net_effect(prefix);
        assert forall|b: u64, h: u64|
            #[trigger] run_ops(Set::empty(), ops).contains((b, h)) <==> (ever_registers(ops, b, h)
                && !ever_unregisters(ops, b, h)) by {
            let before = run_ops(Set::empty(), prefix);
            assert(run_ops(Set::empty(), ops) == apply_op(before, last));
            lemma_prefix_witnesses(ops, b, h);
            match last {
                RegOp::Register { board, handle } => {
                    if b == board && h == handle {
                        assert(ops[ops.len() - 1] == (RegOp::Register { board: b, handle: h }));
                        assert(ever_registers(ops, b, h));
                        if ever_unregisters(ops, b, h) {
                            let i = choose|i: int|
                                0 <= i < ops.len() && ops[i] == (RegOp::Unregister {
                                    board: b,
                                    handle: h,
                                });
                            assert(ops.len() - 1 < i);
                            assert(false);
                        }
                    }
                },
                RegOp::Unregister { board, handle } => {
                    if b == board && h == handle {
                        assert(!apply_op(before, last).contains((b, h)));
                        assert(ops[ops.len() - 1] == (RegOp::Unregister { board: b, handle: h }));
                        assert(ever_unregisters(ops, b, h));
                    }
                },
            }
        }
    }
}

/// A pair registered or unregistered within a prefix is so in the whole
/// sequence, and conversely for all but the last position.
proof fn lemma_prefix_witnesses(ops: Seq<RegOp>, b: u64, h: u64)
    requires
        ops.len() > 0,
    ensures
        ever_registers(ops.drop_last(), b, h) ==> ever_registers(ops, b, h),
        ever_unregisters(ops.drop_last(), b, h) ==> ever_unregisters(ops, b, h),
        ever_registers(ops, b, h) && ops.last() != (RegOp::Register { board: b, handle: h })
            ==> ever_registers(ops.drop_last(), b, h),
        ever_unregisters(ops, b, h) && ops.last() != (RegOp::Unregister { board: b, handle: h })
            ==> ever_unregisters(ops.drop_last(), b, h),
{
    let prefix = ops.drop_last();
    if ever_registers(prefix, b, h) {
        let i = choose|i: int|
            0 <= i < prefix.len() && prefix[i] == (RegOp::Register { board: b, handle: h });
        assert(ops[i] == (RegOp::Register { board: b, handle: h }));
    }
    if ever_unregisters(prefix, b, h) {
        let i = choose|i: int|
            0 <= i < prefix.len() && prefix[i] == (RegOp::Unregister { board: b, handle: h });
        assert(ops[i] == (RegOp::Unregister { board: b, handle: h }));
    }
    if ever_registers(ops, b, h) && ops.last() != (RegOp::Register { board: b, handle: h }) {
        let i = choose|i: int|
            0 <= i < ops.len() && ops[i] == (RegOp::Register { board: b, handle: h });
        assert(i < ops.len() - 1);
        assert(prefix[i] == (RegOp::Register { board: b, handle: h }));
    }
    if ever_unregisters(ops, b, h) && ops.last() != (RegOp::Unregister { board: b, handle: h }) {
        let i = choose|i: int|
            0 <= i < ops.len() && ops[i] == (RegOp::Unregister { board: b, handle: h });
        assert(i < ops.len() - 1);
        assert(prefix[i] == (RegOp::Unregister { board: b, handle: h }));
    }
}

} // verus!
