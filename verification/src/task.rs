//! Round-robin multitasking substrate: the task ring and context switch.
//!
//! All live tasks sit on one circular doubly linked ring; a single cursor
//! names the task currently executing. `switch_task` saves the caller's
//! context into the current task, advances the cursor one hop, and hands
//! back the context to restore — pure round-robin, one hop per switch.
//! Tasks are never removed: the ring only grows (task exit is a gap of
//! the surrounding system, left open here on purpose).

use vstd::prelude::*;

verus! {

/// The minimal saved machine state needed to resume a task: stack pointer
/// and address-space root.
#[derive(Debug, Clone, Copy, PartialEq, Eq, Structural)]
pub struct TaskContext {
    pub rsp: usize,
    pub cr3: usize,
}

/// One task-control record: a general-register snapshot, the saved
/// context, a process id that is never reused, and the ring links, held
/// as indices into the ring's task arena.
#[derive(Debug, Clone, Copy)]
pub struct Task {
    pub regs: [usize; 16],
    pub ctx: TaskContext,
    pub pid: isize,
    pub next: usize,
    pub prev: usize,
}

/// The ring of all live tasks plus the scheduler cursor and the pid
/// counter. The arena owns the records; handles are arena indices.
pub struct TaskRing {
    pub tasks: Vec<Task>,
    pub current: Option<usize>,
    pub next_pid: isize,
    /// The ring order: a ghost permutation of the arena indices such that
    /// each task's `next` is its successor (cyclically) and `prev` its
    /// predecessor. It witnesses that the ring is one single cycle.
    pub order: Ghost<Seq<int>>,
}

/// The task at position `k` of the order points `next` at the task one
/// position later, cyclically.
pub open spec fn next_link_ok(tasks: Seq<Task>, ord: Seq<int>, k: int) -> bool {
    tasks[ord[k]].next as int == ord[if k + 1 == ord.len() as int {
        0
    } else {
        k + 1
    }]
}

/// The task at position `k` of the order points `prev` at the task one
/// position earlier, cyclically.
pub open spec fn prev_link_ok(tasks: Seq<Task>, ord: Seq<int>, k: int) -> bool {
    tasks[ord[k]].prev as int == ord[if k == 0 {
        ord.len() - 1
    } else {
        k - 1
    }]
}

/// A sound ring:
/// - the ghost order is a permutation of the arena indices;
/// - each task's `next` and `prev` follow the order cyclically, so every
///   record's `next.prev` and `prev.next` are itself and the whole ring
///   is one cycle;
/// - the cursor names a live task, and is empty only while no task exists;
/// - pids were assigned in arena order by the monotone counter, so they
///   are unique and never reused.
pub open spec fn ring_wf(r: TaskRing) -> bool {
    let n = r.tasks@.len() as int;
    let ord = r.order@;
    &&& ord.len() == n
    &&& forall|k: int| 0 <= k < n ==> 0 <= #[trigger] ord[k] < n
    &&& forall|k1: int, k2: int| 0 <= k1 < k2 < n ==> ord[k1] != ord[k2]
    &&& forall|v: int| 0 <= v < n ==> ord.contains(v)
    &&& forall|k: int| 0 <= k < n ==> #[trigger] next_link_ok(r.tasks@, ord, k)
    &&& forall|k: int| 0 <= k < n ==> #[trigger] prev_link_ok(r.tasks@, ord, k)
    &&& match r.current {
        Some(c) => (c as int) < n,
        None => n == 0,
    }
    &&& r.next_pid == n
    &&& forall|i: int| 0 <= i < n ==> #[trigger] r.tasks@[i].pid == i
}

impl TaskRing {
    /// No tasks yet; the first `switch_task` will simply bounce the
    /// caller's own context back (the bootstrap case).
    pub fn new() -> (r: TaskRing)
        ensures
            ring_wf(r),
            r.tasks@.len() == 0,
            r.current is None,
            r.next_pid == 0,
    {
        TaskRing { tasks: Vec::new(), current: None, next_pid: 0, order: Ghost(Seq::empty()) }
    }
}

/// Hand out the next process id and advance the monotone counter. Ids are
/// never reused: every call returns a value no earlier call returned.
fn next_pid(ring: &mut TaskRing) -> (pid: isize)
    requires
        old(ring).next_pid < isize::MAX,
    ensures
        pid == old(ring).next_pid,
        final(ring).next_pid == old(ring).next_pid + 1,
        final(ring).tasks == old(ring).tasks,
        final(ring).current == old(ring).current,
        final(ring).order == old(ring).order,
{
    let pid = ring.next_pid;
    ring.next_pid = ring.next_pid + 1;
    pid
}

/// After splicing record `idx = t0.len()` between the adjacent ring
/// neighbors `prv` and `nxt`, the links follow the order that puts `idx`
/// right before `nxt`'s old position.
#[verifier::rlimit(100)]
proof fn lemma_splice_links(
    t0: Seq<Task>,
    t1: Seq<Task>,
    ord0: Seq<int>,
    ord1: Seq<int>,
    p: int,
    nxt: int,
    prv: int,
)
    requires
        ord0.len() == t0.len(),
        t0.len() >= 1,
        t1.len() == t0.len() + 1,
        0 <= p < ord0.len(),
        forall|k: int| 0 <= k < ord0.len() ==> 0 <= #[trigger] ord0[k] < ord0.len(),
        forall|k1: int, k2: int| 0 <= k1 < k2 < ord0.len() ==> ord0[k1] != ord0[k2],
        forall|k: int| 0 <= k < ord0.len() ==> #[trigger] next_link_ok(t0, ord0, k),
        forall|k: int| 0 <= k < ord0.len() ==> #[trigger] prev_link_ok(t0, ord0, k),
        ord0[p] == nxt,
        prv == ord0[if p == 0 {
            ord0.len() - 1
        } else {
            p - 1
        }],
        ord1.len() == ord0.len() + 1,
        forall|k: int| 0 <= k < p ==> #[trigger] ord1[k] == ord0[k],
        ord1[p] == t0.len() as int,
        forall|k: int| p < k < ord1.len() ==> #[trigger] ord1[k] == ord0[k - 1],
        t1[t0.len() as int].next as int == nxt,
        t1[t0.len() as int].prev as int == prv,
        forall|i: int|
            0 <= i < t0.len() ==> (#[trigger] t1[i].next) as int == (if i == prv {
                t0.len() as int
            } else {
                t0[i].next as int
            }),
        forall|i: int|
            0 <= i < t0.len() ==> (#[trigger] t1[i].prev) as int == (if i == nxt {
                t0.len() as int
            } else {
                t0[i].prev as int
            }),
    ensures
        forall|k: int| 0 <= k < ord1.len() ==> #[trigger] next_link_ok(t1, ord1, k),
        forall|k: int| 0 <= k < ord1.len() ==> #[trigger] prev_link_ok(t1, ord1, k),
{
    let n0 = t0.len() as int;
    let n1 = n0 + 1;
    let idx = n0;
    assert forall|k: int| 0 <= k < n1 implies #[trigger] next_link_ok(t1, ord1, k) by {
        if k == p {
            assert(ord1[p + 1] == ord0[p]);
        } else {
            let q = if k < p {
                k
            } else {
                k - 1
            };
            let v = ord1[k];
            assert(v == ord0[q] && 0 <= q < n0);
            assert(next_link_ok(t0, ord0, q));
            let qp = if p == 0 {
                n0 - 1
            } else {
                p - 1
            };
            if q == qp {
                // the old predecessor of `nxt` now points at the new record
                assert(v == prv);
                assert(t1[v].next as int == idx);
                if p == 0 {
                    assert(k == n0 && k + 1 == n1);
                    assert(ord1[0] == idx);
                } else {
                    assert(k == p - 1);
                    assert(ord1[k + 1] == idx);
                }
            } else {
                assert(v != prv) by {
                    assert(ord0[qp] == prv);
                }
                assert(t1[v].next == t0[v].next);
                assert(t0[v].next as int == ord0[if q + 1 == n0 {
                    0
                } else {
                    q + 1
                }]);
                if k + 1 == n1 {
                    assert(q + 1 == n0);
                    assert(p > 0);
                    assert(ord1[0] == ord0[0]);
                } else if k + 1 == p {
                    assert(q + 1 == p && q == qp);
                } else if k + 1 == p + 1 {
                    assert(k == p);
                } else if k < p {
                    assert(ord1[k + 1] == ord0[k + 1]);
                } else {
                    assert(ord1[k + 1] == ord0[k]);
                }
            }
        }
    }
    assert forall|k: int| 0 <= k < n1 implies #[trigger] prev_link_ok(t1, ord1, k) by {
        if k == p {
            assert(t1[idx].prev as int == prv);
            if p == 0 {
                assert(ord1[n1 - 1] == ord0[n0 - 1]);
            } else {
                assert(ord1[p - 1] == ord0[p - 1]);
            }
        } else {
            let q = if k < p {
                k
            } else {
                k - 1
            };
            let v = ord1[k];
            assert(v == ord0[q] && 0 <= q < n0);
            assert(prev_link_ok(t0, ord0, q));
            if q == p {
                // the old `nxt` now has the new record before it
                assert(v == nxt);
                assert(t1[v].prev as int == idx);
                assert(k == p + 1);
                assert(ord1[k - 1] == idx);
            } else {
                assert(v != nxt) by {
                    assert(ord0[p] == nxt);
                }
                assert(t1[v].prev == t0[v].prev);
                assert(t0[v].prev as int == ord0[if q == 0 {
                    n0 - 1
                } else {
                    q - 1
                }]);
                if k == 0 {
                    assert(q == 0 && p > 0);
                    assert(ord1[n1 - 1] == ord0[n0 - 1]);
                } else if k - 1 == p {
                    assert(q == p);
                } else if k - 1 < p {
                    assert(ord1[k - 1] == ord0[k - 1] && q == k);
                } else {
                    assert(ord1[k - 1] == ord0[k - 2] && q == k - 1);
                }
            }
        }
    }
}

impl Task {
    /// Splice a new task-control record into the ring between the
    /// neighbors `prev` and `next` (which must be adjacent, `prev.next ==
    /// next`), initializing its register snapshot to zero except for the
    /// stack-pointer slot, and assigning the next process id. On the very
    /// first insertion the record closes the ring on itself and becomes
    /// the current task.
    #[verifier::rlimit(100)]
    pub fn new(ring: &mut TaskRing, next: usize, prev: usize, ctx: TaskContext) -> (idx: usize)
        requires
            ring_wf(*old(ring)),
            old(ring).tasks@.len() < isize::MAX,
            old(ring).tasks@.len() == 0 ==> next == 0 && prev == 0,
            old(ring).tasks@.len() > 0 ==> (next as int) < old(ring).tasks@.len() && (
            prev as int) < old(ring).tasks@.len() && old(ring).tasks@[next as int].prev == prev
                && old(ring).tasks@[prev as int].next == next,
        ensures
            ring_wf(*final(ring)),
            idx == old(ring).tasks@.len(),
            final(ring).tasks@.len() == old(ring).tasks@.len() + 1,
            final(ring).tasks@[idx as int].ctx == ctx,
            final(ring).tasks@[idx as int].pid == old(ring).next_pid,
            final(ring).tasks@[idx as int].regs@.len() == 16,
            final(ring).tasks@[idx as int].regs@[6] == ctx.rsp,
            forall|j: int| 0 <= j < 16 && j != 6 ==> final(ring).tasks@[idx as int].regs@[j] == 0,
            final(ring).tasks@[idx as int].next == next,
            final(ring).tasks@[idx as int].prev == prev,
            forall|i: int|
                0 <= i < old(ring).tasks@.len() ==> {
                    let t0 = old(ring).tasks@[i];
                    let t1 = #[trigger] final(ring).tasks@[i];
                    &&& t1.ctx == t0.ctx
                    &&& t1.pid == t0.pid
                    &&& t1.regs == t0.regs
                    &&& t1.next == (if i == prev as int {
                        idx
                    } else {
                        t0.next
                    })
                    &&& t1.prev == (if i == next as int {
                        idx
                    } else {
                        t0.prev
                    })
                },
            final(ring).current == (if old(ring).current is None {
                Some(idx)
            } else {
                old(ring).current
            }),
            final(ring).next_pid == old(ring).next_pid + 1,
    {
        let idx = ring.tasks.len();
        proof {
            assert(old(ring).next_pid == old(ring).tasks@.len() as int);
        }
        let pid = next_pid(ring);
        let task = Task {
            regs: [0, 0, 0, 0, 0, 0, ctx.rsp, 0, 0, 0, 0, 0, 0, 0, 0, 0],
            ctx,
            pid,
            next,
            prev,
        };
        ring.tasks.push(task);
        let mut neighbor = ring.tasks[next];
        neighbor.prev = idx;
        ring.tasks[next] = neighbor;
        let mut neighbor = ring.tasks[prev];
        neighbor.next = idx;
        ring.tasks[prev] = neighbor;
        if ring.current.is_none() {
            ring.current = Some(idx);
        }
        let ghost n0 = old(ring).tasks@.len() as int;
        let ghost ord0 = old(ring).order@;
        proof {
            if n0 > 0 {
                assert(ord0.contains(next as int));
            }
        }
        let ghost p = if n0 == 0 {
            0int
        } else {
            choose|p: int| 0 <= p < n0 && ord0[p] == next as int
        };
        let ghost n1 = n0 + 1;
        let ghost ord1 = Seq::new(
            n1 as nat,
            |k: int|
                if k < p {
                    ord0[k]
                } else if k == p {
                    idx as int
                } else {
                    ord0[k - 1]
                },
        );
        ring.order = Ghost(ord1);
        proof {
            let t1 = ring.tasks@;
            let t0 = old(ring).tasks@;
            assert(ord1.len() == n1);
            // where the old predecessor of `next` sits in the old order
            if n0 > 0 {
                assert(prev_link_ok(t0, ord0, p));
                assert(prev as int == ord0[if p == 0 {
                    n0 - 1
                } else {
                    p - 1
                }]);
            }
            // the new order is a permutation of 0..n1
            assert forall|k: int| 0 <= k < n1 implies 0 <= #[trigger] ord1[k] < n1 by {
                if k > p {
                    assert(ord1[k] == ord0[k - 1]);
                }
            }
            assert forall|k1: int, k2: int| 0 <= k1 < k2 < n1 implies ord1[k1] != ord1[k2] by {
                if k1 == p || k2 == p {
                    assert(forall|k: int| 0 <= k < n0 ==> #[trigger] ord0[k] < n0);
                } else {
                    let q1 = if k1 < p {
                        k1
                    } else {
                        k1 - 1
                    };
                    let q2 = if k2 < p {
                        k2
                    } else {
                        k2 - 1
                    };
                    assert(ord1[k1] == ord0[q1] && ord1[k2] == ord0[q2]);
                }
            }
            assert forall|v: int| 0 <= v < n1 implies ord1.contains(v) by {
                if v == idx as int {
                    assert(ord1[p] == v);
                } else {
                    assert(ord0.contains(v));
                    let q = choose|q: int| 0 <= q < n0 && ord0[q] == v;
                    if q < p {
                        assert(ord1[q] == v);
                    } else {
                        assert(ord1[q + 1] == v);
                    }
                }
            }
            // the links follow the new order
            if n0 == 0 {
                assert(ord1[0] == idx as int);
                assert(t1[idx as int].next == 0 && t1[idx as int].prev == 0);
                assert forall|k: int| 0 <= k < n1 implies #[trigger] next_link_ok(t1, ord1, k) by {
                    assert(k == 0 && ord1[k] == idx as int);
                }
                assert forall|k: int| 0 <= k < n1 implies #[trigger] prev_link_ok(t1, ord1, k) by {
                    assert(k == 0 && ord1[k] == idx as int);
                }
            } else {
                assert forall|i: int| 0 <= i < n0 implies (#[trigger] t1[i].next) as int == (if i
                    == prev as int {
                    idx as int
                } else {
                    t0[i].next as int
                }) && (t1[i].prev) as int == (if i == next as int {
                    idx as int
                } else {
                    t0[i].prev as int
                }) by {}
                lemma_splice_links(t0, t1, ord0, ord1, p, next as int, prev as int);
            }
            assert(ring_wf(*ring));
        }
        idx
    }
}

impl TaskRing {
    /// Create a task with the given initial stack pointer and
    /// address-space root, splicing it into the ring immediately before
    /// the current task. The very first task closes the ring on itself
    /// and becomes current, giving the scheduler its starting point.
    pub fn create(&mut self, rsp: usize, cr3: usize) -> (idx: usize)
        requires
            ring_wf(*old(self)),
            old(self).tasks@.len() < isize::MAX,
        ensures
            ring_wf(*final(self)),
            idx == old(self).tasks@.len(),
            final(self).tasks@.len() == old(self).tasks@.len() + 1,
            final(self).tasks@[idx as int].ctx == (TaskContext { rsp, cr3 }),
            final(self).tasks@[idx as int].pid == old(self).next_pid,
            final(self).next_pid == old(self).next_pid + 1,
            old(self).current is None ==> final(self).current == Some(idx)
                && final(self).tasks@[idx as int].next == idx
                && final(self).tasks@[idx as int].prev == idx,
            old(self).current matches Some(c) ==> {
                &&& final(self).current == Some(c)
                &&& final(self).tasks@[idx as int].next == c
                &&& final(self).tasks@[idx as int].prev == old(self).tasks@[c as int].prev
                &&& final(self).tasks@[c as int].prev == idx
                &&& final(self).tasks@[old(self).tasks@[c as int].prev as int].next == idx
                &&& forall|i: int|
                    0 <= i < old(self).tasks@.len() ==> (#[trigger] final(self).tasks@[i]).ctx
                        == old(self).tasks@[i].ctx
            },
    {
        let ctx = TaskContext { rsp, cr3 };
        match self.current {
            None => Task::new(self, 0, 0, ctx),
            Some(cur) => {
                let prev = self.tasks[cur].prev;
                proof {
                    // `prev` and `cur` are adjacent in the ring order
                    let ord = old(self).order@;
                    let n = old(self).tasks@.len() as int;
                    assert(ord.contains(cur as int));
                    let q = choose|q: int| 0 <= q < n && ord[q] == cur as int;
                    assert(prev_link_ok(old(self).tasks@, ord, q));
                    let qp = if q == 0 {
                        n - 1
                    } else {
                        q - 1
                    };
                    assert(prev as int == ord[qp]);
                    assert(next_link_ok(old(self).tasks@, ord, qp));
                    assert(old(self).tasks@[prev as int].next == cur);
                }
                Task::new(self, cur, prev, ctx)
            },
        }
    }
}

/// The context-switch primitive, called from the trap or timer path with
/// the interrupted task's stack pointer and address-space root.
///
/// Before any task exists it simply returns a context built from its
/// arguments (the bootstrap case) and changes nothing. Otherwise it
/// stores the given context into the current task, advances the cursor to
/// that task's ring successor, and returns the successor's saved context
/// for the caller to restore. This is the only mutator of the cursor.
pub fn switch_task(ring: &mut TaskRing, rsp: usize, cr3: usize) -> (ctx: TaskContext)
    requires
        ring_wf(*old(ring)),
    ensures
        ring_wf(*final(ring)),
        old(ring).current is None ==> ctx == (TaskContext { rsp, cr3 }) && final(ring).tasks
            == old(ring).tasks && final(ring).current == old(ring).current && final(ring).order
            == old(ring).order && final(ring).next_pid == old(ring).next_pid,
        old(ring).current matches Some(c) ==> {
            let nxt = old(ring).tasks@[c as int].next;
            &&& final(ring).current == Some(nxt)
            &&& final(ring).tasks@.len() == old(ring).tasks@.len()
            &&& final(ring).tasks@[c as int].ctx == (TaskContext { rsp, cr3 })
            &&& final(ring).tasks@[c as int].regs == old(ring).tasks@[c as int].regs
            &&& final(ring).tasks@[c as int].pid == old(ring).tasks@[c as int].pid
            &&& final(ring).tasks@[c as int].next == old(ring).tasks@[c as int].next
            &&& final(ring).tasks@[c as int].prev == old(ring).tasks@[c as int].prev
            &&& forall|i: int|
                0 <= i < old(ring).tasks@.len() && i != c as int ==> final(ring).tasks@[i] == old(
                    ring,
                ).tasks@[i]
            &&& ctx == (if nxt == c {
                TaskContext { rsp, cr3 }
            } else {
                old(ring).tasks@[nxt as int].ctx
            })
            &&& final(ring).order == old(ring).order
            &&& final(ring).next_pid == old(ring).next_pid
        },
{
    let cur = match ring.current {
        Some(c) => c,
        None => {
            return TaskContext { rsp, cr3 };
        },
    };
    let mut record = ring.tasks[cur];
    record.ctx = TaskContext { rsp, cr3 };
    ring.tasks[cur] = record;
    let nxt = ring.tasks[cur].next;
    proof {
        let ord = ring.order@;
        let n = old(ring).tasks@.len() as int;
        assert(ord.contains(cur as int));
        let q = choose|q: int| 0 <= q < n && ord[q] == cur as int;
        assert(next_link_ok(old(ring).tasks@, ord, q));
        assert((nxt as int) < n);
    }
    ring.current = Some(nxt);
    let out = ring.tasks[nxt].ctx;
    proof {
        let ord = ring.order@;
        let n = ring.tasks@.len() as int;
        assert forall|k: int| 0 <= k < n implies #[trigger] next_link_ok(ring.tasks@, ord, k) by {
            assert(next_link_ok(old(ring).tasks@, ord, k));
            assert(ring.tasks@[ord[k]].next == old(ring).tasks@[ord[k]].next);
        }
        assert forall|k: int| 0 <= k < n implies #[trigger] prev_link_ok(ring.tasks@, ord, k) by {
            assert(prev_link_ok(old(ring).tasks@, ord, k));
            assert(ring.tasks@[ord[k]].prev == old(ring).tasks@[ord[k]].prev);
        }
        assert(ring_wf(*ring));
    }
    out
}

/// How far `steps` hops along `next` reach from task `i`.
pub open spec fn walk_next(r: TaskRing, i: int, steps: nat) -> int
    decreases steps,
{
    if steps == 0 {
        i
    } else {
        walk_next(r, r.tasks@[i].next as int, (steps - 1) as nat)
    }
}

/// How far `steps` hops along `prev` reach from task `i`.
pub open spec fn walk_prev(r: TaskRing, i: int, steps: nat) -> int
    decreases steps,
{
    if steps == 0 {
        i
    } else {
        walk_prev(r, r.tasks@[i].prev as int, (steps - 1) as nat)
    }
}

/// Walking `next` moves forward through the ring order, cyclically.
proof fn lemma_walk_next_pos(r: TaskRing, p: int, steps: nat)
    requires
        ring_wf(r),
        0 <= p < r.tasks@.len(),
    ensures
        walk_next(r, r.order@[p], steps) == r.order@[(p + steps) % (r.tasks@.len() as int)],
    decreases steps,
{
    let n = r.tasks@.len() as int;
    let ord = r.order@;
    if steps == 0 {
        vstd::arithmetic::div_mod::lemma_small_mod(p as nat, n as nat);
    } else {
        let p2 = if p + 1 == n {
            0int
        } else {
            p + 1
        };
        assert(next_link_ok(r.tasks@, ord, p));
        assert(r.tasks@[ord[p]].next as int == ord[p2]);
        lemma_walk_next_pos(r, p2, (steps - 1) as nat);
        assert(p2 == (p + 1) % n) by {
            if p + 1 == n {
                vstd::arithmetic::div_mod::lemma_mod_self_0(n);
            } else {
                vstd::arithmetic::div_mod::lemma_small_mod((p + 1) as nat, n as nat);
            }
        }
        vstd::arithmetic::div_mod::lemma_add_mod_noop(p + 1, steps - 1, n);
        vstd::arithmetic::div_mod::lemma_add_mod_noop(p2, steps - 1, n);
        vstd::arithmetic::div_mod::lemma_small_mod(p2 as nat, n as nat);
        assert((p2 + (steps - 1)) % n == (p + steps) % n);
    }
}

/// Walking `prev` moves backward through the ring order, cyclically.
proof fn lemma_walk_prev_pos(r: TaskRing, p: int, steps: nat)
    requires
        ring_wf(r),
        0 <= p < r.tasks@.len(),
    ensures
        walk_prev(r, r.order@[p], steps) == r.order@[(p - steps) % (r.tasks@.len() as int)],
    decreases steps,
{
    let n = r.tasks@.len() as int;
    let ord = r.order@;
    if steps == 0 {
        vstd::arithmetic::div_mod::lemma_small_mod(p as nat, n as nat);
    } else {
        let p2 = if p == 0 {
            n - 1
        } else {
            p - 1
        };
        assert(prev_link_ok(r.tasks@, ord, p));
        assert(r.tasks@[ord[p]].prev as int == ord[p2]);
        lemma_walk_prev_pos(r, p2, (steps - 1) as nat);
        assert(p2 == (p - 1) % n) by {
            if p == 0 {
                assert((0 - 1) % n == n - 1) by {
                    vstd::arithmetic::div_mod::lemma_mod_add_multiples_vanish(-1, n);
                    vstd::arithmetic::div_mod::lemma_small_mod((n - 1) as nat, n as nat);
                }
            } else {
                vstd::arithmetic::div_mod::lemma_small_mod((p - 1) as nat, n as nat);
            }
        }
        vstd::arithmetic::div_mod::lemma_sub_mod_noop(p2, steps - 1, n);
        vstd::arithmetic::div_mod::lemma_sub_mod_noop(p - 1, steps - 1, n);
        vstd::arithmetic::div_mod::lemma_small_mod(p2 as nat, n as nat);
        assert((p2 - (steps - 1)) % n == (p - steps) % n) by {
            assert(p2 % n - ((steps - 1) as int) % n == (p - 1) % n - ((steps - 1) as int) % n);
        }
    }
}

/// Ring integrity: in a sound ring of `N` tasks, walking `next` exactly
/// `N` hops from any task returns to that task, walking `prev` does the
/// same, and every record's `next.prev` and `prev.next` are the record
/// itself.
pub proof fn lemma_ring_integrity(r: TaskRing, i: int)
    requires
        ring_wf(r),
        0 <= i < r.tasks@.len(),
    ensures
        walk_next(r, i, r.tasks@.len() as nat) == i,
        walk_prev(r, i, r.tasks@.len() as nat) == i,
        r.tasks@[r.tasks@[i].next as int].prev as int == i,
        r.tasks@[r.tasks@[i].prev as int].next as int == i,
{
    let n = r.tasks@.len() as int;
    let ord = r.order@;
    assert(ord.contains(i));
    let p = choose|p: int| 0 <= p < n && ord[p] == i;
    lemma_walk_next_pos(r, p, n as nat);
    lemma_walk_prev_pos(r, p, n as nat);
    assert((p + n) % n == p) by {
        vstd::arithmetic::div_mod::lemma_mod_add_multiples_vanish(p, n);
        vstd::arithmetic::div_mod::lemma_small_mod(p as nat, n as nat);
    }
    assert((p - n) % n == p) by {
        vstd::arithmetic::div_mod::lemma_mod_sub_multiples_vanish(p, n);
        vstd::arithmetic::div_mod::lemma_small_mod(p as nat, n as nat);
    }
    let pn = if p + 1 == n {
        0int
    } else {
        p + 1
    };
    assert(next_link_ok(r.tasks@, ord, p));
    assert(prev_link_ok(r.tasks@, ord, pn));
    assert(r.tasks@[ord[p]].next as int == ord[pn]);
    assert(r.tasks@[ord[pn]].prev as int == ord[p]);
    let pp = if p == 0 {
        n - 1
    } else {
        p - 1
    };
    assert(prev_link_ok(r.tasks@, ord, p));
    assert(next_link_ok(r.tasks@, ord, pp));
    assert(r.tasks@[ord[p]].prev as int == ord[pp]);
    assert(r.tasks@[ord[pp]].next as int == ord[p]);
}

} // verus!
