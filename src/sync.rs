use vstd::prelude::*;

verus! {

/// Hands out distinct identities for waiting threads.
pub struct IdGenerator {
    gen: usize,
}

impl IdGenerator {
    pub closed spec fn next(&self) -> nat {
        self.gen as nat
    }

    pub fn new() -> (r: Self)
        ensures
            r.next() == 0,
    {
        IdGenerator { gen: 0 }
    }

    /// Returns the next identity; the counter wraps like an atomic
    /// fetch-and-add.
    pub fn gen_id(&mut self) -> (r: usize)
        ensures
            r == old(self).next(),
            final(self).next() == if old(self).next() == usize::MAX as nat {
                0
            } else {
                old(self).next() + 1
            },
    {
        let r = self.gen;
        self.gen = if self.gen == usize::MAX {
            0
        } else {
            self.gen + 1
        };
        r
    }
}

/// How the state word of a `QueuedLock` is read.
#[derive(PartialEq, Eq, Structural, Clone, Copy)]
pub enum Policy {
    /// An exclusive, reentrant lock: the state is the hold depth of the
    /// owner, 0 when free.
    Exclusive,
    /// A counting semaphore: the state is the number of permits available.
    Permits,
}

/// Whether a queued waiter has announced that it is about to park.
#[derive(PartialEq, Eq, Structural, Clone, Copy)]
pub enum WaitStatus {
    Runnable,
    Parked,
}

/// A waiter in the queue of a `QueuedLock`.
#[derive(PartialEq, Eq, Structural, Clone, Copy)]
pub struct WaitNode {
    pub id: u64,
    pub status: WaitStatus,
}

/// What the thread that made an acquire step must do next.
#[derive(PartialEq, Eq, Structural, Clone, Copy)]
pub enum Step {
    /// The acquisition succeeded; the waiter named, if any, must be
    /// unparked.
    Acquired(Option<u64>),
    /// Step again at once.
    Retry,
    /// Park until unparked (or until the deadline), then step again.
    Park,
    /// The deadline passed; the attempt left the queue without acquiring.
    TimedOut,
}

/// One thread's attempt to acquire a `QueuedLock`, carried between steps.
pub struct Attempt {
    id: u64,
    amount: i64,
    shared: bool,
    queued: bool,
    spins: u8,
    post_spins: u8,
}

impl Attempt {
    pub closed spec fn id(&self) -> u64 {
        self.id
    }

    pub closed spec fn amount(&self) -> int {
        self.amount as int
    }

    pub closed spec fn shared(&self) -> bool {
        self.shared
    }

    pub closed spec fn queued(&self) -> bool {
        self.queued
    }

    pub closed spec fn spins(&self) -> nat {
        self.spins as nat
    }

    pub closed spec fn post_spins(&self) -> nat {
        self.post_spins as nat
    }

    /// A fresh attempt by waiter `id` for `amount` (ignored by an exclusive
    /// lock). A `shared` attempt passes the wake-up on to the next waiter
    /// when it acquires from the queue.
    pub fn new(id: u64, amount: i64, shared: bool) -> (r: Self)
        ensures
            r.id() == id,
            r.amount() == amount,
            r.shared() == shared,
            !r.queued(),
            r.spins() == 0,
            r.post_spins() == 0,
    {
        Attempt { id, amount, shared, queued: false, spins: 0, post_spins: 0 }
    }
}

/// Spins granted at a park, from those granted at the previous one: 1, 3,
/// 7, ... saturating at 255.
pub open spec fn next_spins(post_spins: nat) -> nat {
    if post_spins >= 127 {
        255
    } else {
        2 * post_spins + 1
    }
}

/// Whether `id` may take `amount` from a lock in the given state.
pub open spec fn acquirable(policy: Policy, state: int, holder: Option<u64>, id: u64, amount: int) -> bool {
    match policy {
        Policy::Exclusive => state == 0 || (holder == Some(id) && state < i64::MAX),
        Policy::Permits => state - amount >= 0,
    }
}

/// The state after `amount` is taken.
pub open spec fn acquired_state(policy: Policy, state: int, amount: int) -> int {
    match policy {
        Policy::Exclusive => state + 1,
        Policy::Permits => state - amount,
    }
}

/// The state after `amount` is given back.
pub open spec fn released_state(policy: Policy, state: int, amount: int) -> int {
    match policy {
        Policy::Exclusive => state - 1,
        Policy::Permits => state + amount,
    }
}

/// The queue after its first waiter is woken, if it had announced parking.
pub open spec fn signalled(q: Seq<WaitNode>) -> Seq<WaitNode> {
    if q.len() > 0 && q[0].status == WaitStatus::Parked {
        q.update(0, WaitNode { id: q[0].id, status: WaitStatus::Runnable })
    } else {
        q
    }
}

/// The waiter that signalling `q` unparks.
pub open spec fn signal_target(q: Seq<WaitNode>) -> Option<u64> {
    if q.len() > 0 && q[0].status == WaitStatus::Parked {
        Some(q[0].id)
    } else {
        None
    }
}


/// One step of the acquisition protocol, from lock `l` and attempt `at` to
/// lock `l2`, attempt `at2` and outcome `r` (see `QueuedLock::acquire_step`).
pub open spec fn acquire_step_spec(
    l: QueuedLock,
    at: Attempt,
    expired: bool,
    l2: QueuedLock,
    at2: Attempt,
    r: Step,
) -> bool {
        let q = l.queue();
    let id = at.id();
    let first = at.queued() && l.is_first(id);
    let reentry = l.policy() == Policy::Exclusive && l.holder() == Some(id);
    let may_try = first || (!at.queued() && (reentry || !(l.fair() && q.len() > 0)));
    if may_try && acquirable(
        l.policy(),
        l.state(),
        l.holder(),
        id,
        at.amount(),
    ) {
        &&& r == Step::Acquired(
            if first && at.shared() {
                signal_target(q.drop_first())
            } else {
                None
            },
        )
        &&& l2.state() == acquired_state(
            l.policy(),
            l.state(),
            at.amount(),
        )
        &&& l2.holder() == if l.policy() == Policy::Exclusive {
            Some(id)
        } else {
            l.holder()
        }
        &&& l2.queue() == if !first {
            q
        } else if at.shared() {
            signalled(q.drop_first())
        } else {
            q.drop_first()
        }
    } else {
        &&& l2.state() == l.state()
        &&& l2.holder() == l.holder()
        &&& if !at.queued() {
            &&& r == Step::Retry
            &&& l2.queue() == q.push(
                WaitNode { id, status: WaitStatus::Runnable },
            )
        } else if first && at.spins() > 0 {
            &&& r == Step::Retry
            &&& l2.queue() == q
            &&& at2.spins() == at.spins() - 1
        } else {
            exists|p: int|
                0 <= p < q.len() && #[trigger] q[p].id == id && if q[p].status
                    == WaitStatus::Runnable {
                    &&& r == Step::Retry
                    &&& l2.queue() == q.update(
                        p,
                        WaitNode { id, status: WaitStatus::Parked },
                    )
                } else if expired {
                    &&& r == Step::TimedOut
                    &&& l2.queue() == q.remove(p)
                } else {
                    &&& r == Step::Park
                    &&& l2.queue() == q
                    &&& at2.spins() == next_spins(at.post_spins())
                    &&& at2.post_spins() == next_spins(at.post_spins())
                }
        }
    }
}

/// Queued synchronizer: a state word read through a `Policy`, and a FIFO of
/// waiters. The first waiter retries the acquisition; the others park until
/// a release wakes them. A newcomer may barge ahead of the queue unless the
/// lock is fair; the owner of an exclusive lock always re-enters at once.
pub struct QueuedLock {
    state: i64,
    owner: Option<u64>,
    policy: Policy,
    fair: bool,
    waiters: Vec<WaitNode>,
}

impl QueuedLock {
    pub closed spec fn state(&self) -> int {
        self.state as int
    }

    /// The owner of an exclusive lock.
    pub closed spec fn holder(&self) -> Option<u64> {
        self.owner
    }

    pub closed spec fn policy(&self) -> Policy {
        self.policy
    }

    pub closed spec fn fair(&self) -> bool {
        self.fair
    }

    /// The waiters, first in line first.
    pub closed spec fn queue(&self) -> Seq<WaitNode> {
        self.waiters@
    }

    pub open spec fn is_queued(&self, id: u64) -> bool {
        exists|i: int| 0 <= i < self.queue().len() && #[trigger] self.queue()[i].id == id
    }

    pub open spec fn is_first(&self, id: u64) -> bool {
        self.queue().len() > 0 && self.queue()[0].id == id
    }

    pub open spec fn wf(&self) -> bool {
        &&& self.state() >= 0
        &&& self.policy() == Policy::Exclusive ==> ((self.state() == 0) == (self.holder() is None))
        &&& self.policy() == Policy::Permits ==> self.holder() is None
        &&& forall|i: int, j: int|
            0 <= i < j < self.queue().len() ==> self.queue()[i].id != self.queue()[j].id
    }

    pub fn new(policy: Policy, state: i64, fair: bool) -> (r: Self)
        requires
            state >= 0,
            policy == Policy::Exclusive ==> state == 0,
        ensures
            r.wf(),
            r.state() == state,
            r.holder() is None,
            r.policy() == policy,
            r.fair() == fair,
            r.queue() == Seq::<WaitNode>::empty(),
    {
        QueuedLock { state, owner: None, policy, fair, waiters: Vec::new() }
    }

    /// The state word, as the policy reads it.
    pub fn current_state(&self) -> (r: i64)
        ensures
            r == self.state(),
    {
        self.state
    }

    pub fn is_fair(&self) -> (r: bool)
        ensures
            r == self.fair(),
    {
        self.fair
    }

    /// Whether `id` owns the lock.
    pub fn owner_is(&self, id: u64) -> (r: bool)
        ensures
            r == (self.holder() == Some(id)),
    {
        match self.owner {
            Some(o) => o == id,
            None => false,
        }
    }

    pub fn has_queued_waiters(&self) -> (r: bool)
        ensures
            r == (self.queue().len() > 0),
    {
        self.waiters.len() > 0
    }

    /// Takes `amount` for `id` if the policy allows it.
    pub(crate) fn try_acquire(&mut self, id: u64, amount: i64) -> (r: bool)
        requires
            old(self).wf(),
            old(self).policy() == Policy::Permits ==> amount > 0,
        ensures
            final(self).wf(),
            r == acquirable(old(self).policy(), old(self).state(), old(self).holder(), id, amount as int),
            r ==> final(self).state() == acquired_state(old(self).policy(), old(self).state(), amount as int),
            r && old(self).policy() == Policy::Exclusive ==> final(self).holder() == Some(id),
            r && old(self).policy() == Policy::Permits ==> final(self).holder() == old(self).holder(),
            !r ==> final(self).state() == old(self).state() && final(self).holder() == old(self).holder(),
            final(self).queue() == old(self).queue(),
            final(self).policy() == old(self).policy(),
            final(self).fair() == old(self).fair(),
    {
        match self.policy {
            Policy::Exclusive => {
                if self.state == 0 {
                    self.state = 1;
                    self.owner = Some(id);
                    true
                } else if self.owner == Some(id) && self.state < i64::MAX {
                    self.state = self.state + 1;
                    true
                } else {
                    false
                }
            },
            Policy::Permits => {
                if self.state - amount >= 0 {
                    self.state = self.state - amount;
                    true
                } else {
                    false
                }
            },
        }
    }

    /// Gives `amount` back for `id`; `true` when the lock became available
    /// to others (an exclusive lock only once its depth reaches 0).
    fn try_release(&mut self, id: u64, amount: i64) -> (r: bool)
        requires
            old(self).wf(),
            old(self).policy() == Policy::Exclusive ==> old(self).holder() == Some(id),
            old(self).policy() == Policy::Permits ==> amount > 0 && old(self).state() + amount
                <= i64::MAX,
        ensures
            final(self).wf(),
            final(self).state() == released_state(old(self).policy(), old(self).state(), amount as int),
            r == (final(self).state() == 0 || old(self).policy() == Policy::Permits),
            old(self).policy() == Policy::Exclusive ==> final(self).holder() == if r {
                None
            } else {
                old(self).holder()
            },
            old(self).policy() == Policy::Permits ==> final(self).holder() == old(self).holder(),
            final(self).queue() == old(self).queue(),
            final(self).policy() == old(self).policy(),
            final(self).fair() == old(self).fair(),
    {
        match self.policy {
            Policy::Exclusive => {
                self.state = self.state - 1;
                if self.state == 0 {
                    self.owner = None;
                    true
                } else {
                    false
                }
            },
            Policy::Permits => {
                self.state = self.state + amount;
                true
            },
        }
    }

    /// Wakes the first waiter if it announced parking; returns it.
    fn signal_next(&mut self) -> (r: Option<u64>)
        requires
            old(self).wf(),
        ensures
            final(self).wf(),
            r == signal_target(old(self).queue()),
            final(self).queue() == signalled(old(self).queue()),
            final(self).state() == old(self).state(),
            final(self).holder() == old(self).holder(),
            final(self).policy() == old(self).policy(),
            final(self).fair() == old(self).fair(),
    {
        if self.waiters.len() > 0 && self.waiters[0].status == WaitStatus::Parked {
            let id = self.waiters[0].id;
            self.waiters.set(0, WaitNode { id, status: WaitStatus::Runnable });
            Some(id)
        } else {
            None
        }
    }


    /// One step of the acquisition protocol for `at`, a state machine over
    /// fast path, queued spinning, parking and acquisition. The first
    /// waiter in line, and a newcomer that is not queued (unless the lock
    /// is fair and others wait), try the policy; a success from the queue
    /// detaches the waiter, and a shared attempt then wakes the next one. A
    /// newcomer that fails joins the queue. A queued waiter spins the steps
    /// granted to it while first in line, then announces parking, then
    /// parks; once `expired` it leaves the queue instead of parking.
    pub fn acquire_step(&mut self, at: &mut Attempt, expired: bool) -> (r: Step)
        requires
            old(self).wf(),
            old(at).queued() == old(self).is_queued(old(at).id()),
            old(self).policy() == Policy::Permits ==> old(at).amount() > 0,
        ensures
            final(self).wf(),
            final(at).queued() == final(self).is_queued(final(at).id()),
            final(at).id() == old(at).id(),
            final(at).amount() == old(at).amount(),
            final(at).shared() == old(at).shared(),
            final(self).policy() == old(self).policy(),
            final(self).fair() == old(self).fair(),
            acquire_step_spec(*old(self), *old(at), expired, *final(self), *final(at), r),
    {
        let ghost q = self.waiters@;
        let first = at.queued && self.waiters.len() > 0 && self.waiters[0].id == at.id;
        // The owner of an exclusive lock re-enters whatever the queue holds:
        // the waiters wait for it, so it must not wait for them.
        let reentry = match self.policy {
            Policy::Exclusive => self.owner_is(at.id),
            Policy::Permits => false,
        };
        let may_try = first || (!at.queued && (reentry || !(self.fair && self.waiters.len() > 0)));
        if may_try {
            if self.try_acquire(at.id, at.amount) {
                let mut woken: Option<u64> = None;
                if first {
                    self.waiters.remove(0);
                    proof {
                        assert(self.waiters@ =~= q.drop_first());
                    }
                    if at.shared {
                        woken = self.signal_next();
                    }
                }
                at.queued = false;
                proof {
                    assert forall|i: int| 0 <= i < self.queue().len() implies #[trigger] self.queue()[i].id
                        != at.id by {
                        if first {
                            assert(q[i + 1].id == self.queue()[i].id);
                            assert(q[0].id != q[i + 1].id);
                        } else {
                            assert(self.queue()[i] == q[i]);
                        }
                    }
                }
                return Step::Acquired(woken);
            }
        }
        if !at.queued {
            self.waiters.push(WaitNode { id: at.id, status: WaitStatus::Runnable });
            at.queued = true;
            proof {
                assert(self.queue()[q.len() as int].id == at.id);
            }
            Step::Retry
        } else if first && at.spins > 0 {
            at.spins = at.spins - 1;
            Step::Retry
        } else {
            let p = self.find(at.id);
            if self.waiters[p].status == WaitStatus::Runnable {
                self.waiters.set(p, WaitNode { id: at.id, status: WaitStatus::Parked });
                proof {
                    assert(self.queue()[p as int].id == at.id);
                }
                Step::Retry
            } else if expired {
                self.waiters.remove(p);
                at.queued = false;
                proof {
                    assert forall|i: int| 0 <= i < self.queue().len() implies #[trigger] self.queue()[i].id
                        != at.id by {
                        if i < p {
                            assert(q[i] == self.queue()[i]);
                        } else {
                            assert(q[i + 1] == self.queue()[i]);
                        }
                    }
                }
                Step::TimedOut
            } else {
                let s: u8 = if at.post_spins >= 127 {
                    255
                } else {
                    2 * at.post_spins + 1
                };
                at.spins = s;
                at.post_spins = s;
                Step::Park
            }
        }
    }

    /// Gives `amount` back for `id`. When the lock became available (an
    /// exclusive one only at depth 0) the first waiter is woken if it
    /// announced parking, and returned so that it can be unparked.
    pub fn release(&mut self, id: u64, amount: i64) -> (r: Option<u64>)
        requires
            old(self).wf(),
            old(self).policy() == Policy::Exclusive ==> old(self).holder() == Some(id),
            old(self).policy() == Policy::Permits ==> amount > 0 && old(self).state() + amount
                <= i64::MAX,
        ensures
            final(self).wf(),
            final(self).state() == released_state(old(self).policy(), old(self).state(), amount as int),
            old(self).policy() == Policy::Exclusive ==> final(self).holder() == if final(self).state()
                == 0 {
                None
            } else {
                old(self).holder()
            },
            old(self).policy() == Policy::Permits ==> final(self).holder() == old(self).holder(),
            final(self).policy() == old(self).policy(),
            final(self).fair() == old(self).fair(),
            if final(self).state() == 0 || old(self).policy() == Policy::Permits {
                &&& r == signal_target(old(self).queue())
                &&& final(self).queue() == signalled(old(self).queue())
            } else {
                &&& r is None
                &&& final(self).queue() == old(self).queue()
            },
    {
        if self.try_release(id, amount) {
            self.signal_next()
        } else {
            None
        }
    }

    fn find(&self, id: u64) -> (r: usize)
        requires
            self.is_queued(id),
        ensures
            r < self.queue().len(),
            self.queue()[r as int].id == id,
    {
        let mut i: usize = 0;
        while i < self.waiters.len()
            invariant
                i <= self.queue().len(),
                forall|j: int| 0 <= j < i ==> self.queue()[j].id != id,
                self.is_queued(id),
            decreases self.queue().len() - i,
        {
            if self.waiters[i].id == id {
                return i;
            }
            i = i + 1;
        }
        0
    }
}

} // verus!
