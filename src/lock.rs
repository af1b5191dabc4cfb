use vstd::prelude::*;

use crate::sync::{
    acquirable, acquire_step_spec, acquired_state, released_state, signal_target, signalled,
    Attempt, Policy, QueuedLock, Step,
};

verus! {

/// Counting semaphore: a `QueuedLock` whose state is the number of permits
/// available. Acquisitions are shared, so a waiter that acquires from the
/// queue passes the wake-up on.
pub struct Semaphore {
    lock: QueuedLock,
}

impl Semaphore {
    /// The synchronizer underneath.
    pub closed spec fn inner(&self) -> QueuedLock {
        self.lock
    }

    /// Permits available.
    pub open spec fn permits(&self) -> int {
        self.inner().state()
    }

    pub open spec fn wf(&self) -> bool {
        &&& self.inner().wf()
        &&& self.inner().policy() == Policy::Permits
    }

    /// A semaphore holding `permits` permits; a fair one lets no newcomer
    /// ahead of queued waiters.
    pub fn new(permits: i64, fair: bool) -> (r: Self)
        requires
            permits > 0,
        ensures
            r.wf(),
            r.permits() == permits,
            r.inner().fair() == fair,
            r.inner().queue().len() == 0,
    {
        Semaphore { lock: QueuedLock::new(Policy::Permits, permits, fair) }
    }

    /// An attempt by waiter `id` to take `acquires` permits.
    pub fn attempt(&self, id: u64, acquires: i64) -> (r: Attempt)
        requires
            acquires > 0,
        ensures
            r.id() == id,
            r.amount() == acquires,
            r.shared(),
            !r.queued(),
    {
        Attempt::new(id, acquires, true)
    }

    /// One step of acquiring the permits of `at`; see
    /// `QueuedLock::acquire_step`.
    pub fn acquire(&mut self, at: &mut Attempt, expired: bool) -> (r: Step)
        requires
            old(self).wf(),
            old(at).amount() > 0,
            old(at).queued() == old(self).inner().is_queued(old(at).id()),
        ensures
            final(self).wf(),
            final(at).queued() == final(self).inner().is_queued(final(at).id()),
            final(at).id() == old(at).id(),
            final(at).amount() == old(at).amount(),
            acquire_step_spec(old(self).inner(), *old(at), expired, final(self).inner(), *final(at), r),
            final(self).inner().fair() == old(self).inner().fair(),
    {
        self.lock.acquire_step(at, expired)
    }

    /// Returns `releases` permits and names the waiter to unpark, if any.
    pub fn release(&mut self, releases: i64) -> (r: Option<u64>)
        requires
            old(self).wf(),
            releases > 0,
            old(self).permits() + releases <= i64::MAX,
        ensures
            final(self).wf(),
            final(self).permits() == old(self).permits() + releases,
            r == signal_target(old(self).inner().queue()),
            final(self).inner().queue() == signalled(old(self).inner().queue()),
            final(self).inner().fair() == old(self).inner().fair(),
    {
        self.lock.release(0, releases)
    }

    pub fn is_fair(&self) -> (r: bool)
        ensures
            r == self.inner().fair(),
    {
        self.lock.is_fair()
    }

    pub fn available(&self) -> (r: i64)
        requires
            self.wf(),
        ensures
            r == self.permits(),
            r >= 0,
    {
        self.lock.current_state()
    }
}

/// Taking `n` permits and giving `n` back restores the count, and a
/// semaphore's count is never negative.
pub proof fn lemma_permits_round_trip(s: &Semaphore, n: int)
    requires
        s.wf(),
        n > 0,
        acquirable(Policy::Permits, s.permits(), None, 0, n),
    ensures
        0 <= acquired_state(Policy::Permits, s.permits(), n) <= s.permits(),
        released_state(Policy::Permits, acquired_state(Policy::Permits, s.permits(), n), n)
            == s.permits(),
        s.permits() >= 0,
{
}


/// The permits left after taking each amount of `ns` in turn from `p`.
pub open spec fn take_all(p: int, ns: Seq<int>) -> int
    decreases ns.len(),
{
    if ns.len() == 0 {
        p
    } else {
        take_all(acquired_state(Policy::Permits, p, ns[0]), ns.drop_first())
    }
}

/// The permits after giving back each amount of `ns` in turn to `p`.
pub open spec fn give_all(p: int, ns: Seq<int>) -> int
    decreases ns.len(),
{
    if ns.len() == 0 {
        p
    } else {
        give_all(released_state(Policy::Permits, p, ns[0]), ns.drop_first())
    }
}

/// The sum of `ns`.
pub open spec fn total(ns: Seq<int>) -> int
    decreases ns.len(),
{
    if ns.len() == 0 {
        0
    } else {
        ns[0] + total(ns.drop_first())
    }
}

proof fn lemma_take_give(p: int, ns: Seq<int>)
    ensures
        take_all(p, ns) == p - total(ns),
        give_all(p, ns) == p + total(ns),
    decreases ns.len(),
{
    if ns.len() > 0 {
        lemma_take_give(p - ns[0], ns.drop_first());
        lemma_take_give(p + ns[0], ns.drop_first());
    }
}

proof fn lemma_total_prefix(ns: Seq<int>, k: int)
    requires
        0 <= k <= ns.len(),
        forall|i: int| 0 <= i < ns.len() ==> ns[i] > 0,
    ensures
        0 <= total(ns.take(k)) <= total(ns),
    decreases ns.len(),
{
    if ns.len() > 0 {
        lemma_total_prefix(ns.drop_first(), if k > 0 { k - 1 } else { 0 });
        if k > 0 {
            assert(ns.take(k).drop_first() =~= ns.drop_first().take(k - 1));
        } else {
            assert(ns.take(k) =~= Seq::<int>::empty());
            lemma_total_prefix(ns.drop_first(), 0);
            assert(ns.drop_first().take(0) =~= Seq::<int>::empty());
        }
    }
}

/// Taking permits in positive amounts that add up to no more than `max`,
/// from a semaphore holding `max`, keeps the count between 0 and `max`
/// after every acquisition; giving the same amounts back restores `max`.
pub proof fn lemma_permits_bounded(max: int, ns: Seq<int>)
    requires
        max >= 0,
        forall|i: int| 0 <= i < ns.len() ==> ns[i] > 0,
        total(ns) <= max,
    ensures
        forall|k: int|
            0 <= k <= ns.len() ==> 0 <= #[trigger] take_all(max, ns.take(k)) <= max,
        give_all(take_all(max, ns), ns) == max,
{
    assert forall|k: int| 0 <= k <= ns.len() implies 0 <= #[trigger] take_all(max, ns.take(k))
        <= max by {
        lemma_take_give(max, ns.take(k));
        lemma_total_prefix(ns, k);
    }
    lemma_take_give(max, ns);
    lemma_take_give(max - total(ns), ns);
}

/// Reentrant mutual-exclusion lock: a `QueuedLock` whose state is the
/// owner's hold depth.
pub struct ReentrantLock {
    lock: QueuedLock,
}

impl ReentrantLock {
    pub closed spec fn inner(&self) -> QueuedLock {
        self.lock
    }

    /// The thread holding the lock.
    pub open spec fn holder(&self) -> Option<u64> {
        self.inner().holder()
    }

    /// How many times the holder has acquired the lock without releasing.
    pub open spec fn depth(&self) -> int {
        self.inner().state()
    }

    pub open spec fn wf(&self) -> bool {
        &&& self.inner().wf()
        &&& self.inner().policy() == Policy::Exclusive
    }

    /// An unlocked lock; a fair one lets no newcomer ahead of queued
    /// waiters.
    pub fn new(fair: bool) -> (r: Self)
        ensures
            r.wf(),
            r.holder() is None,
            r.depth() == 0,
            r.inner().fair() == fair,
            r.inner().queue().len() == 0,
    {
        ReentrantLock { lock: QueuedLock::new(Policy::Exclusive, 0, fair) }
    }

    /// An attempt by thread `id` to take the lock.
    pub fn attempt(&self, id: u64) -> (r: Attempt)
        ensures
            r.id() == id,
            r.amount() == 1,
            !r.shared(),
            !r.queued(),
    {
        Attempt::new(id, 1, false)
    }

    /// One step of taking the lock for `at`; see `QueuedLock::acquire_step`.
    /// Without a deadline the attempt never times out.
    pub fn lock(&mut self, at: &mut Attempt) -> (r: Step)
        requires
            old(self).wf(),
            old(at).queued() == old(self).inner().is_queued(old(at).id()),
        ensures
            final(self).wf(),
            final(at).queued() == final(self).inner().is_queued(final(at).id()),
            final(at).id() == old(at).id(),
            acquire_step_spec(old(self).inner(), *old(at), false, final(self).inner(), *final(at), r),
            r != Step::TimedOut,
            final(self).inner().fair() == old(self).inner().fair(),
            ({
                let reenters = old(self).holder() == Some(old(at).id()) && old(self).depth()
                    < i64::MAX && !old(at).queued();
                reenters ==> r == Step::Acquired(None) && final(self).depth() == old(self).depth()
                    + 1 && final(self).holder() == old(self).holder()
            }),
    {
        self.lock.acquire_step(at, false)
    }

    /// Takes the lock for `id` if it is free or already held by `id`,
    /// whatever the queue holds.
    pub fn try_lock(&mut self, id: u64) -> (r: bool)
        requires
            old(self).wf(),
        ensures
            final(self).wf(),
            r == (old(self).holder() is None || (old(self).holder() == Some(id) && old(self).depth()
                < i64::MAX)),
            r ==> final(self).holder() == Some(id) && final(self).depth() == old(self).depth() + 1,
            !r ==> final(self).holder() == old(self).holder() && final(self).depth() == old(
                self,
            ).depth(),
            final(self).inner().queue() == old(self).inner().queue(),
            final(self).inner().fair() == old(self).inner().fair(),
    {
        self.lock.try_acquire(id, 1)
    }

    /// Whether `id` holds the lock.
    pub fn held_by(&self, id: u64) -> (r: bool)
        ensures
            r == (self.holder() == Some(id)),
    {
        self.lock.owner_is(id)
    }

    /// Releases one level of the hold of `id`. At depth 0 the lock is free
    /// and the first waiter, if it announced parking, is woken and named.
    pub fn unlock(&mut self, id: u64) -> (r: Option<u64>)
        requires
            old(self).wf(),
            old(self).holder() == Some(id),
        ensures
            final(self).wf(),
            final(self).depth() == old(self).depth() - 1,
            final(self).holder() == if final(self).depth() == 0 {
                None
            } else {
                Some(id)
            },
            final(self).inner().fair() == old(self).inner().fair(),
            if final(self).depth() == 0 {
                &&& r == signal_target(old(self).inner().queue())
                &&& final(self).inner().queue() == signalled(old(self).inner().queue())
            } else {
                &&& r is None
                &&& final(self).inner().queue() == old(self).inner().queue()
            },
    {
        self.lock.release(id, 1)
    }
}

/// While one thread holds a reentrant lock, no other thread's attempt can
/// take it: the policy refuses every other identity until the depth is 0.
pub proof fn lemma_mutual_exclusion(l: &ReentrantLock, other: u64, amount: int)
    requires
        l.wf(),
        l.holder() is Some,
        l.holder() != Some(other),
    ensures
        !acquirable(Policy::Exclusive, l.depth(), l.holder(), other, amount),
{
}

/// What a thread registered on a latch must do next.
#[derive(PartialEq, Eq, Structural, Clone, Copy)]
pub enum WaitStep {
    /// The latch is open: go on.
    Open,
    /// Park until woken or until the deadline, then step again.
    Park,
    /// The deadline passed first; the waiter has been withdrawn.
    TimedOut,
}

/// Holds of every waiter but `id`.
pub open spec fn other_than(id: u64) -> spec_fn(u64) -> bool {
    |w: u64| w != id
}

/// Countdown latch: waiters block until the count reaches 0; the count-down
/// that reaches it releases all of them at once.
pub struct CountDownLatch {
    count: u32,
    waiters: Vec<u64>,
}

impl CountDownLatch {
    pub closed spec fn count(&self) -> nat {
        self.count as nat
    }

    /// The waiters blocked on the latch, in arrival order.
    pub closed spec fn waiting(&self) -> Seq<u64> {
        self.waiters@
    }

    pub open spec fn wf(&self) -> bool {
        self.count() == 0 ==> self.waiting().len() == 0
    }

    /// A latch that opens after `count` count-downs; `None` when `count` is
    /// 0.
    pub fn new(count: u32) -> (r: Option<Self>)
        ensures
            r is None <==> count == 0,
            r matches Some(l) ==> l.wf() && l.count() == count && l.waiting().len() == 0,
    {
        if count == 0 {
            None
        } else {
            Some(CountDownLatch { count, waiters: Vec::new() })
        }
    }

    /// Registers waiter `id`: `true` when it must park, `false` when the
    /// latch is already open.
    pub fn wait(&mut self, id: u64) -> (park: bool)
        requires
            old(self).wf(),
        ensures
            final(self).wf(),
            park == (old(self).count() > 0),
            final(self).count() == old(self).count(),
            final(self).waiting() == if park {
                old(self).waiting().push(id)
            } else {
                old(self).waiting()
            },
    {
        if self.count == 0 {
            false
        } else {
            self.waiters.push(id);
            true
        }
    }

    /// Withdraws waiter `id`, whose deadline passed, so that the
    /// count-down that opens the latch does not hand it out.
    pub fn leave(&mut self, id: u64)
        requires
            old(self).wf(),
        ensures
            final(self).wf(),
            final(self).count() == old(self).count(),
            final(self).waiting() == old(self).waiting().filter(other_than(id)),
    {
        let ghost ws = self.waiters@;
        let mut kept: Vec<u64> = Vec::new();
        let mut i: usize = 0;
        while i < self.waiters.len()
            invariant
                ws == self.waiters@,
                i <= ws.len(),
                kept@ == ws.take(i as int).filter(other_than(id)),
            decreases ws.len() - i,
        {
            let w = self.waiters[i];
            let ghost before = kept@;
            if w != id {
                kept.push(w);
            }
            proof {
                let next = ws.take(i as int + 1);
                reveal_with_fuel(Seq::filter, 1);
                assert(next.len() == i + 1);
                assert(next.drop_last() =~= ws.take(i as int));
                assert(next.last() == w);
                assert(next.filter(other_than(id)) == if other_than(id)(w) {
                    before.push(w)
                } else {
                    before
                });
            }
            i = i + 1;
        }
        proof {
            assert(ws.take(ws.len() as int) =~= ws);
            ws.lemma_filter_len(other_than(id));
        }
        self.waiters = kept;
    }

    /// One step of waiter `id`, registered by `wait`, each time it wakes:
    /// an open latch lets it go; otherwise, once `expired`, it is withdrawn
    /// and times out, and before that it parks again.
    pub fn wait_step(&mut self, id: u64, expired: bool) -> (r: WaitStep)
        requires
            old(self).wf(),
        ensures
            final(self).wf(),
            final(self).count() == old(self).count(),
            old(self).count() == 0 ==> r == WaitStep::Open && final(self).waiting()
                == old(self).waiting(),
            old(self).count() > 0 && expired ==> r == WaitStep::TimedOut && final(self).waiting()
                == old(self).waiting().filter(other_than(id)),
            old(self).count() > 0 && !expired ==> r == WaitStep::Park && final(self).waiting()
                == old(self).waiting(),
    {
        if self.count == 0 {
            WaitStep::Open
        } else if expired {
            self.leave(id);
            WaitStep::TimedOut
        } else {
            WaitStep::Park
        }
    }

    /// Counts down once, unless the latch is open. The count-down that
    /// reaches 0 returns every waiter, to be unparked; any other returns
    /// none.
    pub fn countdown(&mut self) -> (woken: Vec<u64>)
        requires
            old(self).wf(),
        ensures
            final(self).wf(),
            final(self).count() == if old(self).count() == 0 {
                0
            } else {
                (old(self).count() - 1) as nat
            },
            old(self).count() == 1 ==> woken@ == old(self).waiting() && final(self).waiting().len()
                == 0,
            old(self).count() != 1 ==> woken@.len() == 0 && final(self).waiting() == old(
                self,
            ).waiting(),
    {
        if self.count == 0 {
            return Vec::new();
        }
        self.count = self.count - 1;
        if self.count == 0 {
            self.signal_all()
        } else {
            Vec::new()
        }
    }

    fn signal_all(&mut self) -> (woken: Vec<u64>)
        ensures
            woken@ == old(self).waiting(),
            final(self).waiting().len() == 0,
            final(self).count() == old(self).count(),
    {
        let mut woken: Vec<u64> = Vec::new();
        std::mem::swap(&mut woken, &mut self.waiters);
        woken
    }

    pub fn get_count(&self) -> (r: u32)
        ensures
            r == self.count(),
    {
        self.count
    }
}

} // verus!
