use multi_thread::{Attempt, CountDownLatch, ReentrantLock, Semaphore, Step, WaitStep};

#[test]
fn semaphore_block() {
    let mut sem = Semaphore::new(2, false);
    let mut first = sem.attempt(1, 2);
    assert!(sem.acquire(&mut first, false) == Step::Acquired(None));
    assert_eq!(sem.available(), 0);
    // No permit left: the second attempt queues, announces parking, parks.
    let mut second = sem.attempt(2, 1);
    assert!(sem.acquire(&mut second, false) == Step::Retry);
    assert!(sem.acquire(&mut second, false) == Step::Retry);
    assert!(sem.acquire(&mut second, false) == Step::Park);
    // Woken without a release, it spins the step granted to it and parks again.
    assert!(sem.acquire(&mut second, false) == Step::Retry);
    assert!(sem.acquire(&mut second, false) == Step::Park);
    // The release names the parked waiter, which then acquires.
    assert_eq!(sem.release(2), Some(2));
    assert!(sem.acquire(&mut second, false) == Step::Acquired(None));
    assert_eq!(sem.available(), 1);
}

#[test]
fn semaphore_round_trip_restores_permits() {
    let mut sem = Semaphore::new(16, false);
    let before = sem.available();
    let mut at = sem.attempt(7, 4);
    assert!(sem.acquire(&mut at, false) == Step::Acquired(None));
    assert_eq!(sem.available(), 12);
    assert_eq!(sem.release(4), None);
    assert_eq!(sem.available(), before);
}

#[test]
fn semaphore_never_negative_under_many_attempts() {
    let mut sem = Semaphore::new(16, false);
    let mut attempts: Vec<Attempt> = (0..16u64).map(|i| sem.attempt(i, 4)).collect();
    let mut acquired = 0;
    for at in attempts.iter_mut() {
        for _ in 0..4 {
            match sem.acquire(at, false) {
                Step::Acquired(_) => {
                    acquired += 1;
                    break;
                }
                Step::Park => break,
                _ => {}
            }
            assert!(sem.available() >= 0);
        }
    }
    assert_eq!(acquired, 4);
    assert_eq!(sem.available(), 0);
}

#[test]
fn semaphore_fair_refuses_newcomer_while_others_wait() {
    let mut sem = Semaphore::new(1, true);
    let mut a = sem.attempt(1, 1);
    assert!(sem.acquire(&mut a, false) == Step::Acquired(None));
    let mut b = sem.attempt(2, 1);
    assert!(sem.acquire(&mut b, false) == Step::Retry);
    assert_eq!(sem.release(1), None);
    // A newcomer may not barge ahead of the queued waiter.
    let mut c = sem.attempt(3, 1);
    assert!(sem.acquire(&mut c, false) == Step::Retry);
    assert_eq!(sem.available(), 1);
    assert!(sem.acquire(&mut b, false) == Step::Acquired(None));
    assert_eq!(sem.available(), 0);
}

#[test]
fn semaphore_shared_acquire_passes_wakeup_on() {
    let mut sem = Semaphore::new(1, false);
    let mut a = sem.attempt(1, 1);
    assert!(sem.acquire(&mut a, false) == Step::Acquired(None));
    let mut b = sem.attempt(2, 1);
    let mut c = sem.attempt(3, 1);
    for _ in 0..3 {
        sem.acquire(&mut b, false);
    }
    for _ in 0..3 {
        sem.acquire(&mut c, false);
    }
    assert_eq!(sem.release(1), Some(2));
    assert_eq!(sem.release(1), None);
    // The waiter acquiring from the queue wakes the next parked one.
    assert!(sem.acquire(&mut b, false) == Step::Acquired(Some(3)));
    assert!(sem.acquire(&mut c, false) == Step::Acquired(None));
}

#[test]
fn semaphore_times_out_past_deadline() {
    let mut sem = Semaphore::new(1, false);
    let mut a = sem.attempt(1, 1);
    assert!(sem.acquire(&mut a, false) == Step::Acquired(None));
    let mut b = sem.attempt(2, 1);
    assert!(sem.acquire(&mut b, true) == Step::Retry);
    assert!(sem.acquire(&mut b, true) == Step::Retry);
    assert!(sem.acquire(&mut b, true) == Step::TimedOut);
    // The attempt left the queue: a release wakes nobody.
    assert_eq!(sem.release(1), None);
    assert_eq!(sem.available(), 1);
}

#[test]
fn reentrant_lock_reentry_and_exclusion() {
    let mut lock = ReentrantLock::new(false);
    assert!(lock.try_lock(1));
    assert!(lock.try_lock(1));
    assert!(!lock.try_lock(2));
    assert_eq!(lock.unlock(1), None);
    assert!(!lock.try_lock(2));
    assert_eq!(lock.unlock(1), None);
    assert!(lock.try_lock(2));
}

#[test]
fn reentrant_lock_unlock_wakes_parked_waiter() {
    let mut lock = ReentrantLock::new(true);
    assert!(lock.try_lock(1));
    let mut at = lock.attempt(2);
    assert!(lock.lock(&mut at) == Step::Retry);
    assert!(lock.lock(&mut at) == Step::Retry);
    assert!(lock.lock(&mut at) == Step::Park);
    assert_eq!(lock.unlock(1), Some(2));
    assert!(lock.lock(&mut at) == Step::Acquired(None));
    assert!(!lock.try_lock(1));
}

#[test]
fn reentrant_lock_mutual_exclusion_counter() {
    let threads = 50usize;
    let cycles = 1000u32;
    let mut lock = ReentrantLock::new(false);
    let mut attempts: Vec<Option<Attempt>> = (0..threads).map(|_| None).collect();
    let mut parked = vec![false; threads];
    let mut holding = vec![false; threads];
    let mut done = vec![0u32; threads];
    let mut inside: Option<usize> = None;
    let mut counter: u64 = 0;
    loop {
        let mut progressed = false;
        for t in 0..threads {
            if done[t] == cycles || parked[t] {
                continue;
            }
            progressed = true;
            if holding[t] {
                // Leave the critical section.
                counter += 1;
                inside = None;
                holding[t] = false;
                done[t] += 1;
                if let Some(w) = lock.unlock(t as u64) {
                    parked[w as usize] = false;
                }
                continue;
            }
            if attempts[t].is_none() {
                attempts[t] = Some(lock.attempt(t as u64));
            }
            let step = lock.lock(attempts[t].as_mut().unwrap());
            match step {
                Step::Acquired(w) => {
                    assert!(inside.is_none());
                    inside = Some(t);
                    holding[t] = true;
                    attempts[t] = None;
                    if let Some(w) = w {
                        parked[w as usize] = false;
                    }
                }
                Step::Park => parked[t] = true,
                Step::Retry => {}
                Step::TimedOut => panic!("no deadline was given"),
            }
        }
        if !progressed {
            break;
        }
    }
    assert_eq!(counter, 50000);
    assert!(done.iter().all(|d| *d == cycles));
}

#[test]
fn latch_rejects_zero_count() {
    assert!(CountDownLatch::new(0).is_none());
    assert!(CountDownLatch::new(1).is_some());
    assert!(CountDownLatch::new(u32::MAX).is_some());
}

#[test]
fn latch_leave_withdraws_a_timed_out_waiter() {
    let mut latch = CountDownLatch::new(1).unwrap();
    assert!(latch.wait(1));
    assert!(latch.wait(2));
    assert!(latch.wait(3));
    latch.leave(2);
    assert_eq!(latch.countdown(), vec![1, 3]);
}

#[test]
fn reentrant_lock_owner_reenters_fair_lock_with_waiters() {
    let mut lock = ReentrantLock::new(true);
    assert!(lock.try_lock(1));
    let mut waiter = lock.attempt(2);
    assert!(lock.lock(&mut waiter) == Step::Retry);
    let mut again = lock.attempt(1);
    assert!(lock.lock(&mut again) == Step::Acquired(None));
    assert_eq!(lock.unlock(1), None);
    assert!(lock.lock(&mut waiter) == Step::Retry);
    assert!(lock.lock(&mut waiter) == Step::Park);
    // Depth 0 only after the second unlock, which wakes the waiter.
    assert_eq!(lock.unlock(1), Some(2));
    assert!(lock.lock(&mut waiter) == Step::Acquired(None));
}

#[test]
fn latch_broadcast_releases_all_waiters() {
    let mut latch = CountDownLatch::new(5).unwrap();
    for id in 0..20u64 {
        assert!(latch.wait(id));
    }
    for _ in 0..4 {
        assert!(latch.countdown().is_empty());
    }
    assert_eq!(latch.get_count(), 1);
    let woken = latch.countdown();
    assert_eq!(woken, (0..20u64).collect::<Vec<u64>>());
    assert_eq!(latch.get_count(), 0);
    assert!(!latch.wait(99));
    assert!(latch.countdown().is_empty());
    assert_eq!(latch.get_count(), 0);
}

#[test]
fn semaphore_matched_acquires_stay_within_bounds() {
    let mut sem = Semaphore::new(16, false);
    let amounts = [4i64, 4, 8];
    let mut seen = Vec::new();
    for (i, n) in amounts.iter().enumerate() {
        let mut at = sem.attempt(i as u64, *n);
        assert!(sem.acquire(&mut at, false) == Step::Acquired(None));
        seen.push(sem.available());
    }
    assert_eq!(seen, vec![12, 8, 0]);
    for n in amounts.iter() {
        sem.release(*n);
        assert!(sem.available() <= 16);
    }
    assert_eq!(sem.available(), 16);
}

#[test]
fn latch_wait_step_parks_times_out_or_opens() {
    let mut latch = CountDownLatch::new(2).unwrap();
    assert!(latch.wait(1));
    assert!(latch.wait(2));
    assert!(latch.wait_step(1, false) == WaitStep::Park);
    assert!(latch.wait_step(1, true) == WaitStep::TimedOut);
    assert!(latch.countdown().is_empty());
    assert_eq!(latch.countdown(), vec![2]);
    assert!(latch.wait_step(2, false) == WaitStep::Open);
    assert!(latch.wait_step(2, true) == WaitStep::Open);
}
