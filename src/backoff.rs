use vstd::prelude::*;

verus! {

/// Number of backoff rounds after which a waiter should stop spinning.
pub const STEP_LIMIT: u32 = 6;

/// Number of spin-loop hints issued in a backoff round taken at `step`.
pub open spec fn spin_count(step: nat) -> nat {
    let s = if step < STEP_LIMIT as nat { step } else { STEP_LIMIT as nat };
    s * s
}

/// Relies on std::hint::spin_loop: a processor hint that changes no program state.
#[verifier::external_body]
fn spin_hint() {
    std::hint::spin_loop()
}

/// Adaptive spin helper used before parking: each round spins for the
/// square of the round number (capped at `STEP_LIMIT`) iterations.
pub struct Backoff {
    step: u32,
}

impl Backoff {
    /// The number of rounds taken so far (saturating at `u32::MAX`).
    pub closed spec fn step(&self) -> nat {
        self.step as nat
    }

    pub fn new() -> (r: Self)
        ensures
            r.step() == 0,
    {
        Backoff { step: 0 }
    }

    fn spin(count: u32) {
        let mut i: u32 = 0;
        while i < count
            invariant
                i <= count,
            decreases count - i,
        {
            spin_hint();
            i = i + 1;
        }
    }

    fn current_spins(&self) -> (r: u32)
        ensures
            r as nat == spin_count(self.step()),
    {
        let s: u32 = if self.step < STEP_LIMIT { self.step } else { STEP_LIMIT };
        assert(s * s <= 36) by (nonlinear_arith)
            requires
                s <= 6,
        ;
        s * s
    }

    /// Spins for `spin_count(step)` hints and advances the round; returns
    /// the number of hints issued.
    pub fn spin_light(&mut self) -> (r: u32)
        ensures
            r as nat == spin_count(old(self).step()),
            final(self).step() == if old(self).step() < u32::MAX as nat {
                old(self).step() + 1
            } else {
                old(self).step()
            },
    {
        let n = self.current_spins();
        Self::spin(n);
        self.step = self.step.saturating_add(1);
        n
    }

    /// Like `spin_light` while the round is within `STEP_LIMIT`; past it no
    /// spinning is done and `true` asks the caller to yield its time slice.
    pub fn spin_heavy(&mut self) -> (yield_now: bool)
        ensures
            yield_now == (old(self).step() > STEP_LIMIT as nat),
            final(self).step() == if old(self).step() < u32::MAX as nat {
                old(self).step() + 1
            } else {
                old(self).step()
            },
    {
        let yield_now = self.step > STEP_LIMIT;
        if !yield_now {
            let n = self.current_spins();
            Self::spin(n);
        }
        self.step = self.step.saturating_add(1);
        yield_now
    }

    /// Whether the spinning phase is over.
    pub fn is_complete(&self) -> (r: bool)
        ensures
            r == (self.step() > STEP_LIMIT as nat),
    {
        self.step > STEP_LIMIT
    }
}

} // verus!
