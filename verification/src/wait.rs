//! Wait strategies for blocking receive operations.

use vstd::prelude::*;

verus! {

/// How a subscriber waits when no new sample is available.
#[derive(Debug, Clone, Copy, PartialEq, Eq, Structural)]
pub enum WaitStrategy {
    /// Pure busy-spin, without any hint to the processor.
    BusySpin,
    /// One spin hint per iteration.
    YieldSpin,
    /// Exponentially more spin hints per iteration, up to 64.
    BackoffSpin,
    /// Three phases: bare spin, then yield, then sleep. Default.
    Adaptive {
        /// Bare-spin iterations before the yield phase.
        spin_iters: u32,
        /// Yield iterations before the sleep phase.
        yield_iters: u32,
    },
}

impl Default for WaitStrategy {
    fn default() -> (r: WaitStrategy)
        ensures
            r == (WaitStrategy::Adaptive { spin_iters: 100, yield_iters: 10 }),
    {
        WaitStrategy::Adaptive { spin_iters: 100, yield_iters: 10 }
    }
}

/// The sum of two numbers, capped at the largest one there is.
pub open spec fn capped_sum(a: u32, b: u32) -> u32 {
    if a + b > u32::MAX {
        u32::MAX
    } else {
        (a + b) as u32
    }
}

/// Two to the power of `n`.
pub open spec fn doubled(n: nat) -> nat
    decreases n,
{
    if n == 0 {
        1
    } else {
        2 * doubled((n - 1) as nat)
    }
}

/// How many spin hints one iteration issues.
pub open spec fn hints_of(strategy: WaitStrategy, iter: u32) -> u32 {
    match strategy {
        WaitStrategy::BusySpin => 0,
        WaitStrategy::YieldSpin => 1,
        WaitStrategy::BackoffSpin => doubled(if iter < 6 { iter as nat } else { 6 }) as u32,
        WaitStrategy::Adaptive { spin_iters, yield_iters } => if iter < spin_iters {
            0
        } else if iter < capped_sum(spin_iters, yield_iters) {
            1
        } else {
            0
        },
    }
}

/// `core::hint::spin_loop` tells the processor that the caller is spinning. It
/// has no effect on any value.
#[verifier::external_body]
fn yield_hint() {
    core::hint::spin_loop();
}

/// Issues a number of spin hints.
pub(crate) fn spin(n: u32) {
    let mut i: u32 = 0;
    while i < n
        invariant
            i <= n,
        decreases n - i,
    {
        yield_hint();
        i = i + 1;
    }
}

impl WaitStrategy {
    /// How many spin hints the given iteration issues.
    pub fn hints(&self, iter: u32) -> (r: u32)
        ensures
            r == hints_of(*self, iter),
    {
        match *self {
            WaitStrategy::BusySpin => 0,
            WaitStrategy::YieldSpin => 1,
            WaitStrategy::BackoffSpin => {
                let mut n: u32 = 1;
                let mut i: u32 = 0;
                while i < iter && i < 6
                    invariant
                        i <= 6,
                        i <= iter,
                        n == doubled(i as nat),
                        n <= 64,
                        i == 0 ==> n == 1,
                        i == 1 ==> n == 2,
                        i == 2 ==> n == 4,
                        i == 3 ==> n == 8,
                        i == 4 ==> n == 16,
                        i == 5 ==> n == 32,
                    decreases 6 - i,
                {
                    n = n * 2;
                    i = i + 1;
                }
                n
            },
            WaitStrategy::Adaptive { spin_iters, yield_iters } => {
                if iter < spin_iters {
                    0
                } else if iter < spin_iters.saturating_add(yield_iters) {
                    1
                } else {
                    0
                }
            },
        }
    }

    /// Executes one wait iteration: issues its spin hints, and says how many
    /// they were.
    pub fn wait(&self, iter: u32) -> (r: u32)
        ensures
            r == hints_of(*self, iter),
    {
        let n: u32 = self.hints(iter);
        spin(n);
        n
    }
}

/// No iteration issues more than 64 hints, and none that comes after the
/// spinning and yielding of an adaptive strategy issues any.
pub proof fn law_hints_are_bounded(strategy: WaitStrategy, iter: u32)
    ensures
        hints_of(strategy, iter) <= 64,
        strategy matches WaitStrategy::Adaptive { spin_iters, yield_iters } ==> iter >= capped_sum(
            spin_iters,
            yield_iters,
        ) ==> hints_of(strategy, iter) == 0,
{
    reveal_with_fuel(doubled, 7);
}

} // verus!
