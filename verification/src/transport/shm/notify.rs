//! Waiting for a word of shared memory to change.

use crate::platform::subscription;
use vstd::prelude::*;

verus! {

/// How often a waiting thread looks at the word while it spins.
pub const SPIN_TURNS: u32 = 100;

/// How often it looks at the word while it lets other threads run.
pub const YIELD_TURNS: u32 = 10;

/// The longest that it sleeps before it looks again, in microseconds.
pub const MAX_PARK_US: u64 = 10000;

/// What a waiting thread is to do next.
#[derive(Debug, Clone, Copy, PartialEq, Eq, Structural)]
pub enum WaitAction {
    /// The word has changed to this value: the wait is over.
    Changed(u32),
    /// Spin for a moment.
    Spin,
    /// Let other threads run.
    Yield,
    /// Sleep until the word changes, for a while at most.
    Park,
    /// Time is up: the wait is over.
    TimedOut,
}

/// The wait for a word to change.
#[derive(Debug, Clone, Copy, PartialEq, Eq)]
pub struct WordWait {
    /// How often the thread has looked at the word.
    pub turn: u32,
}

/// What a thread does that has looked at the word `turn` times before.
pub open spec fn wait_action(turn: u32, value: u32, current: u32, expired: bool) -> WaitAction {
    if value != current {
        WaitAction::Changed(value)
    } else if turn < SPIN_TURNS {
        WaitAction::Spin
    } else if turn < SPIN_TURNS + YIELD_TURNS {
        WaitAction::Yield
    } else if expired {
        WaitAction::TimedOut
    } else {
        WaitAction::Park
    }
}

impl WordWait {
    /// A wait that has not begun.
    pub fn new() -> (r: WordWait)
        ensures
            r.turn == 0,
    {
        WordWait { turn: 0 }
    }

    /// Whether the thread is past spinning and yielding, so that time counts.
    pub fn is_parking(&self) -> (r: bool)
        ensures
            r == (self.turn >= SPIN_TURNS + YIELD_TURNS),
    {
        self.turn >= SPIN_TURNS + YIELD_TURNS
    }

    /// Decides what to do, given the value of the word now, the value that it
    /// had, and whether time is up.
    pub fn step(&mut self, value: u32, current: u32, expired: bool) -> (r: WaitAction)
        ensures
            r == wait_action(old(self).turn, value, current, expired),
            final(self).turn == (if r is Spin || r is Yield {
                (old(self).turn + 1) as u32
            } else {
                old(self).turn
            }),
    {
        if value != current {
            return WaitAction::Changed(value);
        }
        if self.turn < SPIN_TURNS {
            self.turn = self.turn + 1;
            return WaitAction::Spin;
        }
        if self.turn < SPIN_TURNS + YIELD_TURNS {
            self.turn = self.turn + 1;
            return WaitAction::Yield;
        }
        if expired {
            return WaitAction::TimedOut;
        }
        WaitAction::Park
    }
}

/// How long a thread sleeps at most, in microseconds.
pub fn park_time(timeout: u64) -> (r: u64)
    ensures
        r == (if timeout < MAX_PARK_US {
            timeout
        } else {
            MAX_PARK_US
        }),
{
    if timeout < MAX_PARK_US {
        timeout
    } else {
        MAX_PARK_US
    }
}

/// How long a subscriber waits for a sample before it checks that the publisher
/// is alive, in milliseconds.
pub fn poll_time(stale_timeout_us: u64) -> (r: u64)
    ensures
        r == subscription::poll_interval(stale_timeout_us),
{
    let third: u64 = stale_timeout_us / 1000 / 3;
    if third < 1 {
        1
    } else if third > 50 {
        50
    } else {
        third
    }
}

/// A change of the word ends a wait at once, in whatever turn; and a wait
/// times out only where the word has not changed.
pub proof fn law_change_ends_the_wait(turn: u32, value: u32, current: u32, expired: bool)
    ensures
        value != current <==> wait_action(turn, value, current, expired) == WaitAction::Changed(
            value,
        ),
        wait_action(turn, value, current, expired) == WaitAction::TimedOut ==> value == current
            && expired,
{
}

} // verus!
