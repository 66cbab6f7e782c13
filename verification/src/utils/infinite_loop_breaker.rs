//! A counter that stops a loop after a fixed number of rounds without
//! progress.

use vstd::prelude::*;

verus! {

/// The error of a loop that used up its rounds.
#[derive(Debug, Clone)]
pub struct InfiniteLoopError;

impl InfiniteLoopError {
    /// The text shown to the user.
    pub fn message(&self) -> (text: String)
        ensures
            text@ == "infinite loop"@,
    {
        "infinite loop".to_owned()
    }
}

/// Allows `count - 1` rounds between two resets and fails the round after.
pub struct InfiniteLoopBreaker {
    count: u64,
    current_count: u64,
}

impl InfiniteLoopBreaker {
    /// The number of rounds the breaker was made for.
    pub closed spec fn budget(&self) -> nat {
        self.count as nat
    }

    /// The number of calls of `it` left, the failing one included.
    pub closed spec fn remaining(&self) -> nat {
        self.current_count as nat
    }

    /// A breaker whose call number `count` of `it` in a row fails.
    pub fn new(count: u64) -> (breaker: Self)
        ensures
            breaker.budget() == count,
            breaker.remaining() == count,
    {
        Self { count, current_count: count }
    }

    /// Starts the count again.
    pub fn reset(&mut self)
        ensures
            final(self).budget() == old(self).budget(),
            final(self).remaining() == old(self).budget(),
    {
        self.current_count = self.count;
    }

    /// Counts one round. Fails when this was the last round allowed; a
    /// breaker that has failed stays failed until it is reset.
    pub fn it(&mut self) -> (round: Result<(), InfiniteLoopError>)
        ensures
            final(self).budget() == old(self).budget(),
            final(self).remaining() == if old(self).remaining() == 0 {
                0
            } else {
                old(self).remaining() - 1
            },
            round is Ok <==> old(self).remaining() > 1,
    {
        self.current_count = self.current_count.saturating_sub(1);
        if self.current_count == 0 {
            return Err(InfiniteLoopError);
        }
        Ok(())
    }
}

} // verus!
