//! The memory budget shared by every structure of the rewriter that grows with
//! the input.

use vstd::prelude::*;
use crate::errors::MemoryLimitExceededError;

verus! {

/// A counter of tracked bytes with a ceiling.
///
/// The counter never passes the ceiling: an increase that would is refused and
/// leaves the counter as it was.
pub struct MemoryLimiter {
    current_usage: usize,
    max: usize,
}

impl MemoryLimiter {
    #[verifier::type_invariant]
    spec fn within_limit(self) -> bool {
        self.current_usage <= self.max
    }

    /// The number of bytes tracked at present.
    pub closed spec fn usage(&self) -> nat {
        if self.current_usage <= self.max {
            self.current_usage as nat
        } else {
            self.max as nat
        }
    }

    /// No more is tracked than the ceiling allows, and the ceiling is a
    /// number of bytes that the machine can count.
    pub proof fn lemma_within_limit(&self)
        ensures
            self.usage() <= self.limit(),
            self.limit() <= usize::MAX,
    {
    }

    /// The ceiling.
    pub closed spec fn limit(&self) -> nat {
        self.max as nat
    }

    /// A limiter with nothing tracked and the ceiling `max`.
    pub fn new(max: usize) -> (r: MemoryLimiter)
        ensures
            r.usage() == 0,
            r.limit() == max,
    {
        MemoryLimiter { current_usage: 0, max }
    }

    /// The number of bytes tracked at present.
    pub fn current_usage(&self) -> (r: usize)
        ensures
            r == self.usage(),
            r <= self.limit(),
    {
        proof {
            use_type_invariant(self);
        }
        self.current_usage
    }

    /// The ceiling.
    pub fn max_allowed(&self) -> (r: usize)
        ensures
            r == self.limit(),
    {
        self.max
    }

    /// Tracks `byte_count` more bytes, or fails and changes nothing if that would
    /// pass the ceiling.
    pub fn increase_usage(&mut self, byte_count: usize) -> (r: Result<(), MemoryLimitExceededError>)
        ensures
            final(self).limit() == old(self).limit(),
            r is Ok <==> old(self).usage() + byte_count <= old(self).limit(),
            r is Ok ==> final(self).usage() == old(self).usage() + byte_count,
            r is Err ==> final(self).usage() == old(self).usage(),
    {
        proof {
            use_type_invariant(&*self);
        }
        if byte_count <= self.max - self.current_usage {
            self.current_usage = self.current_usage + byte_count;
            Ok(())
        } else {
            Err(MemoryLimitExceededError)
        }
    }

    /// Stops tracking `byte_count` bytes that were tracked before.
    pub fn decrease_usage(&mut self, byte_count: usize)
        requires
            byte_count <= old(self).usage(),
        ensures
            final(self).limit() == old(self).limit(),
            final(self).usage() == old(self).usage() - byte_count,
    {
        proof {
            use_type_invariant(&*self);
        }
        self.current_usage = self.current_usage - byte_count;
    }
}

} // verus!
